use sand_core::geom::{components4, rect_cover, Rect};

fn mask_from(rows: &[&str]) -> (Vec<bool>, usize, usize) {
    let h = rows.len();
    let w = rows[0].len();
    let mut m = Vec::with_capacity(w * h);
    for r in rows {
        assert_eq!(r.len(), w);
        m.extend(r.bytes().map(|b| b == b'#'));
    }
    (m, w, h)
}

#[test]
fn rect_cover_solid_block_is_one_rect() {
    let (m, w, h) = mask_from(&["###", "###", "###"]);
    assert_eq!(rect_cover(&m, w, h), vec![Rect { x0: 0, y0: 0, x1: 2, y1: 2 }]);
}

#[test]
fn rect_cover_ring_with_hole_covers_exactly_without_overlap() {
    let (m, w, h) = mask_from(&["#####", "#...#", "#...#", "#####"]);
    let rects = rect_cover(&m, w, h);
    let mut cover = vec![0u8; w * h];
    for r in &rects {
        for y in r.y0..=r.y1 {
            for x in r.x0..=r.x1 {
                cover[y as usize * w + x as usize] += 1;
            }
        }
    }
    for i in 0..w * h {
        assert_eq!(cover[i] == 1, m[i], "cell {i}");
        assert!(cover[i] <= 1, "cell {i} overlaps");
    }
    assert_eq!(rects.len(), 4, "{rects:?}");
    assert!(rects.contains(&Rect { x0: 0, y0: 1, x1: 0, y1: 2 }));
    assert!(rects.contains(&Rect { x0: 4, y0: 1, x1: 4, y1: 2 }));
}

#[test]
fn rect_cover_output_is_sorted_and_pure() {
    let (m, w, h) = mask_from(&["#.#.", ".##.", "####"]);
    let a = rect_cover(&m, w, h);
    let b = rect_cover(&m, w, h);
    assert_eq!(a, b);
    let mut sorted = a.clone();
    sorted.sort_by_key(|r| (r.y0, r.x0));
    assert_eq!(a, sorted);
    assert!(a.windows(2).all(|p| (p[0].y0, p[0].x0) <= (p[1].y0, p[1].x0)));
}

#[test]
fn components4_splits_diagonal_touch_and_orders_by_min_index() {
    let (m, w, h) = mask_from(&["##..", "##..", "..##", "..##"]);
    let comps = components4(&m, w, h);
    assert_eq!(comps.len(), 2);
    assert_eq!(comps[0], vec![0, 1, 4, 5]);
    assert_eq!(comps[1], vec![10, 11, 14, 15]);
}

#[test]
fn components4_cut_line_gives_two_pieces() {
    let (w, h) = (24usize, 16usize);
    let mut m = vec![true; w * h];
    for y in 0..h {
        m[y * w + 12] = false;
    }
    let comps = components4(&m, w, h);
    assert_eq!(comps.len(), 2);
    assert_eq!(comps[0].len(), 12 * 16);
    assert_eq!(comps[1].len(), 11 * 16);
    assert!(comps[0].iter().all(|&i| i % w < 12));
}

#[test]
fn components4_empty_mask_is_empty() {
    assert!(components4(&[false; 9], 3, 3).is_empty());
}

#[test]
fn rect_cover_merges_only_identical_runs() {
    // Row 1 widens the run of row 0, so it starts a new rectangle; row 2
    // repeats row 1 and merges into it.
    let (m, w, h) = mask_from(&[".##.", "####", "####", ".#.."]);
    assert_eq!(
        rect_cover(&m, w, h),
        vec![
            Rect { x0: 1, y0: 0, x1: 2, y1: 0 },
            Rect { x0: 0, y0: 1, x1: 3, y1: 2 },
            Rect { x0: 1, y0: 3, x1: 1, y1: 3 },
        ]
    );
    assert!(rect_cover(&[], 0, 0).is_empty());
    assert!(rect_cover(&[false; 6], 3, 2).is_empty());
}

#[test]
fn components4_follows_winding_paths() {
    let (m, w, h) = mask_from(&["#.###", "#.#.#", "###.#", "....#", "##..."]);
    let comps = components4(&m, w, h);
    assert_eq!(comps, vec![vec![0, 2, 3, 4, 5, 7, 9, 10, 11, 12, 14, 19], vec![20, 21]]);
}
