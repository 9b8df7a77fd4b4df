use sand_core::body::{
    any_chunk_dirty, most_common, terrain_chunks, terrain_refresh, sleeper_wakes, top_load_cells, WAKE_TOP_LOAD_CELLS, queue_insert, reconcile_body, sealed_bottom, settled_liquid, surface_line,
    terrain_rects, unstamp, Bodies, Body, NO_SURFACE, SETTLED_VEL_MAX,
};
use sand_core::cell::Cell;
use sand_core::fixed::Fx;
use sand_core::reextract::{debris_spawns, Extracted};
use sand_core::geom::Rect;
use sand_core::material::{Category, MaterialDef, MaterialTable};
use sand_core::world::World;

const WALL: u8 = 1;
const WATER: u8 = 3;
const WOOD: u8 = 4;

fn table() -> MaterialTable {
    let mut wood = MaterialDef::base(WOOD, "wood", Category::Static, 12);
    wood.fire_hp = 50;
    MaterialTable::new(vec![
        MaterialDef::base(0, "air", Category::Static, 0),
        MaterialDef::base(WALL, "wall", Category::Static, 100),
        MaterialDef::base(2, "sand", Category::Powder, 40),
        MaterialDef::base(WATER, "water", Category::Liquid, 16),
        wood,
    ])
    .unwrap()
}

fn world() -> World {
    World::new(2, 2, 1)
}

/// A `bw x bh` wooden body with id `id`, stamped axis-aligned with its
/// top-left pixel at `(x0, y0)`.
fn stamp_rect(w: &mut World, id: u16, x0: i32, y0: i32, bw: u16, bh: u16) -> Body {
    let mut stamped = Vec::new();
    for j in 0..bh as i32 {
        for i in 0..bw as i32 {
            let (x, y) = (x0 + i, y0 + j);
            w.put_cell(x, y, Cell::pack(WOOD, 0).with_body(true));
            stamped.push((x, y, (j * bw as i32 + i) as u32));
        }
    }
    let n = bw as usize * bh as usize;
    Body {
        id,
        material: WOOD,
        w: bw,
        h: bh,
        mask: vec![true; n],
        counter: vec![0; n],
        stamped,
        dirty: false,
        last_h: NO_SURFACE,
    }
}

/// The cell box an axis-aligned body at `(x0, y0)` of size `bw x bh` reports:
/// its corners rounded out and grown by one cell.
fn bbox(x0: i32, y0: i32, bw: i32, bh: i32) -> (i32, i32, i32, i32) {
    (x0 - 1, y0 - 1, x0 + bw + 1, y0 + bh + 1)
}

fn seal(w: &mut World) {
    for c in w.chunks.iter_mut() {
        c.dirty = c.next_dirty.take();
    }
}

#[test]
fn terrain_mask_excludes_body_and_passable() {
    let t = table();
    let mut w = world();
    w.set_cell_stamped(&t, 5, 5, WALL, 0);
    w.set_cell_stamped(&t, 6, 5, WATER, 0);
    stamp_rect(&mut w, 0, 20, 20, 8, 4);
    let rects = terrain_rects(&w, &t, 0, 0);
    assert_eq!(rects, vec![Rect { x0: 5, y0: 5, x1: 5, y1: 5 }], "only the wall is hard: {rects:?}");
}

#[test]
fn terrain_rects_are_in_world_coordinates() {
    let t = table();
    let mut w = world();
    for x in 70..73 {
        w.set_cell_stamped(&t, x, 100, WALL, 0);
    }
    assert_eq!(terrain_rects(&w, &t, 1, 1), vec![Rect { x0: 70, y0: 100, x1: 72, y1: 100 }]);
    assert!(terrain_rects(&w, &t, 0, 0).is_empty());
}

#[test]
fn surface_line_and_submerged_count() {
    let t = table();
    let mut w = world();
    for y in 40..60 {
        w.set_cell_stamped(&t, 19, y, WATER, 0);
    }
    for y in 42..60 {
        w.set_cell_stamped(&t, 28, y, WATER, 0);
    }
    let b = stamp_rect(&mut w, 0, 20, 40, 8, 4);
    let (h, rho, _) = surface_line(&w, &t, &b, bbox(20, 40, 8, 4)).unwrap();
    assert_eq!(h, 42, "columns at 40 and 42: the lowest is 42");
    assert_eq!(rho, 16);
    let sub = b.stamped.iter().filter(|&&(_, y, _)| y >= 42).count();
    assert_eq!(sub, 8 * 2, "the pixels at y >= 42 are the lower two rows");
}

#[test]
fn surface_line_requires_side_contact() {
    let t = table();
    let mut w = world();
    let b = stamp_rect(&mut w, 0, 20, 40, 8, 4);
    let bb = bbox(20, 40, 8, 4);
    for y in 30..60 {
        w.set_cell_stamped(&t, 28, y, WALL, 0);
        w.set_cell_stamped(&t, 29, y, WATER, 0);
    }
    assert!(surface_line(&w, &t, &b, bb).is_none(), "water behind a wall is no water line");
    for x in 20..28 {
        w.set_cell_stamped(&t, x, 39, WATER, 0);
        w.set_cell_stamped(&t, x, 44, WATER, 0);
    }
    assert!(surface_line(&w, &t, &b, bb).is_none(), "water above or below is no water line");
    for y in 40..60 {
        w.set_cell_stamped(&t, 19, y, WATER, 0);
    }
    assert_eq!(surface_line(&w, &t, &b, bb).unwrap().0, 40);
}

#[test]
fn surface_line_ignores_columns_blocked_by_bodies() {
    let t = table();
    let mut w = world();
    let b = stamp_rect(&mut w, 0, 20, 40, 8, 4);
    stamp_rect(&mut w, 1, 12, 36, 8, 6);
    for y in 42..60 {
        w.set_cell_stamped(&t, 19, y, WATER, 0);
    }
    for y in 40..60 {
        w.set_cell_stamped(&t, 28, y, WATER, 0);
    }
    let bb = bbox(20, 40, 8, 4);
    assert_eq!(surface_line(&w, &t, &b, bb).unwrap().0, 40);
    for y in 40..60 {
        w.set_cell_stamped(&t, 28, y, 0, 0);
    }
    assert_eq!(surface_line(&w, &t, &b, bb).unwrap().0, 42);
}

#[test]
fn surface_line_ignores_bubbles_below_surface() {
    let t = table();
    let mut w = world();
    let b = stamp_rect(&mut w, 0, 20, 40, 8, 4);
    for y in 36..60 {
        if y != 41 {
            w.set_cell_stamped(&t, 19, y, WATER, 0);
            w.set_cell_stamped(&t, 18, y, WATER, 0);
        }
    }
    let bb = bbox(20, 40, 8, 4);
    assert_eq!(bb.1, 39, "box top 39, the band starts at 38");
    assert_eq!(surface_line(&w, &t, &b, bb).unwrap().0, 38);
}

#[test]
fn falling_liquid_is_not_a_contact() {
    let t = table();
    let mut w = world();
    let b = stamp_rect(&mut w, 0, 20, 40, 8, 4);
    for y in 30..60 {
        w.set_cell_stamped(&t, 19, y, WATER, 0);
        w.set_cell_vel(19, y, SETTLED_VEL_MAX);
    }
    let bb = bbox(20, 40, 8, 4);
    assert!(surface_line(&w, &t, &b, bb).is_none(), "falling water is no water line");
    for y in 30..60 {
        w.set_cell_vel(19, y, SETTLED_VEL_MAX / 2);
    }
    assert!(surface_line(&w, &t, &b, bb).is_some(), "stirred pool water still counts");
}

#[test]
fn surface_line_samples_beyond_the_contact_column() {
    let t = table();
    let mut w = world();
    let b = stamp_rect(&mut w, 0, 20, 40, 8, 4);
    for y in 40..60 {
        for x in 10..20 {
            w.set_cell_stamped(&t, x, y, WATER, 0);
        }
    }
    let (h, rho, cols) = surface_line(&w, &t, &b, bbox(20, 40, 8, 4)).unwrap();
    assert_eq!(h, 40);
    assert_eq!(rho, 16);
    assert_eq!(cols, vec![14, 15, 16, 17, 18], "from two cells out, up to five columns");
}

#[test]
fn sealed_bottom_requires_hard_sides_and_liquid_below() {
    let t = table();
    let mut w = world();
    for y in 36..52 {
        w.set_cell_stamped(&t, 19, y, WALL, 0);
        w.set_cell_stamped(&t, 28, y, WALL, 0);
    }
    for y in 44..52 {
        for x in 20..28 {
            w.set_cell_stamped(&t, x, y, WATER, 0);
        }
    }
    let b = stamp_rect(&mut w, 0, 20, 40, 8, 4);
    assert_eq!(sealed_bottom(&w, &t, &b), Some(8));
    w.set_cell_stamped(&t, 19, 41, 0, 0);
    assert_eq!(sealed_bottom(&w, &t, &b), None, "a leaking side does not seal");
}

#[test]
fn sealed_bottom_needs_liquid_below() {
    let t = table();
    let mut w = world();
    for y in 36..52 {
        w.set_cell_stamped(&t, 19, y, WALL, 0);
        w.set_cell_stamped(&t, 28, y, WALL, 0);
    }
    let b = stamp_rect(&mut w, 0, 20, 40, 8, 4);
    assert_eq!(sealed_bottom(&w, &t, &b), None);
}

#[test]
fn settled_liquid_reads_category_speed_and_body_flag() {
    let t = table();
    let mut w = world();
    w.set_cell_stamped(&t, 3, 3, WATER, 0);
    assert!(settled_liquid(&w, &t, 3, 3));
    w.set_cell_vel(3, 3, SETTLED_VEL_MAX);
    assert!(!settled_liquid(&w, &t, 3, 3));
    w.set_cell_stamped(&t, 4, 3, 2, 0);
    assert!(!settled_liquid(&w, &t, 4, 3), "sand is no liquid");
    w.put_cell(5, 3, Cell::pack(WATER, 0).with_body(true));
    assert!(!settled_liquid(&w, &t, 5, 3), "a body cell is no liquid");
    assert!(!settled_liquid(&w, &t, -1, 3), "outside the world is wall");
}

#[test]
fn most_common_takes_the_smallest_on_a_tie() {
    assert_eq!(most_common(&[3, 5, 5, 3, 7]), 3);
    assert_eq!(most_common(&[9, 2, 9]), 9);
    assert_eq!(most_common(&[42]), 42);
    assert_eq!(most_common(&[200, 100, 200, 100, 100]), 100);
}

#[test]
fn any_chunk_dirty_reads_the_chunks_around_the_box() {
    let t = table();
    let mut w = world();
    seal(&mut w);
    seal(&mut w);
    assert!(!any_chunk_dirty(&w, (0, 0, 127, 127), 0), "a sealed quiet world");
    w.set_cell_stamped(&t, 100, 100, WALL, 0);
    seal(&mut w);
    assert!(any_chunk_dirty(&w, (90, 90, 95, 95), 0));
    assert!(!any_chunk_dirty(&w, (10, 10, 20, 20), 0));
    assert!(!any_chunk_dirty(&w, (10, 10, 60, 60), 3), "still inside chunk (0, 0)");
    assert!(any_chunk_dirty(&w, (10, 10, 60, 60), 4), "the margin reaches chunk (1, 1)");
    assert!(any_chunk_dirty(&w, (-50, -50, 500, 500), 0), "the box is clipped to the world");
}

#[test]
fn counter_roundtrips_through_unstamp() {
    let t = table();
    let mut w = world();
    let mut b = stamp_rect(&mut w, 0, 20, 30, 24, 16);
    let c = w.cell(20, 30).with_counter(7);
    w.put_cell(20, 30, c);
    unstamp(&mut b, &mut w, &t, 1);
    assert_eq!(b.counter[0], 7, "unstamping reads the counter back");
    assert!(b.stamped.is_empty());
    assert!(!b.dirty);
    assert_eq!(w.cell(20, 30).material(), 0);
    assert!(!w.cell(20, 30).is_body());
    assert_eq!(w.count_material(WOOD), 0);
}

#[test]
fn unstamp_clears_destroyed_pixels() {
    let t = table();
    let mut w = world();
    let mut b = stamp_rect(&mut w, 0, 20, 30, 4, 4);
    w.set_cell_stamped(&t, 21, 30, 0, 0);
    w.set_cell_stamped(&t, 22, 31, WALL, 0);
    unstamp(&mut b, &mut w, &t, 1);
    assert!(b.dirty);
    assert!(!b.mask[1] && !b.mask[6]);
    assert_eq!(b.mask.iter().filter(|&&m| m).count(), 14);
    assert_eq!(w.cell(22, 31).material(), WALL, "another cell is left alone");
}

#[test]
fn reconcile_drops_lost_pixels_and_queues_the_body() {
    let t = table();
    let mut w = world();
    let mut bodies = Bodies::new();
    bodies.list.push(stamp_rect(&mut w, 0, 10, 10, 4, 4));
    bodies.list.push(stamp_rect(&mut w, 1, 30, 10, 4, 4));
    bodies.list.push(stamp_rect(&mut w, 2, 50, 10, 4, 4));
    bodies.reextract_queue = vec![0];
    w.set_cell_stamped(&t, 52, 11, 0, 0);
    bodies.reconcile(&w);
    let b = &bodies.list[2];
    assert_eq!(b.stamped.len(), 15);
    assert!(!b.stamped.contains(&(52, 11, 6)));
    assert!(!b.mask[6]);
    assert_eq!(b.counter[6], 0);
    assert!(b.dirty);
    assert!(!bodies.list[1].dirty);
    assert_eq!(bodies.list[1].stamped.len(), 16);
    assert_eq!(bodies.reextract_queue, vec![0, 2]);
    bodies.reconcile(&w);
    assert_eq!(bodies.reextract_queue, vec![0, 2], "each id once");
}

#[test]
fn reconcile_body_keeps_live_pixels_in_order() {
    let t = table();
    let mut w = world();
    let mut b = stamp_rect(&mut w, 5, 10, 10, 3, 1);
    w.set_cell_stamped(&t, 11, 10, WATER, 0);
    reconcile_body(&mut b, &w);
    assert_eq!(b.stamped, vec![(10, 10, 0), (12, 10, 2)]);
    assert_eq!(b.mask, vec![true, false, true]);
    assert!(b.dirty);
}

#[test]
fn queue_insert_keeps_the_queue_sorted() {
    let mut q = vec![2u16, 5, 9];
    queue_insert(&mut q, 7);
    assert_eq!(q, vec![2, 5, 7, 9]);
    queue_insert(&mut q, 5);
    assert_eq!(q, vec![2, 5, 7, 9]);
    queue_insert(&mut q, 0);
    queue_insert(&mut q, 10);
    assert_eq!(q, vec![0, 2, 5, 7, 9, 10]);
}

#[test]
fn remove_takes_the_body_and_its_queue_entry() {
    let mut w = world();
    let mut bodies = Bodies::new();
    bodies.list.push(stamp_rect(&mut w, 3, 10, 10, 4, 4));
    bodies.list.push(stamp_rect(&mut w, 4, 30, 10, 4, 4));
    bodies.reextract_queue = vec![3, 4];
    let r = bodies.remove(3).unwrap();
    assert_eq!(r.id, 3);
    assert_eq!(bodies.len(), 1);
    assert_eq!(bodies.list[0].id, 4);
    assert_eq!(bodies.reextract_queue, vec![4]);
    assert!(bodies.remove(3).is_none());
    assert!(bodies.get(4).is_some());
    assert!(bodies.get(3).is_none());
    assert!(!bodies.is_empty());
}

/// Bodies holding one `bw x bh` wooden body with id 0, as if just spawned.
fn one_body(w: &mut World, x0: i32, y0: i32, bw: u16, bh: u16) -> Bodies {
    let mut bodies = Bodies::new();
    bodies.list.push(stamp_rect(w, 0, x0, y0, bw, bh));
    bodies.next_id = 1;
    bodies
}

#[test]
fn cut_line_splits_into_two_bodies() {
    let t = table();
    let mut w = world();
    let mut bodies = one_body(&mut w, 20, 30, 24, 16);
    for y in 30..46 {
        w.set_cell_stamped(&t, 32, y, 0, 1);
    }
    bodies.reconcile(&w);
    assert!(bodies.list[0].dirty);
    assert_eq!(bodies.reextract_queue, vec![0]);
    let done = bodies.reextract(&mut w, &t, 1);
    assert_eq!(bodies.list.len(), 2, "two pieces");
    assert_eq!(bodies.list.iter().map(|b| b.id).collect::<Vec<_>>(), vec![1, 2], "new ids, parent 0 gone");
    let pix: Vec<usize> = bodies.list.iter().map(|b| b.mask.iter().filter(|&&m| m).count()).collect();
    assert_eq!(pix, vec![12 * 16, 11 * 16]);
    assert_eq!(bodies.list[0].stamped.len(), 12 * 16);
    assert!(bodies.reextract_queue.is_empty());
    assert_eq!(done.len(), 1);
    match &done[0] {
        Extracted::Split { parent, children, debris } => {
            assert_eq!(parent.id, 0);
            assert_eq!(children, &vec![1, 2]);
            assert!(debris.is_empty());
        }
        _ => panic!("expected a split"),
    }
}

#[test]
fn corner_loss_reshapes_in_place() {
    let t = table();
    let mut w = world();
    let mut bodies = one_body(&mut w, 20, 30, 24, 16);
    w.set_cell_stamped(&t, 20, 30, 0, 1);
    w.set_cell_stamped(&t, 21, 30, 0, 1);
    bodies.reconcile(&w);
    let done = bodies.reextract(&mut w, &t, 1);
    assert_eq!(bodies.list.len(), 1);
    assert_eq!(bodies.list[0].id, 0, "one piece keeps its id");
    assert_eq!(bodies.list[0].mask.iter().filter(|&&m| m).count(), 384 - 2);
    assert!(!bodies.list[0].dirty);
    assert!(matches!(done[0], Extracted::Reshaped { id: 0 }));
}

#[test]
fn small_fragment_is_ejected_as_particles() {
    let t = table();
    let mut w = world();
    let mut bodies = one_body(&mut w, 20, 30, 24, 16);
    for y in 30..46 {
        w.set_cell_stamped(&t, 21, y, 0, 1);
    }
    for y in 33..46 {
        w.set_cell_stamped(&t, 20, y, 0, 1);
    }
    bodies.reconcile(&w);
    let done = bodies.reextract(&mut w, &t, 1);
    let debris = match &done[0] {
        Extracted::Split { debris, .. } => debris.clone(),
        _ => panic!("expected a split"),
    };
    assert_eq!(debris, vec![(20, 30), (20, 31), (20, 32)]);
    let spawns = debris_spawns(&debris, WOOD, Fx(0), Fx(0));
    assert_eq!(spawns.len(), 3, "a 1x3 fragment gives three particles");
    assert!(spawns.iter().all(|s| s.material == WOOD));
    assert_eq!((spawns[0].x.0, spawns[0].y.0), (20 * 65536 + 32768, 30 * 65536 + 32768), "cell centres");
    assert_eq!(w.cell(20, 30).material(), 0);
    assert!(!w.cell(20, 30).is_body());
    assert_eq!(bodies.list.len(), 1, "the big piece stays");
    assert_eq!(bodies.list[0].mask.iter().filter(|&&m| m).count(), 22 * 16);
}

#[test]
fn reextract_respects_per_tick_budget() {
    let t = table();
    let mut w = world();
    let mut bodies = Bodies::new();
    for i in 0..3 {
        bodies.list.push(stamp_rect(&mut w, i as u16, 10 + i * 30, 30, 8, 4));
    }
    bodies.next_id = 3;
    for i in 0..3 {
        w.set_cell_stamped(&t, 10 + i * 30, 30, 0, 1);
    }
    bodies.reconcile(&w);
    assert_eq!(bodies.reextract_queue, vec![0, 1, 2]);
    let done = bodies.reextract(&mut w, &t, 1);
    assert_eq!(done.len(), 2);
    assert_eq!(bodies.reextract_queue, vec![2], "the third waits for the next tick");
    let done = bodies.reextract(&mut w, &t, 2);
    assert_eq!(done.len(), 1);
    assert!(bodies.reextract_queue.is_empty());
    assert!(bodies.reextract(&mut w, &t, 3).is_empty());
}

#[test]
fn reextract_skips_a_missing_body() {
    let t = table();
    let mut w = world();
    let mut bodies = one_body(&mut w, 20, 30, 4, 4);
    bodies.reextract_queue = vec![7];
    let done = bodies.reextract(&mut w, &t, 1);
    assert!(matches!(done[0], Extracted::Missing { id: 7 }));
    assert_eq!(bodies.list.len(), 1);
}

#[test]
fn top_load_counts_only_above_waterline() {
    let t = table();
    let mut w = world();
    let b = stamp_rect(&mut w, 0, 20, 40, 8, 4);
    for y in 37..40 {
        for x in 20..28 {
            w.set_cell_stamped(&t, x, y, WATER, 0);
        }
    }
    let (cells, rho) = top_load_cells(&w, &t, &b, &[]).unwrap();
    assert_eq!((cells.len(), rho), (24, 16));
    let n = cells.len() as f32;
    let cx = cells.iter().map(|&(x, _)| x as f32 + 0.5).sum::<f32>() / n;
    let cy = cells.iter().map(|&(_, y)| y as f32 + 0.5).sum::<f32>() / n;
    assert!((cx - 24.0).abs() < 1e-3 && (cy - 38.5).abs() < 1e-3, "centre ({cx},{cy})");
    w.set_cell_stamped(&t, 30, 39, WATER, 0);
    assert_eq!(top_load_cells(&w, &t, &b, &[30]).unwrap().0.len(), 16);
    for y in 37..39 {
        w.set_cell_stamped(&t, 30, y, WATER, 0);
    }
    assert!(top_load_cells(&w, &t, &b, &[30]).is_none(), "level with the water around: no heap");
}

#[test]
fn sleeper_wakes_on_water_line_moves_or_heaps() {
    assert!(!sleeper_wakes(NO_SURFACE, NO_SURFACE, 0));
    assert!(sleeper_wakes(40, NO_SURFACE, 0), "a water line appeared");
    assert!(sleeper_wakes(NO_SURFACE, 40, 0), "the water line vanished");
    assert!(!sleeper_wakes(41, 40, 0));
    assert!(sleeper_wakes(42, 40, 0));
    assert!(sleeper_wakes(38, 40, 0));
    assert!(!sleeper_wakes(40, 40, WAKE_TOP_LOAD_CELLS - 1));
    assert!(sleeper_wakes(40, 40, WAKE_TOP_LOAD_CELLS));
}

#[test]
fn terrain_chunks_cover_the_boxes_with_a_margin() {
    let w = World::new(4, 3, 1);
    assert_eq!(terrain_chunks(&w, &vec![(70, 70, 80, 80)]), vec![(0, 0), (0, 1), (0, 2), (1, 0), (1, 1), (1, 2), (2, 0), (2, 1), (2, 2)]);
    assert_eq!(terrain_chunks(&w, &vec![(-10, -10, -1, -1)]), vec![(0, 0)], "clipped to the world");
    assert_eq!(
        terrain_chunks(&w, &vec![(0, 0, 1, 1), (250, 0, 251, 1)]),
        vec![(0, 0), (0, 1), (1, 0), (1, 1), (2, 0), (2, 1), (3, 0), (3, 1)],
        "each chunk once, by column then row"
    );
    assert!(terrain_chunks(&w, &vec![]).is_empty());
}

#[test]
fn terrain_cache_rebuilds_only_dirty_chunks() {
    let t = table();
    let mut w = world();
    w.set_cell_stamped(&t, 30, 60, WALL, 0);
    seal(&mut w);
    let first = terrain_refresh(&w, &t, 0, 0, None).unwrap();
    assert_eq!(first, vec![Rect { x0: 30, y0: 60, x1: 30, y1: 60 }]);
    seal(&mut w);
    assert!(terrain_refresh(&w, &t, 0, 0, Some(&first)).is_none(), "a clean cached chunk is not rebuilt");
    w.set_cell_stamped(&t, 31, 60, WALL, 1);
    seal(&mut w);
    let second = terrain_refresh(&w, &t, 0, 0, Some(&first)).unwrap();
    assert_eq!(second, vec![Rect { x0: 30, y0: 60, x1: 31, y1: 60 }]);
    w.set_cell_stamped(&t, 10, 10, WATER, 2);
    seal(&mut w);
    assert!(terrain_refresh(&w, &t, 0, 0, Some(&second)).is_none(), "written but the hard cells are the same");
}
