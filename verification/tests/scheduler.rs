use sand_core::cell::Cell;
use sand_core::chunk::CHUNK;
use sand_core::material::{Category, MaterialDef, MaterialTable};
use sand_core::reaction::ReactionTable;
use sand_core::world::World;
use sand_core::ScanMode;
use sand_core::scheduler::phase_order;
use sand_core::window::HALO;

#[test]
fn phase_windows_disjoint_and_phases_cover_all() {
    let (wc, hc) = (6, 5);
    let mut covered = vec![false; wc * hc];
    for (px, py) in phase_order(0) {
        let members: Vec<(i32, i32)> = (0..hc as i32)
            .flat_map(|cy| (0..wc as i32).map(move |cx| (cx, cy)))
            .filter(|&(cx, cy)| cx as usize & 1 == px && cy as usize & 1 == py)
            .collect();
        for &(cx, cy) in &members {
            covered[cy as usize * wc + cx as usize] = true;
        }
        let win = |c: i32| (c * CHUNK as i32 - HALO, c * CHUNK as i32 + CHUNK as i32 + HALO - 1);
        for (i, &(ax, ay)) in members.iter().enumerate() {
            for &(bx, by) in &members[i + 1..] {
                let (ax0, ax1) = win(ax);
                let (bx0, bx1) = win(bx);
                let (ay0, ay1) = win(ay);
                let (by0, by1) = win(by);
                let overlap = ax0 <= bx1 && bx0 <= ax1 && ay0 <= by1 && by0 <= ay1;
                assert!(!overlap, "({ax},{ay}) vs ({bx},{by})");
            }
        }
    }
    assert!(covered.iter().all(|&c| c));
}

#[test]
fn phase_order_rotates_and_is_a_permutation() {
    let phases = [(0usize, 0usize), (1, 0), (1, 1), (0, 1)];
    for t in 0..8u64 {
        let mut o = phase_order(t).to_vec();
        o.sort();
        let mut p = phases.to_vec();
        p.sort();
        assert_eq!(o, p);
    }
    assert_ne!(phase_order(0), phase_order(1));
    assert_eq!(phase_order(0), phase_order(4));
    assert_eq!(phase_order(0), phases);
    assert_eq!(phase_order(1), [(1, 0), (1, 1), (0, 1), (0, 0)]);
}

fn sched_table() -> MaterialTable {
    MaterialTable::new(vec![
        MaterialDef::base(0, "air", Category::Static, 0),
        MaterialDef::base(1, "wall", Category::Static, 100),
        MaterialDef::base(2, "sand", Category::Powder, 40),
    ])
    .unwrap()
}

/// Sand `s` rests at the bottom row of chunk (0, 0), on a sand cell of
/// chunk (0, 1) between two walls. At tick 0 chunk (0, 0) runs first and `s`
/// stays; then its support falls away, which wakes chunk (0, 0) for tick 1.
/// `s` carries stamp 1 (as if last written 256 ticks earlier), so at tick 1
/// it counts as already moved, in every scan mode, and nothing is written
/// near it. The full scan lets it fall at tick 2; the sleeping scans leave
/// chunk (0, 0) asleep with `s` in the air.
fn run_three_ticks(scan: ScanMode) -> (u8, u8, u8) {
    let t = sched_table();
    let r = ReactionTable::new(&t, vec![]).unwrap();
    let mut w = World::new(1, 2, 7);
    w.put_cell(10, 63, Cell::pack(2, 1));
    w.put_cell(10, 64, Cell::pack(2, 2));
    w.put_cell(9, 64, Cell::pack(1, 2));
    w.put_cell(11, 64, Cell::pack(1, 2));
    let mut spawns = Vec::new();
    let mut seen = [0u8; 3];
    for k in 0..3 {
        sand_core::scheduler::step(&mut w, &t, &r, scan, &mut spawns);
        seen[k] = w.cell(10, 63).material();
    }
    (seen[0], seen[1], seen[2])
}

#[test]
fn stamp_collision_makes_scan_modes_differ() {
    assert_eq!(run_three_ticks(ScanMode::Full), (2, 2, 0), "full scan: skipped at tick 1, falls at tick 2");
    assert_eq!(run_three_ticks(ScanMode::ChunkSleep), (2, 2, 2), "the chunk falls asleep with the sand in the air");
    assert_eq!(run_three_ticks(ScanMode::LiveRect), (2, 2, 2));
}
