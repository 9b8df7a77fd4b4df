use sand_core::dda::{trace, CellWalk, Trace};
use sand_core::fixed::Fx;
use sand_core::material::{Category, MaterialDef, MaterialTable};
use sand_core::world::World;

const WALL: u8 = 1;

fn table() -> MaterialTable {
    let air = MaterialDef::base(0, "air", Category::Static, 0);
    let mut wall = MaterialDef::base(1, "wall", Category::Static, 100);
    wall.hp = u32::MAX;
    MaterialTable::new(vec![air, wall]).unwrap()
}

fn world_with_walls(wc: usize, hc: usize, walls: &[(i32, i32)]) -> World {
    let mut w = World::new(wc, hc, 0);
    let t = table();
    for &(x, y) in walls {
        w.set_cell_stamped(&t, x, y, WALL, 0);
    }
    w
}

fn fx(v: i32) -> Fx {
    Fx::from_int(v)
}

#[test]
fn horizontal_clear_traversal() {
    let w = world_with_walls(2, 2, &[]);
    let r = trace((fx(5), fx(5)), (fx(10), Fx(0)), &w);
    assert_eq!(r, Trace::Clear { end_pos: (fx(15), fx(5)) });
}

#[test]
fn vertical_clear_traversal() {
    let w = world_with_walls(2, 2, &[]);
    let r = trace((fx(5), fx(5)), (Fx(0), fx(8)), &w);
    assert_eq!(r, Trace::Clear { end_pos: (fx(5), fx(13)) });
}

#[test]
fn diagonal_clear_traversal() {
    let w = world_with_walls(3, 3, &[]);
    let r = trace((fx(5), fx(5)), (fx(6), fx(6)), &w);
    assert_eq!(r, Trace::Clear { end_pos: (fx(11), fx(11)) });
}

#[test]
fn horizontal_blocked_stops_before_wall() {
    let w = world_with_walls(2, 2, &[(20, 5)]);
    let r = trace((fx(15), fx(5)), (fx(10), Fx(0)), &w);
    assert_eq!(r, Trace::Blocked { land_cell: (19, 5) });
}

#[test]
fn vertical_blocked_stops_before_wall() {
    let w = world_with_walls(2, 2, &[(5, 20)]);
    let r = trace((fx(5), fx(10)), (Fx(0), fx(15)), &w);
    assert_eq!(r, Trace::Blocked { land_cell: (5, 19) });
}

#[test]
fn diagonal_blocked_stops_at_correct_cell_in_crossing_order() {
    let w = world_with_walls(3, 3, &[(7, 7)]);
    let start = (Fx((5 << 16) + 0x8000), Fx((5 << 16) + 0x8000));
    let r = trace(start, (fx(3), fx(3)), &w);
    assert_eq!(r, Trace::Blocked { land_cell: (7, 6) });
}

#[test]
fn immediate_block_candidate_is_start_cell() {
    let w = world_with_walls(2, 2, &[(6, 5)]);
    let r = trace((fx(5), fx(5)), (fx(3), Fx(0)), &w);
    assert_eq!(r, Trace::Blocked { land_cell: (5, 5) });
}

#[test]
fn start_cell_is_never_checked_even_if_blocking() {
    let w = world_with_walls(2, 2, &[(5, 5)]);
    let r = trace((fx(5), fx(5)), (fx(3), Fx(0)), &w);
    assert_eq!(r, Trace::Clear { end_pos: (fx(8), fx(5)) });
}

#[test]
fn out_of_bounds_target_is_gone_not_blocked() {
    let w = world_with_walls(2, 2, &[]);
    let r = trace((fx(120), fx(5)), (fx(20), Fx(0)), &w);
    assert_eq!(r, Trace::Gone);
}

#[test]
fn wall_encountered_before_boundary_is_blocked_not_gone() {
    let w = world_with_walls(2, 2, &[(125, 5)]);
    let r = trace((fx(120), fx(5)), (fx(20), Fx(0)), &w);
    assert_eq!(r, Trace::Blocked { land_cell: (124, 5) });
}

#[test]
fn zero_velocity_is_clear_at_same_pos() {
    let w = world_with_walls(2, 2, &[]);
    let r = trace((fx(5), fx(5)), (Fx(0), Fx(0)), &w);
    assert_eq!(r, Trace::Clear { end_pos: (fx(5), fx(5)) });
}

#[test]
fn diagonal_tie_break_is_deterministic() {
    let w = world_with_walls(4, 4, &[]);
    let start = (Fx((1 << 16) + 0x8000), Fx((1 << 16) + 0x8000));
    let a = trace(start, (fx(2), fx(2)), &w);
    let b = trace(start, (fx(2), fx(2)), &w);
    assert_eq!(a, b);
    assert_eq!(a, Trace::Clear { end_pos: (Fx((3 << 16) + 0x8000), Fx((3 << 16) + 0x8000)) });
}

#[test]
fn leftward_blocked_stops_before_wall() {
    let w = world_with_walls(2, 2, &[(10, 5)]);
    let r = trace((fx(15), fx(5)), (fx(-10), Fx(0)), &w);
    assert_eq!(r, Trace::Blocked { land_cell: (11, 5) });
}

#[test]
fn upward_clear_traversal() {
    let w = world_with_walls(2, 2, &[]);
    let r = trace((fx(5), fx(15)), (Fx(0), fx(-8)), &w);
    assert_eq!(r, Trace::Clear { end_pos: (fx(5), fx(7)) });
}

#[test]
fn negative_diagonal_blocked() {
    let w = world_with_walls(3, 3, &[(8, 8)]);
    let r = trace((fx(10), fx(10)), (fx(-3), fx(-3)), &w);
    assert_eq!(r, Trace::Blocked { land_cell: (8, 9) });
}

#[test]
fn cell_walk_matches_trace_crossing_sequence_exactly() {
    let start = (Fx((5 << 16) + 0x8000), Fx((5 << 16) + 0x8000));
    let seq: Vec<(i32, i32)> = CellWalk::new(start, (fx(3), fx(3))).collect_cells();
    assert_eq!(seq, vec![(6, 5), (6, 6), (7, 6), (7, 7), (8, 7), (8, 8)]);
}

#[test]
fn cell_walk_excludes_start_cell_and_includes_end_cell() {
    let seq: Vec<(i32, i32)> = CellWalk::new((fx(5), fx(5)), (fx(3), Fx(0))).collect_cells();
    assert_eq!(seq, vec![(6, 5), (7, 5), (8, 5)]);
}

#[test]
fn cell_walk_zero_velocity_yields_empty_sequence() {
    let seq: Vec<(i32, i32)> = CellWalk::new((fx(5), fx(5)), (Fx(0), Fx(0))).collect_cells();
    assert!(seq.is_empty());
}

#[test]
fn cell_walk_is_deterministic_across_repeated_calls() {
    let start = (Fx((2 << 16) + 0x8000), Fx((2 << 16) + 0x8000));
    let vel = (fx(9), fx(4));
    let a: Vec<(i32, i32)> = CellWalk::new(start, vel).collect_cells();
    let b: Vec<(i32, i32)> = CellWalk::new(start, vel).collect_cells();
    assert_eq!(a, b);
}

#[test]
fn cell_walk_next_steps_one_cell_at_a_time() {
    let mut w = CellWalk::new((fx(5), fx(5)), (fx(-2), Fx(0)));
    assert_eq!(w.next(), Some((4, 5)));
    assert_eq!(w.next(), Some((3, 5)));
    assert_eq!(w.next(), None);
    assert_eq!(w.next(), None);
}

#[test]
fn cell_walk_exact_corner_reaches_target_cell() {
    // From a cell corner to the next corner diagonally: the walk ends at the
    // target cell and never overshoots an axis that needs no further crossing.
    let seq = CellWalk::new((fx(5), fx(5)), (fx(1), fx(1))).collect_cells();
    assert_eq!(seq.last(), Some(&(6, 6)));
    assert_eq!(seq.len(), 2);
}
