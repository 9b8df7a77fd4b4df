use sand_core::cell::{fx_to_vel, V_MAX_CELL};
use sand_core::fixed::Fx;
use sand_core::material::{Category, MaterialDef, MaterialTable};
use sand_core::particle::{
    advance, apply_gravity_and_clamp, clamp_speed, commit, gravity, integrate, max_speed,
    resolve_landing, Outcome, ParticleRec, Particles, MAX_PARTICLES,
};
use sand_core::world::World;

fn fx(v: i32) -> Fx {
    Fx::from_int(v)
}

fn test_table() -> MaterialTable {
    let def = |id: u8, name: &str, category: Category, density: u16, hp: u32| {
        let mut d = MaterialDef::base(id, name, category, density);
        d.hp = hp;
        d
    };
    MaterialTable::new(vec![
        def(0, "air", Category::Static, 0, 0),
        def(1, "wall", Category::Static, 100, u32::MAX),
        def(2, "sand", Category::Powder, 40, 2),
    ])
    .unwrap()
}

fn view(x: Fx, y: Fx, vx: Fx, vy: Fx) -> ParticleRec {
    ParticleRec { x, y, vx, vy, material: 2 }
}

#[test]
fn land_impact_velocity_matches_this_ticks_displacement() {
    let table = test_table();
    let mut w = World::new(1, 1, 0);
    for x in 0..64 {
        w.set_cell_stamped(&table, x, 40, 1, 0);
    }
    let p = view(fx(10), fx(30), Fx(0), fx(12));
    let Outcome::Land { pos, .. } = integrate(p, &w) else {
        panic!("a 12 cells/tick fall onto a floor 10 cells away must land");
    };
    let (_, vy) = apply_gravity_and_clamp(p.vx, p.vy);
    assert_eq!(pos.1 - p.y, vy);
    assert_eq!(fx_to_vel(pos.1 - p.y), V_MAX_CELL);
}

#[test]
fn spawn_order_is_traversal_order() {
    let mut p = Particles::new();
    for i in 0..5 {
        assert!(p.spawn(7, fx(i), fx(i * 2), fx(1), fx(0)));
    }
    assert_eq!(p.len(), 5);
    for i in 0..5 {
        assert_eq!(p.x(i as usize), fx(i));
        assert_eq!(p.y(i as usize), fx(i * 2));
    }
}

#[test]
fn capacity_rejection_is_deterministic_and_repeatable() {
    let run = || {
        let mut p = Particles::new();
        let mut accepted = 0usize;
        let mut last_rejected = false;
        for i in 0..(MAX_PARTICLES + 1) {
            if p.spawn(1, fx(i as i32), Fx(0), Fx(0), Fx(0)) {
                accepted += 1;
            } else {
                last_rejected = true;
            }
        }
        (accepted, last_rejected, p.len(), p.rejected_total())
    };
    let (a1, r1, len1, rej1) = run();
    let (a2, r2, len2, rej2) = run();
    assert_eq!(a1, MAX_PARTICLES);
    assert!(r1);
    assert_eq!(len1, MAX_PARTICLES);
    assert_eq!(rej1, 1);
    assert_eq!((a1, r1, len1, rej1), (a2, r2, len2, rej2));
}

#[test]
fn empty_pool_hash_is_stable() {
    let a = Particles::new();
    let b = Particles::new();
    assert_eq!(a.hash_into(), b.hash_into());
}

#[test]
fn hash_is_sensitive_to_particle_fields() {
    let mut a = Particles::new();
    a.spawn(3, fx(1), fx(2), fx(3), fx(4));
    let mut b = a.clone();
    b.compact(&[false]);
    assert_eq!(b.len(), 0);
    b.spawn(3, fx(1), fx(2), fx(9), fx(4));
    assert_ne!(a.hash_into(), b.hash_into());
}

#[test]
fn compact_preserves_order_of_kept_particles() {
    let mut p = Particles::new();
    for i in 0..4 {
        p.spawn(1, fx(i), Fx(0), Fx(0), Fx(0));
    }
    p.compact(&[true, false, true, false]);
    assert_eq!(p.len(), 2);
    assert_eq!(p.x(0), fx(0));
    assert_eq!(p.x(1), fx(2));
}

#[test]
fn gravity_matches_from_ratio_one_quarter() {
    assert_eq!(gravity(), Fx::from_ratio(1, 4));
}

#[test]
fn max_speed_matches_from_int_16() {
    assert_eq!(max_speed(), Fx::from_int(16));
}

#[test]
fn clamp_speed_respects_both_bounds() {
    assert_eq!(clamp_speed(max_speed() + fx(5)), max_speed());
    assert_eq!(clamp_speed(-max_speed() - fx(5)), -max_speed());
    assert_eq!(clamp_speed(fx(3)), fx(3));
}

fn spawn_n(n: usize) -> Particles {
    let mut p = Particles::new();
    for _ in 0..n {
        p.spawn(2, Fx(0), Fx(0), Fx(0), Fx(0));
    }
    p
}

#[test]
fn commit_conflict_smaller_id_wins_candidate_cell() {
    let t = test_table();
    let mut w = World::new(1, 1, 0);
    let mut p = spawn_n(2);
    let outcomes = vec![
        Outcome::Land { cx: 5, cy: 5, pos: (Fx(0), Fx(0)) },
        Outcome::Land { cx: 5, cy: 5, pos: (Fx(0), Fx(0)) },
    ];
    let keep = commit(&mut p, &mut w, &t, 0, &outcomes);
    assert_eq!(keep, vec![false, false]);
    assert_eq!(w.cell(5, 5).material(), 2);
    assert_eq!(w.cell(5, 4).material(), 2);
}

#[test]
fn commit_conflict_falls_through_neighbor_order_when_first_slot_taken() {
    let t = test_table();
    let mut w = World::new(1, 1, 0);
    w.set_cell_stamped(&t, 5, 4, 1, 0);
    let mut p = spawn_n(2);
    let outcomes = vec![
        Outcome::Land { cx: 5, cy: 5, pos: (Fx(0), Fx(0)) },
        Outcome::Land { cx: 5, cy: 5, pos: (Fx(0), Fx(0)) },
    ];
    let keep = commit(&mut p, &mut w, &t, 0, &outcomes);
    assert_eq!(keep, vec![false, false]);
    assert_eq!(w.cell(5, 5).material(), 2);
    assert_eq!(w.cell(4, 5).material(), 2);
}

#[test]
fn commit_conflict_all_five_neighbors_occupied_climbs_upward_to_find_air() {
    let t = test_table();
    let mut w = World::new(1, 1, 0);
    for (dx, dy) in [(0, 0), (0, -1), (-1, 0), (1, 0), (-1, -1), (1, -1), (0, -2)] {
        w.set_cell_stamped(&t, 5 + dx, 5 + dy, 1, 0);
    }
    let mut p = spawn_n(1);
    let outcomes = vec![Outcome::Land { cx: 5, cy: 5, pos: (Fx(0), Fx(0)) }];
    let keep = commit(&mut p, &mut w, &t, 0, &outcomes);
    assert_eq!(keep, vec![false]);
    assert_eq!(w.cell(5, 2).material(), 2);
    assert_eq!(p.buried_total(), 0);
}

#[test]
fn commit_conflict_fully_boxed_near_world_top_becomes_gone_and_counts_buried() {
    let t = test_table();
    let mut w = World::new(1, 1, 0);
    for (dx, dy) in [(0, 0), (0, -1), (-1, 0), (1, 0), (-1, -1), (1, -1)] {
        w.set_cell_stamped(&t, 5 + dx, 1 + dy, 1, 0);
    }
    let mut p = spawn_n(1);
    let outcomes = vec![Outcome::Land { cx: 5, cy: 1, pos: (Fx(0), Fx(0)) }];
    let keep = commit(&mut p, &mut w, &t, 0, &outcomes);
    assert_eq!(keep, vec![false]);
    assert_eq!(w.count_material(2), 0);
    assert_eq!(p.buried_total(), 1);
}

#[test]
fn commit_land_writes_material_and_stamp() {
    let t = test_table();
    let mut w = World::new(1, 1, 0);
    let mut p = spawn_n(1);
    let outcomes = vec![Outcome::Land { cx: 3, cy: 3, pos: (Fx(0), Fx(0)) }];
    let keep = commit(&mut p, &mut w, &t, 42, &outcomes);
    assert_eq!(keep, vec![false]);
    let c = w.cell(3, 3);
    assert_eq!(c.material(), 2);
    assert_eq!(c.stamp(), 42);
}

#[test]
fn commit_fly_writes_position_and_velocity_verbatim_from_outcome() {
    let t = test_table();
    let mut w = World::new(1, 1, 0);
    let mut p = Particles::new();
    p.spawn(2, Fx(0), Fx(0), fx(9), fx(9));
    let outcomes = vec![Outcome::Fly { pos: (fx(1), fx(2)), vel: (fx(-3), fx(7)) }];
    let keep = commit(&mut p, &mut w, &t, 0, &outcomes);
    assert_eq!(keep, vec![true]);
    assert_eq!(p.x(0), fx(1));
    assert_eq!(p.y(0), fx(2));
    assert_eq!(p.vx(0), fx(-3));
    assert_eq!(p.vy(0), fx(7));
}

#[test]
fn integrate_applies_gravity_and_clamp_exactly_once_for_fly() {
    let w = World::new(1, 1, 0);
    match integrate(view(fx(2), fx(2), fx(3), fx(4)), &w) {
        Outcome::Fly { vel, .. } => assert_eq!(vel, (fx(3), fx(4) + gravity())),
        other => panic!("expected Fly, got {other:?}"),
    }
}

#[test]
fn integrate_clamps_fly_velocity_to_max_speed() {
    let w = World::new(1, 1, 0);
    match integrate(view(fx(2), fx(2), max_speed() + fx(5), Fx(0)), &w) {
        Outcome::Fly { vel, .. } => assert_eq!(vel.0, max_speed()),
        other => panic!("expected Fly, got {other:?}"),
    }
}

#[test]
fn commit_gone_removes_particle_without_touching_world() {
    let t = test_table();
    let mut w = World::new(1, 1, 0);
    let mut p = spawn_n(1);
    let outcomes = vec![Outcome::Gone];
    let keep = commit(&mut p, &mut w, &t, 0, &outcomes);
    assert_eq!(keep, vec![false]);
    assert_eq!(w.count_material(2), 0);
}

#[test]
fn resolve_landing_prefers_candidate_then_up_left_right() {
    let t = test_table();
    let mut w = World::new(1, 1, 0);
    assert_eq!(resolve_landing(&w, 5, 5), Some((5, 5)));
    w.set_cell_stamped(&t, 5, 5, 1, 0);
    assert_eq!(resolve_landing(&w, 5, 5), Some((5, 4)));
    w.set_cell_stamped(&t, 5, 4, 1, 0);
    assert_eq!(resolve_landing(&w, 5, 5), Some((4, 5)));
    w.set_cell_stamped(&t, 4, 5, 1, 0);
    assert_eq!(resolve_landing(&w, 5, 5), Some((6, 5)));
}

#[test]
fn advance_conserves_particles_into_the_grid() {
    // Free fall onto a floor: every particle ends either flying or in the grid.
    let t = test_table();
    let mut w = World::new(1, 1, 0);
    for x in 0..64 {
        w.set_cell_stamped(&t, x, 60, 1, 0);
    }
    let mut p = Particles::new();
    for i in 0..10 {
        p.spawn(2, fx(20 + i), fx(5), Fx(0), Fx(0));
    }
    for tick in 0..60u8 {
        advance(&mut p, &mut w, &t, tick);
        assert_eq!(p.len() + w.count_material(2), 10);
    }
    assert_eq!(p.len(), 0);
    assert_eq!(w.count_material(2), 10);
}
