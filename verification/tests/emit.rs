use sand_core::emit::{emit_jitter, emit_salt, MAX_EMIT_JITTER_RAW};
use sand_core::fixed::Fx;
use sand_core::material::{Category, MaterialDef, MaterialTable};
use sand_core::rng;
use sand_core::world::{Op, World};

fn test_table() -> MaterialTable {
    let def = |id: u8, name: &str, category: Category, density: u16, hp: u32| {
        let mut d = MaterialDef::base(id, name, category, density);
        d.hp = hp;
        d.vaporize_threshold = 255;
        d
    };
    MaterialTable::new(vec![
        def(0, "air", Category::Static, 0, 0),
        def(1, "wall", Category::Static, 100, u32::MAX),
        def(2, "water", Category::Liquid, 16, 1),
        def(3, "sand", Category::Powder, 40, 2),
    ])
    .unwrap()
}

#[test]
fn emit_jitter_zero_jitter_is_always_zero() {
    assert_eq!(emit_jitter(0, Fx(0)), Fx(0));
    assert_eq!(emit_jitter(u32::MAX, Fx(0)), Fx(0));
    assert_eq!(emit_jitter(u32::MAX, Fx(-1)), Fx(0));
}

#[test]
fn emit_jitter_reaches_both_closed_bounds() {
    let jitter = Fx::from_int(1);
    assert_eq!(emit_jitter(0, jitter), -jitter);
    assert_eq!(emit_jitter(u32::MAX, jitter), jitter);
}

#[test]
fn emit_jitter_midpoint_is_near_zero() {
    let jitter = Fx::from_int(4);
    let mid = emit_jitter(1u32 << 31, jitter);
    assert!(mid.0.abs() <= 1, "midpoint maps near 0, got {}", mid.0);
}

#[test]
fn emit_produces_requested_count_with_unjittered_position() {
    let t = test_table();
    let mut w = World::new(1, 1, 0xABCD);
    let fseed = rng::frame_seed(w.seed, w.tick);
    let (ex, ey) = (Fx::from_int(10), Fx::from_int(10));
    let op = Op::Emit { material: 2, x: ex, y: ey, vx: Fx(0), vy: Fx(0), count: 5, jitter: Fx::from_int(1) };
    let mut spawns = Vec::new();
    w.apply_op(&t, &op, 0, fseed, 0, &mut spawns);
    assert_eq!(spawns.len(), 5);
    for s in &spawns {
        assert_eq!(s.material, 2);
        assert_eq!((s.x, s.y), (ex, ey));
    }
}

#[test]
fn emit_salt_differentiates_particles_and_attempt_differentiates_vx_vy() {
    let t = test_table();
    let mut w = World::new(2, 2, 0xABCD);
    let fseed = rng::frame_seed(w.seed, w.tick);
    let op = Op::Emit {
        material: 2,
        x: Fx::from_int(10),
        y: Fx::from_int(10),
        vx: Fx(0),
        vy: Fx(0),
        count: 8,
        jitter: Fx::from_int(2),
    };
    let mut spawns = Vec::new();
    w.apply_op(&t, &op, 0, fseed, 0, &mut spawns);
    assert_eq!(spawns.len(), 8);
    let mut vxs: Vec<i32> = spawns.iter().map(|s| s.vx.0).collect();
    vxs.sort();
    vxs.dedup();
    assert!(vxs.len() > 1, "{vxs:?}");
    assert!(spawns.iter().any(|s| s.vx.0 != s.vy.0));
}

#[test]
fn emit_is_deterministic_given_same_fseed() {
    let t = test_table();
    let mut w = World::new(1, 1, 42);
    let fseed = rng::frame_seed(w.seed, w.tick);
    let op = Op::Emit {
        material: 2,
        x: Fx::from_int(5),
        y: Fx::from_int(5),
        vx: Fx::from_ratio(1, 2),
        vy: Fx::from_ratio(1, 4),
        count: 4,
        jitter: Fx::from_int(1),
    };
    let mut a = Vec::new();
    let mut b = Vec::new();
    w.apply_op(&t, &op, 0, fseed, 0, &mut a);
    w.apply_op(&t, &op, 0, fseed, 0, &mut b);
    let av: Vec<(i32, i32)> = a.iter().map(|s| (s.vx.0, s.vy.0)).collect();
    let bv: Vec<(i32, i32)> = b.iter().map(|s| (s.vx.0, s.vy.0)).collect();
    assert_eq!(av, bv);
}

#[test]
fn emit_op_idx_differentiates_same_tick_same_cell_emits() {
    let t = test_table();
    let mut w = World::new(2, 2, 0xC0FFEE);
    let fseed = rng::frame_seed(w.seed, w.tick);
    let op = Op::Emit {
        material: 2,
        x: Fx::from_int(20),
        y: Fx::from_int(20),
        vx: Fx(0),
        vy: Fx(0),
        count: 6,
        jitter: Fx::from_int(3),
    };
    let mut a = Vec::new();
    let mut b = Vec::new();
    w.apply_op(&t, &op, 0, fseed, 0, &mut a);
    w.apply_op(&t, &op, 0, fseed, 1, &mut b);
    let av: Vec<(i32, i32)> = a.iter().map(|s| (s.vx.0, s.vy.0)).collect();
    let bv: Vec<(i32, i32)> = b.iter().map(|s| (s.vx.0, s.vy.0)).collect();
    assert_ne!(av, bv);
}

#[test]
fn emit_salt_differs_across_op_idx_for_same_particle_index() {
    assert_ne!(emit_salt(0, 3), emit_salt(1, 3));
    assert_ne!(emit_salt(0, 0), emit_salt(1, 0));
}

#[test]
fn emit_attempt_differentiates_setup_phase_from_tick_zero_step() {
    let t = test_table();
    let mut w = World::new(1, 1, 7);
    let fseed = rng::frame_seed(w.seed, w.tick);
    let op = Op::Emit {
        material: 2,
        x: Fx::from_int(8),
        y: Fx::from_int(8),
        vx: Fx(0),
        vy: Fx(0),
        count: 3,
        jitter: Fx::from_int(2),
    };
    const SETUP_STAMP: u8 = 255;
    let mut setup_spawns = Vec::new();
    let mut tick0_spawns = Vec::new();
    w.apply_op(&t, &op, SETUP_STAMP, fseed, 0, &mut setup_spawns);
    w.apply_op(&t, &op, 0, fseed, 0, &mut tick0_spawns);
    let sv: Vec<(i32, i32)> = setup_spawns.iter().map(|s| (s.vx.0, s.vy.0)).collect();
    let tv: Vec<(i32, i32)> = tick0_spawns.iter().map(|s| (s.vx.0, s.vy.0)).collect();
    assert_ne!(sv, tv);
}

#[test]
fn emit_jitter_at_max_bound_does_not_panic() {
    let jitter = Fx(MAX_EMIT_JITTER_RAW);
    let lo = emit_jitter(0, jitter);
    let hi = emit_jitter(u32::MAX, jitter);
    assert_eq!(lo, -jitter);
    assert_eq!(hi, jitter);
}

#[test]
fn emit_salt_exact_values() {
    assert_eq!(emit_salt(0, 0), 0);
    assert_eq!(emit_salt(0, 7), 7);
    assert_eq!(emit_salt(1, 7), (1u32 << 16) | 7);
}
