use sand_core::creature::CreatureTable;
use sand_core::fixed::Fx;
use sand_core::material::{Category, MaterialDef, MaterialTable, DISPERSION_MAX, MAT_AIR, MAT_WALL};
use sand_core::reaction::ReactionTable;
use sand_core::projectile::MAX_PROJECTILES;
use sand_core::spell::{SpellDef, SpellTable};
use sand_core::world::Op;
use sand_core::runner::{first_divergent, sampled_after, stream_hash, synctest_configs, HashStream};
use sand_core::{InitConfig, ScanMode, Sim};

const SAND: u8 = 2;
const WATER: u8 = 3;

fn test_table_with_water_dispersion(dispersion: u8) -> MaterialTable {
    let def = |id: u8, name: &str, category: Category, density: u16, hp: u32, disp: u8| {
        let mut d = MaterialDef::base(id, name, category, density);
        d.hp = hp;
        d.dispersion = disp;
        d
    };
    let mut wall = MaterialDef::base(1, "wall", Category::Static, 100);
    wall.hp = 100;
    wall.durability = 15;
    MaterialTable::new(vec![
        def(0, "air", Category::Static, 0, 0, 1),
        wall,
        def(SAND, "sand", Category::Powder, 40, 2, 1),
        def(WATER, "water", Category::Liquid, 16, 1, dispersion),
    ])
    .unwrap()
}

fn test_table() -> MaterialTable {
    test_table_with_water_dispersion(1)
}

fn sim_with_table(width_chunks: usize, height_chunks: usize, seed: u64, threads: usize, scan: ScanMode, table: MaterialTable) -> Sim {
    let cfg = InitConfig { width_chunks, height_chunks, seed, threads, scan };
    let reactions = ReactionTable::empty(&table);
    Sim::new(&cfg, table, reactions, CreatureTable::empty(), SpellTable::empty()).unwrap()
}

fn sim(width_chunks: usize, height_chunks: usize, seed: u64, threads: usize, scan: ScanMode) -> Sim {
    sim_with_table(width_chunks, height_chunks, seed, threads, scan, test_table())
}

fn floor_op(w: i32, h: i32) -> Op {
    Op::Fill { material: MAT_WALL, x0: 0, y0: h - 4, x1: w - 1, y1: h - 4 }
}

#[test]
fn particles_free_fall_and_land_conserving_count() {
    let mut s = sim(2, 2, 10, 1, ScanMode::LiveRect);
    s.apply_setup(&[floor_op(128, 128)]);
    let n: usize = 40;
    for i in 0..n {
        let x = Fx::from_int(10 + i as i32);
        s.queue_spawn(SAND, x, Fx::from_int(5), Fx(0), Fx(0));
    }
    s.step(&[], &[]);
    for _ in 0..200 {
        s.step(&[], &[]);
    }
    assert_eq!(s.particles().len(), 0);
    assert_eq!(s.world().count_material(SAND), n);
}

#[test]
fn particles_same_position_and_velocity_conflict_still_conserves_and_drains_pool() {
    let mut s = sim(2, 2, 11, 1, ScanMode::LiveRect);
    s.apply_setup(&[floor_op(128, 128)]);
    let n: usize = 40;
    for _ in 0..n {
        s.queue_spawn(SAND, Fx::from_int(64), Fx::from_int(5), Fx(0), Fx(0));
    }
    s.step(&[], &[]);
    for _ in 0..300 {
        s.step(&[], &[]);
    }
    assert_eq!(s.particles().len(), 0);
    assert_eq!(s.world().count_material(SAND), n);
}

fn spawn_batch(s: &mut Sim, tick: u64) {
    if tick < 400 && tick % 4 == 0 {
        for i in 0..6i32 {
            let jitter = Fx::from_ratio(i - 3, 4);
            s.queue_spawn(WATER, Fx::from_int(90 + (i % 3)), Fx::from_int(5), jitter, Fx::from_int(2));
        }
    }
}

#[test]
fn particle_phase_is_thread_count_and_scan_mode_invariant() {
    let configs = [
        (1usize, ScanMode::Full),
        (4, ScanMode::Full),
        (1, ScanMode::ChunkSleep),
        (4, ScanMode::ChunkSleep),
        (1, ScanMode::LiveRect),
        (4, ScanMode::LiveRect),
    ];
    let mut sims: Vec<_> = configs.iter().map(|&(t, sk)| sim(3, 2, 0xBEEF, t, sk)).collect();
    let setup = [floor_op(192, 128)];
    for s in &mut sims {
        s.apply_setup(&setup);
    }
    for tick in 0..600u64 {
        for s in &mut sims {
            spawn_batch(s, tick);
        }
        for s in &mut sims {
            s.step(&[], &[]);
        }
        let h0 = sims[0].state_hash();
        for (i, s) in sims.iter().enumerate().skip(1) {
            assert_eq!(s.state_hash(), h0, "tick {tick}: {:?} vs {:?}", configs[i], configs[0]);
        }
    }
}

#[test]
fn sand_falls_straight_down() {
    let mut s = sim(2, 2, 1, 1, ScanMode::LiveRect);
    s.apply_setup(&[Op::Brush { material: SAND, x: 40, y: 10, r: 0 }]);
    s.step(&[], &[]);
    assert_eq!(s.world().cell(40, 10).material(), MAT_AIR);
    assert_eq!(s.world().cell(40, 11).material(), SAND);
    for _ in 0..5 {
        s.step(&[], &[]);
        for x in 0..128 {
            for y in 0..128 {
                if s.world().cell(x, y).material() == SAND {
                    assert_eq!(x, 40);
                    assert!(y > 10);
                }
            }
        }
    }
}

#[test]
fn sand_piles_and_is_conserved() {
    let mut s = sim(2, 2, 2, 1, ScanMode::LiveRect);
    s.apply_setup(&[floor_op(128, 128)]);
    for t in 0..400u64 {
        let ops = if t % 2 == 0 && t < 240 { vec![Op::Brush { material: SAND, x: 64, y: 8, r: 1 }] } else { vec![] };
        s.step(&ops, &[]);
    }
    let n = s.world().count_material(SAND);
    assert!(n > 0);
    for x in 0..128 {
        for y in 125..128 {
            assert_ne!(s.world().cell(x, y).material(), SAND, "({x},{y})");
        }
    }
    s.step(&[], &[]);
    assert_eq!(s.world().count_material(SAND), n);
}

#[test]
fn sand_sinks_in_water() {
    let mut s = sim(2, 2, 3, 1, ScanMode::LiveRect);
    s.apply_setup(&[
        floor_op(128, 128),
        Op::Fill { material: WATER, x0: 50, y0: 110, x1: 78, y1: 123 },
        Op::Brush { material: SAND, x: 64, y: 100, r: 1 },
    ]);
    for _ in 0..200 {
        s.step(&[], &[]);
    }
    let mut sand_seen = false;
    for y in 0..127 {
        for x in 0..128 {
            if s.world().cell(x, y).material() == SAND {
                sand_seen = true;
                assert_ne!(s.world().cell(x, y + 1).material(), WATER, "({x},{y})");
            }
        }
    }
    assert!(sand_seen);
}

#[test]
fn water_levels_out_across_chunk_seam() {
    let mut s = sim(3, 2, 4, 1, ScanMode::LiveRect);
    s.apply_setup(&[
        floor_op(192, 128),
        Op::Fill { material: MAT_WALL, x0: 0, y0: 80, x1: 0, y1: 123 },
        Op::Fill { material: MAT_WALL, x0: 191, y0: 80, x1: 191, y1: 123 },
        Op::Fill { material: WATER, x0: 30, y0: 90, x1: 45, y1: 123 },
    ]);
    let n0 = s.world().count_material(WATER);
    for _ in 0..1200 {
        s.step(&[], &[]);
    }
    assert_eq!(s.world().count_material(WATER), n0);
    let mut min_surface = i32::MAX;
    let mut max_surface = 0;
    for x in 1..191 {
        for y in 0..124 {
            if s.world().cell(x, y).material() == WATER {
                min_surface = min_surface.min(y);
                break;
            }
        }
    }
    for x in 1..191 {
        let mut top = None;
        for y in 0..124 {
            if s.world().cell(x, y).material() == WATER {
                top = Some(y);
                break;
            }
        }
        if let Some(t) = top {
            max_surface = max_surface.max(t);
        }
    }
    assert!(max_surface - min_surface <= 2, "[{min_surface},{max_surface}]");
}

#[test]
fn water_direction_commitment() {
    let mut s = sim(2, 2, 5, 1, ScanMode::LiveRect);
    s.apply_setup(&[
        floor_op(128, 128),
        Op::Fill { material: MAT_WALL, x0: 20, y0: 100, x1: 20, y1: 123 },
        Op::Brush { material: WATER, x: 24, y: 123, r: 0 },
    ]);
    let mut positions = vec![];
    for _ in 0..30 {
        s.step(&[], &[]);
        for x in 0..128 {
            if s.world().cell(x, 123).material() == WATER {
                positions.push(x);
            }
        }
    }
    let last = *positions.last().unwrap();
    assert!(last > 24, "{last} {positions:?}");
    let pingpong = positions.windows(4).any(|w| w[0] == w[2] && w[1] == w[3] && w[0] != w[1]);
    assert!(!pingpong, "{positions:?}");
}

#[test]
fn water_disperses_to_farthest_reachable_air_cell() {
    let mut s = sim_with_table(2, 2, 7, 1, ScanMode::LiveRect, test_table_with_water_dispersion(5));
    s.apply_setup(&[floor_op(128, 128), Op::Brush { material: WATER, x: 100, y: 123, r: 0 }]);
    s.step(&[], &[]);
    assert_eq!(s.world().cell(100, 123).material(), MAT_AIR);
    assert_eq!(s.world().cell(95, 123).material(), WATER);
}

#[test]
fn water_dispersion_stops_at_first_obstacle() {
    let mut s = sim_with_table(2, 2, 8, 1, ScanMode::LiveRect, test_table_with_water_dispersion(5));
    s.apply_setup(&[
        floor_op(128, 128),
        Op::Fill { material: MAT_WALL, x0: 97, y0: 123, x1: 97, y1: 123 },
        Op::Brush { material: WATER, x: 100, y: 123, r: 0 },
    ]);
    s.step(&[], &[]);
    assert_eq!(s.world().cell(98, 123).material(), WATER);
    assert_eq!(s.world().cell(97, 123).material(), MAT_WALL);
}

#[test]
fn water_dispersion_preserves_direction_commitment() {
    let mut s = sim_with_table(2, 2, 9, 1, ScanMode::LiveRect, test_table_with_water_dispersion(5));
    s.apply_setup(&[floor_op(128, 128), Op::Brush { material: WATER, x: 100, y: 123, r: 0 }]);
    s.step(&[], &[]);
    assert_eq!(s.world().cell(95, 123).dir(), -1);
    let mut s = sim_with_table(2, 2, 10, 1, ScanMode::LiveRect, test_table_with_water_dispersion(5));
    s.apply_setup(&[
        floor_op(128, 128),
        Op::Fill { material: MAT_WALL, x0: 99, y0: 123, x1: 99, y1: 123 },
        Op::Brush { material: WATER, x: 100, y: 123, r: 0 },
    ]);
    s.step(&[], &[]);
    assert_eq!(s.world().cell(105, 123).material(), WATER);
    assert_eq!(s.world().cell(105, 123).dir(), 1);
}

#[test]
fn water_dispersion_is_clamped_to_max_inside_core() {
    let mut s = sim_with_table(2, 2, 11, 1, ScanMode::LiveRect, test_table_with_water_dispersion(20));
    s.apply_setup(&[floor_op(128, 128), Op::Brush { material: WATER, x: 100, y: 123, r: 0 }]);
    s.step(&[], &[]);
    let landed = (0..128).find(|&x| s.world().cell(x, 123).material() == WATER).unwrap();
    assert_eq!(landed, 100 - DISPERSION_MAX as i32);
}

#[test]
fn water_with_default_dispersion_moves_exactly_one_cell() {
    let mut s = sim(2, 2, 12, 1, ScanMode::LiveRect);
    s.apply_setup(&[floor_op(128, 128), Op::Brush { material: WATER, x: 100, y: 123, r: 0 }]);
    s.step(&[], &[]);
    assert_eq!(s.world().cell(99, 123).material(), WATER);
}

#[test]
fn higher_dispersion_levels_water_faster() {
    fn ticks_to_spread(dispersion: u8, budget: u32) -> Option<u32> {
        let mut s = sim_with_table(3, 2, 4, 1, ScanMode::LiveRect, test_table_with_water_dispersion(dispersion));
        s.apply_setup(&[
            floor_op(192, 128),
            Op::Fill { material: MAT_WALL, x0: 0, y0: 80, x1: 0, y1: 123 },
            Op::Fill { material: MAT_WALL, x0: 191, y0: 80, x1: 191, y1: 123 },
            Op::Fill { material: WATER, x0: 30, y0: 90, x1: 45, y1: 123 },
        ]);
        for t in 1..=budget {
            s.step(&[], &[]);
            let top = (1..191).filter_map(|x| (0..124).find(|&y| s.world().cell(x, y).material() == WATER)).min();
            if top.is_some_and(|t| t >= 118) {
                return Some(t);
            }
        }
        None
    }
    let slow = ticks_to_spread(1, 3000).expect("dispersion 1 levels within 3000 ticks");
    let fast = ticks_to_spread(5, 3000).expect("dispersion 5 levels within 3000 ticks");
    assert!(fast < slow, "{fast} vs {slow}");
}

#[test]
fn falling_sand_starts_at_exactly_one_cell_per_tick() {
    let mut s = sim(2, 2, 21, 1, ScanMode::LiveRect);
    s.apply_setup(&[Op::Brush { material: SAND, x: 40, y: 10, r: 0 }]);
    for t in 1..=4i32 {
        s.step(&[], &[]);
        assert_eq!(s.world().cell(40, 10 + t).material(), SAND, "tick {t}");
    }
}

#[test]
fn fast_fall_does_not_tunnel_through_thin_floor() {
    let mut s = sim(2, 2, 25, 1, ScanMode::LiveRect);
    s.apply_setup(&[
        Op::Fill { material: MAT_WALL, x0: 0, y0: 60, x1: 127, y1: 60 },
        Op::Brush { material: SAND, x: 40, y: 2, r: 0 },
    ]);
    for _ in 0..120 {
        s.step(&[], &[]);
    }
    assert_eq!(s.world().cell(40, 59).material(), SAND);
    assert_eq!(s.world().cell(40, 60).material(), MAT_WALL);
    for y in 61..128 {
        assert_ne!(s.world().cell(40, y).material(), SAND, "y={y}");
    }
}

#[test]
fn resting_pile_lets_every_chunk_sleep() {
    let mut s = sim(2, 2, 26, 1, ScanMode::LiveRect);
    s.apply_setup(&[floor_op(128, 128), Op::Fill { material: SAND, x0: 40, y0: 118, x1: 80, y1: 123 }]);
    for _ in 0..400 {
        s.step(&[], &[]);
    }
    for (ci, c) in s.world().chunks.iter().enumerate() {
        assert!(c.dirty.is_empty(), "chunk {ci}: {:?}", c.dirty);
        assert!(c.next_dirty.snapshot().is_empty(), "chunk {ci}: {:?}", c.next_dirty.snapshot());
    }
}

#[test]
fn fast_water_at_max_dispersion_stays_inside_write_window() {
    let mut s = sim_with_table(3, 2, 27, 1, ScanMode::LiveRect, test_table_with_water_dispersion(DISPERSION_MAX));
    s.apply_setup(&[
        floor_op(192, 128),
        Op::Fill { material: MAT_WALL, x0: 0, y0: 60, x1: 0, y1: 123 },
        Op::Fill { material: MAT_WALL, x0: 191, y0: 60, x1: 191, y1: 123 },
        Op::Fill { material: WATER, x0: 60, y0: 2, x1: 100, y1: 40 },
        Op::Fill { material: SAND, x0: 120, y0: 2, x1: 140, y1: 20 },
    ]);
    for _ in 0..300 {
        s.step(&[], &[]);
    }
    assert!(s.world().count_material(WATER) > 0);
}

#[test]
fn sim_tick_advances_and_hashes_are_stable() {
    let mut a = sim(2, 2, 99, 1, ScanMode::Full);
    let mut b = sim(2, 2, 99, 1, ScanMode::ChunkSleep);
    assert_eq!(a.tick(), 0);
    assert_eq!(a.state_hash(), b.state_hash());
    let ops = [Op::Explode { x: 64, y: 64, r: 4, power: 50 }, Op::Brush { material: SAND, x: 64, y: 60, r: 3 }];
    a.apply_setup(&[floor_op(128, 128)]);
    b.apply_setup(&[floor_op(128, 128)]);
    for _ in 0..50 {
        a.step(&ops, &[]);
        b.step(&ops, &[]);
        assert_eq!(a.state_hash(), b.state_hash());
        assert_eq!(a.grid_hash(), b.grid_hash());
    }
    assert_eq!(a.tick(), 50);
    assert!(a.particles().len() > 0 || a.world().count_material(SAND) > 0);
}

fn bolt_table() -> SpellTable {
    SpellTable::from_defs(vec![
        SpellDef::test_bolt("bolt", 5_000, Fx::from_int(2), Fx::from_int(8), 120, 4),
        SpellDef::test_bolt("shortlived", 5_000, Fx::zero(), Fx::from_int(8), 5, 4),
    ])
}

fn arena_wide_open(spells: SpellTable) -> Sim {
    let table = test_table();
    let cfg = InitConfig { width_chunks: 4, height_chunks: 2, seed: 42, threads: 1, scan: ScanMode::LiveRect };
    let reactions = ReactionTable::empty(&table);
    let mut sim = Sim::new(&cfg, table, reactions, CreatureTable::empty(), spells).unwrap();
    sim.apply_setup(&[
        Op::Fill { material: MAT_WALL, x0: 0, y0: 0, x1: 255, y1: 0 },
        Op::Fill { material: MAT_WALL, x0: 0, y0: 127, x1: 255, y1: 127 },
        Op::Fill { material: MAT_WALL, x0: 0, y0: 0, x1: 0, y1: 127 },
        Op::Fill { material: MAT_WALL, x0: 255, y0: 0, x1: 255, y1: 127 },
    ]);
    sim
}

fn shoot(sim: &mut Sim, spell: u8, x: i32, y: i32, vx: Fx, vy: Fx, owner: u8) -> bool {
    let half = Fx::from_ratio(1, 2);
    let (px, py) = (Fx::from_int(x) + half, Fx::from_int(y) + half);
    sim.queue_projectile(spell, px, py, vx, vy, owner)
}

#[test]
fn projectile_behavior_spawn_beyond_capacity_is_rejected_deterministically() {
    let mut sim = arena_wide_open(bolt_table());
    for _ in 0..MAX_PROJECTILES + 10 {
        shoot(&mut sim, 0, 100, 64, Fx::zero(), Fx::zero(), 255);
    }
    assert_eq!(sim.projectiles().len(), MAX_PROJECTILES);
}

#[test]
fn queue_projectile_takes_life_grace_and_bounces_from_the_spell() {
    let mut sim = arena_wide_open(bolt_table());
    assert!(shoot(&mut sim, 1, 100, 64, Fx::from_int(3), Fx::zero(), 7));
    let p = sim.projectiles();
    assert_eq!(p.len(), 1);
    assert_eq!(p.spell(0), 1);
    assert_eq!(p.life(0), 5);
    assert_eq!(p.energy(0), 0);
    assert_eq!(p.owner(0), 7);
    assert_eq!(p.bounces(0), 0);
    assert_eq!(p.x(0), Fx::from_int(100) + Fx::from_ratio(1, 2));
    assert_eq!(p.vx(0), Fx::from_int(3));
    assert_eq!(p.rejected_total(), 0);
}

#[test]
fn projectile_flies_straight_and_dies_on_wall() {
    let mut sim = arena_wide_open(bolt_table());
    shoot(&mut sim, 0, 10, 64, Fx::from_int(8), Fx::zero(), 255);
    for _ in 0..60 {
        sim.step(&[], &[]);
    }
    assert_eq!(sim.projectiles().len(), 0);
}

#[test]
fn projectile_dies_when_lifetime_runs_out() {
    let mut sim = arena_wide_open(bolt_table());
    shoot(&mut sim, 1, 100, 64, Fx::zero(), Fx::zero(), 255);
    for _ in 0..6 {
        sim.step(&[], &[]);
    }
    assert_eq!(sim.projectiles().len(), 0);
}

#[test]
fn projectile_moves_exactly_once_per_tick() {
    let mut sim = arena_wide_open(bolt_table());
    shoot(&mut sim, 0, 10, 64, Fx::from_int(8), Fx::zero(), 255);
    let x0 = sim.projectiles().x(0);
    sim.step(&[], &[]);
    let x1 = sim.projectiles().x(0);
    assert_eq!(x1 - x0, Fx::from_int(8));
}

#[test]
fn projectile_life_and_grace_count_down_while_flying() {
    let mut sim = arena_wide_open(bolt_table());
    shoot(&mut sim, 0, 10, 64, Fx::from_int(1), Fx::zero(), 3);
    sim.step(&[], &[]);
    sim.step(&[], &[]);
    let p = sim.projectiles();
    assert_eq!(p.len(), 1);
    assert_eq!(p.life(0), 118);
    assert_eq!(p.x(0), Fx::from_int(12) + Fx::from_ratio(1, 2));
}

#[test]
fn projectile_outside_the_world_is_removed() {
    let mut sim = arena_wide_open(bolt_table());
    shoot(&mut sim, 0, 250, 64, Fx::from_int(20), Fx::zero(), 255);
    shoot(&mut sim, 0, 100, 64, Fx::zero(), Fx::from_int(-100), 255);
    sim.step(&[], &[]);
    assert_eq!(sim.projectiles().len(), 0);
}

#[test]
fn entity_hash_sees_projectiles() {
    let mut a = arena_wide_open(bolt_table());
    let b = arena_wide_open(bolt_table());
    assert_eq!(a.entity_hash(), b.entity_hash());
    assert_eq!(a.state_hash(), b.state_hash());
    shoot(&mut a, 1, 100, 64, Fx::from_int(3), Fx::zero(), 7);
    assert_ne!(a.entity_hash(), b.entity_hash(), "a projectile changes the entity hash");
    assert_eq!(a.state_hash(), b.state_hash(), "the grid and particles are untouched");
}

#[test]
fn hash_stream_samples_every_interval() {
    assert!(sampled_after(256, 256));
    assert!(!sampled_after(256, 255));
    assert!(sampled_after(1, 7));
    assert!(sampled_after(256, 0));
}

#[test]
fn stream_hash_picks_grid_root_or_state_hash() {
    let sim = arena_wide_open(bolt_table());
    assert_eq!(stream_hash(&sim, HashStream { grid_only: true, every: 1 }), sim.grid_hash());
    assert_eq!(stream_hash(&sim, HashStream::default()), sim.state_hash());
}

#[test]
fn synctest_configs_cover_both_thread_counts_and_all_scan_modes() {
    let c = synctest_configs(4);
    assert_eq!(c.len(), 6);
    assert_eq!((c[0].0, c[0].1), (1, ScanMode::Full));
    assert_eq!((c[1].0, c[1].1), (4, ScanMode::Full));
    assert_eq!((c[3].0, c[3].1), (4, ScanMode::ChunkSleep));
    assert_eq!((c[5].0, c[5].1), (4, ScanMode::LiveRect));
}

#[test]
fn first_divergent_names_the_first_disagreeing_configuration() {
    let sims = vec![arena_wide_open(bolt_table()), arena_wide_open(bolt_table()), arena_wide_open(bolt_table())];
    assert_eq!(first_divergent(&sims), None);
    let mut sims = sims;
    shoot(&mut sims[2], 1, 100, 64, Fx::from_int(3), Fx::zero(), 7);
    assert_eq!(first_divergent(&sims), Some(2), "a projectile alone is a divergence");
}
