use sand_core::explode::{
    circle_offsets, explode_jitter, explode_speed, fire_ray, ray_fluct, REF_BLAST_DENSITY,
};
use sand_core::fixed::{isqrt, Fx};
use sand_core::material::{Category, MaterialDef, MaterialTable, MAT_AIR};
use sand_core::rng;
use sand_core::world::{Op, SpawnRequest, World};

fn mat(id: u8, name: &str, category: Category, density: u16, hp: u32, vaporize_threshold: u8) -> MaterialDef {
    let mut d = MaterialDef::base(id, name, category, density);
    d.hp = hp;
    d.vaporize_threshold = vaporize_threshold;
    d
}

fn test_table() -> MaterialTable {
    MaterialTable::new(vec![
        mat(0, "air", Category::Static, 0, 0, 255),
        mat(1, "wall", Category::Static, 100, u32::MAX, 255),
        mat(2, "water", Category::Liquid, 16, 1, 255),
        mat(3, "sand", Category::Powder, 40, 2, 255),
    ])
    .unwrap()
}

#[test]
fn circle_offsets_r0_is_center_only() {
    assert_eq!(circle_offsets(0), vec![(0, 0)]);
    assert_eq!(circle_offsets(-3), vec![(0, 0)]);
}

#[test]
fn circle_offsets_is_deterministic_across_repeated_calls() {
    for r in [1, 2, 3, 5, 8, 13, 20, 50] {
        assert_eq!(circle_offsets(r), circle_offsets(r), "r={r}");
    }
}

#[test]
fn circle_offsets_has_no_duplicate_cells() {
    for r in 1..=40 {
        let offs = circle_offsets(r);
        let mut sorted = offs.clone();
        sorted.sort();
        sorted.dedup();
        assert_eq!(sorted.len(), offs.len(), "r={r}: {offs:?}");
    }
}

#[test]
fn circle_offsets_every_point_within_one_cell_of_radius() {
    for r in [1, 5, 12, 30] {
        for (dx, dy) in circle_offsets(r) {
            let dist_sq = (dx as i64) * (dx as i64) + (dy as i64) * (dy as i64);
            let dist = isqrt(dist_sq as u64) as i64;
            assert!((dist - r as i64).abs() <= 1, "r={r} ({dx},{dy}) at {dist}");
        }
    }
}

#[test]
fn circle_offsets_r1_matches_four_axis_neighbors() {
    let mut offs = circle_offsets(1);
    offs.sort();
    let mut want = vec![(1, 0), (-1, 0), (0, 1), (0, -1)];
    want.sort();
    assert_eq!(offs, want);
}

#[test]
fn fire_ray_speed_decays_monotonically_outward_along_axis() {
    let t = test_table();
    let mut w = World::new(1, 1, 0xABC);
    let (cx, cy) = (10, 10);
    for dx in 1..=6 {
        w.set_cell_stamped(&t, cx + dx, cy, 3, 0);
    }
    let fseed = rng::frame_seed(w.seed, w.tick);
    let mut spawns = Vec::new();
    fire_ray(&mut w, &t, cx, cy, 8, 0, 16, u32::MAX, 0, fseed, 0, &mut spawns);
    assert_eq!(spawns.len(), 6, "{spawns:?}");
    for i in 0..6i32 {
        assert_eq!(w.cell(cx + 1 + i, cy).material(), MAT_AIR);
    }
    for i in 0..spawns.len() - 2 {
        assert!(spawns[i].vx.0 > spawns[i + 2].vx.0);
    }
}

#[test]
fn fire_ray_stops_at_wall_shields_cells_behind_and_does_not_destroy_wall() {
    let t = test_table();
    let mut w = World::new(1, 1, 0);
    let (cx, cy) = (10, 10);
    w.set_cell_stamped(&t, cx + 3, cy, 1, 0);
    w.set_cell_stamped(&t, cx + 4, cy, 3, 0);
    let fseed = rng::frame_seed(w.seed, w.tick);
    let mut spawns = Vec::new();
    fire_ray(&mut w, &t, cx, cy, 8, 0, 1000, u32::MAX, 0, fseed, 0, &mut spawns);
    assert_eq!(w.cell(cx + 3, cy).material(), 1);
    assert_eq!(w.cell(cx + 4, cy).material(), 3);
    assert!(spawns.is_empty());
}

#[test]
fn fire_ray_already_air_cells_cost_zero_and_do_not_respawn() {
    let t = test_table();
    let mut w = World::new(1, 1, 0);
    let fseed = rng::frame_seed(w.seed, w.tick);
    let mut spawns = Vec::new();
    fire_ray(&mut w, &t, 10, 10, 8, 0, 5, u32::MAX, 0, fseed, 0, &mut spawns);
    assert!(spawns.is_empty());
}

fn vaporize_boundary_table() -> MaterialTable {
    MaterialTable::new(vec![
        mat(0, "air", Category::Static, 40, 0, 255),
        mat(1, "wall", Category::Static, 40, u32::MAX, 255),
        mat(2, "target_at_threshold", Category::Powder, 40, 127, 128),
        mat(3, "target_above_threshold", Category::Powder, 40, 126, 128),
    ])
    .unwrap()
}

#[test]
fn fire_ray_vaporize_boundary_remaining_at_threshold_does_not_vaporize() {
    let t = vaporize_boundary_table();
    let mut w = World::new(1, 1, 0);
    let (cx, cy) = (10, 10);
    w.set_cell_stamped(&t, cx, cy, 2, 0);
    let fseed = rng::frame_seed(w.seed, w.tick);
    let mut spawns = Vec::new();
    fire_ray(&mut w, &t, cx, cy, 1, 0, 255, u32::MAX, 0, fseed, 0, &mut spawns);
    assert_eq!(spawns.len(), 1);
    assert_eq!(w.vaporized_total(), 0);
    assert_eq!(w.cell(cx, cy).material(), MAT_AIR);
}

#[test]
fn fire_ray_vaporize_boundary_remaining_just_above_threshold_vaporizes() {
    let t = vaporize_boundary_table();
    let mut w = World::new(1, 1, 0);
    let (cx, cy) = (10, 10);
    w.set_cell_stamped(&t, cx, cy, 3, 0);
    let fseed = rng::frame_seed(w.seed, w.tick);
    let mut spawns = Vec::new();
    fire_ray(&mut w, &t, cx, cy, 1, 0, 255, u32::MAX, 0, fseed, 0, &mut spawns);
    assert!(spawns.is_empty());
    assert_eq!(w.vaporized_total(), 1);
    assert_eq!(w.cell(cx, cy).material(), MAT_AIR);
}

#[test]
fn fire_ray_default_threshold_255_never_vaporizes_even_at_remaining_equals_power() {
    let t = MaterialTable::new(vec![
        mat(0, "air", Category::Static, 40, 0, 255),
        mat(1, "wall", Category::Static, 40, u32::MAX, 255),
        mat(2, "target_zero_cost", Category::Powder, 40, 0, 255),
    ])
    .unwrap();
    let mut w = World::new(1, 1, 0);
    let (cx, cy) = (10, 10);
    w.set_cell_stamped(&t, cx, cy, 2, 0);
    let fseed = rng::frame_seed(w.seed, w.tick);
    let mut spawns = Vec::new();
    fire_ray(&mut w, &t, cx, cy, 1, 0, 1000, u32::MAX, 0, fseed, 0, &mut spawns);
    assert_eq!(spawns.len(), 1);
    assert_eq!(w.vaporized_total(), 0);
}

fn explode_spawn_positions(spawns: &[SpawnRequest]) -> Vec<(i32, i32)> {
    let mut v: Vec<(i32, i32)> = spawns.iter().map(|s| (s.x.to_cell(), s.y.to_cell())).collect();
    v.sort();
    v
}

#[test]
fn explode_center_cell_is_destroyed_when_r_at_least_one() {
    let t = test_table();
    let mut w = World::new(1, 1, 0);
    let (cx, cy) = (30, 30);
    w.set_cell_stamped(&t, cx, cy, 3, 0);
    let fseed = rng::frame_seed(w.seed, w.tick);
    let op = Op::Explode { x: cx, y: cy, r: 3, power: 50 };
    let mut spawns = Vec::new();
    w.apply_op(&t, &op, 0, fseed, 0, &mut spawns);
    assert_eq!(w.cell(cx, cy).material(), MAT_AIR);
    assert!(explode_spawn_positions(&spawns).contains(&(cx, cy)));
}

#[test]
fn explode_thin_wall_shields_sand_behind_it() {
    let t = test_table();
    let mut w = World::new(2, 2, 0);
    let (cx, cy) = (60, 60);
    w.set_cell_stamped(&t, cx + 4, cy, 1, 0);
    for dx in 5..=9 {
        w.set_cell_stamped(&t, cx + dx, cy, 3, 0);
    }
    let fseed = rng::frame_seed(w.seed, w.tick);
    let op = Op::Explode { x: cx, y: cy, r: 12, power: 10_000 };
    let mut spawns = Vec::new();
    w.apply_op(&t, &op, 0, fseed, 0, &mut spawns);
    assert_eq!(w.cell(cx + 4, cy).material(), 1);
    for dx in 5..=9 {
        assert_eq!(w.cell(cx + dx, cy).material(), 3);
    }
}

#[test]
fn explode_pit_conservation_destroyed_cells_equal_spawn_count() {
    let t = test_table();
    let mut w = World::new(2, 2, 0);
    let (cx, cy) = (60, 60);
    let r = 6;
    for dy in -(r + 1)..=(r + 1) {
        for dx in -(r + 1)..=(r + 1) {
            w.set_cell_stamped(&t, cx + dx, cy + dy, 3, 0);
        }
    }
    let before = w.count_material(3);
    let fseed = rng::frame_seed(w.seed, w.tick);
    let op = Op::Explode { x: cx, y: cy, r, power: 1000 };
    let mut spawns = Vec::new();
    w.apply_op(&t, &op, 0, fseed, 0, &mut spawns);
    let after = w.count_material(3);
    let destroyed = before - after;
    assert!(destroyed > 0);
    assert_eq!(destroyed, spawns.len() + w.vaporized_total() as usize);
    let positions = explode_spawn_positions(&spawns);
    let mut dedup = positions.clone();
    dedup.dedup();
    assert_eq!(dedup.len(), positions.len());
    for &(x, y) in &positions {
        assert_eq!(w.cell(x, y).material(), MAT_AIR);
    }
}

fn mixed_vaporize_table() -> MaterialTable {
    MaterialTable::new(vec![
        mat(0, "air", Category::Static, 0, 0, 255),
        mat(1, "wall", Category::Static, 100, u32::MAX, 255),
        mat(2, "water", Category::Liquid, 16, 1, 102),
        mat(3, "sand", Category::Powder, 40, 2, 179),
    ])
    .unwrap()
}

#[test]
fn explode_mixed_water_sand_target_vaporizes_more_water_than_sand() {
    let t = mixed_vaporize_table();
    let mut w = World::new(2, 2, 0);
    let (cx, cy) = (60, 60);
    let r = 24;
    for dy in -(r + 2)..=(r + 2) {
        for dx in -(r + 2)..=(r + 2) {
            let m = if dx <= 0 { 2 } else { 3 };
            w.set_cell_stamped(&t, cx + dx, cy + dy, m, 0);
        }
    }
    let before_water = w.count_material(2);
    let before_sand = w.count_material(3);
    let fseed = rng::frame_seed(w.seed, w.tick);
    let op = Op::Explode { x: cx, y: cy, r, power: 100 };
    let mut spawns = Vec::new();
    w.apply_op(&t, &op, 0, fseed, 0, &mut spawns);
    let destroyed_water = before_water - w.count_material(2);
    let destroyed_sand = before_sand - w.count_material(3);
    let spawn_water = spawns.iter().filter(|s| s.material == 2).count();
    let spawn_sand = spawns.iter().filter(|s| s.material == 3).count();
    let vaporized_water = destroyed_water - spawn_water;
    let vaporized_sand = destroyed_sand - spawn_sand;
    assert!(destroyed_water > 0 && destroyed_sand > 0);
    assert!(vaporized_water > 0);
    assert!(spawn_sand > 0);
    assert!(vaporized_water * destroyed_sand > vaporized_sand * destroyed_water);
}

#[test]
fn explode_zero_power_is_a_no_op() {
    let t = test_table();
    let mut w = World::new(1, 1, 0);
    let (cx, cy) = (10, 10);
    w.set_cell_stamped(&t, cx, cy, 3, 0);
    let fseed = rng::frame_seed(w.seed, w.tick);
    let op = Op::Explode { x: cx, y: cy, r: 5, power: 0 };
    let mut spawns = Vec::new();
    w.apply_op(&t, &op, 0, fseed, 0, &mut spawns);
    assert_eq!(w.cell(cx, cy).material(), 3);
    assert!(spawns.is_empty());
}

#[test]
fn explode_repeated_application_is_deterministic() {
    let t = test_table();
    let (cx, cy) = (60, 60);
    let build = || {
        let mut w = World::new(2, 2, 0x77);
        for dy in -4..=4 {
            for dx in -4..=4 {
                w.set_cell_stamped(&t, cx + dx, cy + dy, 3, 0);
            }
        }
        w
    };
    let mut wa = build();
    let mut wb = build();
    let fseed = rng::frame_seed(wa.seed, wa.tick);
    let op = Op::Explode { x: cx, y: cy, r: 4, power: 40 };
    let mut a = Vec::new();
    wa.apply_op(&t, &op, 0, fseed, 0, &mut a);
    let mut b = Vec::new();
    wb.apply_op(&t, &op, 0, fseed, 0, &mut b);
    let av: Vec<(i32, i32, i32, i32)> = a.iter().map(|s| (s.x.0, s.y.0, s.vx.0, s.vy.0)).collect();
    let bv: Vec<(i32, i32, i32, i32)> = b.iter().map(|s| (s.x.0, s.y.0, s.vx.0, s.vy.0)).collect();
    assert_eq!(av, bv);
}

#[test]
fn explode_same_tick_two_explodes_have_different_jitter_sequences() {
    let t = test_table();
    let (cx, cy) = (60, 60);
    let build = || {
        let mut w = World::new(2, 2, 0xC0FFEE);
        for dy in -3..=3 {
            for dx in -3..=3 {
                w.set_cell_stamped(&t, cx + dx, cy + dy, 3, 0);
            }
        }
        w
    };
    let mut wa = build();
    let mut wb = build();
    let fseed = rng::frame_seed(wa.seed, wa.tick);
    let op = Op::Explode { x: cx, y: cy, r: 3, power: 30 };
    let mut a = Vec::new();
    wa.apply_op(&t, &op, 0, fseed, 0, &mut a);
    let mut b = Vec::new();
    wb.apply_op(&t, &op, 0, fseed, 1, &mut b);
    let av: Vec<(i32, i32)> = a.iter().map(|s| (s.vx.0, s.vy.0)).collect();
    let bv: Vec<(i32, i32)> = b.iter().map(|s| (s.vx.0, s.vy.0)).collect();
    assert_ne!(av, bv);
}

#[test]
fn explode_jitter_matches_from_ratio_one_half() {
    assert_eq!(explode_jitter(), Fx::from_ratio(1, 2));
}

#[test]
fn explode_speed_matches_from_int_eight() {
    assert_eq!(explode_speed(), Fx::from_int(8));
}

#[test]
fn ray_fluct_mapping_bounds() {
    assert_eq!(ray_fluct(200, 0, true), 150);
    assert_eq!(ray_fluct(200, u32::MAX, true), 250);
    assert_eq!(ray_fluct(200, 0, false), 150);
    assert_eq!(ray_fluct(200, u32::MAX, false), 200);
    assert_eq!(ray_fluct(3, 0, true), 3);
    assert_eq!(ray_fluct(1, 0, true), 1);
}

#[test]
fn fire_ray_max_cells_caps_ray_length() {
    let t = test_table();
    let mut w = World::new(1, 1, 0);
    let (cx, cy) = (10, 10);
    for dx in 1..=8 {
        w.set_cell_stamped(&t, cx + dx, cy, 3, 0);
    }
    let fseed = rng::frame_seed(w.seed, w.tick);
    let mut spawns = Vec::new();
    fire_ray(&mut w, &t, cx, cy, 9, 0, 1000, 4, 0, fseed, 0, &mut spawns);
    assert_eq!(spawns.len(), 3);
    assert_eq!(w.cell(cx + 3, cy).material(), MAT_AIR);
    assert_eq!(w.cell(cx + 4, cy).material(), 3);
}

#[test]
fn explode_crater_is_not_perfectly_circular() {
    let t = test_table();
    let mut w = World::new(2, 2, 0x77);
    for y in 32..96 {
        for x in 32..96 {
            w.set_cell_stamped(&t, x, y, 3, 0);
        }
    }
    let fseed = rng::frame_seed(w.seed, w.tick);
    let mut spawns = Vec::new();
    w.apply_op(&t, &Op::Explode { x: 64, y: 64, r: 16, power: 1000 }, 0, fseed, 0, &mut spawns);
    let extent = |sx: i32, sy: i32| -> i32 {
        let mut d = 0;
        while w.cell(64 + sx * (d + 1), 64 + sy * (d + 1)).material() == MAT_AIR {
            d += 1;
        }
        d
    };
    let exts = [extent(1, 0), extent(-1, 0), extent(0, 1), extent(0, -1)];
    assert!(exts.iter().any(|e| *e != exts[0]), "{exts:?}");
    for e in exts {
        assert!((12..=16).contains(&e), "{e} {exts:?}");
    }
}

#[test]
fn blast_mass_factor_golden_values() {
    assert_eq!(Fx::from_ratio(REF_BLAST_DENSITY, 40), Fx::from_int(1));
    assert_eq!(Fx::from_ratio(REF_BLAST_DENSITY, 16), Fx(0x0002_8000));
}

#[test]
fn fire_ray_lighter_material_launches_faster_than_heavier() {
    let t = test_table();
    let mut w = World::new(1, 1, 0xD5);
    let (cx, cy) = (10, 10);
    w.set_cell_stamped(&t, cx + 1, cy, 3, 0);
    w.set_cell_stamped(&t, cx - 1, cy, 2, 0);
    let fseed = rng::frame_seed(w.seed, w.tick);
    let mut spawns = Vec::new();
    fire_ray(&mut w, &t, cx, cy, 1, 0, 255, u32::MAX, 0, fseed, 0, &mut spawns);
    fire_ray(&mut w, &t, cx, cy, -1, 0, 255, u32::MAX, 0, fseed, 0, &mut spawns);
    assert_eq!(spawns.len(), 2, "{spawns:?}");
    let sand_speed = spawns[0].vx.0.abs();
    let water_speed = spawns[1].vx.0.abs();
    assert!(water_speed > sand_speed);
}

#[test]
fn explode_vaporized_cells_close_the_count_law() {
    // Every destroyed cell is either a spawned particle or counted as vaporized.
    let t = mixed_vaporize_table();
    let mut w = World::new(2, 2, 5);
    for y in 50..70 {
        for x in 50..70 {
            w.set_cell_stamped(&t, x, y, 2, 0);
        }
    }
    let before = w.count_material(2);
    let fseed = rng::frame_seed(w.seed, w.tick);
    let mut spawns = Vec::new();
    w.apply_op(&t, &Op::Explode { x: 60, y: 60, r: 8, power: 200 }, 0, fseed, 0, &mut spawns);
    let destroyed = before - w.count_material(2);
    assert!(w.vaporized_total() > 0);
    assert_eq!(destroyed, spawns.len() + w.vaporized_total() as usize);
}
