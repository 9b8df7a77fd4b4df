use sand_core::fixed::Fx;
use sand_core::material::{Category, MaterialDef, MaterialTable};
use sand_core::particle::Particles;
use sand_core::render::{draw_particles, fill_frame, frame_delay};
use sand_core::runner::{HashStream, HASH_EVERY};
use sand_core::world::World;

#[test]
fn delay_realtime_dense_sampling() {
    assert_eq!(frame_delay(1, None), 2);
    assert_eq!(frame_delay(4, None), 7);
}

#[test]
fn delay_sparse_sampling_caps_to_timelapse() {
    assert_eq!(frame_delay(100, None), 10);
    assert_eq!(frame_delay(6, None), 10);
}

#[test]
fn delay_fps_override_decouples_from_every() {
    assert_eq!(frame_delay(100, Some(25)), 4);
    assert_eq!(frame_delay(1, Some(100)), 2);
    assert_eq!(frame_delay(50, Some(0)), 100);
}

#[test]
fn delay_rounds_halves_up_and_matches_float_rounding() {
    for f in 1u32..=300 {
        let want = ((100.0 / f as f64).round() as u16).max(2);
        assert_eq!(frame_delay(0, Some(f)), want, "fps {f}");
    }
    for e in 0u64..=200 {
        let want = ((e as f64 * 100.0 / 60.0).round() as u16).clamp(2, 10);
        assert_eq!(frame_delay(e, None), want, "every {e}");
    }
    assert_eq!(frame_delay(u64::MAX, None), 10);
    assert_eq!(frame_delay(3, Some(8)), 13);
}

fn table() -> MaterialTable {
    MaterialTable::new(vec![
        MaterialDef::base(0, "air", Category::Static, 0),
        MaterialDef::base(1, "wall", Category::Static, 100),
        MaterialDef::base(2, "sand", Category::Powder, 40),
    ])
    .unwrap()
}

#[test]
fn fill_frame_scales_each_cell_to_a_block() {
    let t = table();
    let mut w = World::new(1, 1, 0);
    w.set_cell_stamped(&t, 1, 0, 2, 0);
    w.set_cell_stamped(&t, 0, 1, 1, 0);
    // A 2x2-cell view at scale 2 is 4x4 pixels.
    let mut buf = vec![9u8; 16];
    fill_frame(&w, 2, 2, 2, &mut buf);
    assert_eq!(
        buf,
        vec![
            0, 0, 2, 2, //
            0, 0, 2, 2, //
            1, 1, 0, 0, //
            1, 1, 0, 0,
        ]
    );
}

#[test]
fn draw_particles_paints_their_cells_last_one_wins() {
    let mut p = Particles::new();
    p.spawn(2, Fx::from_int(1), Fx::from_int(0), Fx(0), Fx(0));
    p.spawn(1, Fx::from_ratio(3, 2), Fx::from_ratio(1, 2), Fx(0), Fx(0));
    p.spawn(2, Fx::from_int(-1), Fx::from_int(0), Fx(0), Fx(0));
    p.spawn(2, Fx::from_int(0), Fx::from_int(2), Fx(0), Fx(0));
    let mut buf = vec![0u8; 16];
    draw_particles(&p, 2, 2, 2, &mut buf);
    assert_eq!(
        buf,
        vec![
            0, 0, 1, 1, //
            0, 0, 1, 1, //
            0, 0, 0, 0, //
            0, 0, 0, 0,
        ]
    );
}

#[test]
fn hash_stream_default_is_the_golden_format() {
    let hs = HashStream::default();
    assert!(!hs.grid_only);
    assert_eq!(hs.every, HASH_EVERY);
    assert_eq!(HASH_EVERY, 256);
}
