use sand_core::rng::{
    frame_seed, rng_u32, scan_flip, squirrel5, P_STREAM, P_X, P_Y, STREAM_DIAG, STREAM_SCANDIR,
};

#[test]
fn golden_cross_anchored_with_python() {
    assert_eq!(squirrel5(0, 0), 0x1679_1E00);
    assert_eq!(squirrel5(12345, 67890), 0x3D9B_AAAB);
    assert_eq!(frame_seed(0xDEAD_BEEF_CAFE, 424_242), 0xBE6B_3BE3);
    assert_eq!(rng_u32(0x1234_5678, 3, -7, 63, 4, 2), 0xE9A4_F78B);
    assert_eq!(rng_u32(1, 0, 0, 0, 0, 0), 0x23F6_C851);
}

#[test]
fn streams_and_attempts_are_independent() {
    let f = frame_seed(42, 100);
    let a = rng_u32(f, 0, 5, 5, 0, 0);
    assert_ne!(a, rng_u32(f, 1, 5, 5, 0, 0));
    assert_ne!(a, rng_u32(f, 0, 5, 5, 0, 1));
    assert_ne!(a, rng_u32(f, 0, 5, 5, 1, 0));
}

#[test]
fn pure_function_repeats() {
    let f = frame_seed(7, 9);
    assert_eq!(rng_u32(f, 0, 1, 2, 3, 4), rng_u32(f, 0, 1, 2, 3, 4));
}

#[test]
fn scandir_bit_independent_of_diag_bit() {
    let (mut same, mut n) = (0u32, 0u32);
    for tick in 0..4096u64 {
        for seed_i in 0..16u32 {
            let v = squirrel5(tick as u32, 0xC0FF_EE00u32.wrapping_add(seed_i));
            if ((v >> 16) & 1) == (v & 1) {
                same += 1;
            }
            n += 1;
        }
    }
    let p = same as f64 / n as f64;
    assert!((p - 0.5).abs() < 0.0078, "{p:.5} n={n}");
}

#[test]
fn scandir_and_diag_pos_collision_line_exists() {
    let inv_px = {
        let mut inv = P_X;
        for _ in 0..5 {
            inv = inv.wrapping_mul(2u32.wrapping_sub(P_X.wrapping_mul(inv)));
        }
        inv
    };
    assert_eq!(P_X.wrapping_mul(inv_px), 1);
    let fseed = frame_seed(0xC0FF_EE00, 7);
    let y = 13i32;
    let target = STREAM_SCANDIR.wrapping_mul(P_STREAM).wrapping_sub((y as u32).wrapping_mul(P_Y));
    let x = target.wrapping_mul(inv_px);
    assert_eq!(rng_u32(fseed, STREAM_SCANDIR, 0, 0, 0, 0), rng_u32(fseed, STREAM_DIAG, x as i32, y, 0, 0));
    assert!(x > 1 << 20, "x={x}");
}

#[test]
fn scan_flip_is_bit16_of_scandir_draw() {
    for t in 0..64u64 {
        let f = frame_seed(99, t);
        assert_eq!(scan_flip(f), ((rng_u32(f, STREAM_SCANDIR, 0, 0, 0, 0) >> 16) & 1) as u64);
        assert!(scan_flip(f) <= 1);
    }
}
