use sand_core::fixed::{dir_of, half_cell, isqrt, Fx};
use sand_core::hash::xxh3_64_bytes;
use sand_core::sin_table::sin_table;

#[test]
fn from_int_shifts_left_16() {
    assert_eq!(Fx::from_int(1).0, 0x0001_0000);
    assert_eq!(Fx::from_int(-1).0, -0x0001_0000);
    assert_eq!(Fx::from_int(0).0, 0);
    assert_eq!(Fx::zero().0, 0);
}

#[test]
fn from_ratio_bit_pattern() {
    assert_eq!(Fx::from_ratio(1, 4).0, 0x0000_4000);
    assert_eq!(Fx::from_ratio(1, 2).0, 0x0000_8000);
    assert_eq!(Fx::from_ratio(3, 1).0, 0x0003_0000);
    assert_eq!(Fx::from_ratio(-1, 4).0, -0x0000_4000);
    assert_eq!(Fx::from_ratio(1, -4).0, -0x0000_4000);
}

#[test]
fn from_ratio_truncates_toward_zero_not_floor() {
    assert_eq!(Fx::from_ratio(1, 3).0, 21845);
    assert_eq!(Fx::from_ratio(-1, 3).0, -21845);
}

#[test]
fn to_cell_floors_positive() {
    assert_eq!(Fx::from_int(3).to_cell(), 3);
    assert_eq!(Fx(0x0003_8000).to_cell(), 3);
}

#[test]
fn to_cell_floors_negative_not_toward_zero() {
    assert_eq!(Fx(-1).to_cell(), -1);
    assert_eq!(Fx::from_int(-3).to_cell(), -3);
    assert_eq!(Fx(-0x0003_8000).to_cell(), -4);
}

#[test]
fn mul_int_scales_without_shift() {
    assert_eq!(Fx::from_ratio(1, 4).mul_int(4), Fx::from_int(1));
    assert_eq!(Fx::from_int(-2).mul_int(3), Fx::from_int(-6));
    assert_eq!(Fx::zero().mul_int(100), Fx::zero());
}

#[test]
fn mul_exact_values() {
    assert_eq!(Fx::from_int(2).mul(Fx::from_int(3)), Fx::from_int(6));
    assert_eq!(Fx::from_ratio(1, 2).mul(Fx::from_ratio(1, 2)), Fx::from_ratio(1, 4));
    assert_eq!(Fx::from_int(-2).mul(Fx::from_int(3)), Fx::from_int(-6));
}

#[test]
fn mul_negative_is_floor_not_round_to_zero() {
    assert_eq!(Fx(-1).mul(Fx(3)).0, -1);
    assert_eq!(Fx(3).mul(Fx(-1)).0, -1);
}

#[test]
fn add_sub_neg() {
    let a = Fx::from_int(3);
    let b = Fx::from_ratio(1, 2);
    assert_eq!((a + b).0, 0x0003_8000);
    assert_eq!((a - b).0, 0x0002_8000);
    assert_eq!((-a).0, -0x0003_0000);
    assert_eq!(a - a, Fx::zero());
}

#[test]
fn ordering() {
    assert!(Fx::from_int(-1) < Fx::zero());
    assert!(Fx::zero() < Fx::from_int(1));
    assert!(Fx::from_ratio(1, 4) < Fx::from_ratio(1, 2));
}

#[test]
fn isqrt_small_values() {
    assert_eq!(isqrt(0), 0);
    assert_eq!(isqrt(1), 1);
    assert_eq!(isqrt(2), 1);
    assert_eq!(isqrt(3), 1);
    assert_eq!(isqrt(4), 2);
}

#[test]
fn isqrt_perfect_squares_and_neighbors() {
    for r in [2u64, 3, 10, 100, 1000, 65536, 100_000, u32::MAX as u64] {
        let sq = r * r;
        assert_eq!(isqrt(sq), r as u32);
        assert_eq!(isqrt(sq + 1), r as u32);
        assert_eq!(isqrt(sq - 1), (r - 1) as u32);
    }
}

#[test]
fn isqrt_u64_max() {
    assert_eq!(isqrt(u64::MAX), u32::MAX);
}

#[test]
fn sin_table_golden_checksum() {
    let mut bytes = Vec::new();
    for v in sin_table() {
        bytes.extend_from_slice(&v.to_le_bytes());
    }
    assert_eq!(xxh3_64_bytes(&bytes), 0x02ac_6746_2a72_29c9);
}

#[test]
fn dir_of_cardinals_are_exact() {
    assert_eq!(dir_of(0), (Fx::from_int(1), Fx::zero()));
    assert_eq!(dir_of(16384), (Fx::zero(), Fx::from_int(1)));
    assert_eq!(dir_of(32768), (Fx::from_int(-1), Fx::zero()));
    assert_eq!(dir_of(49152), (Fx::zero(), Fx::from_int(-1)));
}

#[test]
fn dir_of_is_unit_length_within_tolerance() {
    for a in (0u32..65536).step_by(37) {
        let (cx, cy) = dir_of(a as u16);
        let n = (cx.mul(cx) + cy.mul(cy)).0 as i64;
        let one = 1i64 << 16;
        assert!((n - one).abs() < one / 256, "{a}: {n}");
    }
}

#[test]
fn wrapping_ops_wrap_at_i32_bounds() {
    assert_eq!(Fx(i32::MAX).wrapping_add(Fx(1)), Fx(i32::MIN));
    assert_eq!(Fx(i32::MIN).wrapping_sub(Fx(1)), Fx(i32::MAX));
    assert_eq!(Fx(i32::MIN).wrapping_neg(), Fx(i32::MIN));
    assert_eq!(half_cell(), Fx::from_ratio(1, 2));
}
