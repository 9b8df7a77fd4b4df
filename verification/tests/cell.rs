use sand_core::cell::{
    fx_to_vel, vel_to_fx, Cell, BODY_FLAG, COUNTER_SHIFT, VEL_BITS, VEL_ONE, VEL_SHIFT,
    V_MAX_CELL,
};
use sand_core::fixed::Fx;

#[test]
fn bitfield_roundtrip() {
    let c = Cell::pack(3, 0xAB).with_dir(true);
    assert_eq!(c.material(), 3);
    assert_eq!(c.stamp(), 0xAB);
    assert_eq!(c.dir(), 1);
    let c = c.with_stamp(0x01).with_dir(false);
    assert_eq!(c.material(), 3);
    assert_eq!(c.stamp(), 0x01);
    assert_eq!(c.dir(), -1);
}

#[test]
fn vel_roundtrip_does_not_disturb_other_fields() {
    let base = Cell::pack(3, 0xAB).with_dir(true);
    for v in 0..=V_MAX_CELL {
        let c = base.with_vel(v);
        assert_eq!(c.vel(), v);
        assert_eq!(c.material(), 3);
        assert_eq!(c.stamp(), 0xAB);
        assert_eq!(c.dir(), 1);
    }
    let c = base.with_vel(V_MAX_CELL).with_stamp(7).with_dir(false);
    assert_eq!(c.vel(), V_MAX_CELL);
}

#[test]
fn vel_fx_roundtrip_is_identity() {
    for v in 0..=V_MAX_CELL {
        assert_eq!(fx_to_vel(vel_to_fx(v)), v);
    }
    assert_eq!(vel_to_fx(VEL_ONE), Fx::from_int(1));
}

#[test]
fn fx_to_vel_clamps_both_ends() {
    assert_eq!(fx_to_vel(Fx::from_int(-5)), 0);
    assert_eq!(fx_to_vel(Fx(0)), 0);
    assert_eq!(fx_to_vel(Fx::from_int(99)), V_MAX_CELL);
}

#[test]
fn vel_occupies_only_bits_17_to_21() {
    assert_eq!(Cell::air().with_vel(V_MAX_CELL).raw(), (V_MAX_CELL as u32) << VEL_SHIFT);
    assert_eq!(VEL_SHIFT + VEL_BITS, 22);
}

#[test]
fn counter_roundtrip_and_survives_other_with_ops() {
    let base = Cell::pack(3, 0xAB).with_dir(true).with_vel(7);
    for v in [0u8, 1, 90, 255] {
        let c = base.with_counter(v);
        assert_eq!(c.counter(), v);
        assert_eq!(c.material(), 3);
        assert_eq!(c.stamp(), 0xAB);
        assert_eq!(c.dir(), 1);
        assert_eq!(c.vel(), 7);
    }
    let c = base.with_counter(90).with_stamp(7).with_vel(3).with_dir(false);
    assert_eq!(c.counter(), 90);
    assert_eq!(Cell::pack(5, 1).counter(), 0);
    assert_eq!(Cell::air().with_counter(0xFF).raw(), (0xFF as u32) << COUNTER_SHIFT);
}

#[test]
fn body_flag_survives_other_with_ops_and_pack_clears_it() {
    let c = Cell::pack(5, 3).with_body(true);
    assert!(c.is_body());
    let c = c.with_stamp(9).with_vel(4).with_dir(true).with_counter(77);
    assert!(c.is_body());
    assert_eq!(c.counter(), 77);
    assert_eq!(c.material(), 5);
    assert!(!c.with_body(false).is_body());
    assert!(!Cell::pack(5, 3).is_body());
    assert_eq!(Cell::air().with_body(true).raw(), BODY_FLAG);
}

#[test]
fn air_is_zero() {
    assert_eq!(Cell::air().raw(), 0);
    assert_eq!(Cell::pack(0, 0), Cell::air());
}

#[test]
fn pack_places_material_and_stamp_in_low_bytes() {
    assert_eq!(Cell::pack(0x12, 0x34).raw(), 0x3412);
    assert_eq!(Cell::pack(7, 0).with_dir(true).raw(), 0x1_0007);
}
