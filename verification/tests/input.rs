use sand_core::input::{InputFrame, BTN_DOWN, BTN_FIRE, BTN_JUMP, BTN_LEFT, BTN_RIGHT, MAX_SLOTS};

#[test]
fn pack_unpack_roundtrip_is_identity() {
    for &(b, a, s) in &[(0u8, 0u16, 0u8), (0b1_0101, 12345, 3), (0xFF, 65535, 3)] {
        let f = InputFrame::new(b, a, s);
        assert_eq!(InputFrame::unpack(f.pack()), f, "buttons={b} aim={a} slot={s}");
    }
}

#[test]
fn slot_is_clamped_into_range_at_construction() {
    assert_eq!(InputFrame::new(0, 0, 200).slot, (MAX_SLOTS - 1) as u8);
}

#[test]
fn held_reads_the_right_bit() {
    let f = InputFrame::new(BTN_LEFT | BTN_FIRE, 0, 0);
    assert!(f.held(BTN_LEFT) && f.held(BTN_FIRE));
    assert!(!f.held(BTN_RIGHT) && !f.held(BTN_JUMP));
}

#[test]
fn pack_layout_is_buttons_aim_slot() {
    let f = InputFrame::new(BTN_DOWN, 0x1234, 2);
    assert_eq!(f.pack(), 0x10 | (0x1234 << 8) | (2 << 24));
}
