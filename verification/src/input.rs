//! The one input channel for player intent: a small packed frame.

use vstd::prelude::*;

use crate::fixed::Bam;

verus! {

pub const BTN_LEFT: u8 = 1;
pub const BTN_RIGHT: u8 = 2;
pub const BTN_JUMP: u8 = 4;
pub const BTN_FIRE: u8 = 8;
pub const BTN_DOWN: u8 = 16;

/// Number of loadout slots.
pub const MAX_SLOTS: usize = 4;

#[derive(Clone, Copy, PartialEq, Eq, Structural, Debug)]
pub struct InputFrame {
    pub buttons: u8,
    pub aim: Bam,
    pub slot: u8,
}

impl InputFrame {
    /// A frame is valid when its slot is in `0..MAX_SLOTS`.
    pub open spec fn valid(self) -> bool {
        self.slot < MAX_SLOTS
    }

    /// Build a frame; `slot` is clamped into `0..MAX_SLOTS`.
    pub fn new(buttons: u8, aim: Bam, slot: u8) -> (r: InputFrame)
        ensures
            r.buttons == buttons,
            r.aim == aim,
            r.slot == (if slot <= 3 { slot } else { 3u8 }),
            r.valid(),
    {
        let s: u8 = if slot <= 3 { slot } else { 3 };
        InputFrame { buttons, aim, slot: s }
    }

    /// Whether any button of `mask` is held.
    pub fn held(self, mask: u8) -> (r: bool)
        ensures
            r == (self.buttons & mask != 0),
    {
        self.buttons & mask != 0
    }

    /// Wire encoding: buttons in bits 0–7, aim in 8–23, slot in 24–31.
    pub fn pack(self) -> (r: u32)
        ensures
            r == (self.buttons as u32) | ((self.aim as u32) << 8u32) | ((self.slot as u32) << 24u32),
    {
        (self.buttons as u32) | ((self.aim as u32) << 8u32) | ((self.slot as u32) << 24u32)
    }

    /// Decode a wire value; the slot byte is clamped like in `new`.
    pub fn unpack(v: u32) -> (r: InputFrame)
        ensures
            r.buttons == (v & 0xff) as u8,
            r.aim == ((v >> 8u32) & 0xffff) as u16,
            r.slot == (if ((v >> 24u32) & 0xff) <= 3 { ((v >> 24u32) & 0xff) as u8 } else { 3u8 }),
    {
        proof {
            assert(v & 0xff <= 0xff && (v >> 8u32) & 0xffff <= 0xffff && (v >> 24u32) & 0xff <= 0xff)
                by (bit_vector);
        }
        let b: u8 = (v & 0xff) as u8;
        let a: u16 = ((v >> 8u32) & 0xffff) as u16;
        let s: u8 = ((v >> 24u32) & 0xff) as u8;
        InputFrame::new(b, a, s)
    }
}

/// Decoding an encoded valid frame gives the frame back.
pub proof fn lemma_unpack_pack(f: InputFrame)
    requires
        f.valid(),
    ensures
        ({
            let v = (f.buttons as u32) | ((f.aim as u32) << 8u32) | ((f.slot as u32) << 24u32);
            &&& (v & 0xff) as u8 == f.buttons
            &&& ((v >> 8u32) & 0xffff) as u16 == f.aim
            &&& ((v >> 24u32) & 0xff) as u8 == f.slot
            &&& ((v >> 24u32) & 0xff) <= 3
        }),
{
    let (b, a, s) = (f.buttons, f.aim, f.slot);
    assert({
        let v = (b as u32) | ((a as u32) << 8u32) | ((s as u32) << 24u32);
        &&& (v & 0xff) as u8 == b
        &&& ((v >> 8u32) & 0xffff) as u16 == a
        &&& ((v >> 24u32) & 0xff) as u8 == s
        &&& ((v >> 24u32) & 0xff) <= 3
    }) by (bit_vector)
        requires
            s < 4,
    ;
}

} // verus!
