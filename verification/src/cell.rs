//! A grid cell packed into a `u32` bit field.
//!
//! | bits  | width | field |
//! |-------|-------|-------|
//! | 0–7   | 8 | `material` |
//! | 8–15  | 8 | generation stamp `stamp` |
//! | 16    | 1 | horizontal direction memory `dir` |
//! | 17–21 | 5 | `vel`, vertical speed in quarter cells per tick |
//! | 22    | 1 | reserved, always 0 |
//! | 23    | 1 | `body` rigid-body ownership flag |
//! | 24–31 | 8 | `counter`, general countdown timer |

use vstd::prelude::*;

use crate::fixed::Fx;

verus! {

pub const STAMP_SHIFT: u32 = 8;
pub const DIR_BIT: u32 = 0x1_0000;
/// First bit of the velocity field.
pub const VEL_SHIFT: u32 = 17;
/// Width of the velocity field.
pub const VEL_BITS: u32 = 5;
/// Rigid-body ownership flag.
pub const BODY_FLAG: u32 = 0x80_0000;
/// First bit of the counter field.
pub const COUNTER_SHIFT: u32 = 24;
/// 1.0 cell per tick in velocity-field units (quarter cells).
pub const VEL_ONE: u8 = 4;
/// Terminal velocity: 4.0 cells per tick.
pub const V_MAX_CELL: u8 = 16;
/// Gravity increment per tick, in velocity-field units.
pub const G_ACCEL: u8 = 1;
/// Minimum impact speed for a splash: 2.0 cells per tick.
pub const SPLASH_MIN_SPEED: u8 = 8;

/// Material field of a raw cell.
pub open spec fn bits_material(v: u32) -> u8 {
    (v & 0xff) as u8
}

/// Stamp field of a raw cell.
pub open spec fn bits_stamp(v: u32) -> u8 {
    ((v >> 8u32) & 0xff) as u8
}

/// Direction bit of a raw cell.
pub open spec fn bits_dir(v: u32) -> bool {
    v & 0x1_0000 != 0
}

/// Velocity field of a raw cell.
pub open spec fn bits_vel(v: u32) -> u8 {
    ((v >> 17u32) & 0x1f) as u8
}

/// Reserved bit 22 of a raw cell.
pub open spec fn bits_reserved(v: u32) -> bool {
    v & 0x40_0000 != 0
}

/// Body flag of a raw cell.
pub open spec fn bits_body(v: u32) -> bool {
    v & 0x80_0000 != 0
}

/// Counter field of a raw cell.
pub open spec fn bits_counter(v: u32) -> u8 {
    (v >> 24u32) as u8
}

/// A packed cell. Built only through `pack`/`air` and the `with_*` setters.
#[derive(Clone, Copy, PartialEq, Eq, Structural, Debug)]
pub struct Cell(u32);

impl View for Cell {
    type V = u32;

    closed spec fn view(&self) -> u32 {
        self.0
    }
}

impl Cell {
    /// Material id.
    pub open spec fn mat(self) -> u8 {
        bits_material(self@)
    }

    /// Generation stamp.
    pub open spec fn stmp(self) -> u8 {
        bits_stamp(self@)
    }

    /// Direction memory: true = right.
    pub open spec fn right(self) -> bool {
        bits_dir(self@)
    }

    /// Vertical speed field.
    pub open spec fn vl(self) -> u8 {
        bits_vel(self@)
    }

    /// Body flag.
    pub open spec fn bdy(self) -> bool {
        bits_body(self@)
    }

    /// Counter field.
    pub open spec fn ctr(self) -> u8 {
        bits_counter(self@)
    }

    /// The empty cell (all bits zero).
    pub fn air() -> (r: Cell)
        ensures
            r@ == 0,
    {
        Cell(0)
    }

    /// A fresh cell of `material` with `stamp`; every other field is zero.
    pub fn pack(material: u8, stamp: u8) -> (r: Cell)
        ensures
            r@ == (material as u32) | ((stamp as u32) << 8u32),
            r.mat() == material,
            r.stmp() == stamp,
            !r.right(),
            r.vl() == 0,
            !r.bdy(),
            r.ctr() == 0,
            !bits_reserved(r@),
    {
        let v: u32 = (material as u32) | ((stamp as u32) << 8u32);
        proof {
            assert(bits_material(v) == material && bits_stamp(v) == stamp && !bits_dir(v)
                && bits_vel(v) == 0 && !bits_body(v) && bits_counter(v) == 0 && !bits_reserved(v))
                by (bit_vector)
                requires v == (material as u32) | ((stamp as u32) << 8u32);
        }
        Cell(v)
    }

    /// Raw bit pattern (for hashing); there is no way back from raw bits.
    pub fn raw(self) -> (r: u32)
        ensures
            r == self@,
    {
        self.0
    }

    pub fn material(self) -> (r: u8)
        ensures
            r == self.mat(),
    {
        let v = self.0;
        proof {
            assert(v as u8 == bits_material(v)) by (bit_vector);
        }
        v as u8
    }

    pub fn stamp(self) -> (r: u8)
        ensures
            r == self.stmp(),
    {
        let v = self.0;
        proof {
            assert((v >> 8u32) as u8 == bits_stamp(v)) by (bit_vector);
        }
        (v >> 8u32) as u8
    }

    /// Horizontal direction memory: -1 = left, +1 = right.
    pub fn dir(self) -> (r: i32)
        ensures
            r == (if self.right() { 1i32 } else { -1i32 }),
    {
        if self.0 & DIR_BIT != 0 {
            1
        } else {
            -1
        }
    }

    /// Replace the stamp; every other field is kept.
    pub fn with_stamp(self, stamp: u8) -> (r: Cell)
        ensures
            r@ == (self@ & !0xff00u32) | ((stamp as u32) << 8u32),
            r.stmp() == stamp,
            r.mat() == self.mat(),
            r.right() == self.right(),
            r.vl() == self.vl(),
            r.bdy() == self.bdy(),
            r.ctr() == self.ctr(),
            bits_reserved(r@) == bits_reserved(self@),
    {
        let v = self.0;
        let n: u32 = (v & !0xff00u32) | ((stamp as u32) << 8u32);
        proof {
            assert(bits_stamp(n) == stamp && bits_material(n) == bits_material(v) && bits_dir(n)
                == bits_dir(v) && bits_vel(n) == bits_vel(v) && bits_body(n) == bits_body(v)
                && bits_counter(n) == bits_counter(v) && bits_reserved(n) == bits_reserved(v))
                by (bit_vector)
                requires n == (v & !0xff00u32) | ((stamp as u32) << 8u32);
        }
        Cell(n)
    }

    /// Set the direction memory (true = right); every other field is kept.
    pub fn with_dir(self, right: bool) -> (r: Cell)
        ensures
            r@ == (if right { self@ | 0x1_0000u32 } else { self@ & !0x1_0000u32 }),
            r.right() == right,
            r.mat() == self.mat(),
            r.stmp() == self.stmp(),
            r.vl() == self.vl(),
            r.bdy() == self.bdy(),
            r.ctr() == self.ctr(),
            bits_reserved(r@) == bits_reserved(self@),
    {
        let v = self.0;
        let n: u32 = if right { v | DIR_BIT } else { v & !DIR_BIT };
        proof {
            assert(bits_dir(v | 0x1_0000u32) && bits_material(v | 0x1_0000u32) == bits_material(v)
                && bits_stamp(v | 0x1_0000u32) == bits_stamp(v) && bits_vel(v | 0x1_0000u32)
                == bits_vel(v) && bits_body(v | 0x1_0000u32) == bits_body(v) && bits_counter(
                v | 0x1_0000u32,
            ) == bits_counter(v) && bits_reserved(v | 0x1_0000u32) == bits_reserved(v))
                by (bit_vector);
            assert(!bits_dir(v & !0x1_0000u32) && bits_material(v & !0x1_0000u32) == bits_material(v)
                && bits_stamp(v & !0x1_0000u32) == bits_stamp(v) && bits_vel(v & !0x1_0000u32)
                == bits_vel(v) && bits_body(v & !0x1_0000u32) == bits_body(v) && bits_counter(
                v & !0x1_0000u32,
            ) == bits_counter(v) && bits_reserved(v & !0x1_0000u32) == bits_reserved(v))
                by (bit_vector);
        }
        Cell(n)
    }

    /// Vertical speed in quarter cells per tick.
    pub fn vel(self) -> (r: u8)
        ensures
            r == self.vl(),
            r < 32,
    {
        let v = self.0;
        proof {
            assert(((v >> 17u32) & 0x1f) as u8 == bits_vel(v) && bits_vel(v) < 32) by (bit_vector);
        }
        ((v >> 17u32) & 0x1f) as u8
    }

    /// Write the speed field (masked to its 5 bits); every other field is kept.
    pub fn with_vel(self, vel: u8) -> (r: Cell)
        ensures
            r@ == (self@ & !0x3e_0000u32) | (((vel as u32) << 17u32) & 0x3e_0000u32),
            vel < 32 ==> r.vl() == vel,
            r.mat() == self.mat(),
            r.stmp() == self.stmp(),
            r.right() == self.right(),
            r.bdy() == self.bdy(),
            r.ctr() == self.ctr(),
            bits_reserved(r@) == bits_reserved(self@),
    {
        let v = self.0;
        let n: u32 = (v & !0x3e_0000u32) | (((vel as u32) << 17u32) & 0x3e_0000u32);
        proof {
            assert((vel < 32 ==> bits_vel(n) == vel) && bits_material(n) == bits_material(v)
                && bits_stamp(n) == bits_stamp(v) && bits_dir(n) == bits_dir(v) && bits_body(n)
                == bits_body(v) && bits_counter(n) == bits_counter(v) && bits_reserved(n)
                == bits_reserved(v))
                by (bit_vector)
                requires n == (v & !0x3e_0000u32) | (((vel as u32) << 17u32) & 0x3e_0000u32);
        }
        Cell(n)
    }

    /// General countdown timer (fuel left, or lifetime left).
    pub fn counter(self) -> (r: u8)
        ensures
            r == self.ctr(),
    {
        (self.0 >> 24u32) as u8
    }

    /// Write the counter; every other field is kept.
    pub fn with_counter(self, c: u8) -> (r: Cell)
        ensures
            r@ == (self@ & 0x00ff_ffffu32) | ((c as u32) << 24u32),
            r.ctr() == c,
            r.mat() == self.mat(),
            r.stmp() == self.stmp(),
            r.right() == self.right(),
            r.vl() == self.vl(),
            r.bdy() == self.bdy(),
            bits_reserved(r@) == bits_reserved(self@),
    {
        let v = self.0;
        let n: u32 = (v & 0x00ff_ffffu32) | ((c as u32) << 24u32);
        proof {
            assert(bits_counter(n) == c && bits_material(n) == bits_material(v) && bits_stamp(n)
                == bits_stamp(v) && bits_dir(n) == bits_dir(v) && bits_vel(n) == bits_vel(v)
                && bits_body(n) == bits_body(v) && bits_reserved(n) == bits_reserved(v))
                by (bit_vector)
                requires n == (v & 0x00ff_ffffu32) | ((c as u32) << 24u32);
        }
        Cell(n)
    }

    /// Whether the cell is stamped by a rigid body.
    pub fn is_body(self) -> (r: bool)
        ensures
            r == self.bdy(),
    {
        self.0 & BODY_FLAG != 0
    }

    /// Set or clear the body flag; every other field is kept.
    pub fn with_body(self, on: bool) -> (r: Cell)
        ensures
            r@ == (if on { self@ | 0x80_0000u32 } else { self@ & !0x80_0000u32 }),
            r.bdy() == on,
            r.mat() == self.mat(),
            r.stmp() == self.stmp(),
            r.right() == self.right(),
            r.vl() == self.vl(),
            r.ctr() == self.ctr(),
            bits_reserved(r@) == bits_reserved(self@),
    {
        let v = self.0;
        let n: u32 = if on { v | BODY_FLAG } else { v & !BODY_FLAG };
        proof {
            assert(bits_body(v | 0x80_0000u32) && bits_material(v | 0x80_0000u32) == bits_material(v)
                && bits_stamp(v | 0x80_0000u32) == bits_stamp(v) && bits_dir(v | 0x80_0000u32)
                == bits_dir(v) && bits_vel(v | 0x80_0000u32) == bits_vel(v) && bits_counter(
                v | 0x80_0000u32,
            ) == bits_counter(v) && bits_reserved(v | 0x80_0000u32) == bits_reserved(v))
                by (bit_vector);
            assert(!bits_body(v & !0x80_0000u32) && bits_material(v & !0x80_0000u32) == bits_material(v)
                && bits_stamp(v & !0x80_0000u32) == bits_stamp(v) && bits_dir(v & !0x80_0000u32)
                == bits_dir(v) && bits_vel(v & !0x80_0000u32) == bits_vel(v) && bits_counter(
                v & !0x80_0000u32,
            ) == bits_counter(v) && bits_reserved(v & !0x80_0000u32) == bits_reserved(v))
                by (bit_vector);
        }
        Cell(n)
    }
}

/// The cell whose raw bits are `v` (specification only).
pub closed spec fn cell_from_bits(v: u32) -> Cell {
    Cell(v)
}

pub broadcast proof fn lemma_cell_from_bits(v: u32)
    ensures
        #[trigger] cell_from_bits(v)@ == v,
{
}

/// Cells with equal raw bits are equal.
pub broadcast proof fn lemma_cell_view_injective(a: Cell, b: Cell)
    requires
        #[trigger] a@ == #[trigger] b@,
    ensures
        a == b,
{
}

/// A cell's fields determine it: two cells with equal fields (and equal
/// reserved bit) are the same cell.
pub proof fn lemma_fields_determine_cell(a: Cell, b: Cell)
    requires
        a.mat() == b.mat(),
        a.stmp() == b.stmp(),
        a.right() == b.right(),
        a.vl() == b.vl(),
        a.bdy() == b.bdy(),
        a.ctr() == b.ctr(),
        bits_reserved(a@) == bits_reserved(b@),
    ensures
        a == b,
{
    let (x, y) = (a@, b@);
    assert(x == y) by (bit_vector)
        requires
            bits_material(x) == bits_material(y),
            bits_stamp(x) == bits_stamp(y),
            bits_dir(x) == bits_dir(y),
            bits_vel(x) == bits_vel(y),
            bits_body(x) == bits_body(y),
            bits_counter(x) == bits_counter(y),
            bits_reserved(x) == bits_reserved(y),
    ;
}

/// Speed field (quarter cells per tick) to `Fx` cells per tick.
pub fn vel_to_fx(v: u8) -> (r: Fx)
    ensures
        r.0 == (v as int) * 16384,
{
    proof {
        assert((v as i32) << 14u32 == (v as i32) * 16384) by (bit_vector);
    }
    Fx((v as i32) << 14u32)
}

/// `Fx` cells per tick (downward positive) to the speed field: floor to
/// quarter cells, clamped to `[0, V_MAX_CELL]`.
pub fn fx_to_vel(vy: Fx) -> (r: u8)
    ensures
        r == (if vy.0 / 16384 < 0 { 0 } else if vy.0 / 16384 > 16 { 16 } else { vy.0 / 16384 }),
{
    let v = vy.0;
    let q: i32 = v >> 14u32;
    proof {
        assert(v >> 14u32 == v / 16384) by (bit_vector);
    }
    if q < 0 {
        0
    } else if q > 16 {
        16
    } else {
        q as u8
    }
}

} // verus!
