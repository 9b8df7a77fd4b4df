//! Q16.16 fixed-point numbers and the integer helpers built on them.
//!
//! All arithmetic wraps, so that the same code gives bit-identical results
//! whatever the overflow-check setting of the build.

use vstd::prelude::*;

use crate::sin_table::{sin_table, sin_table_spec};

verus! {

/// Number of fractional bits of [`Fx`].
pub const FRAC_BITS: u32 = 16;

/// Q16.16 fixed point: a two's complement `i32` whose low 16 bits are the
/// fraction.
#[derive(Clone, Copy, PartialEq, Eq, Structural, PartialOrd, Ord, Debug)]
pub struct Fx(pub i32);

/// Raw bits of half a cell (0.5 in Q16.16).
pub const HALF_CELL_RAW: i32 = 0x0000_8000;

/// Half a cell (0.5 in Q16.16): cell coordinate to cell-centre coordinate.
pub fn half_cell() -> (r: Fx)
    ensures
        r.0 == HALF_CELL_RAW,
{
    Fx(HALF_CELL_RAW)
}

/// Integer division of `a` by `b` rounded toward zero (Rust's `/`).
pub open spec fn trunc_div(a: int, b: int) -> int {
    if a >= 0 && b > 0 {
        a / b
    } else if a < 0 && b < 0 {
        (-a) / (-b)
    } else if a < 0 {
        -((-a) / b)
    } else {
        -(a / (-b))
    }
}

/// The value `v` reduced into `i32` the way a wrapping cast does (its low 32 bits).
pub open spec fn wrap_i32(v: int) -> i32 {
    v as i32
}

impl Fx {
    /// The zero value.
    pub fn zero() -> (r: Fx)
        ensures
            r.0 == 0,
    {
        Fx(0)
    }

    /// The value as a mathematical number of 65536ths.
    pub open spec fn raw(self) -> int {
        self.0 as int
    }

    /// Integer `v` as Q16.16: a left shift by 16 (high bits are dropped).
    pub fn from_int(v: i32) -> (r: Fx)
        ensures
            r.0 == v << 16u32,
            -32768 <= v < 32768 ==> r.0 == v * 65536,
    {
        proof {
            assert(-32768 <= v < 32768 ==> v << 16u32 == v * 65536) by (bit_vector);
        }
        Fx(v << 16u32)
    }

    /// `num / den` as Q16.16, dividing `num * 65536` by `den` rounded toward zero.
    pub fn from_ratio(num: i32, den: i32) -> (r: Fx)
        requires
            den != 0,
        ensures
            r.0 == wrap_i32(trunc_div(num * 65536, den as int)),
    {
        let n: i64 = (num as i64) * 65536;
        let d: i64 = den as i64;
        let q: i64 = if n >= 0 && d > 0 {
            n / d
        } else if n < 0 && d < 0 {
            (-n) / (-d)
        } else if n < 0 {
            -((-n) / d)
        } else {
            -(n / (-d))
        };
        proof {
            assert(q == trunc_div(num * 65536, den as int));
        }
        Fx(#[verifier::truncate] (q as i32))
    }

    /// Floor to a cell coordinate (arithmetic shift right by 16).
    pub fn to_cell(self) -> (r: i32)
        ensures
            r == self.0 / 65536,
            r == self.0 >> 16u32,
    {
        let v = self.0;
        proof {
            assert(v >> 16u32 == v / 65536) by (bit_vector);
        }
        v >> 16u32
    }

    /// Multiply by an integer (wrapping).
    pub fn mul_int(self, k: i32) -> (r: Fx)
        ensures
            r.0 == wrap_i32(self.0 * k),
    {
        let a: i64 = self.0 as i64;
        let b: i64 = k as i64;
        proof { lemma_i32_product_fits(self.0, k); }
        Fx(#[verifier::truncate] ((a * b) as i32))
    }

    /// Multiply two Q16.16 numbers: a 64-bit product shifted right by 16
    /// (floor), then wrapped into `i32`.
    pub fn mul(self, o: Fx) -> (r: Fx)
        ensures
            r.0 == wrap_i32((self.0 * o.0) / 65536),
    {
        proof { lemma_i32_product_fits(self.0, o.0); }
        let p: i64 = (self.0 as i64) * (o.0 as i64);
        let s: i64 = p >> 16u32;
        proof {
            assert(p >> 16u32 == p / 65536) by (bit_vector);
        }
        Fx(#[verifier::truncate] (s as i32))
    }

    /// Wrapping addition.
    pub fn wrapping_add(self, o: Fx) -> (r: Fx)
        ensures
            r.0 == wrap_i32(self.0 + o.0),
    {
        Fx(#[verifier::truncate] (((self.0 as i64) + (o.0 as i64)) as i32))
    }

    /// Wrapping subtraction.
    pub fn wrapping_sub(self, o: Fx) -> (r: Fx)
        ensures
            r.0 == wrap_i32(self.0 - o.0),
    {
        Fx(#[verifier::truncate] (((self.0 as i64) - (o.0 as i64)) as i32))
    }

    /// Wrapping negation.
    pub fn wrapping_neg(self) -> (r: Fx)
        ensures
            r.0 == wrap_i32(-self.0),
    {
        Fx(#[verifier::truncate] ((0i64 - (self.0 as i64)) as i32))
    }
}

impl core::ops::Add for Fx {
    type Output = Fx;

    fn add(self, rhs: Fx) -> (r: Fx)
        ensures
            r.0 == wrap_i32(self.0 + rhs.0),
    {
        self.wrapping_add(rhs)
    }
}

impl core::ops::Sub for Fx {
    type Output = Fx;

    fn sub(self, rhs: Fx) -> (r: Fx)
        ensures
            r.0 == wrap_i32(self.0 - rhs.0),
    {
        self.wrapping_sub(rhs)
    }
}

impl vstd::std_specs::ops::AddSpecImpl for Fx {
    open spec fn obeys_add_spec() -> bool {
        true
    }

    open spec fn add_req(self, rhs: Fx) -> bool {
        true
    }

    open spec fn add_spec(self, rhs: Fx) -> Fx {
        Fx(wrap_i32(self.0 + rhs.0))
    }
}

impl vstd::std_specs::ops::SubSpecImpl for Fx {
    open spec fn obeys_sub_spec() -> bool {
        true
    }

    open spec fn sub_req(self, rhs: Fx) -> bool {
        true
    }

    open spec fn sub_spec(self, rhs: Fx) -> Fx {
        Fx(wrap_i32(self.0 - rhs.0))
    }
}

impl vstd::std_specs::ops::NegSpecImpl for Fx {
    open spec fn obeys_neg_spec() -> bool {
        true
    }

    open spec fn neg_req(self) -> bool {
        true
    }

    open spec fn neg_spec(self) -> Fx {
        Fx(wrap_i32(-self.0))
    }
}

impl core::ops::Neg for Fx {
    type Output = Fx;

    fn neg(self) -> (r: Fx)
        ensures
            r.0 == wrap_i32(-self.0),
    {
        self.wrapping_neg()
    }
}

/// `r` is the floor square root of `v`.
pub open spec fn is_isqrt(v: int, r: int) -> bool {
    r >= 0 && r * r <= v && v < (r + 1) * (r + 1)
}

/// Integer square root, floor semantics: the largest `r` with `r*r <= v`.
///
/// Newton's method on `u64` from the initial guess `2^ceil(bits/2)`, which is
/// never below the answer; the sequence decreases until it stops.
pub fn isqrt(v: u64) -> (r: u32)
    ensures
        is_isqrt(v as int, r as int),
{
    if v == 0 {
        return 0;
    }
    let lz: u32 = v.leading_zeros();
    proof {
        vstd::std_specs::bits::axiom_u64_leading_zeros(v);
    }
    let lz64: u64 = lz as u64;
    let bits: u64 = 64 - lz64;
    let k: u64 = (bits + 1) / 2;
    proof {
        assert(v >> ((64u64 - lz64) as u64) == 0u64);
        assert(bits == (64u64 - lz64) as u64);
        assert(
            (lz64 < 64u64 && bits == (64u64 - lz64) as u64 && k == ((bits + 1u64) as u64 / 2u64) as u64
                && v >> bits == 0u64)
                ==> ((v as u128) < ((1u128 << k) * (1u128 << k)) && (1u64 << k) as u128 == (1u128 << k)
                && 1u64 <= (1u64 << k) <= 0x1_0000_0000u64)
        ) by (bit_vector);
    }
    let mut x: u64 = 1u64 << k;
    proof {
        assert((x as int + 1) * (x as int + 1) > v as int) by (nonlinear_arith)
            requires (v as int) < (x as int) * (x as int), x >= 1;
    }
    loop
        invariant
            1 <= x <= 0x1_0000_0000,
            v >= 1,
            (x as int + 1) * (x as int + 1) > v as int,
        ensures
            is_isqrt(v as int, x as int),
        decreases x,
    {
        let q: u64 = v / x;
        proof {
            vstd::arithmetic::div_mod::lemma_fundamental_div_mod(v as int, x as int);
            let qi = q as int;
            let xi = x as int;
            let vi = v as int;
            let ri = vi % xi;
            assert(0 <= ri < xi) by {
                vstd::arithmetic::div_mod::lemma_mod_bound(vi, xi);
            }
            assert(vi == xi * qi + ri);
            assert(qi * xi <= vi < (qi + 1) * xi) by (nonlinear_arith)
                requires vi == xi * qi + ri, 0 <= ri < xi;
            assert(qi <= xi + 2) by (nonlinear_arith)
                requires qi * xi <= vi, vi < (xi + 1) * (xi + 1), xi >= 1, qi >= 0;
        }
        let y: u64 = (x + q) / 2;
        if y >= x {
            proof {
                let qi = q as int;
                let xi = x as int;
                let vi = v as int;
                assert(xi * xi <= vi) by (nonlinear_arith)
                    requires vi < (qi + 1) * xi, qi * xi <= vi, (xi + qi) / 2 >= xi, xi >= 1, qi >= 0;
            }
            break;
        }
        proof {
            let qi = q as int;
            let xi = x as int;
            let vi = v as int;
            let yi = y as int;
            assert(2 * (yi + 1) >= xi + qi + 1);
            assert((yi + 1) * (yi + 1) > vi) by (nonlinear_arith)
                requires 2 * (yi + 1) >= xi + qi + 1, vi < (qi + 1) * xi, xi >= 1, qi >= 0, yi >= 0;
            assert(yi >= 1) by (nonlinear_arith)
                requires (yi + 1) * (yi + 1) > vi, vi >= 1, yi >= 0;
        }
        x = y;
    }
    proof {
        assert(x <= 0xffff_ffff) by (nonlinear_arith)
            requires (x as int) * (x as int) <= v as int, v <= u64::MAX, x >= 1;
    }
    x as u32
}

/// Binary angle: 65536 = 360 degrees, 0 = +x, increasing toward +y.
pub type Bam = u16;

/// Index of the sine-table entry for binary angle `a` (1024 entries).
pub open spec fn bam_index(a: u16) -> int {
    (a as int) / 64
}

/// Binary angle to the unit vector `(cos, sin)`, read from the sine table
/// (cos is the sine a quarter turn later). Screen coordinates: +y is down.
pub fn dir_of(a: Bam) -> (r: (Fx, Fx))
    ensures
        r.1.0 == sin_table_spec()[bam_index(a)],
        r.0.0 == sin_table_spec()[(bam_index(a) + 256) % 1024],
{
    let t = sin_table();
    let i: usize = (a >> 6u16) as usize;
    proof {
        assert(a >> 6u16 == a / 64) by (bit_vector);
    }
    let i2: usize = i + 256;
    let j: usize = i2 & 1023;
    proof {
        assert(i2 & 1023 == i2 % 1024) by (bit_vector);
    }
    (Fx(t[j]), Fx(t[i]))
}

/// The product of two `i32` values fits in an `i64`.
pub proof fn lemma_i32_product_fits(a: i32, b: i32)
    ensures
        i64::MIN <= (a as int) * (b as int) <= i64::MAX,
{
    assert(i64::MIN <= (a as int) * (b as int) <= i64::MAX) by (nonlinear_arith)
        requires
            i32::MIN <= a <= i32::MAX,
            i32::MIN <= b <= i32::MAX,
    ;
}

} // verus!
