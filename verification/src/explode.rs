//! Explosions: one energy ray from the centre through every cell of a
//! Bresenham circle. A ray pays each cell's `hp` from its energy and destroys
//! the cell when it can pay; a destroyed cell becomes air and either splashes
//! a particle or, near the centre, vaporizes. The ray stops at the first
//! cell it cannot pay for, at the world's edge, or after its range.

use vstd::prelude::*;

use crate::cell::{cell_from_bits, lemma_cell_from_bits, lemma_cell_view_injective, Cell};
use crate::dda::{cell_dist, lemma_advance, lemma_walk_cells_dist, lemma_walk_start, no_wrap, walk_cells, walk_start, CellWalk, iabs};
use crate::emit::{emit_jitter, emit_jitter_spec};
use crate::fixed::{half_cell, is_isqrt, isqrt, trunc_div, wrap_i32, Fx, HALF_CELL_RAW};
use crate::material::{table_valid, MaterialDef, MaterialTable, MAT_AIR};
use crate::particle::{clamp_raw, clamp_speed};
use crate::rng;
use crate::rng::{rng_spec, STREAM_EXPLODE};
use crate::chunk::Chunk;
use crate::world::{air_stamped, count_cells, count_chunks, ind, pack_bits, rect_in_chunk, world_count, SpawnRequest, World};
use vstd::wrapping::u32_specs::wrapping_add as wadd;

verus! {

/// Die label of the splash vx jitter.
pub const EXPLODE_ROLL_VX: u32 = 0;
/// Die label of the splash vy jitter.
pub const EXPLODE_ROLL_VY: u32 = 1;
/// Die label of the per-ray energy fluctuation.
pub const EXPLODE_ROLL_RAY_POWER: u32 = 2;
/// Die label of the per-ray range fluctuation.
pub const EXPLODE_ROLL_RAY_RANGE: u32 = 3;
/// Fluctuation amplitude divisor: a ray's energy varies by `v / 4` either way,
/// its range shrinks by up to `v / 4`.
pub const EXPLODE_FLUCT_DIV: u32 = 4;
/// Raw splash velocity jitter (0.5 cells per tick).
pub const EXPLODE_JITTER_RAW: i32 = 0x0000_8000;
/// Raw splash speed at full energy (8 cells per tick).
pub const EXPLODE_SPEED_RAW: i32 = 0x0008_0000;
/// Reference density of the splash impulse: speed scales by `40 / density`.
pub const REF_BLAST_DENSITY: i32 = 40;
/// Largest explosion radius: offsets stay representable as Q16.16 displacements.
pub const MAX_EXPLODE_RADIUS: i32 = 32767;

/// Splash velocity jitter, 0.5 cells per tick.
pub fn explode_jitter() -> (r: Fx)
    ensures
        r.0 == EXPLODE_JITTER_RAW,
{
    Fx(EXPLODE_JITTER_RAW)
}

/// Splash speed at full energy, 8 cells per tick.
pub fn explode_speed() -> (r: Fx)
    ensures
        r.0 == EXPLODE_SPEED_RAW,
{
    Fx(EXPLODE_SPEED_RAW)
}

/// Attempt of an explosion draw: the phase `stamp` above a 2-bit die label.
pub open spec fn explode_attempt_spec(stamp: u8, roll: u32) -> u32 {
    ((stamp as u32) << 2u32) | roll
}

pub fn explode_attempt(stamp: u8, roll: u32) -> (r: u32)
    ensures
        r == explode_attempt_spec(stamp, roll),
{
    ((stamp as u32) << 2u32) | roll
}

/// `v` plus a fluctuation drawn from `roll`: within `[-q, q]` when `sym`,
/// within `[-q, 0]` otherwise, where `q = v / 4`; at least 1.
#[verifier::opaque]
pub open spec fn ray_fluct_spec(v: u32, roll: u32, sym: bool) -> u32 {
    let q = (v / 4) as int;
    let span = if sym { 2 * q + 1 } else { q + 1 };
    let d = (roll as int) * span / 0x1_0000_0000 - q;
    let s = v as int + d;
    (if s < 1 { 1 } else { s }) as u32
}

pub fn ray_fluct(v: u32, roll: u32, sym: bool) -> (r: u32)
    ensures
        r == ray_fluct_spec(v, roll, sym),
        sym && v <= MAX_EXPLODE_POWER ==> 1 <= r,
{
    proof {
        reveal(ray_fluct_spec);
    }
    let q: u64 = (v / EXPLODE_FLUCT_DIV) as u64;
    let span: u64 = if sym { 2 * q + 1 } else { q + 1 };
    proof {
        let (ri, si) = (roll as int, span as int);
        assert(0 <= ri * si <= 0xFFFF_FFFF * 0x8000_0000) by (nonlinear_arith)
            requires
                0 <= ri <= 0xFFFF_FFFF,
                1 <= si <= 0x8000_0000,
        ;
    }
    let p: u64 = (roll as u64) * span;
    let sh: u64 = p >> 32u32;
    proof {
        assert(p >> 32u32 == p / 0x1_0000_0000) by (bit_vector);
        let (ri, si) = (roll as int, span as int);
        assert(0 <= ri * si / 0x1_0000_0000 < si) by (nonlinear_arith)
            requires
                0 <= ri <= 0xFFFF_FFFF,
                1 <= si,
        ;
    }
    let d: i64 = (sh as i64) - (q as i64);
    let s: i64 = (v as i64) + d;
    let m: i64 = if s < 1 { 1 } else { s };
    proof {
        if sym && v <= MAX_EXPLODE_POWER {
            assert(m <= 0xFFFF_FFFF);
        }
    }
    #[verifier::truncate]
    (m as u32)
}

/// The eight mirror images of octant point `(a, b)`, in traversal order.
pub open spec fn octant_candidates(a: i32, b: i32) -> Seq<(i32, i32)> {
    let (na, nb) = ((-a) as i32, (-b) as i32);
    seq![(a, b), (b, a), (nb, a), (na, b), (na, nb), (nb, na), (b, na), (a, nb)]
}

/// `s` appended to `acc`, skipping elements already present (first kept).
pub open spec fn dedup_into(acc: Seq<(i32, i32)>, s: Seq<(i32, i32)>) -> Seq<(i32, i32)>
    decreases s.len(),
{
    if s.len() == 0 {
        acc
    } else if acc.contains(s[0]) {
        dedup_into(acc, s.drop_first())
    } else {
        dedup_into(acc.push(s[0]), s.drop_first())
    }
}

/// The distinct mirror images of `(a, b)`, first occurrence kept.
pub open spec fn mirror_group(a: i32, b: i32) -> Seq<(i32, i32)> {
    dedup_into(Seq::empty(), octant_candidates(a, b))
}

/// The Bresenham circle from octant state `(x, y, d)` on.
pub open spec fn circle_from(x: int, y: int, d: int) -> Seq<(i32, i32)>
    decreases y - x + 2,
{
    if y < x {
        Seq::empty()
    } else {
        let x2 = x + 1;
        mirror_group(x as i32, y as i32) + if d > 0 {
            circle_from(x2, y - 1, d + 4 * (x2 - (y - 1)) + 10)
        } else {
            circle_from(x2, y, d + 4 * x2 + 6)
        }
    }
}

/// Offsets from the centre to the cells of the Bresenham circle of radius
/// `r`; a radius `<= 0` gives the centre alone.
pub open spec fn circle_spec(r: i32) -> Seq<(i32, i32)> {
    if r <= 0 {
        seq![(0i32, 0i32)]
    } else {
        circle_from(0, r as int, 3 - 2 * r)
    }
}

pub open spec fn no_dups(s: Seq<(i32, i32)>) -> bool {
    forall|i: int, j: int| 0 <= i < j < s.len() ==> s[i] != s[j]
}

/// The smaller and larger absolute coordinate of a point.
pub open spec fn min_abs(p: (i32, i32)) -> int {
    let (a, b) = (iabs(p.0 as int), iabs(p.1 as int));
    if a <= b { a } else { b }
}

pub proof fn lemma_dedup_into(acc: Seq<(i32, i32)>, s: Seq<(i32, i32)>)
    requires
        no_dups(acc),
    ensures
        no_dups(dedup_into(acc, s)),
        forall|e: (i32, i32)| #[trigger] dedup_into(acc, s).contains(e) ==> acc.contains(e) || s.contains(e),
        dedup_into(acc, s).len() <= acc.len() + s.len(),
    decreases s.len(),
{
    if s.len() == 0 {
    } else if acc.contains(s[0]) {
        lemma_dedup_into(acc, s.drop_first());
        assert forall|e: (i32, i32)| #[trigger] dedup_into(acc, s).contains(e) implies acc.contains(e)
            || s.contains(e) by {
            if s.drop_first().contains(e) {
                let k = choose|k: int| 0 <= k < s.drop_first().len() && s.drop_first()[k] == e;
                assert(s[k + 1] == e);
            }
        }
    } else {
        let acc2 = acc.push(s[0]);
        assert(no_dups(acc2)) by {
            assert forall|i: int, j: int| 0 <= i < j < acc2.len() implies acc2[i] != acc2[j] by {
                if j == acc.len() {
                    assert(acc.contains(acc[i]));
                }
            }
        }
        lemma_dedup_into(acc2, s.drop_first());
        assert forall|e: (i32, i32)| #[trigger] dedup_into(acc, s).contains(e) implies acc.contains(e)
            || s.contains(e) by {
            if acc2.contains(e) {
                let k = choose|k: int| 0 <= k < acc2.len() && acc2[k] == e;
                if k < acc.len() {
                    assert(acc[k] == e);
                } else {
                    assert(s[0] == e);
                }
            }
            if s.drop_first().contains(e) {
                let k = choose|k: int| 0 <= k < s.drop_first().len() && s.drop_first()[k] == e;
                assert(s[k + 1] == e);
            }
        }
    }
}

/// Every mirror image of `(a, b)` with `0 <= a <= b` has smaller absolute coordinate `a`.
pub proof fn lemma_mirror_group(a: i32, b: i32)
    requires
        0 <= a <= b <= 0x7FFF,
    ensures
        no_dups(mirror_group(a, b)),
        forall|e: (i32, i32)| #[trigger] mirror_group(a, b).contains(e) ==> min_abs(e) == a,
        forall|e: (i32, i32)| #[trigger] mirror_group(a, b).contains(e) ==> iabs(e.0 as int) <= b && iabs(e.1 as int) <= b,
        mirror_group(a, b).len() <= 8,
{
    let c = octant_candidates(a, b);
    lemma_dedup_into(Seq::empty(), c);
    assert forall|e: (i32, i32)| #[trigger] mirror_group(a, b).contains(e) implies min_abs(e) == a && iabs(e.0 as int) <= b && iabs(e.1 as int) <= b by {
        assert(c.contains(e));
        let k = choose|k: int| 0 <= k < c.len() && c[k] == e;
        assert(0 <= k < 8);
    }
}

/// The circle from `(x, y, d)` has no repeated cell, and every cell has
/// smaller absolute coordinate at least `x`.
pub proof fn lemma_circle_from(x: int, y: int, d: int)
    requires
        0 <= x,
        y <= 0x7FFF,
    ensures
        no_dups(circle_from(x, y, d)),
        forall|e: (i32, i32)| #[trigger] circle_from(x, y, d).contains(e) ==> min_abs(e) >= x,
        forall|e: (i32, i32)| #[trigger] circle_from(x, y, d).contains(e) ==> iabs(e.0 as int) <= y && iabs(e.1 as int) <= y,
        circle_from(x, y, d).len() <= 8 * (if y - x + 2 > 0 { y - x + 2 } else { 0 }),
    decreases y - x + 2,
{
    if y < x {
    } else {
        let x2 = x + 1;
        let (y2, d2) = if d > 0 {
            (y - 1, d + 4 * (x2 - (y - 1)) + 10)
        } else {
            (y, d + 4 * x2 + 6)
        };
        lemma_circle_from(x2, y2, d2);
        lemma_mirror_group(x as i32, y as i32);
        let g = mirror_group(x as i32, y as i32);
        let rest = circle_from(x2, y2, d2);
        assert(circle_from(x, y, d) == g + rest);
        let all = g + rest;
        assert forall|i: int, j: int| 0 <= i < j < all.len() implies all[i] != all[j] by {
            if i < g.len() && j >= g.len() {
                assert(g.contains(all[i]));
                assert(rest.contains(rest[j - g.len()]));
            } else if j >= g.len() {
                assert(all[i] == rest[i - g.len()]);
            }
        }
        assert forall|e: (i32, i32)| #[trigger] all.contains(e) implies min_abs(e) >= x && iabs(e.0 as int) <= y && iabs(e.1 as int) <= y by {
            let k = choose|k: int| 0 <= k < all.len() && all[k] == e;
            if k < g.len() {
                assert(g.contains(e));
            } else {
                assert(rest.contains(rest[k - g.len()]));
            }
        }
    }
}

/// Value of the Bresenham decision variable at octant point `(x, y)`.
pub open spec fn decision(r: int, x: int, y: int) -> int {
    2 * x * x + 2 * y * y - 2 * r * r + 8 * x - 6 * y + 4 * r + 3
}

proof fn lemma_decision_bounds(r: int, x: int, y: int)
    requires
        1 <= r <= 0x7FFF,
        0 <= x <= r + 1,
        -1 <= y <= r,
    ensures
        -0x8000_0000 - 0x40000 <= decision(r, x, y) <= 0x1_0400_0000,
{
    assert(-0x8000_0000 - 0x40000 <= decision(r, x, y) <= 0x1_0400_0000) by (nonlinear_arith)
        requires
            1 <= r <= 0x7FFF,
            0 <= x <= r + 1,
            -1 <= y <= r,
    ;
}

/// Append the distinct mirror images of octant point `(a, b)`, in order.
fn push_octant_mirror(offsets: &mut Vec<(i32, i32)>, a: i32, b: i32)
    requires
        -0x7FFF <= a <= 0x7FFF,
        -0x7FFF <= b <= 0x7FFF,
    ensures
        final(offsets)@ == old(offsets)@ + mirror_group(a, b),
{
    let candidates: [(i32, i32); 8] = [(a, b), (b, a), (-b, a), (-a, b), (-a, -b), (-b, -a), (b, -a), (a, -b)];
    let ghost cs = octant_candidates(a, b);
    assert(candidates@ == cs);
    let mut group: Vec<(i32, i32)> = Vec::new();
    let mut i: usize = 0;
    assert(cs.subrange(0, 8) =~= cs);
    while i < 8
        invariant
            i <= 8,
            candidates@ == cs,
            dedup_into(group@, cs.subrange(i as int, 8)) == mirror_group(a, b),
        decreases 8 - i,
    {
        let p = candidates[i];
        let mut found = false;
        let mut j: usize = 0;
        while j < group.len()
            invariant
                j <= group@.len(),
                found == (exists|k: int| 0 <= k < j && group@[k] == p),
            decreases group@.len() - j,
        {
            if group[j].0 == p.0 && group[j].1 == p.1 {
                found = true;
            }
            j += 1;
        }
        proof {
            assert(found == group@.contains(p));
            assert(cs.subrange(i as int, 8).drop_first() =~= cs.subrange(i as int + 1, 8));
            assert(cs.subrange(i as int, 8)[0] == p);
        }
        if !found {
            group.push(p);
        }
        i += 1;
    }
    proof {
        assert(cs.subrange(8, 8) =~= Seq::<(i32, i32)>::empty());
    }
    let mut k: usize = 0;
    let ghost o0 = offsets@;
    while k < group.len()
        invariant
            k <= group@.len(),
            group@ == mirror_group(a, b),
            offsets@ == o0 + group@.subrange(0, k as int),
        decreases group@.len() - k,
    {
        offsets.push(group[k]);
        k += 1;
        proof {
            assert(offsets@ =~= o0 + group@.subrange(0, k as int));
        }
    }
    proof {
        assert(group@.subrange(0, group@.len() as int) =~= group@);
    }
}

/// Offsets from the centre to the cells of the Bresenham circle of radius
/// `r`, in a fixed order and without repetition; a radius `<= 0` gives the
/// centre alone.
pub fn circle_offsets(r: i32) -> (out: Vec<(i32, i32)>)
    requires
        r <= MAX_EXPLODE_RADIUS,
    ensures
        out@ == circle_spec(r),
        no_dups(out@),
{
    if r <= 0 {
        let mut v: Vec<(i32, i32)> = Vec::new();
        v.push((0, 0));
        proof {
            assert(v@ =~= seq![(0i32, 0i32)]);
        }
        return v;
    }
    let mut offsets: Vec<(i32, i32)> = Vec::new();
    let mut x: i32 = 0;
    let mut y: i32 = r;
    let mut d: i64 = 3 - 2 * (r as i64);
    proof {
        lemma_circle_from(0, r as int, 3 - 2 * r);
    }
    while y >= x
        invariant
            1 <= r <= 0x7FFF,
            0 <= x <= r + 1,
            -1 <= y <= r,
            x <= y + 2,
            d == decision(r as int, x as int, y as int),
            offsets@ + circle_from(x as int, y as int, d as int) == circle_spec(r),
        decreases y - x + 2,
    {
        let ghost before = offsets@;
        let ghost (x0, y0, d0) = (x as int, y as int, d as int);
        push_octant_mirror(&mut offsets, x, y);
        proof {
            lemma_decision_bounds(r as int, x as int + 1, y as int);
            lemma_decision_bounds(r as int, x as int + 1, y as int - 1);
            assert(decision(r as int, x + 1, y as int) == d + 4 * (x + 1) + 6) by (nonlinear_arith)
                requires
                    d == decision(r as int, x as int, y as int),
            ;
            assert(decision(r as int, x + 1, y - 1) == d + 4 * ((x + 1) - (y - 1)) + 10) by (nonlinear_arith)
                requires
                    d == decision(r as int, x as int, y as int),
            ;
        }
        x += 1;
        if d > 0 {
            y -= 1;
            d += 4 * ((x - y) as i64) + 10;
        } else {
            d += 4 * (x as i64) + 6;
        }
        proof {
            assert(circle_from(x0, y0, d0) == mirror_group(x0 as i32, y0 as i32) + circle_from(
                x as int,
                y as int,
                d as int,
            ));
            assert(offsets@ + circle_from(x as int, y as int, d as int) =~= before + circle_from(x0, y0, d0));
        }
    }
    proof {
        assert(circle_from(x as int, y as int, d as int) =~= Seq::<(i32, i32)>::empty());
        assert(offsets@ =~= circle_spec(r));
        lemma_circle_from(0, r as int, 3 - 2 * r);
    }
    offsets
}

/// The floor square root of `v` (unique, see [`lemma_isqrt_unique`]).
pub open spec fn isqrt_of(v: int) -> int {
    choose|r: int| is_isqrt(v, r)
}

/// The floor square root is unique.
pub proof fn lemma_isqrt_unique(v: int, r1: int, r2: int)
    requires
        is_isqrt(v, r1),
        is_isqrt(v, r2),
    ensures
        r1 == r2,
{
    if r1 < r2 {
        assert((r1 + 1) * (r1 + 1) <= r2 * r2) by (nonlinear_arith)
            requires
                0 <= r1 < r2,
        ;
    } else if r2 < r1 {
        assert((r2 + 1) * (r2 + 1) <= r1 * r1) by (nonlinear_arith)
            requires
                0 <= r2 < r1,
        ;
    }
}

/// Unit direction of ray offset `(dx, dy)`: each component divided by the
/// floor length; zero for a zero offset.
pub open spec fn ray_unit(dx: i32, dy: i32) -> (Fx, Fx) {
    let mag = isqrt_of(dx * dx + dy * dy) as i32;
    if mag == 0 {
        (Fx(0), Fx(0))
    } else {
        (Fx(wrap_i32(trunc_div(dx * 65536, mag as int))), Fx(wrap_i32(trunc_div(dy * 65536, mag as int))))
    }
}

/// Centre of cell coordinate `c` as Q16.16.
pub open spec fn centre_of(c: i32) -> Fx {
    Fx(wrap_i32((c << 16u32) as int + HALF_CELL_RAW))
}

/// The cells of ray `(dx, dy)` from cell `(cx, cy)`: the centre cell, then the
/// cells crossed from its centre to the centre plus the offset.
pub open spec fn ray_cells(cx: i32, cy: i32, dx: i32, dy: i32) -> Seq<(i32, i32)> {
    seq![(cx, cy)] + walk_cells(walk_start((centre_of(cx), centre_of(cy)), (Fx(dx << 16u32), Fx(dy << 16u32))))
}

/// Coordinates for which a ray from `(cx, cy)` with offset `(dx, dy)` stays
/// representable in Q16.16.
pub open spec fn ray_in_range(cx: i32, cy: i32, dx: i32, dy: i32) -> bool {
    &&& -32768 <= cx <= 32767
    &&& -32768 <= cy <= 32767
    &&& -32768 <= dx <= 32767
    &&& -32768 <= dy <= 32767
    &&& -32768 <= cx + dx <= 32767
    &&& -32768 <= cy + dy <= 32767
}

/// Whether a cell destroyed with `energy` left of `power` vaporizes:
/// `energy / power > threshold / 255`.
pub open spec fn vaporizes(energy: u32, power: u32, threshold: u8) -> bool {
    (energy as int) * 255 > (power as int) * (threshold as int)
}

/// The splash particle of a cell of material `m` destroyed at `(gx, gy)` with
/// `energy` left of `power`: launched from the cell centre along the ray at
/// `8 * energy / power * 40 / density` cells per tick, each component
/// jittered by up to half a cell and clamped to the speed limit.
pub open spec fn splash_spec(
    t: Seq<MaterialDef>,
    m: u8,
    gx: i32,
    gy: i32,
    energy: u32,
    power: u32,
    unit: (Fx, Fx),
    stamp: u8,
    fseed: u32,
    salt: u32,
) -> SpawnRequest {
    let ratio = wrap_i32(trunc_div((energy as i32) * 65536, (power as i32) as int));
    let dens = t[m as int].density;
    let dm = if dens < 1 { 1u16 } else { dens };
    let mass = wrap_i32(trunc_div(REF_BLAST_DENSITY * 65536, (dm as i32) as int));
    let s1 = wrap_i32((EXPLODE_SPEED_RAW * ratio) / 65536);
    let speed = wrap_i32((s1 * mass) / 65536);
    let rx = rng_spec(fseed, STREAM_EXPLODE, gx, gy, salt, explode_attempt_spec(stamp, EXPLODE_ROLL_VX));
    let ry = rng_spec(fseed, STREAM_EXPLODE, gx, gy, salt, explode_attempt_spec(stamp, EXPLODE_ROLL_VY));
    let vx = clamp_raw(wrap_i32(wrap_i32((unit.0.0 * speed) / 65536) + emit_jitter_spec(rx, EXPLODE_JITTER_RAW)) as int);
    let vy = clamp_raw(wrap_i32(wrap_i32((unit.1.0 * speed) / 65536) + emit_jitter_spec(ry, EXPLODE_JITTER_RAW)) as int);
    SpawnRequest { material: m, x: centre_of(gx), y: centre_of(gy), vx: Fx(vx as i32), vy: Fx(vy as i32) }
}

/// What a ray does from its `k`-th cell on, over grid `g` of size `w x h`:
/// the cells it destroys (in order), the splash requests, the vaporized count.
#[verifier::opaque]
pub open spec fn ray_out(
    g: spec_fn(int, int) -> Cell,
    w: int,
    h: int,
    t: Seq<MaterialDef>,
    cells: Seq<(i32, i32)>,
    k: int,
    energy: u32,
    power: u32,
    max_cells: u32,
    unit: (Fx, Fx),
    stamp: u8,
    fseed: u32,
    salt: u32,
) -> (Seq<(i32, i32)>, Seq<SpawnRequest>, nat)
    decreases cells.len() - k,
{
    if k < 0 || k >= cells.len() || k >= max_cells {
        (Seq::empty(), Seq::empty(), 0)
    } else {
        let c = cells[k];
        if !(0 <= c.0 < w && 0 <= c.1 < h) {
            (Seq::empty(), Seq::empty(), 0)
        } else {
            let m = g(c.0 as int, c.1 as int).mat();
            let cost = t[m as int].hp;
            if energy < cost {
                (Seq::empty(), Seq::empty(), 0)
            } else {
                let e = (energy - cost) as u32;
                let rest = ray_out(g, w, h, t, cells, k + 1, e, power, max_cells, unit, stamp, fseed, salt);
                if m == MAT_AIR {
                    rest
                } else if vaporizes(e, power, t[m as int].vaporize_threshold) {
                    (seq![c] + rest.0, rest.1, rest.2 + 1)
                } else {
                    (
                        seq![c] + rest.0,
                        seq![splash_spec(t, m, c.0, c.1, e, power, unit, stamp, fseed, salt)] + rest.1,
                        rest.2,
                    )
                }
            }
        }
    }
}

/// Grid `g` with the in-bounds cells listed in `d` replaced by air stamped `stamp`.
pub open spec fn blast_grid(g: spec_fn(int, int) -> Cell, w: int, h: int, d: Seq<(i32, i32)>, stamp: u8) -> spec_fn(
    int,
    int,
) -> Cell {
    |a: int, b: int|
        if 0 <= a < w && 0 <= b < h && d.contains((a as i32, b as i32)) {
            air_stamped(stamp)
        } else {
            g(a, b)
        }
}

/// `new` is `old` with the cells of `d` turned into air stamped `stamp`
/// (write rectangles only grow; nothing else changes).
pub open spec fn blasted(new: World, old: World, d: Seq<(i32, i32)>, stamp: u8) -> bool {
    &&& new.wf()
    &&& new.same_shape(old)
    &&& new.same_scan(old)
    &&& new.nd_grows(old)
    &&& forall|a: int, b: int| #[trigger] new.at(a, b) == blast_grid(old.grid(), old.w(), old.h(), d, stamp)(a, b)
}

/// The ray cells are pairwise distinct.
pub proof fn lemma_ray_cells_distinct(cx: i32, cy: i32, dx: i32, dy: i32)
    requires
        ray_in_range(cx, cy, dx, dy),
    ensures
        no_dups(ray_cells(cx, cy, dx, dy)),
        ray_cells(cx, cy, dx, dy).len() <= 65537,
{
    let pos = (centre_of(cx), centre_of(cy));
    let vel = (Fx(dx << 16u32), Fx(dy << 16u32));
    assert((cx << 16u32) == cx * 65536 && (dx << 16u32) == dx * 65536 && (cy << 16u32) == cy * 65536
        && (dy << 16u32) == dy * 65536) by (bit_vector)
        requires
            -32768 <= cx <= 32767,
            -32768 <= cy <= 32767,
            -32768 <= dx <= 32767,
            -32768 <= dy <= 32767,
    ;
    assert(no_wrap(pos, vel));
    lemma_walk_start(pos, vel);
    let w = walk_start(pos, vel);
    lemma_walk_cells_dist(w);
    assert(w.cx == cx && w.cy == cy);
    let s = ray_cells(cx, cy, dx, dy);
    let wc = walk_cells(w);
    assert forall|i: int, j: int| 0 <= i < j < s.len() implies s[i] != s[j] by {
        assert(s[j] == wc[j - 1]);
        assert(cell_dist(w, wc[j - 1]) == w.measure() - j);
        if i == 0 {
            assert(cell_dist(w, s[0]) == w.measure());
        } else {
            assert(s[i] == wc[i - 1]);
        }
    }
}

/// Changing the diagnostic counter keeps a blast relation.
pub proof fn lemma_blasted_counter(w1: World, w0: World, d: Seq<(i32, i32)>, stamp: u8, v: u64)
    requires
        blasted(w1, w0, d, stamp),
    ensures
        blasted(World { vaporized_total: v, ..w1 }, w0, d, stamp),
{
    let w2 = World { vaporized_total: v, ..w1 };
    assert forall|a: int, b: int| #[trigger] w2.at(a, b) == blast_grid(w0.grid(), w0.w(), w0.h(), d, stamp)(a, b) by {
        assert(w2.at(a, b) == w1.at(a, b));
    }
    assert forall|cx: int, cy: int| 0 <= cx < w2.width_chunks && 0 <= cy < w2.height_chunks implies {
        let n = (#[trigger] w2.chunk_at(cx, cy)).next_dirty@;
        let o = w0.chunk_at(cx, cy).next_dirty@;
        &&& n.0 <= o.0 && n.1 <= o.1 && n.2 >= o.2 && n.3 >= o.3
        &&& rect_in_chunk(o) ==> rect_in_chunk(n)
    } by {
        assert(w2.chunk_at(cx, cy) == w1.chunk_at(cx, cy));
    }
}

/// Air freshly written with `stamp` has material 0.
pub proof fn lemma_air_stamped(stamp: u8)
    ensures
        air_stamped(stamp).mat() == MAT_AIR,
{
    let v = pack_bits(0, stamp);
    lemma_cell_from_bits(v);
    assert(((v & 0xff) as u8) == 0) by (bit_vector)
        requires
            v == (0u8 as u32) | ((stamp as u32) << 8u32),
    ;
}

/// Turn the in-bounds cell `(gx, gy)` into air stamped `stamp`.
fn destroy_cell(world: &mut World, table: &MaterialTable, gx: i32, gy: i32, stamp: u8)
    requires
        old(world).wf(),
        old(world).inb(gx as int, gy as int),
        old(world).mats_valid(table@.len() as int),
    ensures
        blasted(*final(world), *old(world), seq![(gx, gy)], stamp),
        final(world).vaporized_total == old(world).vaporized_total,
        final(world).mats_valid(table@.len() as int),
        world_count(*final(world), MAT_AIR) == world_count(*old(world), MAT_AIR) + ind(
            old(world).at(gx as int, gy as int).mat() != MAT_AIR,
        ),
{
    let ghost w0 = *world;
    let n = table.len();
    world.set_cell_stamped(table, gx, gy, MAT_AIR, stamp);
    proof {
        crate::world::lemma_marked_grows(*world, w0, gx as int, gy as int);
        lemma_air_stamped(stamp);
        assert(world.at(gx as int, gy as int) == air_stamped(stamp));
        let sq = seq![(gx, gy)];
        assert forall|a: int, b: int| #[trigger]
            world.at(a, b) == blast_grid(w0.grid(), w0.w(), w0.h(), sq, stamp)(a, b) by {
            if a == gx && b == gy {
                assert(sq[0] == (a as i32, b as i32));
                assert(sq.contains((a as i32, b as i32)));
            } else if w0.inb(a, b) {
                if sq.contains((a as i32, b as i32)) {
                    assert(sq[0] == (a as i32, b as i32));
                }
            }
        }
        assert forall|a: int, b: int| #[trigger] world.inb(a, b) implies (world.at(a, b).mat() as int) < n by {
            assert(w0.inb(a, b));
        }
        assert(world_count(*world, MAT_AIR) + ind(w0.at(gx as int, gy as int).mat() == MAT_AIR) == world_count(w0, MAT_AIR)
            + ind(MAT_AIR == MAT_AIR));
    }
}

/// The air cells gained from `old` to `new` are exactly the splash requests
/// added (`os` to `ns` requests) plus the growth of the vaporized counter.
pub open spec fn air_balance(new: World, old: World, ns: int, os: int) -> bool {
    world_count(new, MAT_AIR) + os + old.vaporized_total == world_count(old, MAT_AIR) + ns + new.vaporized_total
}

/// `world` is related to itself by an empty blast.
proof fn lemma_blasted_none(w: World, stamp: u8)
    requires
        w.wf(),
    ensures
        blasted(w, w, Seq::empty(), stamp),
{
    assert forall|a: int, b: int| #[trigger] w.at(a, b) == blast_grid(w.grid(), w.w(), w.h(), Seq::<(i32, i32)>::empty(), stamp)(a, b) by {
    }
}

/// One cell of a ray: returns the energy left, or `None` where the ray stops
/// (outside the world, or the cell costs more than the energy left).
fn fire_cell(
    world: &mut World,
    table: &MaterialTable,
    gx: i32,
    gy: i32,
    energy: u32,
    power: u32,
    unit: (Fx, Fx),
    stamp: u8,
    fseed: u32,
    salt: u32,
    spawns: &mut Vec<SpawnRequest>,
) -> (r: Option<u32>)
    requires
        old(world).wf(),
        old(world).mats_valid(table@.len() as int),
        power > 0,
        old(world).vaporized_total < u64::MAX,
    ensures
        final(world).mats_valid(table@.len() as int),
        air_balance(*final(world), *old(world), final(spawns)@.len() as int, old(spawns)@.len() as int),
        ({
            let w0 = *old(world);
            let t = table@;
            let c = (gx, gy);
            let m = w0.at(gx as int, gy as int).mat();
            if !w0.inb(gx as int, gy as int) || energy < t[m as int].hp {
                &&& r is None
                &&& blasted(*final(world), w0, Seq::empty(), stamp)
                &&& final(spawns)@ == old(spawns)@
                &&& final(world).vaporized_total == w0.vaporized_total
            } else {
                let e = (energy - t[m as int].hp) as u32;
                &&& r == Some(e)
                &&& if m == MAT_AIR {
                    &&& blasted(*final(world), w0, Seq::empty(), stamp)
                    &&& final(spawns)@ == old(spawns)@
                    &&& final(world).vaporized_total == w0.vaporized_total
                } else if vaporizes(e, power, t[m as int].vaporize_threshold) {
                    &&& blasted(*final(world), w0, seq![c], stamp)
                    &&& final(spawns)@ == old(spawns)@
                    &&& final(world).vaporized_total == w0.vaporized_total + 1
                } else {
                    &&& blasted(*final(world), w0, seq![c], stamp)
                    &&& final(spawns)@ == old(spawns)@.push(
                        splash_spec(t, m, gx, gy, e, power, unit, stamp, fseed, salt),
                    )
                    &&& final(world).vaporized_total == w0.vaporized_total
                }
            }
        }),
{
    proof {
        lemma_blasted_none(*world, stamp);
    }
    if !world.in_bounds(gx, gy) {
        return None;
    }
    let material = world.cell(gx, gy).material();
    let cost = table.hp(material);
    if energy < cost {
        return None;
    }
    let e = energy - cost;
    if material == MAT_AIR {
        return Some(e);
    }
    let threshold = table.vaporize_threshold(material);
    proof {
        let (pi, ti) = (power as int, threshold as int);
        assert(0 <= pi * ti <= 0xFFFF_FFFF * 255) by (nonlinear_arith)
            requires
                0 <= pi <= 0xFFFF_FFFF,
                0 <= ti <= 255,
        ;
    }
    if (e as i64) * 255 > (power as i64) * (threshold as i64) {
        let ghost w0 = *world;
        destroy_cell(world, table, gx, gy, stamp);
        let ghost w1 = *world;
        world.vaporized_total = world.vaporized_total + 1;
        proof {
            lemma_blasted_counter(w1, w0, seq![(gx, gy)], stamp, world.vaporized_total);
            assert(*world == World { vaporized_total: world.vaporized_total, ..w1 });
            assert forall|a: int, b: int| #[trigger] world.inb(a, b) implies (world.at(a, b).mat() as int)
                < table@.len() by {
                assert(w1.inb(a, b));
                assert(world.at(a, b) == w1.at(a, b));
            }
        }
        return Some(e);
    }
    proof {
        assert((power as i32) != 0) by (bit_vector)
            requires
                power > 0,
        ;
    }
    let speed_ratio = Fx::from_ratio(#[verifier::truncate] (e as i32), #[verifier::truncate] (power as i32));
    let dens = table.density(material);
    let dm: u16 = if dens < 1 { 1 } else { dens };
    let mass_factor = Fx::from_ratio(REF_BLAST_DENSITY, dm as i32);
    let speed_mag = explode_speed().mul(speed_ratio).mul(mass_factor);
    let rx = rng::rng_u32(fseed, rng::STREAM_EXPLODE, gx, gy, salt, explode_attempt(stamp, EXPLODE_ROLL_VX));
    let ry = rng::rng_u32(fseed, rng::STREAM_EXPLODE, gx, gy, salt, explode_attempt(stamp, EXPLODE_ROLL_VY));
    let vx = clamp_speed(unit.0.mul(speed_mag) + emit_jitter(rx, explode_jitter()));
    let vy = clamp_speed(unit.1.mul(speed_mag) + emit_jitter(ry, explode_jitter()));
    destroy_cell(world, table, gx, gy, stamp);
    let req = SpawnRequest {
        material,
        x: Fx::from_int(gx) + half_cell(),
        y: Fx::from_int(gy) + half_cell(),
        vx,
        vy,
    };
    spawns.push(req);
    proof {
        assert(req == splash_spec(table@, material, gx, gy, e, power, unit, stamp, fseed, salt));
    }
    Some(e)
}

/// Composition of two blasts.
pub proof fn lemma_blasted_compose(w2: World, w1: World, w0: World, d1: Seq<(i32, i32)>, d2: Seq<(i32, i32)>, stamp: u8)
    requires
        blasted(w1, w0, d1, stamp),
        blasted(w2, w1, d2, stamp),
    ensures
        blasted(w2, w0, d1 + d2, stamp),
{
    crate::world::lemma_grows_trans(w2, w1, w0);
    let d = d1 + d2;
    assert forall|a: int, b: int| #[trigger] w2.at(a, b) == blast_grid(w0.grid(), w0.w(), w0.h(), d, stamp)(a, b) by {
        assert(w2.at(a, b) == blast_grid(w1.grid(), w1.w(), w1.h(), d2, stamp)(a, b));
        assert(w1.at(a, b) == blast_grid(w0.grid(), w0.w(), w0.h(), d1, stamp)(a, b));
        let p = (a as i32, b as i32);
        if d.contains(p) {
            let k = choose|k: int| 0 <= k < d.len() && d[k] == p;
            if k < d1.len() {
                assert(d1[k] == p);
            } else {
                assert(d2[k - d1.len()] == p);
            }
        }
        if d1.contains(p) {
            let k = choose|k: int| 0 <= k < d1.len() && d1[k] == p;
            assert(d[k] == p);
        }
        if d2.contains(p) {
            let k = choose|k: int| 0 <= k < d2.len() && d2[k] == p;
            assert(d[d1.len() + k] == p);
        }
    }
}

/// A ray's outcome depends only on the cells it reaches.
pub proof fn lemma_ray_out_congruent(
    g1: spec_fn(int, int) -> Cell,
    g0: spec_fn(int, int) -> Cell,
    w: int,
    h: int,
    t: Seq<MaterialDef>,
    cells: Seq<(i32, i32)>,
    k: int,
    energy: u32,
    power: u32,
    max_cells: u32,
    unit: (Fx, Fx),
    stamp: u8,
    fseed: u32,
    salt: u32,
)
    requires
        forall|j: int| k <= j < cells.len() ==> #[trigger] g1(cells[j].0 as int, cells[j].1 as int) == g0(
            cells[j].0 as int,
            cells[j].1 as int,
        ),
    ensures
        ray_out(g1, w, h, t, cells, k, energy, power, max_cells, unit, stamp, fseed, salt) == ray_out(
            g0,
            w,
            h,
            t,
            cells,
            k,
            energy,
            power,
            max_cells,
            unit,
            stamp,
            fseed,
            salt,
        ),
    decreases cells.len() - k,
{
    reveal(ray_out);
    if k < 0 || k >= cells.len() || k >= max_cells {
    } else {
        let c = cells[k];
        assert(g1(c.0 as int, c.1 as int) == g0(c.0 as int, c.1 as int));
        let m = g0(c.0 as int, c.1 as int).mat();
        if 0 <= c.0 < w && 0 <= c.1 < h && energy >= t[m as int].hp {
            let e = (energy - t[m as int].hp) as u32;
            lemma_ray_out_congruent(g1, g0, w, h, t, cells, k + 1, e, power, max_cells, unit, stamp, fseed, salt);
        }
    }
}

/// The ray from its `k`-th cell on (`walk` yields the cells after the `k`-th... 
/// precisely `cells[k..]`), applied to the world as it is now.
fn fire_ray_from(
    world: &mut World,
    table: &MaterialTable,
    cells: Ghost<Seq<(i32, i32)>>,
    walk: CellWalk,
    k: u32,
    energy: u32,
    power: u32,
    max_cells: u32,
    unit: (Fx, Fx),
    stamp: u8,
    fseed: u32,
    salt: u32,
    spawns: &mut Vec<SpawnRequest>,
)
    requires
        old(world).wf(),
        old(world).mats_valid(table@.len() as int),
        power > 0,
        no_dups(cells@),
        cells@.len() <= 65537,
        walk.inv(),
        1 <= k <= cells@.len(),
        walk_cells(walk) == cells@.subrange(k as int, cells@.len() as int),
        old(world).vaporized_total <= u64::MAX - (cells@.len() - k),
    ensures
        ({
            let w0 = *old(world);
            let out = ray_out(w0.grid(), w0.w(), w0.h(), table@, cells@, k as int, energy, power, max_cells, unit, stamp, fseed, salt);
            &&& blasted(*final(world), w0, out.0, stamp)
            &&& final(spawns)@ == old(spawns)@ + out.1
            &&& final(world).vaporized_total == w0.vaporized_total + out.2
            &&& out.2 <= cells@.len() - k
        }),
        final(world).mats_valid(table@.len() as int),
        air_balance(*final(world), *old(world), final(spawns)@.len() as int, old(spawns)@.len() as int),
    decreases walk.measure(),
{
    let ghost w0 = *world;
    let ghost s0 = spawns@;
    let ghost t = table@;
    let ghost out = ray_out(w0.grid(), w0.w(), w0.h(), t, cells@, k as int, energy, power, max_cells, unit, stamp, fseed, salt);
    proof {
        reveal(ray_out);
        lemma_blasted_none(w0, stamp);
    }
    if k >= max_cells {
        proof {
            assert(spawns@ =~= s0 + out.1);
        }
        return;
    }
    let mut walk = walk;
    let ghost wk = walk;
    proof {
        if !walk.done() {
            lemma_advance(walk);
        }
    }
    match walk.next() {
        None => {
            proof {
                assert(cells@.subrange(k as int, cells@.len() as int).len() == 0);
                assert(spawns@ =~= s0 + out.1);
            }
        },
        Some(c) => {
            let (gx, gy) = c;
            proof {
                assert(walk_cells(wk) == seq![c] + walk_cells(walk));
                assert(cells@.subrange(k as int, cells@.len() as int)[0] == cells@[k as int]);
                assert(c == cells@[k as int]);
                let a = walk_cells(wk);
                assert(walk_cells(walk) =~= a.subrange(1, a.len() as int));
                assert(a.subrange(1, a.len() as int) =~= cells@.subrange(k as int + 1, cells@.len() as int));
                assert(w0.grid()(gx as int, gy as int) == w0.at(gx as int, gy as int));
            }
            let r = fire_cell(world, table, gx, gy, energy, power, unit, stamp, fseed, salt, spawns);
            match r {
                None => {
                    proof {
                        assert(spawns@ =~= s0 + out.1);
                    }
                },
                Some(e) => {
                    let ghost w1 = *world;
                    let ghost s1 = spawns@;
                    let ghost m0 = w0.at(gx as int, gy as int).mat();
                    let ghost d1 = if m0 != MAT_AIR { seq![c] } else { Seq::<(i32, i32)>::empty() };
                    proof {
                        // the remaining cells were untouched by this one
                        assert forall|j: int| k + 1 <= j < cells@.len() implies #[trigger] w1.grid()(
                            cells@[j].0 as int,
                            cells@[j].1 as int,
                        ) == w0.grid()(cells@[j].0 as int, cells@[j].1 as int) by {
                            let p = cells@[j];
                            assert(p != cells@[k as int]);
                            assert(w1.at(p.0 as int, p.1 as int) == blast_grid(w0.grid(), w0.w(), w0.h(), d1, stamp)(
                                p.0 as int,
                                p.1 as int,
                            ));
                            if d1.contains((p.0 as i32, p.1 as i32)) {
                                assert(d1[0] == p);
                            }
                        }
                        lemma_ray_out_congruent(w1.grid(), w0.grid(), w0.w(), w0.h(), t, cells@, k as int + 1, e, power, max_cells, unit, stamp, fseed, salt);
                    }
                    fire_ray_from(world, table, cells, walk, k + 1, e, power, max_cells, unit, stamp, fseed, salt, spawns);
                    proof {
                        let next = ray_out(w0.grid(), w0.w(), w0.h(), t, cells@, k as int + 1, e, power, max_cells, unit, stamp, fseed, salt);
                        lemma_blasted_compose(*world, w1, w0, d1, next.0, stamp);
                        if m0 != MAT_AIR {
                            assert(out.0 =~= d1 + next.0);
                        } else {
                            assert(out.0 =~= d1 + next.0);
                        }
                        assert(spawns@ =~= s0 + out.1);
                    }
                },
            }
        },
    }
}

/// Fire one ray from cell `(cx, cy)` toward offset `(dx, dy)` with energy
/// `power`, over at most `max_cells` cells (the centre cell included): the
/// cells it destroys, splashes and vaporizations are those of [`ray_out`]
/// over the world as it was before the ray.
pub fn fire_ray(
    world: &mut World,
    table: &MaterialTable,
    cx: i32,
    cy: i32,
    dx: i32,
    dy: i32,
    power: u32,
    max_cells: u32,
    stamp: u8,
    fseed: u32,
    op_idx: usize,
    spawns: &mut Vec<SpawnRequest>,
)
    requires
        old(world).wf(),
        old(world).mats_valid(table@.len() as int),
        power > 0,
        ray_in_range(cx, cy, dx, dy),
        old(world).vaporized_total <= u64::MAX - 65537,
    ensures
        ({
            let w0 = *old(world);
            let out = ray_out(
                w0.grid(),
                w0.w(),
                w0.h(),
                table@,
                ray_cells(cx, cy, dx, dy),
                0,
                power,
                power,
                max_cells,
                ray_unit(dx, dy),
                stamp,
                fseed,
                op_idx as u32,
            );
            &&& blasted(*final(world), w0, out.0, stamp)
            &&& final(spawns)@ == old(spawns)@ + out.1
            &&& final(world).vaporized_total == w0.vaporized_total + out.2
            &&& out.2 <= 65537
        }),
        final(world).mats_valid(table@.len() as int),
        air_balance(*final(world), *old(world), final(spawns)@.len() as int, old(spawns)@.len() as int),
{
    let ghost w0 = *world;
    let ghost s0 = spawns@;
    let ghost cells = ray_cells(cx, cy, dx, dy);
    proof {
        lemma_ray_cells_distinct(cx, cy, dx, dy);
        let (a, b) = (dx as int, dy as int);
        assert(0 <= a * a <= 0x4000_0000 && 0 <= b * b <= 0x4000_0000) by (nonlinear_arith)
            requires
                -32768 <= a <= 32767,
                -32768 <= b <= 32767,
        ;
    }
    let mag_sq: i64 = (dx as i64) * (dx as i64) + (dy as i64) * (dy as i64);
    let m = isqrt(mag_sq as u64);
    proof {
        let v = dx * dx + dy * dy;
        assert(v == mag_sq);
        assert(is_isqrt(v, isqrt_of(v)));
        lemma_isqrt_unique(v, m as int, isqrt_of(v));
        assert(m * m <= 0x8000_0000);
        assert(m < 46342) by (nonlinear_arith)
            requires
                m * m <= 0x8000_0000,
                m >= 0,
        ;
    }
    let mag: i32 = m as i32;
    let unit = if mag == 0 {
        (Fx::zero(), Fx::zero())
    } else {
        (Fx::from_ratio(dx, mag), Fx::from_ratio(dy, mag))
    };
    let centre = (Fx::from_int(cx) + half_cell(), Fx::from_int(cy) + half_cell());
    let vel = (Fx::from_int(dx), Fx::from_int(dy));
    proof {
        assert(unit == ray_unit(dx, dy));
        assert((cx << 16u32) == cx * 65536 && (dx << 16u32) == dx * 65536 && (cy << 16u32) == cy * 65536
            && (dy << 16u32) == dy * 65536) by (bit_vector)
            requires
                -32768 <= cx <= 32767,
                -32768 <= cy <= 32767,
                -32768 <= dx <= 32767,
                -32768 <= dy <= 32767,
        ;
        assert(centre == (centre_of(cx), centre_of(cy)));
        assert(vel == (Fx(dx << 16u32), Fx(dy << 16u32)));
        assert(no_wrap(centre, vel));
    }
    let salt: u32 = #[verifier::truncate] (op_idx as u32);
    let ghost full = ray_out(w0.grid(), w0.w(), w0.h(), table@, cells, 0, power, power, max_cells, unit, stamp, fseed, salt);
    proof {
        reveal(ray_out);
        lemma_blasted_none(w0, stamp);
    }
    if max_cells == 0 {
        proof {
            assert(spawns@ =~= s0 + full.1);
        }
        return;
    }
    proof {
        assert(cells[0] == (cx, cy));
        assert(w0.grid()(cx as int, cy as int) == w0.at(cx as int, cy as int));
    }
    let first = fire_cell(world, table, cx, cy, power, power, unit, stamp, fseed, salt, spawns);
    match first {
        None => {
            proof {
                assert(spawns@ =~= s0 + full.1);
            }
        },
        Some(e) => {
            let ghost w1 = *world;
            let ghost m0 = w0.at(cx as int, cy as int).mat();
            let ghost d1 = if m0 != MAT_AIR { seq![(cx, cy)] } else { Seq::<(i32, i32)>::empty() };
            let walk = CellWalk::new(centre, vel);
            proof {
                assert(walk_cells(walk) =~= cells.subrange(1, cells.len() as int));
                assert forall|j: int| 1 <= j < cells.len() implies #[trigger] w1.grid()(
                    cells[j].0 as int,
                    cells[j].1 as int,
                ) == w0.grid()(cells[j].0 as int, cells[j].1 as int) by {
                    let p = cells[j];
                    assert(p != cells[0]);
                    assert(w1.at(p.0 as int, p.1 as int) == blast_grid(w0.grid(), w0.w(), w0.h(), d1, stamp)(
                        p.0 as int,
                        p.1 as int,
                    ));
                    if d1.contains((p.0 as i32, p.1 as i32)) {
                        assert(d1[0] == p);
                    }
                }
                lemma_ray_out_congruent(w1.grid(), w0.grid(), w0.w(), w0.h(), table@, cells, 1, e, power, max_cells, unit, stamp, fseed, salt);
            }
            fire_ray_from(world, table, Ghost(cells), walk, 1, e, power, max_cells, unit, stamp, fseed, salt, spawns);
            proof {
                let next = ray_out(w0.grid(), w0.w(), w0.h(), table@, cells, 1, e, power, max_cells, unit, stamp, fseed, salt);
                lemma_blasted_compose(*world, w1, w0, d1, next.0, stamp);
                assert(full.0 =~= d1 + next.0);
                assert(spawns@ =~= s0 + full.1);
            }
        },
    }
}

/// Explosion coordinates for which every ray stays representable in Q16.16.
pub open spec fn explode_in_range(x: i32, y: i32, r: i32) -> bool {
    let rr = if r > 0 { r as int } else { 0 };
    &&& r <= MAX_EXPLODE_RADIUS
    &&& -32768 <= x - rr
    &&& x + rr <= 32767
    &&& -32768 <= y - rr
    &&& y + rr <= 32767
}

/// The circle offsets of radius `r` stay within `r` on both axes; there are at most `8 (r + 2)`.
pub proof fn lemma_circle_bounds(r: i32)
    requires
        r <= MAX_EXPLODE_RADIUS,
    ensures
        circle_spec(r).len() <= 8 * 0x8001,
        forall|e: (i32, i32)| #[trigger] circle_spec(r).contains(e) ==> iabs(e.0 as int) <= (if r > 0 { r as int } else { 0 })
            && iabs(e.1 as int) <= (if r > 0 { r as int } else { 0 }),
{
    if r > 0 {
        lemma_circle_from(0, r as int, 3 - 2 * r);
    } else {
        assert forall|e: (i32, i32)| #[trigger] circle_spec(r).contains(e) implies iabs(e.0 as int) <= 0 && iabs(e.1 as int) <= 0 by {
            assert(circle_spec(r)[0] == (0i32, 0i32));
        }
    }
}

/// The per-ray energy of an explosion of energy `power`: fluctuated by up to a quarter.
pub open spec fn ray_power_spec(power: u32, dx: i32, dy: i32, stamp: u8, fseed: u32, salt: u32) -> u32 {
    ray_fluct_spec(power, rng_spec(fseed, STREAM_EXPLODE, dx, dy, salt, explode_attempt_spec(stamp, EXPLODE_ROLL_RAY_POWER)), true)
}

/// The per-ray cell budget of an explosion of radius `r`: the radius shrunk by
/// up to a quarter, plus the centre cell.
pub open spec fn ray_range_spec(r: i32, dx: i32, dy: i32, stamp: u8, fseed: u32, salt: u32) -> u32 {
    wadd(ray_fluct_spec(r as u32, rng_spec(fseed, STREAM_EXPLODE, dx, dy, salt, explode_attempt_spec(stamp, EXPLODE_ROLL_RAY_RANGE)), false), 1)
}

/// Rays `k..` of an explosion at `(x, y)`, each over the grid left by the
/// rays before it: the final grid, the splash requests and the vaporized count.
#[verifier::opaque]
pub open spec fn explode_rays(
    g: spec_fn(int, int) -> Cell,
    w: int,
    h: int,
    t: Seq<MaterialDef>,
    offs: Seq<(i32, i32)>,
    k: int,
    x: i32,
    y: i32,
    r: i32,
    power: u32,
    stamp: u8,
    fseed: u32,
    salt: u32,
) -> (spec_fn(int, int) -> Cell, Seq<SpawnRequest>, nat)
    decreases offs.len() - k,
{
    if k < 0 || k >= offs.len() {
        (g, Seq::empty(), 0)
    } else {
        let (dx, dy) = offs[k];
        let rp = ray_power_spec(power, dx, dy, stamp, fseed, salt);
        let mc = ray_range_spec(r, dx, dy, stamp, fseed, salt);
        let out = ray_out(g, w, h, t, ray_cells(x, y, dx, dy), 0, rp, rp, mc, ray_unit(dx, dy), stamp, fseed, salt);
        let rest = explode_rays(blast_grid(g, w, h, out.0, stamp), w, h, t, offs, k + 1, x, y, r, power, stamp, fseed, salt);
        (rest.0, out.1 + rest.1, out.2 + rest.2)
    }
}

/// Largest explosion energy: a ray's fluctuated energy stays inside `u32`.
pub const MAX_EXPLODE_POWER: u32 = 0xCCCC_CCCC;

/// `Op::Explode`: one ray per circle offset, in order, each with its own
/// fluctuated energy and range. Zero energy does nothing. Every cell it turns
/// into air either becomes a splash request or counts as vaporized.
pub fn apply_explode(
    world: &mut World,
    table: &MaterialTable,
    x: i32,
    y: i32,
    r: i32,
    power: u32,
    stamp: u8,
    fseed: u32,
    op_idx: usize,
    spawns: &mut Vec<SpawnRequest>,
)
    requires
        old(world).wf(),
        old(world).mats_valid(table@.len() as int),
        explode_in_range(x, y, r),
        power <= MAX_EXPLODE_POWER,
        old(world).vaporized_total <= u64::MAX - 0x1_0000_0000_0000,
    ensures
        power == 0 ==> *final(world) == *old(world) && final(spawns)@ == old(spawns)@,
        power > 0 ==> {
            let w0 = *old(world);
            let res = explode_rays(
                w0.grid(),
                w0.w(),
                w0.h(),
                table@,
                circle_spec(r),
                0,
                x,
                y,
                r,
                power,
                stamp,
                fseed,
                op_idx as u32,
            );
            &&& final(world).wf()
            &&& final(world).same_shape(w0)
            &&& final(world).same_scan(w0)
            &&& final(world).nd_grows(w0)
            &&& forall|a: int, b: int| #[trigger] final(world).at(a, b) == (res.0)(a, b)
            &&& final(spawns)@ == old(spawns)@ + res.1
            &&& final(world).vaporized_total == w0.vaporized_total + res.2
        },
        final(world).mats_valid(table@.len() as int),
        air_balance(*final(world), *old(world), final(spawns)@.len() as int, old(spawns)@.len() as int),
{
    if power == 0 {
        return;
    }
    let ghost w0 = *world;
    let ghost s0 = spawns@;
    let offs = circle_offsets(r);
    proof {
        lemma_circle_bounds(r);
    }
    let salt: u32 = #[verifier::truncate] (op_idx as u32);
    explode_from(world, table, &offs, 0, x, y, r, power, stamp, fseed, op_idx, salt, spawns);
}

/// Rays `i..` of an explosion, applied to the world as it is now.
#[verifier::spinoff_prover]
fn explode_from(
    world: &mut World,
    table: &MaterialTable,
    offs: &Vec<(i32, i32)>,
    i: usize,
    x: i32,
    y: i32,
    r: i32,
    power: u32,
    stamp: u8,
    fseed: u32,
    op_idx: usize,
    salt: u32,
    spawns: &mut Vec<SpawnRequest>,
)
    requires
        i <= offs@.len(),
        offs@.len() <= 8 * 0x8001,
        forall|e: (i32, i32)| #[trigger] offs@.contains(e) ==> iabs(e.0 as int) <= (if r > 0 { r as int } else { 0 })
            && iabs(e.1 as int) <= (if r > 0 { r as int } else { 0 }),
        explode_in_range(x, y, r),
        0 < power <= MAX_EXPLODE_POWER,
        salt == (op_idx as u32),
        old(world).wf(),
        old(world).mats_valid(table@.len() as int),
        old(world).vaporized_total <= u64::MAX - (offs@.len() - i) * 65537,
    ensures
        ({
            let w0 = *old(world);
            let res = explode_rays(w0.grid(), w0.w(), w0.h(), table@, offs@, i as int, x, y, r, power, stamp, fseed, salt);
            &&& final(world).wf()
            &&& final(world).same_shape(w0)
            &&& final(world).same_scan(w0)
            &&& final(world).nd_grows(w0)
            &&& forall|a: int, b: int| #[trigger] final(world).at(a, b) == (res.0)(a, b)
            &&& final(spawns)@ == old(spawns)@ + res.1
            &&& final(world).vaporized_total == w0.vaporized_total + res.2
            &&& res.2 <= (offs@.len() - i) * 65537
        }),
        final(world).mats_valid(table@.len() as int),
        air_balance(*final(world), *old(world), final(spawns)@.len() as int, old(spawns)@.len() as int),
    decreases offs@.len() - i,
{
    let ghost w0 = *world;
    let ghost s0 = spawns@;
    proof {
        lemma_blasted_none(w0, stamp);
    }
    if i >= offs.len() {
        proof {
            reveal(explode_rays);
            assert(spawns@ =~= s0 + Seq::<SpawnRequest>::empty());
        }
        return;
    }
    let (dx, dy) = offs[i];
    proof {
        assert(offs@.contains(offs@[i as int]));
    }
    let rp = rng::rng_u32(fseed, rng::STREAM_EXPLODE, dx, dy, salt, explode_attempt(stamp, EXPLODE_ROLL_RAY_POWER));
    let rr = rng::rng_u32(fseed, rng::STREAM_EXPLODE, dx, dy, salt, explode_attempt(stamp, EXPLODE_ROLL_RAY_RANGE));
    let ray_power = ray_fluct(power, rp, true);
    proof {
        assert((offs@.len() - i) * 65537 >= 65537) by (nonlinear_arith)
            requires offs@.len() - i >= 1;
    }
    let max_cells = ray_fluct(#[verifier::truncate] (r as u32), rr, false).wrapping_add(1);
    fire_ray(world, table, x, y, dx, dy, ray_power, max_cells, stamp, fseed, op_idx, spawns);
    let ghost w1 = *world;
    let ghost s1 = spawns@;
    proof {
        assert(ray_power == ray_power_spec(power, dx, dy, stamp, fseed, salt));
        assert(max_cells == ray_range_spec(r, dx, dy, stamp, fseed, salt));
        assert((offs@.len() - i) * 65537 == (offs@.len() - (i + 1)) * 65537 + 65537) by (nonlinear_arith);
    }
    explode_from(world, table, offs, i + 1, x, y, r, power, stamp, fseed, op_idx, salt, spawns);
    proof {
        let out = ray_out(w0.grid(), w0.w(), w0.h(), table@, ray_cells(x, y, dx, dy), 0, ray_power, ray_power, max_cells, ray_unit(dx, dy), stamp, fseed, salt);
        let g2 = blast_grid(w0.grid(), w0.w(), w0.h(), out.0, stamp);
        assert(w1.grid() =~= g2) by {
            assert forall|a: int, b: int| #[trigger] w1.grid()(a, b) == g2(a, b) by {
                assert(w1.at(a, b) == g2(a, b));
            }
        }
        crate::world::lemma_grows_trans(*world, w1, w0);
        let res = explode_rays(w0.grid(), w0.w(), w0.h(), table@, offs@, i as int, x, y, r, power, stamp, fseed, salt);
        let rest = explode_rays(g2, w0.w(), w0.h(), table@, offs@, i as int + 1, x, y, r, power, stamp, fseed, salt);
        assert(res == (rest.0, out.1 + rest.1, out.2 + rest.2)) by {
            reveal(explode_rays);
        }
        assert(spawns@ =~= s0 + res.1);
    }
}


/// Spawn requests of known materials whose positions can fly for a tick.
pub open spec fn spawns_ok(s: Seq<SpawnRequest>, n: int) -> bool {
    forall|q: int| 0 <= q < s.len() ==> {
        &&& ((#[trigger] s[q]).material as int) < n
        &&& crate::particle::flight_cell(s[q].x.0)
        &&& crate::particle::flight_cell(s[q].y.0)
    }
}

/// Every cell of grid `g` inside `w x h` holds a material below `n`.
pub open spec fn grid_mats(g: spec_fn(int, int) -> Cell, w: int, h: int, n: int) -> bool {
    forall|a: int, b: int| 0 <= a < w && 0 <= b < h ==> (#[trigger] g(a, b).mat() as int) < n
}

/// Largest world side, in cells, whose cell centres are flight positions.
pub const MAX_FLIGHT_CELLS: i32 = 32736;

/// The centre of a cell of a world no wider than `MAX_FLIGHT_CELLS` is a flight position.
pub proof fn lemma_centre_ok(c: i32)
    requires
        0 <= c < MAX_FLIGHT_CELLS,
    ensures
        crate::particle::flight_cell(centre_of(c).0),
{
    assert((c << 16u32) == c * 65536) by (bit_vector)
        requires
            0 <= c < 32736,
    ;
}

/// What a ray spawns is of a known material and starts at a cell centre of
/// the world; it vaporizes at most one cell per cell it visits.
proof fn lemma_ray_out_spawns(
    g: spec_fn(int, int) -> Cell,
    w: int,
    h: int,
    t: Seq<MaterialDef>,
    cells: Seq<(i32, i32)>,
    k: int,
    energy: u32,
    power: u32,
    max_cells: u32,
    unit: (Fx, Fx),
    stamp: u8,
    fseed: u32,
    salt: u32,
)
    requires
        grid_mats(g, w, h, t.len() as int),
        w <= MAX_FLIGHT_CELLS,
        h <= MAX_FLIGHT_CELLS,
        0 <= k,
    ensures
        spawns_ok(ray_out(g, w, h, t, cells, k, energy, power, max_cells, unit, stamp, fseed, salt).1, t.len() as int),
        ray_out(g, w, h, t, cells, k, energy, power, max_cells, unit, stamp, fseed, salt).2 <= (if cells.len() > k { cells.len() - k } else { 0 }),
        ray_out(g, w, h, t, cells, k, energy, power, max_cells, unit, stamp, fseed, salt).1.len() <= (if cells.len() > k { cells.len() - k } else { 0 }),
    decreases cells.len() - k,
{
    reveal(ray_out);
    if k < cells.len() && k < max_cells {
        let c = cells[k];
        if 0 <= c.0 < w && 0 <= c.1 < h {
            let m = g(c.0 as int, c.1 as int).mat();
            let cost = t[m as int].hp;
            if energy >= cost {
                let e = (energy - cost) as u32;
                lemma_ray_out_spawns(g, w, h, t, cells, k + 1, e, power, max_cells, unit, stamp, fseed, salt);
                let rest = ray_out(g, w, h, t, cells, k + 1, e, power, max_cells, unit, stamp, fseed, salt);
                if m != MAT_AIR && !vaporizes(e, power, t[m as int].vaporize_threshold) {
                    let sp = splash_spec(t, m, c.0, c.1, e, power, unit, stamp, fseed, salt);
                    lemma_centre_ok(c.0);
                    lemma_centre_ok(c.1);
                    let all = seq![sp] + rest.1;
                    assert forall|q: int| 0 <= q < all.len() implies {
                        &&& ((#[trigger] all[q]).material as int) < t.len()
                        &&& crate::particle::flight_cell(all[q].x.0)
                        &&& crate::particle::flight_cell(all[q].y.0)
                    } by {
                        if q > 0 {
                            assert(all[q] == rest.1[q - 1]);
                        }
                    }
                }
            }
        }
    }
}

/// What the rays of an explosion spawn is of a known material and starts at
/// a cell centre of the world; they vaporize at most 65537 cells each.
proof fn lemma_explode_rays_spawns(
    g: spec_fn(int, int) -> Cell,
    w: int,
    h: int,
    t: Seq<MaterialDef>,
    offs: Seq<(i32, i32)>,
    k: int,
    x: i32,
    y: i32,
    r: i32,
    power: u32,
    stamp: u8,
    fseed: u32,
    salt: u32,
)
    requires
        grid_mats(g, w, h, t.len() as int),
        t.len() >= 1,
        w <= MAX_FLIGHT_CELLS,
        h <= MAX_FLIGHT_CELLS,
        0 <= k,
        forall|q: int| k <= q < offs.len() ==> ray_in_range(x, y, (#[trigger] offs[q]).0, offs[q].1),
    ensures
        spawns_ok(explode_rays(g, w, h, t, offs, k, x, y, r, power, stamp, fseed, salt).1, t.len() as int),
        explode_rays(g, w, h, t, offs, k, x, y, r, power, stamp, fseed, salt).2 <= (if offs.len() > k { offs.len() - k } else { 0 }) * 65537,
        explode_rays(g, w, h, t, offs, k, x, y, r, power, stamp, fseed, salt).1.len() <= (if offs.len() > k { offs.len() - k } else { 0 }) * 65537,
    decreases offs.len() - k,
{
    reveal(explode_rays);
    if k < offs.len() {
        let (dx, dy) = offs[k];
        let rp = ray_power_spec(power, dx, dy, stamp, fseed, salt);
        let mc = ray_range_spec(r, dx, dy, stamp, fseed, salt);
        let cells = ray_cells(x, y, dx, dy);
        lemma_ray_cells_distinct(x, y, dx, dy);
        lemma_ray_out_spawns(g, w, h, t, cells, 0, rp, rp, mc, ray_unit(dx, dy), stamp, fseed, salt);
        let out = ray_out(g, w, h, t, cells, 0, rp, rp, mc, ray_unit(dx, dy), stamp, fseed, salt);
        let g2 = blast_grid(g, w, h, out.0, stamp);
        assert(grid_mats(g2, w, h, t.len() as int)) by {
            lemma_air_stamped(stamp);
        }
        lemma_explode_rays_spawns(g2, w, h, t, offs, k + 1, x, y, r, power, stamp, fseed, salt);
        let rest = explode_rays(g2, w, h, t, offs, k + 1, x, y, r, power, stamp, fseed, salt);
        let all = out.1 + rest.1;
        assert forall|q: int| 0 <= q < all.len() implies {
            &&& ((#[trigger] all[q]).material as int) < t.len()
            &&& crate::particle::flight_cell(all[q].x.0)
            &&& crate::particle::flight_cell(all[q].y.0)
        } by {
            if q < out.1.len() {
                assert(all[q] == out.1[q]);
            } else {
                assert(all[q] == rest.1[q - out.1.len()]);
            }
        }
        assert((if offs.len() > k + 1 { offs.len() - (k + 1) } else { 0 }) * 65537 + 65537
            == (offs.len() - k) * 65537) by (nonlinear_arith)
            requires
                offs.len() > k,
        ;
    }
}

/// What an explosion spawns over a world no larger than `MAX_FLIGHT_CELLS`
/// per side is of a known material and starts at a cell centre; it
/// vaporizes fewer than `2^34` cells.
pub proof fn lemma_explode_spawns_ok(w0: World, t: Seq<MaterialDef>, x: i32, y: i32, r: i32, power: u32, stamp: u8, fseed: u32, salt: u32)
    requires
        w0.wf(),
        w0.mats_valid(t.len() as int),
        t.len() >= 1,
        w0.w() <= MAX_FLIGHT_CELLS,
        w0.h() <= MAX_FLIGHT_CELLS,
        explode_in_range(x, y, r),
    ensures
        spawns_ok(explode_rays(w0.grid(), w0.w(), w0.h(), t, circle_spec(r), 0, x, y, r, power, stamp, fseed, salt).1, t.len() as int),
        explode_rays(w0.grid(), w0.w(), w0.h(), t, circle_spec(r), 0, x, y, r, power, stamp, fseed, salt).2 < 0x8_0000_0000,
        explode_rays(w0.grid(), w0.w(), w0.h(), t, circle_spec(r), 0, x, y, r, power, stamp, fseed, salt).1.len() < 0x8_0000_0000,
{
    lemma_circle_bounds(r);
    let offs = circle_spec(r);
    assert forall|q: int| 0 <= q < offs.len() implies ray_in_range(x, y, (#[trigger] offs[q]).0, offs[q].1) by {
        assert(offs.contains(offs[q]));
    }
    assert(grid_mats(w0.grid(), w0.w(), w0.h(), t.len() as int)) by {
        assert forall|a: int, b: int| 0 <= a < w0.w() && 0 <= b < w0.h() implies (#[trigger] w0.grid()(a, b).mat() as int) < t.len() by {
            assert(w0.inb(a, b));
        }
    }
    lemma_explode_rays_spawns(w0.grid(), w0.w(), w0.h(), t, offs, 0, x, y, r, power, stamp, fseed, salt);
}


/// The cells of the splash requests of a ray (see [`ray_out`]), in order:
/// the destroyed cells that did not vaporize.
pub open spec fn ray_splash_cells(
    g: spec_fn(int, int) -> Cell,
    w: int,
    h: int,
    t: Seq<MaterialDef>,
    cells: Seq<(i32, i32)>,
    k: int,
    energy: u32,
    power: u32,
    max_cells: u32,
) -> Seq<(i32, i32)>
    decreases cells.len() - k,
{
    if k < 0 || k >= cells.len() || k >= max_cells {
        Seq::empty()
    } else {
        let c = cells[k];
        if !(0 <= c.0 < w && 0 <= c.1 < h) {
            Seq::empty()
        } else {
            let m = g(c.0 as int, c.1 as int).mat();
            let cost = t[m as int].hp;
            if energy < cost {
                Seq::empty()
            } else {
                let e = (energy - cost) as u32;
                let rest = ray_splash_cells(g, w, h, t, cells, k + 1, e, power, max_cells);
                if m == MAT_AIR || vaporizes(e, power, t[m as int].vaporize_threshold) {
                    rest
                } else {
                    seq![c] + rest
                }
            }
        }
    }
}

/// Each splash request of a ray sits at the centre of its cell, carries
/// that cell's material, and comes from a distinct in-world non-air cell the
/// ray destroys.
proof fn lemma_ray_splash(
    g: spec_fn(int, int) -> Cell,
    w: int,
    h: int,
    t: Seq<MaterialDef>,
    cells: Seq<(i32, i32)>,
    k: int,
    energy: u32,
    power: u32,
    max_cells: u32,
    unit: (Fx, Fx),
    stamp: u8,
    fseed: u32,
    salt: u32,
)
    requires
        0 <= k,
        no_dups(cells),
    ensures
        ({
            let out = ray_out(g, w, h, t, cells, k, energy, power, max_cells, unit, stamp, fseed, salt);
            let sc = ray_splash_cells(g, w, h, t, cells, k, energy, power, max_cells);
            &&& out.1.len() == sc.len()
            &&& no_dups(sc)
            &&& forall|i: int| 0 <= i < sc.len() ==> {
                &&& 0 <= (#[trigger] sc[i]).0 < w && 0 <= sc[i].1 < h
                &&& g(sc[i].0 as int, sc[i].1 as int).mat() != MAT_AIR
                &&& out.1[i].x == centre_of(sc[i].0) && out.1[i].y == centre_of(sc[i].1)
                &&& out.1[i].material == g(sc[i].0 as int, sc[i].1 as int).mat()
                &&& out.0.contains(sc[i])
                &&& exists|j: int| k <= j < cells.len() && cells[j] == sc[i]
            }
        }),
    decreases cells.len() - k,
{
    reveal(ray_out);
    if k < 0 || k >= cells.len() || k >= max_cells {
    } else {
        let c = cells[k];
        if !(0 <= c.0 < w && 0 <= c.1 < h) {
        } else {
            let m = g(c.0 as int, c.1 as int).mat();
            let cost = t[m as int].hp;
            if energy < cost {
            } else {
                let e = (energy - cost) as u32;
                lemma_ray_splash(g, w, h, t, cells, k + 1, e, power, max_cells, unit, stamp, fseed, salt);
                let out = ray_out(g, w, h, t, cells, k, energy, power, max_cells, unit, stamp, fseed, salt);
                let rest = ray_out(g, w, h, t, cells, k + 1, e, power, max_cells, unit, stamp, fseed, salt);
                let sr = ray_splash_cells(g, w, h, t, cells, k + 1, e, power, max_cells);
                let sc = ray_splash_cells(g, w, h, t, cells, k, energy, power, max_cells);
                if m == MAT_AIR {
                    assert(out == rest);
                } else if vaporizes(e, power, t[m as int].vaporize_threshold) {
                    assert forall|i: int| 0 <= i < sc.len() implies out.0.contains(#[trigger] sc[i]) by {
                        assert(rest.0.contains(sc[i]));
                        let q = choose|q: int| 0 <= q < rest.0.len() && rest.0[q] == sc[i];
                        assert(out.0[q + 1] == sc[i]);
                    }
                } else {
                    assert(sc == seq![c] + sr);
                    assert forall|i: int| 0 <= i < sc.len() implies out.0.contains(#[trigger] sc[i]) && exists|j: int| k <= j < cells.len() && cells[j] == sc[i] by {
                        if i == 0 {
                            assert(out.0[0] == c);
                            assert(cells[k] == sc[i]);
                        } else {
                            assert(sc[i] == sr[i - 1]);
                            assert(rest.0.contains(sr[i - 1]));
                            let q = choose|q: int| 0 <= q < rest.0.len() && rest.0[q] == sr[i - 1];
                            assert(out.0[q + 1] == sc[i]);
                        }
                    }
                    assert forall|a: int, b: int| 0 <= a < b < sc.len() implies sc[a] != sc[b] by {
                        if a == 0 {
                            assert(sc[b] == sr[b - 1]);
                            let j = choose|j: int| k + 1 <= j < cells.len() && cells[j] == sr[b - 1];
                            assert(cells[k] != cells[j]);
                        } else {
                            assert(sc[a] == sr[a - 1] && sc[b] == sr[b - 1]);
                        }
                    }
                    assert forall|i: int| 0 <= i < sc.len() implies (#[trigger] out.1[i]).x == centre_of(sc[i].0) && out.1[i].y == centre_of(sc[i].1)
                        && out.1[i].material == g(sc[i].0 as int, sc[i].1 as int).mat() by {
                        if i > 0 {
                            assert(out.1[i] == rest.1[i - 1]);
                            assert(sc[i] == sr[i - 1]);
                        }
                    }
                }
            }
        }
    }
}

/// The cells of an explosion's splash requests: those of rays `k..`, each
/// over the grid the rays before it left.
pub open spec fn explode_splash_cells(
    g: spec_fn(int, int) -> Cell,
    w: int,
    h: int,
    t: Seq<MaterialDef>,
    offs: Seq<(i32, i32)>,
    k: int,
    x: i32,
    y: i32,
    r: i32,
    power: u32,
    stamp: u8,
    fseed: u32,
    salt: u32,
) -> Seq<(i32, i32)>
    decreases offs.len() - k,
{
    if k < 0 || k >= offs.len() {
        Seq::empty()
    } else {
        let (dx, dy) = offs[k];
        let rp = ray_power_spec(power, dx, dy, stamp, fseed, salt);
        let mc = ray_range_spec(r, dx, dy, stamp, fseed, salt);
        let cells = ray_cells(x, y, dx, dy);
        let out = ray_out(g, w, h, t, cells, 0, rp, rp, mc, ray_unit(dx, dy), stamp, fseed, salt);
        ray_splash_cells(g, w, h, t, cells, 0, rp, rp, mc) + explode_splash_cells(
            blast_grid(g, w, h, out.0, stamp), w, h, t, offs, k + 1, x, y, r, power, stamp, fseed, salt)
    }
}

proof fn lemma_explode_splash(
    g0: spec_fn(int, int) -> Cell,
    g: spec_fn(int, int) -> Cell,
    w: int,
    h: int,
    t: Seq<MaterialDef>,
    offs: Seq<(i32, i32)>,
    k: int,
    x: i32,
    y: i32,
    r: i32,
    power: u32,
    stamp: u8,
    fseed: u32,
    salt: u32,
)
    requires
        0 <= k,
        forall|q: int| 0 <= q < offs.len() ==> ray_in_range(x, y, (#[trigger] offs[q]).0, offs[q].1),
        forall|a: int, b: int| #[trigger] g(a, b) == g0(a, b) || g(a, b).mat() == MAT_AIR,
    ensures
        ({
            let res = explode_rays(g, w, h, t, offs, k, x, y, r, power, stamp, fseed, salt);
            let sc = explode_splash_cells(g, w, h, t, offs, k, x, y, r, power, stamp, fseed, salt);
            &&& res.1.len() == sc.len()
            &&& no_dups(sc)
            &&& forall|a: int, b: int| #[trigger] res.0(a, b) == g0(a, b) || res.0(a, b).mat() == MAT_AIR
            &&& forall|a: int, b: int| g(a, b).mat() == MAT_AIR ==> (#[trigger] res.0(a, b)).mat() == MAT_AIR
            &&& forall|i: int| 0 <= i < sc.len() ==> {
                &&& 0 <= (#[trigger] sc[i]).0 < w && 0 <= sc[i].1 < h
                &&& g(sc[i].0 as int, sc[i].1 as int).mat() != MAT_AIR
                &&& g0(sc[i].0 as int, sc[i].1 as int).mat() != MAT_AIR
                &&& res.1[i].x == centre_of(sc[i].0) && res.1[i].y == centre_of(sc[i].1)
                &&& res.1[i].material == g0(sc[i].0 as int, sc[i].1 as int).mat()
                &&& res.0(sc[i].0 as int, sc[i].1 as int).mat() == MAT_AIR
            }
        }),
    decreases offs.len() - k,
{
    reveal(explode_rays);
    lemma_air_stamped(stamp);
    if k >= offs.len() {
    } else {
        let (dx, dy) = offs[k];
        let rp = ray_power_spec(power, dx, dy, stamp, fseed, salt);
        let mc = ray_range_spec(r, dx, dy, stamp, fseed, salt);
        let cells = ray_cells(x, y, dx, dy);
        let unit = ray_unit(dx, dy);
        lemma_ray_cells_distinct(x, y, dx, dy);
        lemma_ray_splash(g, w, h, t, cells, 0, rp, rp, mc, unit, stamp, fseed, salt);
        let out = ray_out(g, w, h, t, cells, 0, rp, rp, mc, unit, stamp, fseed, salt);
        let g1 = blast_grid(g, w, h, out.0, stamp);
        assert forall|a: int, b: int| #[trigger] g1(a, b) == g0(a, b) || g1(a, b).mat() == MAT_AIR by {
            assert(g(a, b) == g0(a, b) || g(a, b).mat() == MAT_AIR);
        }
        lemma_explode_splash(g0, g1, w, h, t, offs, k + 1, x, y, r, power, stamp, fseed, salt);
        let rest = explode_rays(g1, w, h, t, offs, k + 1, x, y, r, power, stamp, fseed, salt);
        let res = explode_rays(g, w, h, t, offs, k, x, y, r, power, stamp, fseed, salt);
        let s1 = ray_splash_cells(g, w, h, t, cells, 0, rp, rp, mc);
        let s2 = explode_splash_cells(g1, w, h, t, offs, k + 1, x, y, r, power, stamp, fseed, salt);
        let sc = explode_splash_cells(g, w, h, t, offs, k, x, y, r, power, stamp, fseed, salt);
        assert(sc == s1 + s2);
        assert(res.1 == out.1 + rest.1);
        assert(res.0 == rest.0);
        assert forall|a: int, b: int| g(a, b).mat() == MAT_AIR implies (#[trigger] res.0(a, b)).mat() == MAT_AIR by {
            assert(g1(a, b).mat() == MAT_AIR);
        }
        assert forall|i: int| 0 <= i < s1.len() implies (#[trigger] g1(s1[i].0 as int, s1[i].1 as int)).mat() == MAT_AIR by {
            assert(out.0.contains(s1[i]));
        }
        assert forall|i: int| 0 <= i < sc.len() implies {
            &&& 0 <= (#[trigger] sc[i]).0 < w && 0 <= sc[i].1 < h
            &&& g(sc[i].0 as int, sc[i].1 as int).mat() != MAT_AIR
            &&& g0(sc[i].0 as int, sc[i].1 as int).mat() != MAT_AIR
            &&& res.1[i].x == centre_of(sc[i].0) && res.1[i].y == centre_of(sc[i].1)
            &&& res.1[i].material == g0(sc[i].0 as int, sc[i].1 as int).mat()
            &&& res.0(sc[i].0 as int, sc[i].1 as int).mat() == MAT_AIR
        } by {
            if i < s1.len() {
                assert(sc[i] == s1[i]);
                assert(res.1[i] == out.1[i]);
                let (a, b) = (s1[i].0 as int, s1[i].1 as int);
                assert(g(a, b) == g0(a, b) || g(a, b).mat() == MAT_AIR);
                assert(g1(a, b).mat() == MAT_AIR);
            } else {
                assert(sc[i] == s2[i - s1.len()]);
                assert(res.1[i] == rest.1[i - s1.len()]);
                let (a, b) = (s2[i - s1.len()].0 as int, s2[i - s1.len()].1 as int);
                assert(g1(a, b).mat() != MAT_AIR);
                assert(g1(a, b) == g(a, b));
            }
        }
        assert forall|p: int, q: int| 0 <= p < q < sc.len() implies sc[p] != sc[q] by {
            if p < s1.len() && q >= s1.len() {
                let c = s1[p];
                assert(g1(c.0 as int, c.1 as int).mat() == MAT_AIR);
                assert(sc[q] == s2[q - s1.len()]);
                assert(g1(s2[q - s1.len()].0 as int, s2[q - s1.len()].1 as int).mat() != MAT_AIR);
            } else if q < s1.len() {
                assert(sc[p] == s1[p] && sc[q] == s1[q]);
            } else {
                assert(sc[p] == s2[p - s1.len()] && sc[q] == s2[q - s1.len()]);
            }
        }
    }
}

/// An explosion's splash requests come from distinct in-world cells that
/// held a material other than air and hold air afterwards: each request
/// sits at the centre of its cell and carries the material the cell held.
pub proof fn lemma_explode_spawn_cells(
    g: spec_fn(int, int) -> Cell,
    w: int,
    h: int,
    t: Seq<MaterialDef>,
    x: i32,
    y: i32,
    r: i32,
    power: u32,
    stamp: u8,
    fseed: u32,
    salt: u32,
)
    requires
        explode_in_range(x, y, r),
    ensures
        ({
            let res = explode_rays(g, w, h, t, circle_spec(r), 0, x, y, r, power, stamp, fseed, salt);
            let sc = explode_splash_cells(g, w, h, t, circle_spec(r), 0, x, y, r, power, stamp, fseed, salt);
            &&& res.1.len() == sc.len()
            &&& no_dups(sc)
            &&& forall|i: int| 0 <= i < sc.len() ==> {
                &&& 0 <= (#[trigger] sc[i]).0 < w && 0 <= sc[i].1 < h
                &&& g(sc[i].0 as int, sc[i].1 as int).mat() != MAT_AIR
                &&& res.1[i].x == centre_of(sc[i].0) && res.1[i].y == centre_of(sc[i].1)
                &&& res.1[i].material == g(sc[i].0 as int, sc[i].1 as int).mat()
                &&& res.0(sc[i].0 as int, sc[i].1 as int).mat() == MAT_AIR
            }
        }),
{
    lemma_circle_bounds(r);
    let offs = circle_spec(r);
    assert forall|q: int| 0 <= q < offs.len() implies ray_in_range(x, y, (#[trigger] offs[q]).0, offs[q].1) by {
        assert(offs.contains(offs[q]));
    }
    lemma_explode_splash(g, g, w, h, t, offs, 0, x, y, r, power, stamp, fseed, salt);
}


/// Cells of `s` holding a material below `k`.
pub open spec fn cells_below(s: Seq<Cell>, k: int) -> int
    decreases k,
{
    if k <= 0 {
        0
    } else {
        cells_below(s, k - 1) + count_cells(s, (k - 1) as u8)
    }
}

/// Cells of the chunks `cs` holding a material below `k`.
pub open spec fn chunks_below(cs: Seq<Chunk>, k: int) -> int
    decreases k,
{
    if k <= 0 {
        0
    } else {
        chunks_below(cs, k - 1) + count_chunks(cs, (k - 1) as u8)
    }
}

/// Cells of the world holding a material other than air: the counts of
/// materials `1..=255` summed.
pub open spec fn non_air_total(w: World) -> int {
    chunks_below(w.chunks@, 256) - world_count(w, MAT_AIR)
}

proof fn lemma_cells_below_last(s: Seq<Cell>, k: int)
    requires
        s.len() > 0,
        0 <= k <= 256,
    ensures
        cells_below(s, k) == cells_below(s.drop_last(), k) + ind((s.last().mat() as int) < k),
    decreases k,
{
    if k > 0 {
        lemma_cells_below_last(s, k - 1);
    }
}

proof fn lemma_cells_total(s: Seq<Cell>)
    ensures
        cells_below(s, 256) == s.len(),
    decreases s.len(),
{
    if s.len() > 0 {
        lemma_cells_below_last(s, 256);
        lemma_cells_total(s.drop_last());
    } else {
        lemma_cells_below_zero(s, 256);
    }
}

proof fn lemma_cells_below_zero(s: Seq<Cell>, k: int)
    requires
        s.len() == 0,
        0 <= k,
    ensures
        cells_below(s, k) == 0,
    decreases k,
{
    if k > 0 {
        lemma_cells_below_zero(s, k - 1);
    }
}

proof fn lemma_chunks_below_last(cs: Seq<Chunk>, k: int)
    requires
        cs.len() > 0,
        0 <= k,
    ensures
        chunks_below(cs, k) == chunks_below(cs.drop_last(), k) + cells_below(cs.last().cells@, k),
    decreases k,
{
    if k > 0 {
        lemma_chunks_below_last(cs, k - 1);
    }
}

proof fn lemma_chunks_below_empty(cs: Seq<Chunk>, k: int)
    requires
        cs.len() == 0,
        0 <= k,
    ensures
        chunks_below(cs, k) == 0,
    decreases k,
{
    if k > 0 {
        lemma_chunks_below_empty(cs, k - 1);
    }
}

proof fn lemma_chunks_total(cs: Seq<Chunk>)
    requires
        forall|i: int| 0 <= i < cs.len() ==> (#[trigger] cs[i]).cells@.len() == 4096,
    ensures
        chunks_below(cs, 256) == 4096 * cs.len(),
    decreases cs.len(),
{
    if cs.len() > 0 {
        lemma_chunks_below_last(cs, 256);
        lemma_cells_total(cs.last().cells@);
        assert forall|i: int| 0 <= i < cs.drop_last().len() implies (#[trigger] cs.drop_last()[i]).cells@.len() == 4096 by {
            assert(cs.drop_last()[i] == cs[i]);
        }
        lemma_chunks_total(cs.drop_last());
        assert(cs.last() == cs[cs.len() - 1]);
    } else {
        lemma_chunks_below_empty(cs, 256);
    }
}

/// Mass conservation of an explosion: what the materials other than air
/// lost, summed over those materials, is the number of splash requests plus
/// the number of vaporized cells.
pub proof fn lemma_explode_conservation(new: World, old: World, ns: int, os: int)
    requires
        new.wf(),
        old.wf(),
        new.same_shape(old),
        crate::explode::air_balance(new, old, ns, os),
    ensures
        non_air_total(old) - non_air_total(new) == (ns - os) + (new.vaporized_total - old.vaporized_total),
{
    lemma_chunks_total(new.chunks@);
    lemma_chunks_total(old.chunks@);
}

} // verus!
