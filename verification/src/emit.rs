//! The emitter: `Op::Emit` spawns a burst of particles at one point, each
//! velocity component jittered by its own random draw.

use vstd::prelude::*;

use crate::fixed::{wrap_i32, Fx};
use crate::rng;
use crate::rng::{rng_spec, STREAM_EMIT};
use crate::world::SpawnRequest;

verus! {

/// Die label of the vx jitter draw.
pub const EMIT_ROLL_VX: u32 = 0;
/// Die label of the vy jitter draw (distinct, so the two axes are independent).
pub const EMIT_ROLL_VY: u32 = 1;

/// Largest accepted `jitter.0`: keeps `2 * jitter + 1` and the rescaled draw inside `i32`.
pub const MAX_EMIT_JITTER_RAW: i32 = 0x3FFF_FFFF;

/// Salt of the `i`-th particle of the emitter at position `op_idx` of this
/// tick's operations: `op_idx` in the high 16 bits, `i` in the low 16.
pub open spec fn emit_salt_spec(op_idx: int, i: u32) -> u32 {
    ((op_idx as u32) << 16u32) | (i & 0xFFFFu32)
}

/// Attempt of an emitter draw: the phase `stamp` above the die label.
pub open spec fn emit_attempt_spec(stamp: u8, roll: u32) -> u32 {
    ((stamp as u32) << 1u32) | roll
}

/// The draw `r` mapped onto `[-jitter, +jitter]` (raw), by a multiply and
/// shift: `floor(r * (2 * jitter + 1) / 2^32) - jitter`; zero for `jitter <= 0`.
pub open spec fn emit_jitter_spec(r: u32, jitter: i32) -> i32 {
    if jitter <= 0 {
        0
    } else {
        ((r as int) * (2 * (jitter as int) + 1) / 0x1_0000_0000 - jitter) as i32
    }
}

pub fn emit_salt(op_idx: usize, i: u32) -> (r: u32)
    requires
        op_idx <= 0xFFFF,
    ensures
        r == emit_salt_spec(op_idx as int, i),
{
    ((op_idx as u32) << 16u32) | (i & 0xFFFF)
}

pub fn emit_attempt(stamp: u8, roll: u32) -> (r: u32)
    ensures
        r == emit_attempt_spec(stamp, roll),
{
    ((stamp as u32) << 1u32) | roll
}

/// Map a 32-bit draw onto `[-jitter, +jitter]` (raw units): both ends are
/// reached (`r = 0` gives `-jitter`, `r = u32::MAX` gives `+jitter`).
pub fn emit_jitter(r: u32, jitter: Fx) -> (out: Fx)
    requires
        jitter.0 <= MAX_EMIT_JITTER_RAW,
    ensures
        out.0 == emit_jitter_spec(r, jitter.0),
        jitter.0 > 0 ==> -jitter.0 <= out.0 <= jitter.0,
        jitter.0 <= 0 ==> out.0 == 0,
{
    if jitter.0 <= 0 {
        return Fx::zero();
    }
    let width: u64 = (jitter.0 as u64) * 2 + 1;
    proof {
        let (ri, wi) = (r as int, width as int);
        assert(0 <= ri * wi <= 0xFFFF_FFFF * 0x7FFF_FFFF) by (nonlinear_arith)
            requires
                0 <= ri <= 0xFFFF_FFFF,
                1 <= wi <= 0x7FFF_FFFF,
        ;
    }
    let prod: u64 = (r as u64) * width;
    let scaled: u64 = prod >> 32u32;
    proof {
        let (ri, wi) = (r as int, width as int);
        assert(prod >> 32u32 == prod / 0x1_0000_0000) by (bit_vector);
        assert(0 <= ri * wi / 0x1_0000_0000 < wi) by (nonlinear_arith)
            requires
                0 <= ri <= 0xFFFF_FFFF,
                1 <= wi,
        ;
    }
    Fx((scaled as i32) - jitter.0)
}

/// The spawn request of the `i`-th particle of an emitter.
pub open spec fn emitted(
    material: u8,
    x: Fx,
    y: Fx,
    vx: Fx,
    vy: Fx,
    jitter: Fx,
    stamp: u8,
    fseed: u32,
    op_idx: int,
    i: u32,
) -> SpawnRequest {
    let gx = (x.0 / 65536) as i32;
    let gy = (y.0 / 65536) as i32;
    let salt = emit_salt_spec(op_idx, i);
    let rx = rng_spec(fseed, STREAM_EMIT, gx, gy, salt, emit_attempt_spec(stamp, EMIT_ROLL_VX));
    let ry = rng_spec(fseed, STREAM_EMIT, gx, gy, salt, emit_attempt_spec(stamp, EMIT_ROLL_VY));
    SpawnRequest {
        material,
        x,
        y,
        vx: Fx(wrap_i32(vx.0 + emit_jitter_spec(rx, jitter.0))),
        vy: Fx(wrap_i32(vy.0 + emit_jitter_spec(ry, jitter.0))),
    }
}

/// `Op::Emit`: append `count` particles at `(x, y)`, the `i`-th with its own
/// vx and vy jitter draws, keyed by the emitter's cell, salt `(op_idx, i)`
/// and attempt `(stamp, die)`.
pub fn apply_emit(
    material: u8,
    x: Fx,
    y: Fx,
    vx: Fx,
    vy: Fx,
    count: u16,
    jitter: Fx,
    stamp: u8,
    fseed: u32,
    op_idx: usize,
    spawns: &mut Vec<SpawnRequest>,
)
    requires
        op_idx <= 0xFFFF,
        jitter.0 <= MAX_EMIT_JITTER_RAW,
    ensures
        final(spawns)@.len() == old(spawns)@.len() + count,
        final(spawns)@.subrange(0, old(spawns)@.len() as int) == old(spawns)@,
        forall|i: int|
            0 <= i < count ==> #[trigger] final(spawns)@[old(spawns)@.len() + i] == emitted(
                material,
                x,
                y,
                vx,
                vy,
                jitter,
                stamp,
                fseed,
                op_idx as int,
                i as u32,
            ),
{
    let gx = x.to_cell();
    let gy = y.to_cell();
    let ghost s0 = spawns@;
    let n: u32 = count as u32;
    let mut i: u32 = 0;
    while i < n
        invariant
            i <= n,
            n == count,
            op_idx <= 0xFFFF,
            jitter.0 <= MAX_EMIT_JITTER_RAW,
            gx == x.0 / 65536,
            gy == y.0 / 65536,
            spawns@.len() == s0.len() + i,
            spawns@.subrange(0, s0.len() as int) == s0,
            forall|k: int|
                0 <= k < i ==> #[trigger] spawns@[s0.len() + k] == emitted(
                    material,
                    x,
                    y,
                    vx,
                    vy,
                    jitter,
                    stamp,
                    fseed,
                    op_idx as int,
                    k as u32,
                ),
        decreases n - i,
    {
        let salt = emit_salt(op_idx, i);
        let rx = rng::rng_u32(fseed, rng::STREAM_EMIT, gx, gy, salt, emit_attempt(stamp, EMIT_ROLL_VX));
        let ry = rng::rng_u32(fseed, rng::STREAM_EMIT, gx, gy, salt, emit_attempt(stamp, EMIT_ROLL_VY));
        let req = SpawnRequest {
            material,
            x,
            y,
            vx: vx + emit_jitter(rx, jitter),
            vy: vy + emit_jitter(ry, jitter),
        };
        spawns.push(req);
        proof {
            assert(spawns@[s0.len() + i] == req);
            assert(spawns@.subrange(0, s0.len() as int) =~= s0);
        }
        i += 1;
    }
}

} // verus!
