//! Counter-based random numbers: SquirrelNoise5 over a position folded from
//! (stream, x, y, salt, attempt), seeded per tick. Pure functions only.

use vstd::prelude::*;
use vstd::wrapping::u32_specs::{wrapping_add as wadd, wrapping_mul as wmul};

verus! {

pub const N1: u32 = 0xD2A8_0A3F;
pub const N2: u32 = 0xA884_F197;
pub const N3: u32 = 0x6C73_6F4B;
pub const N4: u32 = 0xB79F_3ABB;
pub const N5: u32 = 0x1B56_C4F5;

pub const P_X: u32 = 0x9E37_79B1;
pub const P_Y: u32 = 0x85EB_CA77;
pub const P_STREAM: u32 = 0xC2B2_AE3D;
pub const P_SALT: u32 = 0x27D4_EB2F;
pub const P_ATTEMPT: u32 = 0x1656_67B1;

/// Stream registry: each call site has its own stream number.
pub const STREAM_DIAG: u32 = 0;
/// Emitter velocity jitter.
pub const STREAM_EMIT: u32 = 1;
/// Explosion splash jitter and per-ray fluctuation.
pub const STREAM_EXPLODE: u32 = 2;
/// Sub-cell probabilistic rounding of fall steps.
pub const STREAM_FALLSTEP: u32 = 3;
/// Row scan direction per tick.
pub const STREAM_SCANDIR: u32 = 4;
/// Impact splash.
pub const STREAM_SPLASH: u32 = 5;

/// SquirrelNoise5 of `pos` under `seed`.
#[verifier::opaque]
pub open spec fn squirrel5_spec(pos: u32, seed: u32) -> u32 {
    let m0 = wmul(pos, N1);
    let m1 = wadd(m0, seed);
    let m2 = m1 ^ (m1 >> 9u32);
    let m3 = wadd(m2, N2);
    let m4 = m3 ^ (m3 >> 11u32);
    let m5 = wmul(m4, N3);
    let m6 = m5 ^ (m5 >> 13u32);
    let m7 = wadd(m6, N4);
    let m8 = m7 ^ (m7 >> 15u32);
    let m9 = wmul(m8, N5);
    m9 ^ (m9 >> 17u32)
}

/// The position key folded from the draw's components.
#[verifier::opaque]
pub open spec fn rng_pos(stream: u32, x: i32, y: i32, salt: u32, attempt: u32) -> u32 {
    wadd(
        wadd(wadd(wadd(wmul(x as u32, P_X), wmul(y as u32, P_Y)), wmul(stream, P_STREAM)), wmul(salt, P_SALT)),
        wmul(attempt, P_ATTEMPT),
    )
}

/// One random draw for `(stream, x, y, salt, attempt)` in the tick seeded by `fseed`.
pub open spec fn rng_spec(fseed: u32, stream: u32, x: i32, y: i32, salt: u32, attempt: u32) -> u32 {
    squirrel5_spec(rng_pos(stream, x, y, salt, attempt), fseed)
}

/// The per-tick seed of `(world_seed, tick)`: both are reduced to 32 bits.
pub open spec fn frame_seed_spec(world_seed: u64, tick: u64) -> u32 {
    squirrel5_spec(tick as u32, world_seed as u32)
}

/// This tick's row-direction phase: bit 16 of the scan-direction draw.
pub open spec fn scan_flip_spec(fseed: u32) -> u64 {
    ((rng_spec(fseed, STREAM_SCANDIR, 0, 0, 0, 0) >> 16u32) & 1) as u64
}

pub fn squirrel5(pos: u32, seed: u32) -> (r: u32)
    ensures
        r == squirrel5_spec(pos, seed),
{
    proof {
        reveal(squirrel5_spec);
    }
    let mut m = pos.wrapping_mul(N1);
    m = m.wrapping_add(seed);
    m = m ^ (m >> 9u32);
    m = m.wrapping_add(N2);
    m = m ^ (m >> 11u32);
    m = m.wrapping_mul(N3);
    m = m ^ (m >> 13u32);
    m = m.wrapping_add(N4);
    m = m ^ (m >> 15u32);
    m = m.wrapping_mul(N5);
    m = m ^ (m >> 17u32);
    m
}

pub fn frame_seed(world_seed: u64, tick: u64) -> (r: u32)
    ensures
        r == frame_seed_spec(world_seed, tick),
{
    squirrel5(tick as u32, world_seed as u32)
}

pub fn rng_u32(fseed: u32, stream: u32, x: i32, y: i32, salt: u32, attempt: u32) -> (r: u32)
    ensures
        r == rng_spec(fseed, stream, x, y, salt, attempt),
{
    proof {
        reveal(rng_pos);
    }
    let pos = (x as u32).wrapping_mul(P_X).wrapping_add((y as u32).wrapping_mul(P_Y)).wrapping_add(
        stream.wrapping_mul(P_STREAM),
    ).wrapping_add(salt.wrapping_mul(P_SALT)).wrapping_add(attempt.wrapping_mul(P_ATTEMPT));
    squirrel5(pos, fseed)
}

/// Global row-direction phase of this tick (0 or 1); row `y` runs left to
/// right when `(y ^ flip) & 1 == 0`.
pub fn scan_flip(fseed: u32) -> (r: u64)
    ensures
        r == scan_flip_spec(fseed),
        r <= 1,
{
    let v = rng_u32(fseed, STREAM_SCANDIR, 0, 0, 0, 0);
    proof {
        assert((v >> 16u32) & 1 <= 1) by (bit_vector);
    }
    ((v >> 16u32) & 1) as u64
}

} // verus!
