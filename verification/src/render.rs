//! Frame composition for the GIF renderer: one palette index (the material
//! id) per pixel, every cell drawn as a `scale x scale` block, particles
//! drawn over the grid. Encoding and writing the file happen outside the
//! library.

use vstd::prelude::*;
use vstd::arithmetic::div_mod::lemma_fundamental_div_mod_converse;

use crate::particle::{ParticleRec, Particles};
use crate::world::World;

verus! {

/// Renderer options.
pub struct RenderOpts {
    /// Sample a frame every `every` ticks.
    pub every: u64,
    /// Pixels per cell.
    pub scale: usize,
    /// Playback frame rate; `None` plays back in real time (60 ticks per
    /// second), with each frame's delay capped at `MAX_DELAY_CS`.
    pub fps: Option<u32>,
    /// Output path.
    pub out: String,
}

/// Shortest frame delay in centiseconds (most players treat shorter ones as 10).
pub const MIN_DELAY_CS: u16 = 2;
/// Longest real-time frame delay in centiseconds.
pub const MAX_DELAY_CS: u16 = 10;

/// `a / b` rounded to the nearest integer, halves away from zero (`a >= 0`, `b > 0`).
pub open spec fn round_div(a: int, b: int) -> int {
    (2 * a + b) / (2 * b)
}

/// The frame delay in centiseconds.
pub open spec fn frame_delay_spec(every: u64, fps: Option<u32>) -> int {
    match fps {
        Some(f) => {
            let d = round_div(100, if f < 1 { 1 } else { f as int });
            if d < MIN_DELAY_CS { MIN_DELAY_CS as int } else { d }
        },
        None => {
            let d = round_div(100 * every, 60);
            if d < MIN_DELAY_CS {
                MIN_DELAY_CS as int
            } else if d > MAX_DELAY_CS {
                MAX_DELAY_CS as int
            } else {
                d
            }
        },
    }
}

/// Frame delay (centiseconds) of a GIF sampled every `every` ticks of a
/// 60 Hz simulation: `100 / fps` when a frame rate is given (at least
/// `MIN_DELAY_CS`), else the real-time `every * 100 / 60` kept within
/// `[MIN_DELAY_CS, MAX_DELAY_CS]`; both rounded to nearest. A zero frame
/// rate counts as one.
pub fn frame_delay(every: u64, fps: Option<u32>) -> (r: u16)
    ensures
        r == frame_delay_spec(every, fps),
{
    match fps {
        Some(f) => {
            let f1: u64 = if f < 1 { 1 } else { f as u64 };
            let d: u64 = (200 + f1) / (2 * f1);
            proof {
                assert(d <= 100) by (nonlinear_arith)
                    requires
                        d == (200 + f1) / (2 * f1),
                        f1 >= 1,
                ;
            }
            if d < MIN_DELAY_CS as u64 {
                MIN_DELAY_CS
            } else {
                d as u16
            }
        },
        None => {
            let e: u64 = if every > 60 { 60 } else { every };
            let d: u64 = (200 * e + 60) / 120;
            proof {
                assert(d <= 101) by (nonlinear_arith)
                    requires
                        d == (200 * e + 60) / 120,
                        e <= 60,
                ;
                if every > 60 {
                    assert(round_div(100 * every, 60) > 10) by (nonlinear_arith)
                        requires
                            every > 60,
                    ;
                }
            }
            if d < MIN_DELAY_CS as u64 {
                MIN_DELAY_CS
            } else if d > MAX_DELAY_CS as u64 {
                MAX_DELAY_CS
            } else {
                d as u16
            }
        },
    }
}

/// Pixel `i` of a frame `w * scale` pixels wide shows the material of the
/// cell that holds it.
pub open spec fn frame_pixel(world: World, w: int, scale: int, i: int) -> u8 {
    let ow = w * scale;
    world.at((i % ow) / scale, (i / ow) / scale).mat()
}

proof fn lemma_pixel_index(ow: int, oh: int, px: int, py: int)
    requires
        0 <= px < ow,
        0 <= py < oh,
    ensures
        0 <= py * ow + px < ow * oh,
        (py * ow + px) % ow == px,
        (py * ow + px) / ow == py,
{
    assert(0 <= py * ow + px < ow * oh) by (nonlinear_arith)
        requires
            0 <= px < ow,
            0 <= py < oh,
    ;
    lemma_fundamental_div_mod_converse(py * ow + px, ow, py, px);
}

/// Draw the grid: every pixel gets the material id of its cell (cells
/// outside the world read as wall).
pub fn fill_frame(world: &World, w: usize, h: usize, scale: usize, buf: &mut Vec<u8>)
    requires
        world.wf(),
        w <= i32::MAX,
        h <= i32::MAX,
        old(buf)@.len() == (w * scale) * (h * scale),
    ensures
        final(buf)@ == Seq::new(old(buf)@.len(), |i: int| frame_pixel(*world, w as int, scale as int, i)),
{
    let n = buf.len();
    let ghost len = n as int;
    proof {
        assert(w * scale <= n || h * scale == 0) by (nonlinear_arith)
            requires
                n == (w * scale) * (h * scale),
        ;
        assert(h * scale <= n || w * scale == 0) by (nonlinear_arith)
            requires
                n == (w * scale) * (h * scale),
        ;
    }
    if w == 0 || h == 0 || scale == 0 {
        proof {
            assert(n == 0) by (nonlinear_arith)
                requires
                    n == (w * scale) * (h * scale),
                    w == 0 || h == 0 || scale == 0,
            ;
            assert(buf@ =~= Seq::new(len as nat, |i: int| frame_pixel(*world, w as int, scale as int, i)));
        }
        return;
    }
    proof {
        assert(w * scale <= n && h * scale <= n) by (nonlinear_arith)
            requires
                n == (w * scale) * (h * scale),
                w > 0,
                h > 0,
                scale > 0,
        ;
    }
    let ow = w * scale;
    let oh = h * scale;
    proof {
        assert(w <= ow && h <= oh) by (nonlinear_arith)
            requires
                ow == w * scale,
                oh == h * scale,
                scale > 0,
        ;
    }
    let mut py: usize = 0;
    while py < oh
        invariant
            world.wf(),
            ow == w * scale,
            oh == h * scale,
            scale > 0,
            w <= i32::MAX,
            h <= i32::MAX,
            n == ow * oh,
            buf@.len() == n,
            py <= oh,
            forall|j: int| 0 <= j < py * ow ==> #[trigger] buf@[j] == frame_pixel(*world, w as int, scale as int, j),
        decreases oh - py,
    {
        let mut px: usize = 0;
        while px < ow
            invariant
                world.wf(),
                ow == w * scale,
                oh == h * scale,
                scale > 0,
                w <= i32::MAX,
                h <= i32::MAX,
                n == ow * oh,
                buf@.len() == n,
                py < oh,
                px <= ow,
                forall|j: int| 0 <= j < py * ow + px ==> #[trigger] buf@[j] == frame_pixel(*world, w as int, scale as int, j),
            decreases ow - px,
        {
            proof {
                lemma_pixel_index(ow as int, oh as int, px as int, py as int);
                assert(px / scale < w && py / scale < h) by (nonlinear_arith)
                    requires
                        px < ow,
                        py < oh,
                        ow == w * scale,
                        oh == h * scale,
                        scale > 0,
                ;
            }
            let c = world.cell((px / scale) as i32, (py / scale) as i32);
            buf.set(py * ow + px, c.material());
            px = px + 1;
        }
        proof {
            assert((py + 1) * ow == py * ow + ow) by (nonlinear_arith);
        }
        py = py + 1;
    }
    proof {
        assert(oh * ow == ow * oh) by (nonlinear_arith);
        assert(buf@ =~= Seq::new(len as nat, |i: int| frame_pixel(*world, w as int, scale as int, i)));
    }
}

/// Particle `p` is drawn over pixel `j` of a frame of `w x h` cells at
/// `scale`: its cell is inside and holds the pixel.
pub open spec fn covers_pixel(p: ParticleRec, w: int, h: int, scale: int, j: int) -> bool {
    let cx = p.x.0 / 65536;
    let cy = p.y.0 / 65536;
    let ow = w * scale;
    &&& 0 <= cx < w
    &&& 0 <= cy < h
    &&& (j % ow) / scale == cx
    &&& (j / ow) / scale == cy
}

/// The frame after drawing `ps` in order over `base`: each pixel shows the
/// material of the last particle drawn over it, else its old value.
pub open spec fn drawn(ps: Seq<ParticleRec>, base: Seq<u8>, w: int, h: int, scale: int) -> Seq<u8>
    decreases ps.len(),
{
    if ps.len() == 0 {
        base
    } else {
        let prev = drawn(ps.drop_last(), base, w, h, scale);
        let p = ps.last();
        Seq::new(prev.len(), |j: int| if covers_pixel(p, w, h, scale, j) { p.material } else { prev[j] })
    }
}

/// Pixel `j` lies in the part of the block of cell `(cx, cy)` that is drawn
/// before row `sy`, column `sx` of the block.
spec fn block_before(ow: int, scale: int, cx: int, cy: int, sy: int, sx: int, j: int) -> bool {
    let py = j / ow - cy * scale;
    let px = j % ow - cx * scale;
    (0 <= py < sy && 0 <= px < scale) || (py == sy && 0 <= px < sx)
}

/// Draw every particle over the frame as a `scale x scale` block in its
/// cell's colour (particles outside the world are skipped).
pub fn draw_particles(particles: &Particles, w: usize, h: usize, scale: usize, buf: &mut Vec<u8>)
    requires
        particles.wf(),
        old(buf)@.len() == (w * scale) * (h * scale),
    ensures
        final(buf)@ == drawn(particles@, old(buf)@, w as int, h as int, scale as int),
{
    let ghost base = buf@;
    let ghost ps = particles@;
    let n = buf.len();
    let np = particles.len();
    if w == 0 || h == 0 || scale == 0 {
        proof {
            lemma_drawn_nothing(ps, base, w as int, h as int, scale as int);
        }
        return;
    }
    proof {
        assert(w * scale <= n && h * scale <= n) by (nonlinear_arith)
            requires
                n == (w * scale) * (h * scale),
                w > 0,
                h > 0,
                scale > 0,
        ;
    }
    let ow = w * scale;
    let oh = h * scale;
    proof {
        assert(w <= ow && h <= oh && ow <= n) by (nonlinear_arith)
            requires
                ow == w * scale,
                oh == h * scale,
                n == ow * oh,
                scale > 0,
                h > 0,
        ;
    }
    let mut i: usize = 0;
    while i < np
        invariant
            particles.wf(),
            particles@ == ps,
            np == ps.len(),
            ow == w * scale,
            oh == h * scale,
            scale > 0,
            n == ow * oh,
            buf@.len() == n,
            base.len() == n,
            i <= np,
            buf@ == drawn(ps.subrange(0, i as int), base, w as int, h as int, scale as int),
        decreases np - i,
    {
        let ghost prev = buf@;
        let ghost p = ps[i as int];
        proof {
            let s = ps.subrange(0, i as int + 1);
            assert(s.drop_last() =~= ps.subrange(0, i as int));
            assert(s.last() == p);
            lemma_drawn_len(ps.subrange(0, i as int), base, w as int, h as int, scale as int);
        }
        let cx = particles.x(i).to_cell();
        let cy = particles.y(i).to_cell();
        let id = particles.material(i);
        if cx < 0 || cy < 0 || cx as usize >= w || cy as usize >= h {
            proof {
                let s = ps.subrange(0, i as int + 1);
                assert(buf@ =~= drawn(s, base, w as int, h as int, scale as int));
            }
        } else {
            let cxu = cx as usize;
            let cyu = cy as usize;
            let mut sy: usize = 0;
            while sy < scale
                invariant
                    ow == w * scale,
                    oh == h * scale,
                    scale > 0,
                    n == ow * oh,
                    buf@.len() == n,
                    prev.len() == n,
                    cxu < w,
                    cyu < h,
                    sy <= scale,
                    forall|j: int| 0 <= j < n ==> #[trigger] buf@[j] == if block_before(ow as int, scale as int, cxu as int, cyu as int, sy as int, 0, j) {
                        id
                    } else {
                        prev[j]
                    },
                decreases scale - sy,
            {
                proof {
                    assert((cyu * scale + sy) < oh && cxu * scale + scale <= ow) by (nonlinear_arith)
                        requires
                            cyu < h,
                            sy < scale,
                            cxu < w,
                            oh == h * scale,
                            ow == w * scale,
                    ;
                    lemma_pixel_index(ow as int, oh as int, (cxu * scale) as int, (cyu * scale + sy) as int);
                }
                let row_start = (cyu * scale + sy) * ow;
                let mut sx: usize = 0;
                while sx < scale
                    invariant
                        ow == w * scale,
                        oh == h * scale,
                        scale > 0,
                        n == ow * oh,
                        buf@.len() == n,
                        prev.len() == n,
                        cxu < w,
                        cyu < h,
                        sy < scale,
                        cyu * scale + sy < oh,
                        cxu * scale + scale <= ow,
                        row_start == (cyu * scale + sy) * ow,
                        sx <= scale,
                        forall|j: int| 0 <= j < n ==> #[trigger] buf@[j] == if block_before(ow as int, scale as int, cxu as int, cyu as int, sy as int, sx as int, j) {
                            id
                        } else {
                            prev[j]
                        },
                    decreases scale - sx,
                {
                    proof {
                        lemma_pixel_index(ow as int, oh as int, (cxu * scale + sx) as int, (cyu * scale + sy) as int);
                    }
                    let k = row_start + cxu * scale + sx;
                    proof {
                        assert forall|j: int| 0 <= j < n implies (block_before(ow as int, scale as int, cxu as int, cyu as int, sy as int, sx as int + 1, j)
                            <==> block_before(ow as int, scale as int, cxu as int, cyu as int, sy as int, sx as int, j) || j == k) by {
                            if j != k && j / (ow as int) == cyu * scale + sy && j % (ow as int) == cxu * scale + sx {
                                lemma_split_index(ow as int, j);
                                lemma_split_index(ow as int, k as int);
                            }
                        }
                    }
                    buf.set(k, id);
                    sx = sx + 1;
                }
                proof {
                    assert forall|j: int| 0 <= j < n implies (block_before(ow as int, scale as int, cxu as int, cyu as int, sy as int + 1, 0, j)
                        <==> block_before(ow as int, scale as int, cxu as int, cyu as int, sy as int, scale as int, j)) by {
                    }
                }
                sy = sy + 1;
            }
            proof {
                let s = ps.subrange(0, i as int + 1);
                assert(p.x.0 / 65536 == cx && p.y.0 / 65536 == cy);
                assert forall|j: int| 0 <= j < n implies (block_before(ow as int, scale as int, cxu as int, cyu as int, scale as int, 0, j)
                    <==> covers_pixel(p, w as int, h as int, scale as int, j)) by {
                    lemma_block_cell(ow as int, scale as int, cxu as int, cyu as int, j);
                }
                assert(buf@ =~= drawn(s, base, w as int, h as int, scale as int));
            }
        }
        i = i + 1;
    }
    proof {
        assert(ps.subrange(0, np as int) =~= ps);
    }
}

proof fn lemma_drawn_len(ps: Seq<ParticleRec>, base: Seq<u8>, w: int, h: int, scale: int)
    ensures
        drawn(ps, base, w, h, scale).len() == base.len(),
    decreases ps.len(),
{
    if ps.len() > 0 {
        lemma_drawn_len(ps.drop_last(), base, w, h, scale);
    }
}

/// With an empty frame nothing is covered.
proof fn lemma_drawn_nothing(ps: Seq<ParticleRec>, base: Seq<u8>, w: int, h: int, scale: int)
    requires
        w == 0 || h == 0 || scale == 0,
        base.len() == (w * scale) * (h * scale),
    ensures
        drawn(ps, base, w, h, scale) == base,
    decreases ps.len(),
{
    assert(base.len() == 0) by (nonlinear_arith)
        requires
            base.len() == (w * scale) * (h * scale),
            w == 0 || h == 0 || scale == 0,
    ;
    if ps.len() > 0 {
        lemma_drawn_nothing(ps.drop_last(), base, w, h, scale);
        assert(drawn(ps, base, w, h, scale) =~= base);
    }
}

proof fn lemma_split_index(ow: int, j: int)
    requires
        ow > 0,
        j >= 0,
    ensures
        j == (j / ow) * ow + j % ow,
        0 <= j % ow < ow,
{
    vstd::arithmetic::div_mod::lemma_fundamental_div_mod(j, ow);
    vstd::arithmetic::div_mod::lemma_mod_pos_bound(j, ow);
    assert(j == (j / ow) * ow + j % ow) by (nonlinear_arith)
        requires
            j == ow * (j / ow) + j % ow,
    ;
}

/// The full block of cell `(cx, cy)` is the set of pixels whose row and
/// column fall in that cell.
proof fn lemma_block_cell(ow: int, scale: int, cx: int, cy: int, j: int)
    requires
        ow > 0,
        scale > 0,
        j >= 0,
        cx >= 0,
        cy >= 0,
    ensures
        block_before(ow, scale, cx, cy, scale, 0, j) <==> ((j % ow) / scale == cx && (j / ow) / scale == cy),
{
    lemma_split_index(ow, j);
    let py = j / ow;
    let px = j % ow;
    assert(py >= 0) by (nonlinear_arith)
        requires
            j >= 0,
            ow > 0,
            py == j / ow,
    ;
    if cy * scale <= py < cy * scale + scale {
        lemma_fundamental_div_mod_converse(py, scale, cy, py - cy * scale);
    }
    if cx * scale <= px < cx * scale + scale {
        lemma_fundamental_div_mod_converse(px, scale, cx, px - cx * scale);
    }
    vstd::arithmetic::div_mod::lemma_fundamental_div_mod(py, scale);
    vstd::arithmetic::div_mod::lemma_mod_pos_bound(py, scale);
    vstd::arithmetic::div_mod::lemma_fundamental_div_mod(px, scale);
    vstd::arithmetic::div_mod::lemma_mod_pos_bound(px, scale);
    if py / scale == cy {
        assert(cy * scale <= py < cy * scale + scale) by (nonlinear_arith)
            requires
                py == scale * (py / scale) + py % scale,
                0 <= py % scale < scale,
                py / scale == cy,
        ;
    }
    if px / scale == cx {
        assert(cx * scale <= px < cx * scale + scale) by (nonlinear_arith)
            requires
                px == scale * (px / scale) + px % scale,
                0 <= px % scale < scale,
                px / scale == cx,
        ;
    }
}

} // verus!
