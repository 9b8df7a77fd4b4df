//! The write window of one chunk's update: the chunk plus a halo of
//! `HALO` cells, clipped to the world. Chunks updated in the same phase have
//! disjoint windows, so their updates commute. Writes inside the window mark
//! the dirty neighbourhood and, inside the chunk itself, grow the live scan
//! rectangle of the current pass.

use vstd::prelude::*;

use crate::cell::{Cell, VEL_ONE, V_MAX_CELL};
use crate::chunk::{max_u8, min_u8, DirtyRect, CHUNK};
use crate::material::DISPERSION_MAX;
use crate::world::{
    clip_hi, clip_lo, imax, imin, lemma_chunk_index_bound, lemma_put_count, ind, touch_rect, touches, wall_sentinel,
    world_count, SpawnRequest, World,
};

verus! {

/// Width of the halo around a chunk's write window.
pub const HALO: i32 = 16;

/// Largest distance from a cell to a cell its update may write:
/// `(V_MAX_CELL / VEL_ONE - 1) + DISPERSION_MAX + 1`.
pub const MAX_WRITE_RADIUS: i32 = 12;

/// Splash requests one chunk may queue per tick.
pub const MAX_SPLASH_PER_CHUNK: usize = 64;

/// The write radius is the one its definition gives, and it fits in the halo.
pub proof fn lemma_write_radius()
    ensures
        MAX_WRITE_RADIUS == (V_MAX_CELL / VEL_ONE) as i32 - 1 + DISPERSION_MAX as i32 + 1,
        MAX_WRITE_RADIUS <= HALO,
{
}

pub struct WriteWindow {
    pub width_chunks: usize,
    pub world_w: i32,
    pub world_h: i32,
    pub wx0: i32,
    pub wy0: i32,
    pub wx1: i32,
    pub wy1: i32,
    pub own_ci: usize,
    pub ocx: usize,
    pub ocy: usize,
    /// Live scan rectangle of the current pass (chunk-local).
    pub live: DirtyRect,
}

/// The window of chunk `(cx, cy)` of a `wc x hc`-chunk world, with an empty live rectangle.
pub open spec fn fresh_window(wc: usize, hc: usize, cx: usize, cy: usize) -> WriteWindow {
    WriteWindow {
        width_chunks: wc,
        world_w: (wc * 64) as i32,
        world_h: (hc * 64) as i32,
        wx0: imax(cx * 64 - HALO, 0) as i32,
        wy0: imax(cy * 64 - HALO, 0) as i32,
        wx1: imin(cx * 64 + 63 + HALO, wc * 64 - 1) as i32,
        wy1: imin(cy * 64 + 63 + HALO, hc * 64 - 1) as i32,
        own_ci: (cy * wc + cx) as usize,
        ocx: cx,
        ocy: cy,
        live: crate::chunk::empty_rect(),
    }
}

impl WriteWindow {
    /// The window belongs to chunk `(ocx, ocy)` of `world`.
    pub open spec fn fits(&self, world: World) -> bool {
        let ox = self.ocx * 64;
        let oy = self.ocy * 64;
        &&& world.wf()
        &&& self.width_chunks == world.width_chunks
        &&& self.world_w == world.w()
        &&& self.world_h == world.h()
        &&& self.ocx < world.width_chunks
        &&& self.ocy < world.height_chunks
        &&& self.own_ci == self.ocy * self.width_chunks + self.ocx
        &&& self.wx0 == imax(ox - HALO, 0)
        &&& self.wy0 == imax(oy - HALO, 0)
        &&& self.wx1 == imin(ox + 63 + HALO, world.w() - 1)
        &&& self.wy1 == imin(oy + 63 + HALO, world.h() - 1)
    }

    pub open spec fn has(&self, x: int, y: int) -> bool {
        self.wx0 <= x <= self.wx1 && self.wy0 <= y <= self.wy1
    }

    /// The window of chunk `(cx, cy)`; the live rectangle starts empty.
    #[verifier::spinoff_prover]
    pub fn new(width_chunks: usize, height_chunks: usize, cx: usize, cy: usize) -> (r: WriteWindow)
        requires
            width_chunks >= 1,
            height_chunks >= 1,
            width_chunks * 64 <= i32::MAX,
            height_chunks * 64 <= i32::MAX,
            width_chunks * height_chunks <= usize::MAX,
            cx < width_chunks,
            cy < height_chunks,
        ensures
            r.width_chunks == width_chunks,
            r.world_w == width_chunks * 64,
            r.world_h == height_chunks * 64,
            r.ocx == cx,
            r.ocy == cy,
            r.own_ci == cy * width_chunks + cx,
            r.wx0 == imax(cx * 64 - HALO, 0),
            r.wy0 == imax(cy * 64 - HALO, 0),
            r.wx1 == imin(cx * 64 + 63 + HALO, width_chunks * 64 - 1),
            r.wy1 == imin(cy * 64 + 63 + HALO, height_chunks * 64 - 1),
            r.live == crate::chunk::empty_rect(),
            r == fresh_window(width_chunks, height_chunks, cx, cy),
    {
        proof {
            assert(cx * 64 < width_chunks * 64 && cy * 64 < height_chunks * 64);
        }
        let world_w = (width_chunks * CHUNK) as i32;
        let world_h = (height_chunks * CHUNK) as i32;
        let ox = (cx * CHUNK) as i32;
        let oy = (cy * CHUNK) as i32;
        proof {
            lemma_chunk_index_bound(width_chunks as int, height_chunks as int, cx as int, cy as int);
            assert(cy * width_chunks + cx < width_chunks * height_chunks);
        }
        WriteWindow {
            width_chunks,
            world_w,
            world_h,
            wx0: if ox - HALO > 0 { ox - HALO } else { 0 },
            wy0: if oy - HALO > 0 { oy - HALO } else { 0 },
            wx1: if ox + 63 + HALO < world_w - 1 { ox + 63 + HALO } else { world_w - 1 },
            wy1: if oy + 63 + HALO < world_h - 1 { oy + 63 + HALO } else { world_h - 1 },
            own_ci: cy * width_chunks + cx,
            ocx: cx,
            ocy: cy,
            live: DirtyRect::empty(),
        }
    }

    /// Start a pass with live rectangle `start`.
    pub fn seed_live(&mut self, start: DirtyRect)
        ensures
            *final(self) == (WriteWindow { live: start, ..*old(self) }),
    {
        self.live = start;
    }

    /// The live rectangle of the current pass.
    pub fn live_rect(&self) -> (r: DirtyRect)
        ensures
            r == self.live,
    {
        self.live
    }

    pub fn contains(&self, x: i32, y: i32) -> (r: bool)
        ensures
            r == self.has(x as int, y as int),
    {
        x >= self.wx0 && x <= self.wx1 && y >= self.wy0 && y <= self.wy1
    }

    /// Read a cell: a wall outside the world; inside the world only the
    /// window may be read.
    pub fn get(&self, world: &World, x: i32, y: i32) -> (r: Cell)
        requires
            self.fits(*world),
            world.inb(x as int, y as int) ==> self.has(x as int, y as int),
        ensures
            r == world.at(x as int, y as int),
    {
        if x < 0 || y < 0 || x >= self.world_w || y >= self.world_h {
            return wall_sentinel();
        }
        world.cell(x, y)
    }

    /// The live rectangle after a write at `(x, y)` of a world of size `w x h`.
    pub open spec fn live_after(&self, w: int, h: int, x: int, y: int) -> DirtyRect {
        if touches(w, h, x, y, self.ocx as int, self.ocy as int) {
            let t = touch_rect(w, h, x, y, self.ocx as int, self.ocy as int);
            DirtyRect {
                x0: min_u8(min_u8(self.live.x0, t.0), t.2),
                y0: min_u8(min_u8(self.live.y0, t.1), t.3),
                x1: max_u8(max_u8(self.live.x1, t.0), t.2),
                y1: max_u8(max_u8(self.live.y1, t.1), t.3),
            }
        } else {
            self.live
        }
    }

    /// Write a cell inside the window and the world: mark its neighbourhood
    /// dirty and, where that reaches the own chunk, grow the live rectangle.
    pub fn set(&mut self, world: &mut World, x: i32, y: i32, cell: Cell)
        requires
            old(self).fits(*old(world)),
            old(world).inb(x as int, y as int),
            old(self).has(x as int, y as int),
        ensures
            final(world).wf(),
            final(world).same_shape(*old(world)),
            final(world).same_scan(*old(world)),
            final(world).vaporized_total == old(world).vaporized_total,
            final(world).nd_marked(*old(world), x as int, y as int),
            forall|a: int, b: int| #[trigger] final(world).at(a, b) == if a == x && b == y { cell } else { old(world).at(a, b) },
            forall|m: u8| #[trigger] world_count(*final(world), m) + ind(old(world).at(x as int, y as int).mat() == m)
                == world_count(*old(world), m) + ind(cell.mat() == m),
            *final(self) == (WriteWindow { live: old(self).live_after(old(world).w(), old(world).h(), x as int, y as int), ..*old(self) }),
            final(self).fits(*final(world)),
    {
        write_and_mark(world, x, y, cell);
        let x0: i32 = if x - 1 > 0 { x - 1 } else { 0 };
        let y0: i32 = if y - 1 > 0 { y - 1 } else { 0 };
        let x1: i32 = if x + 1 < self.world_w - 1 { x + 1 } else { self.world_w - 1 };
        let y1: i32 = if y + 1 < self.world_h - 1 { y + 1 } else { self.world_h - 1 };
        let bx0: i32 = (self.ocx * CHUNK) as i32;
        let by0: i32 = (self.ocy * CHUNK) as i32;
        if x0 / 64 <= self.ocx as i32 && self.ocx as i32 <= x1 / 64 && y0 / 64 <= self.ocy as i32 && self.ocy as i32 <= y1 / 64 {
            let lx0: u8 = ((if x0 > bx0 { x0 } else { bx0 }) - bx0) as u8;
            let ly0: u8 = ((if y0 > by0 { y0 } else { by0 }) - by0) as u8;
            let lx1: u8 = ((if x1 < bx0 + 63 { x1 } else { bx0 + 63 }) - bx0) as u8;
            let ly1: u8 = ((if y1 < by0 + 63 { y1 } else { by0 + 63 }) - by0) as u8;
            let mut live = self.live;
            live.merge_point(lx0, ly0);
            live.merge_point(lx1, ly1);
            self.live = live;
        }
    }

    /// Queue a splash request on the own chunk; refused once the chunk holds
    /// `MAX_SPLASH_PER_CHUNK` of them.
    pub fn push_spawn(&self, world: &mut World, req: SpawnRequest) -> (r: bool)
        requires
            self.fits(*old(world)),
        ensures
            final(world).wf(),
            final(world).same_shape(*old(world)),
            final(world).same_cells(*old(world)),
            final(world).same_nd(*old(world)),
            final(world).vaporized_total == old(world).vaporized_total,
            r == (old(world).chunks@[self.own_ci as int].spawn_buf@.len() < MAX_SPLASH_PER_CHUNK),
            forall|i: int| 0 <= i < old(world).chunks@.len() ==> {
                &&& (#[trigger] final(world).chunks@[i]).dirty == old(world).chunks@[i].dirty
                &&& final(world).chunks@[i].spawn_buf@ == if i == self.own_ci && r {
                    old(world).chunks@[i].spawn_buf@.push(req)
                } else {
                    old(world).chunks@[i].spawn_buf@
                }
            },
    {
        proof {
            lemma_chunk_index_bound(world.width_chunks as int, world.height_chunks as int, self.ocx as int, self.ocy as int);
        }
        let ci = self.own_ci;
        if world.chunks[ci].spawn_buf.len() >= MAX_SPLASH_PER_CHUNK {
            return false;
        }
        let ghost w0 = *world;
        world.chunks[ci].spawn_buf.push(req);
        proof {
            assert forall|i: int| 0 <= i < world.chunks@.len() implies (#[trigger] world.chunks@[i]).cells@.len() == 4096 by {
                assert(w0.chunks@[i].cells@.len() == 4096);
            }
        }
        true
    }
}

/// Store `cell` at `(x, y)` and mark its neighbourhood dirty.
fn write_and_mark(world: &mut World, x: i32, y: i32, cell: Cell)
    requires
        old(world).wf(),
        old(world).inb(x as int, y as int),
    ensures
        final(world).wf(),
        final(world).same_shape(*old(world)),
        final(world).same_scan(*old(world)),
        final(world).vaporized_total == old(world).vaporized_total,
        final(world).nd_marked(*old(world), x as int, y as int),
        forall|a: int, b: int| #[trigger] final(world).at(a, b) == if a == x && b == y { cell } else { old(world).at(a, b) },
        forall|m: u8| #[trigger] world_count(*final(world), m) + ind(old(world).at(x as int, y as int).mat() == m)
            == world_count(*old(world), m) + ind(cell.mat() == m),
{
    let ghost w0 = *world;
    world.put_cell(x, y, cell);
    let ghost w1 = *world;
    proof {
        assert forall|m: u8| #[trigger] world_count(w1, m) + ind(w0.at(x as int, y as int).mat() == m)
            == world_count(w0, m) + ind(cell.mat() == m) by {
            lemma_put_count(w1, w0, x as int, y as int, cell, m);
        }
    }
    world.mark_dirty_around(x, y);
    proof {
        assert forall|m: u8| #[trigger] world_count(*world, m) == world_count(w1, m) by {
            crate::world::lemma_count_chunks_same_cells(world.chunks@, w1.chunks@, m);
        }
        assert forall|cx: int, cy: int| 0 <= cx < world.width_chunks && 0 <= cy < world.height_chunks implies
            #[trigger] w1.chunk_at(cx, cy).next_dirty@ == w0.chunk_at(cx, cy).next_dirty@ by {
            lemma_chunk_index_bound(world.width_chunks as int, world.height_chunks as int, cx, cy);
        }
        assert forall|a: int, b: int| #[trigger] world.at(a, b) == w1.at(a, b) by {
            if world.inb(a, b) {
                crate::world::lemma_locate_bounds(w1, a, b);
            }
        }
    }
}

} // verus!
