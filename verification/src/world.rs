//! The world: `width_chunks x height_chunks` chunks in a flat row-major
//! vector. Reads outside the world see a wall; brush, fill and scenario setup
//! share one write path.

use vstd::prelude::*;

use crate::cell::{cell_from_bits, lemma_cell_from_bits, lemma_cell_view_injective, Cell};
use crate::chunk::{empty_rect, full_rect, merged, Chunk, DirtyRect, CHUNK};
use crate::fixed::Fx;
use crate::emit::{apply_emit, emitted, MAX_EMIT_JITTER_RAW};
use crate::explode::{apply_explode, circle_spec, explode_in_range, explode_rays, MAX_EXPLODE_POWER};
use crate::material::{Category, MaterialTable};

verus! {

broadcast use {lemma_cell_from_bits, lemma_cell_view_injective};

/// What a read outside the world returns: a wall with stamp 0.
pub fn wall_sentinel() -> (r: Cell)
    ensures
        r == wall_cell(),
{
    let c = Cell::pack(1, 0);
    proof {
        assert(((1u8 as u32) | ((0u8 as u32) << 8u32)) == 1u32) by (bit_vector);
        lemma_cell_from_bits(1);
        lemma_cell_view_injective(c, cell_from_bits(1));
    }
    c
}

/// The wall sentinel as a value (raw bits 1: material 1, everything else 0).
pub open spec fn wall_cell() -> Cell {
    cell_from_bits(1)
}

/// The wall sentinel holds material 1.
pub proof fn lemma_wall_mat()
    ensures
        wall_cell().mat() == 1,
{
    lemma_cell_from_bits(1);
    assert(((1u32 & 0xff) as u8) == 1) by (bit_vector);
}

/// Raw bits of a freshly packed cell.
pub open spec fn pack_bits(material: u8, stamp: u8) -> u32 {
    (material as u32) | ((stamp as u32) << 8u32)
}

/// The cell that the shared write path stores for `material` at column `x`:
/// liquids and gases get their direction memory from the parity of `x`
/// (odd = right); every other field but material and stamp is zero.
pub open spec fn stamped_cell(flowing: bool, material: u8, stamp: u8, x: int) -> Cell {
    if flowing && x % 2 == 1 {
        cell_from_bits(pack_bits(material, stamp) | 0x1_0000u32)
    } else {
        cell_from_bits(pack_bits(material, stamp))
    }
}

/// Whether a material's category keeps a direction memory.
pub open spec fn is_flowing(c: Category) -> bool {
    c == Category::Liquid || c == Category::Gas
}

/// A particle spawn request, produced by emitters, explosions and splashes
/// and drained in queue order into the particle pool.
#[derive(Clone, Copy, Debug)]
pub struct SpawnRequest {
    pub material: u8,
    pub x: Fx,
    pub y: Fx,
    pub vx: Fx,
    pub vy: Fx,
}

/// A deterministic input operation.
#[derive(Clone, Copy, Debug)]
#[allow(inconsistent_fields)]
pub enum Op {
    /// Paint a disk of radius `r` cells.
    Brush { material: u8, x: i32, y: i32, r: i32 },
    /// Paint the closed rectangle `[x0, x1] x [y0, y1]`.
    Fill { material: u8, x0: i32, y0: i32, x1: i32, y1: i32 },
    /// Emit `count` particles at `(x, y)` with velocity `(vx, vy)`, each
    /// component jittered independently within `[-jitter, +jitter]`.
    Emit { material: u8, x: Fx, y: Fx, vx: Fx, vy: Fx, count: u16, jitter: Fx },
    /// Explosion of radius `r` cells and ray energy `power` centred on a cell.
    Explode { x: i32, y: i32, r: i32, power: u32 },
}

pub struct World {
    pub width_chunks: usize,
    pub height_chunks: usize,
    pub chunks: Vec<Chunk>,
    pub tick: u64,
    pub seed: u64,
    /// Cells that explosions removed without a splash particle (diagnostic;
    /// not part of the state hash).
    pub vaporized_total: u64,
}

/// Lower edge of the 3x3 neighbourhood of `v`, clipped to 0.
pub open spec fn clip_lo(v: int) -> int {
    if v - 1 > 0 { v - 1 } else { 0 }
}

/// Upper edge of the 3x3 neighbourhood of `v`, clipped to `n - 1`.
pub open spec fn clip_hi(v: int, n: int) -> int {
    if v + 1 < n - 1 { v + 1 } else { n - 1 }
}

/// Whether the clipped neighbourhood of `(x, y)` reaches chunk `(cx, cy)`.
pub open spec fn touches(w: int, h: int, x: int, y: int, cx: int, cy: int) -> bool {
    &&& clip_lo(x) / 64 <= cx <= clip_hi(x, w) / 64
    &&& clip_lo(y) / 64 <= cy <= clip_hi(y, h) / 64
}

pub open spec fn imax(a: int, b: int) -> int {
    if a >= b { a } else { b }
}

pub open spec fn imin(a: int, b: int) -> int {
    if a <= b { a } else { b }
}

/// The part of the clipped neighbourhood of `(x, y)` inside chunk
/// `(cx, cy)`, in that chunk's local coordinates.
pub open spec fn touch_rect(w: int, h: int, x: int, y: int, cx: int, cy: int) -> (u8, u8, u8, u8) {
    let bx0 = cx * 64;
    let by0 = cy * 64;
    (
        (imax(clip_lo(x), bx0) - bx0) as u8,
        (imax(clip_lo(y), by0) - by0) as u8,
        (imin(clip_hi(x, w), bx0 + 63) - bx0) as u8,
        (imin(clip_hi(y, h), by0 + 63) - by0) as u8,
    )
}

/// `a` and `b` decompose uniquely as `q * m + r` with `0 <= r < m`.
pub proof fn lemma_unique_decomp(q1: int, r1: int, q2: int, r2: int, m: int)
    requires
        m > 0,
        0 <= r1 < m,
        0 <= r2 < m,
        q1 * m + r1 == q2 * m + r2,
    ensures
        q1 == q2,
        r1 == r2,
{
    assert(q1 == q2) by (nonlinear_arith)
        requires
            m > 0,
            0 <= r1 < m,
            0 <= r2 < m,
            q1 * m + r1 == q2 * m + r2,
    ;
}

/// Chunk index `cy * wc + cx` of a chunk inside a `wc x hc` grid is in range.
pub proof fn lemma_chunk_index_bound(wc: int, hc: int, cx: int, cy: int)
    requires
        0 <= cx < wc,
        0 <= cy < hc,
    ensures
        0 <= cy * wc + cx < wc * hc,
{
    assert(0 <= cy * wc + cx < wc * hc) by (nonlinear_arith)
        requires
            0 <= cx < wc,
            0 <= cy < hc,
    ;
}

impl World {
    /// Width in cells.
    pub open spec fn w(&self) -> int {
        self.width_chunks * 64
    }

    /// Height in cells.
    pub open spec fn h(&self) -> int {
        self.height_chunks * 64
    }

    pub open spec fn inb(&self, x: int, y: int) -> bool {
        0 <= x < self.w() && 0 <= y < self.h()
    }

    /// Index of the chunk holding cell `(x, y)`.
    pub open spec fn ci_of(&self, x: int, y: int) -> int {
        (y / 64) * self.width_chunks + x / 64
    }

    /// The chunk at chunk coordinates `(cx, cy)`.
    pub open spec fn chunk_at(&self, cx: int, cy: int) -> Chunk {
        self.chunks@[cy * self.width_chunks + cx]
    }

    /// Structural well-formedness: the chunk vector matches the dimensions and
    /// every chunk holds a full 64x64 block of cells.
    pub open spec fn wf(&self) -> bool {
        &&& self.width_chunks >= 1
        &&& self.height_chunks >= 1
        &&& self.width_chunks * 64 <= i32::MAX
        &&& self.height_chunks * 64 <= i32::MAX
        &&& self.chunks@.len() == self.width_chunks * self.height_chunks
        &&& forall|i: int| 0 <= i < self.chunks@.len() ==> (#[trigger] self.chunks@[i]).cells@.len() == 4096
    }

    /// The cell at `(x, y)`; a wall outside the world.
    pub open spec fn at(&self, x: int, y: int) -> Cell {
        if self.inb(x, y) {
            self.chunks@[self.ci_of(x, y)].cells@[local_index(x, y)]
        } else {
            wall_cell()
        }
    }

    /// Same dimensions, counters and chunk vector length.
    pub open spec fn same_shape(&self, o: World) -> bool {
        &&& self.width_chunks == o.width_chunks
        &&& self.height_chunks == o.height_chunks
        &&& self.tick == o.tick
        &&& self.seed == o.seed
        &&& self.chunks@.len() == o.chunks@.len()
    }

    /// Every chunk keeps its cells.
    pub open spec fn same_cells(&self, o: World) -> bool {
        forall|i: int| 0 <= i < self.chunks@.len() ==> (#[trigger] self.chunks@[i]).cells@ == o.chunks@[i].cells@
    }

    /// Every chunk keeps its scan rectangle and its spawn buffer.
    pub open spec fn same_scan(&self, o: World) -> bool {
        forall|i: int| 0 <= i < self.chunks@.len() ==> {
            &&& (#[trigger] self.chunks@[i]).dirty == o.chunks@[i].dirty
            &&& self.chunks@[i].spawn_buf@ == o.chunks@[i].spawn_buf@
        }
    }

    /// Every chunk keeps its write rectangle.
    pub open spec fn same_nd(&self, o: World) -> bool {
        forall|i: int| 0 <= i < self.chunks@.len() ==> (#[trigger] self.chunks@[i]).next_dirty@ == o.chunks@[
            i
        ].next_dirty@
    }

    /// The write rectangles are those of `old` with the clipped 3x3
    /// neighbourhood of `(x, y)` merged into every chunk it reaches.
    pub open spec fn nd_marked(&self, old: World, x: int, y: int) -> bool {
        forall|cx: int, cy: int|
            0 <= cx < self.width_chunks && 0 <= cy < self.height_chunks ==> (#[trigger] self.chunk_at(
                cx,
                cy,
            )).next_dirty@ == if touches(self.w(), self.h(), x, y, cx, cy) {
                merged(old.chunk_at(cx, cy).next_dirty@, touch_rect(self.w(), self.h(), x, y, cx, cy))
            } else {
                old.chunk_at(cx, cy).next_dirty@
            }
    }
}

/// Write rectangles of a world's chunks, by chunk coordinates (the
/// canonical empty rectangle outside the chunk grid).
pub type Marks = spec_fn(int, int) -> (u8, u8, u8, u8);

/// The write rectangles of `w`'s chunks.
pub open spec fn nd_view(w: World) -> Marks {
    |cx: int, cy: int|
        if 0 <= cx < w.width_chunks && 0 <= cy < w.height_chunks {
            w.chunk_at(cx, cy).next_dirty@
        } else {
            (255u8, 255u8, 0u8, 0u8)
        }
}

/// Write rectangles `m` after a write at `(x, y)` of a `w x h` world: its
/// clipped 3x3 neighbourhood merged into every chunk it reaches.
pub open spec fn marks_after(m: Marks, w: int, h: int, x: int, y: int) -> Marks {
    |cx: int, cy: int| if touches(w, h, x, y, cx, cy) { merged(m(cx, cy), touch_rect(w, h, x, y, cx, cy)) } else { m(cx, cy) }
}

/// A marking write changes the write rectangles as [`marks_after`] says.
pub proof fn lemma_nd_marked_view(new: World, old: World, x: int, y: int)
    requires
        old.wf(),
        new.same_shape(old),
        old.inb(x, y),
        new.nd_marked(old, x, y),
    ensures
        nd_view(new) == marks_after(nd_view(old), old.w(), old.h(), x, y),
{
    let (w, h) = (old.w(), old.h());
    assert forall|cx: int, cy: int| #[trigger] nd_view(new)(cx, cy) == marks_after(nd_view(old), w, h, x, y)(cx, cy) by {
        if touches(w, h, x, y, cx, cy) {
            assert(clip_hi(x, w) <= w - 1);
            assert(clip_hi(y, h) <= h - 1);
            assert(clip_hi(x, w) / 64 < old.width_chunks as int);
            assert(clip_hi(y, h) / 64 < old.height_chunks as int);
        }
    }
    assert(nd_view(new) =~= marks_after(nd_view(old), w, h, x, y));
}

impl World {
    /// The cell grid as a function of coordinates.
    pub open spec fn grid(&self) -> spec_fn(int, int) -> Cell {
        |a: int, b: int| self.at(a, b)
    }

    /// Every cell inside the world holds a material id below `n`.
    pub open spec fn mats_valid(&self, n: int) -> bool {
        forall|a: int, b: int| #[trigger] self.inb(a, b) ==> (self.at(a, b).mat() as int) < n
    }

    /// Every write rectangle of `old` is contained in the corresponding one of `self`.
    pub open spec fn nd_grows(&self, old: World) -> bool {
        forall|cx: int, cy: int|
            0 <= cx < self.width_chunks && 0 <= cy < self.height_chunks ==> {
                let n = (#[trigger] self.chunk_at(cx, cy)).next_dirty@;
                let o = old.chunk_at(cx, cy).next_dirty@;
                &&& n.0 <= o.0 && n.1 <= o.1 && n.2 >= o.2 && n.3 >= o.3
                &&& rect_in_chunk(o) ==> rect_in_chunk(n)
            }
    }
}

/// A chunk rectangle inside the chunk, or the canonical empty one.
pub open spec fn rect_in_chunk(r: (u8, u8, u8, u8)) -> bool {
    (r.0 <= 63 && r.1 <= 63 && r.2 <= 63 && r.3 <= 63) || (r.0 == 255 && r.1 == 255 && r.2 <= 63 && r.3 <= 63)
}

impl World {
    /// No chunk holds a queued splash request.
    pub open spec fn bufs_empty(&self) -> bool {
        forall|i: int| 0 <= i < self.chunks@.len() ==> (#[trigger] self.chunks@[i]).spawn_buf@.len() == 0
    }

    /// Every chunk's scan and write rectangles lie inside the chunk (or are empty).
    pub open spec fn rects_ok(&self) -> bool {
        forall|i: int| 0 <= i < self.chunks@.len() ==> {
            &&& rect_in_chunk((#[trigger] self.chunks@[i]).next_dirty@)
            &&& rect_in_chunk((self.chunks@[i].dirty.x0, self.chunks@[i].dirty.y0, self.chunks@[i].dirty.x1, self.chunks@[i].dirty.y1))
        }
    }
}

/// Marking a neighbourhood keeps the rectangles inside their chunks.
pub proof fn lemma_marked_rects(new: World, old: World, x: int, y: int)
    requires
        old.wf(),
        old.inb(x, y),
        old.rects_ok(),
        new.nd_marked(old, x, y),
        new.same_shape(old),
        new.same_scan(old),
        new.chunks@.len() == old.chunks@.len(),
    ensures
        new.rects_ok(),
{
    assert forall|i: int| 0 <= i < new.chunks@.len() implies {
        &&& rect_in_chunk((#[trigger] new.chunks@[i]).next_dirty@)
        &&& rect_in_chunk((new.chunks@[i].dirty.x0, new.chunks@[i].dirty.y0, new.chunks@[i].dirty.x1, new.chunks@[i].dirty.y1))
    } by {
        let wc = old.width_chunks as int;
        let cx = i % wc;
        let cy = i / wc;
        assert(i == cy * wc + cx) by (nonlinear_arith)
            requires wc >= 1, cx == i % wc, cy == i / wc;
        assert(0 <= cy < old.height_chunks) by (nonlinear_arith)
            requires wc >= 1, cy == i / wc, 0 <= i < wc * old.height_chunks;
        assert(new.chunk_at(cx, cy) == new.chunks@[i]);
        assert(old.chunk_at(cx, cy) == old.chunks@[i]);
        assert(rect_in_chunk(old.chunks@[i].next_dirty@));
        assert(old.chunks@[i].dirty == new.chunks@[i].dirty);
    }
}

/// An air cell freshly written with `stamp`.
pub open spec fn air_stamped(stamp: u8) -> Cell {
    cell_from_bits(pack_bits(0, stamp))
}

/// Growing write rectangles keep inside their chunks.
pub proof fn lemma_grows_rects(new: World, old: World)
    requires
        old.wf(),
        old.rects_ok(),
        new.nd_grows(old),
        new.same_shape(old),
        new.same_scan(old),
    ensures
        new.rects_ok(),
{
    assert forall|i: int| 0 <= i < new.chunks@.len() implies {
        &&& rect_in_chunk((#[trigger] new.chunks@[i]).next_dirty@)
        &&& rect_in_chunk((new.chunks@[i].dirty.x0, new.chunks@[i].dirty.y0, new.chunks@[i].dirty.x1, new.chunks@[i].dirty.y1))
    } by {
        let wc = old.width_chunks as int;
        let cx = i % wc;
        let cy = i / wc;
        assert(i == cy * wc + cx) by (nonlinear_arith)
            requires wc >= 1, cx == i % wc, cy == i / wc;
        assert(0 <= cy < old.height_chunks) by (nonlinear_arith)
            requires wc >= 1, cy == i / wc, 0 <= i < wc * old.height_chunks;
        assert(new.chunk_at(cx, cy) == new.chunks@[i]);
        assert(old.chunk_at(cx, cy) == old.chunks@[i]);
        assert(rect_in_chunk(old.chunks@[i].next_dirty@));
        assert(old.chunks@[i].dirty == new.chunks@[i].dirty);
    }
}

/// Marking a neighbourhood only grows the write rectangles.
pub proof fn lemma_marked_grows(new: World, old: World, x: int, y: int)
    requires
        old.inb(x, y),
        new.nd_marked(old, x, y),
    ensures
        new.nd_grows(old),
{
}

/// Growth of the write rectangles is transitive.
pub proof fn lemma_grows_trans(a: World, b: World, c: World)
    requires
        a.nd_grows(b),
        b.nd_grows(c),
        a.width_chunks == b.width_chunks,
        a.height_chunks == b.height_chunks,
    ensures
        a.nd_grows(c),
{
    assert forall|cx: int, cy: int| 0 <= cx < a.width_chunks && 0 <= cy < a.height_chunks implies {
        let n = (#[trigger] a.chunk_at(cx, cy)).next_dirty@;
        let o = c.chunk_at(cx, cy).next_dirty@;
        n.0 <= o.0 && n.1 <= o.1 && n.2 >= o.2 && n.3 >= o.3
    } by {
        assert(b.chunk_at(cx, cy) == b.chunk_at(cx, cy));
    }
}


/// Whether offset `(dx, dy)` lies in the disk of radius `r`.
pub open spec fn in_disk(dx: int, dy: int, r: int) -> bool {
    -r <= dx <= r && -r <= dy <= r && dx * dx + dy * dy <= r * r
}

/// The cell the shared write path would store for `material` at column `a`.
pub open spec fn painted(t: Seq<crate::material::MaterialDef>, material: u8, stamp: u8, a: int) -> Cell {
    stamped_cell(is_flowing(t[material as int].category), material, stamp, a)
}

/// `new` is `old` with every in-world cell satisfying `region` painted with
/// `material` through the shared write path (write rectangles only grow).
pub open spec fn painted_region(
    new: World,
    old: World,
    t: Seq<crate::material::MaterialDef>,
    material: u8,
    stamp: u8,
    region: spec_fn(int, int) -> bool,
) -> bool {
    &&& new.wf()
    &&& new.same_shape(old)
    &&& new.same_scan(old)
    &&& new.nd_grows(old)
    &&& new.vaporized_total == old.vaporized_total
    &&& forall|a: int, b: int| #[trigger]
        new.at(a, b) == if old.inb(a, b) && region(a, b) {
            painted(t, material, stamp, a)
        } else {
            old.at(a, b)
        }
}

/// Parameters of an operation that the implementation can carry out without
/// overflow or out-of-table lookups.
pub open spec fn op_ok(world: World, t: Seq<crate::material::MaterialDef>, op: Op, op_idx: int) -> bool {
    match op {
        Op::Brush { material, x, y, r } => {
            &&& r <= 32767
            &&& -0x7FFF_FFFF + 32767 <= x <= 0x7FFF_FFFF - 32767
            &&& -0x7FFF_FFFF + 32767 <= y <= 0x7FFF_FFFF - 32767
            &&& forall|a: int, b: int| #[trigger] world.inb(a, b) && in_disk(a - x, b - y, r as int) ==> (material as int) < t.len()
        },
        Op::Fill { material, x0, y0, x1, y1 } => {
            forall|a: int, b: int| #[trigger] world.inb(a, b) && x0 <= a <= x1 && y0 <= b <= y1 ==> (material as int) < t.len()
        },
        Op::Emit { jitter, .. } => op_idx <= 0xFFFF && jitter.0 <= MAX_EMIT_JITTER_RAW,
        Op::Explode { x, y, r, power } => {
            &&& explode_in_range(x, y, r)
            &&& power <= MAX_EXPLODE_POWER
            &&& world.vaporized_total <= u64::MAX - 0x1_0000_0000_0000
        },
    }
}

impl World {
    /// Paint the disk of radius `r` around `(x, y)`.
    fn paint_disk(&mut self, table: &MaterialTable, material: u8, x: i32, y: i32, r: i32, stamp: u8)
        requires
            old(self).wf(),
            old(self).mats_valid(table@.len() as int),
            r <= 32767,
            -0x7FFF_FFFF + 32767 <= x <= 0x7FFF_FFFF - 32767,
            -0x7FFF_FFFF + 32767 <= y <= 0x7FFF_FFFF - 32767,
            forall|a: int, b: int| #[trigger] old(self).inb(a, b) && in_disk(a - x, b - y, r as int) ==> (material as int) < table@.len(),
        ensures
            painted_region(*final(self), *old(self), table@, material, stamp, |a: int, b: int| in_disk(a - x, b - y, r as int)),
            final(self).mats_valid(table@.len() as int),
    {
        let ghost w0 = *self;
        let ghost t = table@;
        proof {
            crate::world::lemma_grows_refl(w0);
        }
        if r < 0 {
            return;
        }
        let mut dy: i32 = -r;
        while dy <= r
            invariant
                0 <= r <= 32767,
                -r <= dy <= r + 1,
                -0x7FFF_FFFF + 32767 <= x <= 0x7FFF_FFFF - 32767,
                -0x7FFF_FFFF + 32767 <= y <= 0x7FFF_FFFF - 32767,
                w0.wf(),
                t == table@,
                forall|a: int, b: int| #[trigger] w0.inb(a, b) && in_disk(a - x, b - y, r as int) ==> (material as int) < t.len(),
                self.wf(),
                self.same_shape(w0),
                self.same_scan(w0),
                self.nd_grows(w0),
                self.vaporized_total == w0.vaporized_total,
                self.mats_valid(t.len() as int),
                forall|a: int, b: int| #[trigger]
                    self.at(a, b) == if w0.inb(a, b) && in_disk(a - x, b - y, r as int) && b - y < dy {
                        painted(t, material, stamp, a)
                    } else {
                        w0.at(a, b)
                    },
            decreases r + 1 - dy,
        {
            let mut dx: i32 = -r;
            while dx <= r
                invariant
                    0 <= r <= 32767,
                    -r <= dy <= r,
                    -r <= dx <= r + 1,
                    -0x7FFF_FFFF + 32767 <= x <= 0x7FFF_FFFF - 32767,
                    -0x7FFF_FFFF + 32767 <= y <= 0x7FFF_FFFF - 32767,
                    w0.wf(),
                    t == table@,
                    forall|a: int, b: int| #[trigger] w0.inb(a, b) && in_disk(a - x, b - y, r as int) ==> (material as int) < t.len(),
                    self.wf(),
                    self.same_shape(w0),
                    self.same_scan(w0),
                    self.nd_grows(w0),
                    self.vaporized_total == w0.vaporized_total,
                    self.mats_valid(t.len() as int),
                    forall|a: int, b: int| #[trigger]
                        self.at(a, b) == if w0.inb(a, b) && in_disk(a - x, b - y, r as int) && (b - y < dy || (b - y
                            == dy && a - x < dx)) {
                            painted(t, material, stamp, a)
                        } else {
                            w0.at(a, b)
                        },
                decreases r + 1 - dx,
            {
                proof {
                    let (p, q, rr) = (dx as int, dy as int, r as int);
                    assert(0 <= p * p <= rr * rr && 0 <= q * q <= rr * rr && rr * rr <= 32767 * 32767) by (nonlinear_arith)
                        requires
                            -rr <= p <= rr,
                            -rr <= q <= rr,
                            0 <= rr <= 32767,
                    ;
                }
                let inside = dx * dx + dy * dy <= r * r;
                if inside {
                    let ghost wb = *self;
                    let (px, py) = (x + dx, y + dy);
                    proof {
                        assert(in_disk(px - x, py - y, r as int));
                    }
                    self.set_cell_stamped(table, px, py, material, stamp);
                    proof {
                        if wb.inb(px as int, py as int) {
                            crate::world::lemma_marked_grows(*self, wb, px as int, py as int);
                            crate::world::lemma_grows_trans(*self, wb, w0);
                            assert forall|a: int, b: int| #[trigger] self.inb(a, b) implies (self.at(a, b).mat() as int) < t.len() by {
                                assert(wb.inb(a, b));
                                if a == px && b == py {
                                    lemma_stamped_mat(is_flowing(t[material as int].category), material, stamp, a);
                                }
                            }
                        }
                    }
                }
                dx += 1;
            }
            dy += 1;
        }
    }

    /// Paint the closed rectangle `[x0, x1] x [y0, y1]`.
    fn paint_rect(&mut self, table: &MaterialTable, material: u8, x0: i32, y0: i32, x1: i32, y1: i32, stamp: u8)
        requires
            old(self).wf(),
            old(self).mats_valid(table@.len() as int),
            forall|a: int, b: int| #[trigger] old(self).inb(a, b) && x0 <= a <= x1 && y0 <= b <= y1 ==> (material as int) < table@.len(),
        ensures
            painted_region(*final(self), *old(self), table@, material, stamp, |a: int, b: int| x0 <= a <= x1 && y0 <= b <= y1),
            final(self).mats_valid(table@.len() as int),
    {
        let ghost w0 = *self;
        let ghost t = table@;
        proof {
            crate::world::lemma_grows_refl(w0);
        }
        if x0 > x1 || y0 > y1 {
            return;
        }
        let mut yy: i64 = y0 as i64;
        while yy <= y1 as i64
            invariant
                y0 <= yy <= y1 as int + 1,
                x0 <= x1,
                w0.wf(),
                t == table@,
                forall|a: int, b: int| #[trigger] w0.inb(a, b) && x0 <= a <= x1 && y0 <= b <= y1 ==> (material as int) < t.len(),
                self.wf(),
                self.same_shape(w0),
                self.same_scan(w0),
                self.nd_grows(w0),
                self.vaporized_total == w0.vaporized_total,
                self.mats_valid(t.len() as int),
                forall|a: int, b: int| #[trigger]
                    self.at(a, b) == if w0.inb(a, b) && x0 <= a <= x1 && y0 <= b <= y1 && b < yy {
                        painted(t, material, stamp, a)
                    } else {
                        w0.at(a, b)
                    },
            decreases y1 as int + 1 - yy,
        {
            let mut xx: i64 = x0 as i64;
            while xx <= x1 as i64
                invariant
                    y0 <= yy <= y1,
                    x0 <= x1,
                    x0 <= xx <= x1 as int + 1,
                    w0.wf(),
                    t == table@,
                    forall|a: int, b: int| #[trigger] w0.inb(a, b) && x0 <= a <= x1 && y0 <= b <= y1 ==> (material as int) < t.len(),
                    self.wf(),
                    self.same_shape(w0),
                    self.same_scan(w0),
                    self.nd_grows(w0),
                    self.vaporized_total == w0.vaporized_total,
                    self.mats_valid(t.len() as int),
                    forall|a: int, b: int| #[trigger]
                        self.at(a, b) == if w0.inb(a, b) && x0 <= a <= x1 && y0 <= b <= y1 && (b < yy || (b == yy && a < xx)) {
                            painted(t, material, stamp, a)
                        } else {
                            w0.at(a, b)
                        },
                decreases x1 as int + 1 - xx,
            {
                let ghost wb = *self;
                let (px, py) = (xx as i32, yy as i32);
                self.set_cell_stamped(table, px, py, material, stamp);
                proof {
                    if wb.inb(px as int, py as int) {
                        crate::world::lemma_marked_grows(*self, wb, px as int, py as int);
                        crate::world::lemma_grows_trans(*self, wb, w0);
                        assert forall|a: int, b: int| #[trigger] self.inb(a, b) implies (self.at(a, b).mat() as int) < t.len() by {
                            assert(wb.inb(a, b));
                            if a == px && b == py {
                                lemma_stamped_mat(is_flowing(t[material as int].category), material, stamp, a);
                            }
                        }
                    }
                }
                xx += 1;
            }
            yy += 1;
        }
    }
}

/// The shared write path stores the requested material.
pub proof fn lemma_stamped_mat(flowing: bool, material: u8, stamp: u8, x: int)
    ensures
        stamped_cell(flowing, material, stamp, x).mat() == material,
{
    let v = pack_bits(material, stamp);
    lemma_cell_from_bits(v);
    lemma_cell_from_bits(v | 0x1_0000u32);
    assert(((v & 0xff) as u8) == material && (((v | 0x1_0000u32) & 0xff) as u8) == material) by (bit_vector)
        requires
            v == (material as u32) | ((stamp as u32) << 8u32),
    ;
}

/// Write rectangles trivially contain themselves.
pub proof fn lemma_grows_refl(w: World)
    ensures
        w.nd_grows(w),
{
}


impl World {
    /// Apply one operation of this tick: `stamp` marks grid writes, `fseed`
    /// seeds the jitter draws, `op_idx` is the operation's position in this
    /// tick's list; emitters and explosions append their particles to `spawns`.
    pub fn apply_op(
        &mut self,
        table: &MaterialTable,
        op: &Op,
        stamp: u8,
        fseed: u32,
        op_idx: usize,
        spawns: &mut Vec<SpawnRequest>,
    )
        requires
            old(self).wf(),
            old(self).mats_valid(table@.len() as int),
            op_ok(*old(self), table@, *op, op_idx as int),
        ensures
            final(self).mats_valid(table@.len() as int),
            match *op {
                Op::Brush { material, x, y, r } => {
                    &&& painted_region(*final(self), *old(self), table@, material, stamp, |a: int, b: int| in_disk(a - x, b - y, r as int))
                    &&& final(spawns)@ == old(spawns)@
                },
                Op::Fill { material, x0, y0, x1, y1 } => {
                    &&& painted_region(*final(self), *old(self), table@, material, stamp, |a: int, b: int| x0 <= a <= x1 && y0 <= b <= y1)
                    &&& final(spawns)@ == old(spawns)@
                },
                Op::Emit { material, x, y, vx, vy, count, jitter } => {
                    &&& *final(self) == *old(self)
                    &&& final(spawns)@.len() == old(spawns)@.len() + count
                    &&& final(spawns)@.subrange(0, old(spawns)@.len() as int) == old(spawns)@
                    &&& forall|i: int| 0 <= i < count ==> #[trigger] final(spawns)@[old(spawns)@.len() + i] == emitted(material, x, y, vx, vy, jitter, stamp, fseed, op_idx as int, i as u32)
                },
                Op::Explode { x, y, r, power } => {
                    &&& crate::explode::air_balance(*final(self), *old(self), final(spawns)@.len() as int, old(spawns)@.len() as int)
                    &&& power == 0 ==> *final(self) == *old(self) && final(spawns)@ == old(spawns)@
                    &&& power > 0 ==> {
                        let w0 = *old(self);
                        let res = explode_rays(w0.grid(), w0.w(), w0.h(), table@, circle_spec(r), 0, x, y, r, power, stamp, fseed, op_idx as u32);
                        &&& final(self).wf()
                        &&& final(self).same_shape(w0)
                        &&& final(self).same_scan(w0)
                        &&& final(self).nd_grows(w0)
                        &&& forall|a: int, b: int| #[trigger] final(self).at(a, b) == (res.0)(a, b)
                        &&& final(spawns)@ == old(spawns)@ + res.1
                        &&& final(self).vaporized_total == w0.vaporized_total + res.2
                    }
                },
            },
    {
        match *op {
            Op::Brush { material, x, y, r } => {
                self.paint_disk(table, material, x, y, r, stamp);
            },
            Op::Fill { material, x0, y0, x1, y1 } => {
                self.paint_rect(table, material, x0, y0, x1, y1, stamp);
            },
            Op::Emit { material, x, y, vx, vy, count, jitter } => {
                apply_emit(material, x, y, vx, vy, count, jitter, stamp, fseed, op_idx, spawns);
            },
            Op::Explode { x, y, r, power } => {
                apply_explode(self, table, x, y, r, power, stamp, fseed, op_idx, spawns);
            },
        }
    }
}


/// Number of cells of `cells` holding material `m`.
pub open spec fn count_cells(cells: Seq<Cell>, m: u8) -> nat
    decreases cells.len(),
{
    if cells.len() == 0 {
        0
    } else {
        count_cells(cells.drop_last(), m) + if cells.last().mat() == m { 1nat } else { 0nat }
    }
}

/// Number of cells of all `chunks` holding material `m`.
pub open spec fn count_chunks(chunks: Seq<Chunk>, m: u8) -> nat
    decreases chunks.len(),
{
    if chunks.len() == 0 {
        0
    } else {
        count_chunks(chunks.drop_last(), m) + count_cells(chunks.last().cells@, m)
    }
}

pub proof fn lemma_count_cells_le(cells: Seq<Cell>, m: u8)
    ensures
        count_cells(cells, m) <= cells.len(),
    decreases cells.len(),
{
    if cells.len() > 0 {
        lemma_count_cells_le(cells.drop_last(), m);
    }
}

impl World {
    /// Number of cells of the world holding `material`.
    pub fn count_material(&self, material: u8) -> (r: usize)
        requires
            self.wf(),
            self.chunks@.len() * 4096 <= usize::MAX,
        ensures
            r == count_chunks(self.chunks@, material),
    {
        let mut total: usize = 0;
        let mut i: usize = 0;
        while i < self.chunks.len()
            invariant
                self.wf(),
                self.chunks@.len() * 4096 <= usize::MAX,
                i <= self.chunks@.len(),
                total == count_chunks(self.chunks@.subrange(0, i as int), material),
                total <= i * 4096,
            decreases self.chunks@.len() - i,
        {
            let cells = &self.chunks[i].cells;
            let mut c: usize = 0;
            let mut j: usize = 0;
            while j < cells.len()
                invariant
                    j <= cells@.len(),
                    cells@.len() == 4096,
                    c == count_cells(cells@.subrange(0, j as int), material),
                    c <= j,
                decreases cells@.len() - j,
            {
                proof {
                    assert(cells@.subrange(0, j as int + 1).drop_last() =~= cells@.subrange(0, j as int));
                }
                if cells[j].material() == material {
                    c += 1;
                }
                j += 1;
            }
            proof {
                assert(cells@.subrange(0, 4096) =~= cells@);
                assert(self.chunks@.subrange(0, i as int + 1).drop_last() =~= self.chunks@.subrange(0, i as int));
                assert(total + c <= (i + 1) * 4096);
                assert((i + 1) * 4096 <= self.chunks@.len() * 4096) by (nonlinear_arith)
                    requires i + 1 <= self.chunks@.len();
            }
            total = total + c;
            i += 1;
        }
        proof {
            assert(self.chunks@.subrange(0, self.chunks@.len() as int) =~= self.chunks@);
        }
        total
    }
}


impl World {
    /// Store `cell` at the in-bounds cell `(x, y)` without marking anything dirty.
    pub fn put_cell(&mut self, x: i32, y: i32, cell: Cell)
        requires
            old(self).wf(),
            old(self).inb(x as int, y as int),
        ensures
            final(self).wf(),
            final(self).same_shape(*old(self)),
            final(self).same_scan(*old(self)),
            final(self).same_nd(*old(self)),
            final(self).vaporized_total == old(self).vaporized_total,
            forall|a: int, b: int| #[trigger] final(self).at(a, b) == if a == x && b == y { cell } else { old(self).at(a, b) },
            ({
                let ci = old(self).ci_of(x as int, y as int);
                let li = local_index(x as int, y as int);
                &&& 0 <= ci < old(self).chunks@.len()
                &&& 0 <= li < 4096
                &&& final(self).chunks@[ci].cells@ == old(self).chunks@[ci].cells@.update(li, cell)
                &&& forall|j: int| 0 <= j < old(self).chunks@.len() && j != ci ==> #[trigger] final(self).chunks@[j].cells@ == old(self).chunks@[j].cells@
            }),
    {
        let (ci, li) = self.locate(x, y);
        let ghost w0 = *self;
        self.chunks[ci].cells[li] = cell;
        proof {
            assert forall|a: int, b: int| #[trigger] self.at(a, b) == if a == x && b == y { cell } else { w0.at(a, b) } by {
                if self.inb(a, b) {
                    lemma_locate_bounds(w0, a, b);
                    if w0.ci_of(a, b) == ci as int && local_index(a, b) == li as int {
                        lemma_locate_injective(w0, a, b, x as int, y as int);
                    }
                }
            }
            assert forall|i: int| 0 <= i < self.chunks@.len() implies (#[trigger] self.chunks@[i]).cells@.len() == 4096 by {
                assert(w0.chunks@[i].cells@.len() == 4096);
            }
        }
    }
}

/// Number of cells of the world holding `m`.
pub open spec fn world_count(w: World, m: u8) -> nat {
    count_chunks(w.chunks@, m)
}

pub open spec fn ind(b: bool) -> nat {
    if b { 1 } else { 0 }
}

/// Updating one cell changes the count by what left and what came.
pub proof fn lemma_count_cells_update(s: Seq<Cell>, i: int, v: Cell, m: u8)
    requires
        0 <= i < s.len(),
    ensures
        count_cells(s.update(i, v), m) + ind(s[i].mat() == m) == count_cells(s, m) + ind(v.mat() == m),
    decreases s.len(),
{
    if i < s.len() - 1 {
        lemma_count_cells_update(s.drop_last(), i, v, m);
        assert(s.update(i, v).drop_last() =~= s.drop_last().update(i, v));
    } else {
        assert(s.update(i, v).drop_last() =~= s.drop_last());
    }
}

/// Replacing one chunk changes the count by the difference of the two chunks' counts.
pub proof fn lemma_count_chunks_update(cs: Seq<Chunk>, i: int, c: Chunk, m: u8)
    requires
        0 <= i < cs.len(),
    ensures
        count_chunks(cs.update(i, c), m) + count_cells(cs[i].cells@, m) == count_chunks(cs, m) + count_cells(c.cells@, m),
    decreases cs.len(),
{
    if i < cs.len() - 1 {
        lemma_count_chunks_update(cs.drop_last(), i, c, m);
        assert(cs.update(i, c).drop_last() =~= cs.drop_last().update(i, c));
    } else {
        assert(cs.update(i, c).drop_last() =~= cs.drop_last());
    }
}

/// Chunk vectors with equal cells have equal counts.
pub proof fn lemma_count_chunks_same_cells(a: Seq<Chunk>, b: Seq<Chunk>, m: u8)
    requires
        a.len() == b.len(),
        forall|i: int| 0 <= i < a.len() ==> (#[trigger] a[i]).cells@ == b[i].cells@,
    ensures
        count_chunks(a, m) == count_chunks(b, m),
    decreases a.len(),
{
    if a.len() > 0 {
        lemma_count_chunks_same_cells(a.drop_last(), b.drop_last(), m);
        assert(a.last().cells@ == b.last().cells@);
    }
}

/// Storing one cell changes each material count by what left and what came.
pub proof fn lemma_put_count(new: World, old: World, x: int, y: int, cell: Cell, m: u8)
    requires
        old.wf(),
        old.inb(x, y),
        new.chunks@.len() == old.chunks@.len(),
        ({
            let ci = old.ci_of(x, y);
            let li = local_index(x, y);
            &&& new.chunks@[ci].cells@ == old.chunks@[ci].cells@.update(li, cell)
            &&& forall|j: int| 0 <= j < old.chunks@.len() && j != ci ==> #[trigger] new.chunks@[j].cells@ == old.chunks@[j].cells@
        }),
    ensures
        world_count(new, m) + ind(old.at(x, y).mat() == m) == world_count(old, m) + ind(cell.mat() == m),
{
    lemma_locate_bounds(old, x, y);
    let ci = old.ci_of(x, y);
    let li = local_index(x, y);
    let c2 = new.chunks@[ci];
    let mid = old.chunks@.update(ci, c2);
    lemma_count_chunks_update(old.chunks@, ci, c2, m);
    lemma_count_cells_update(old.chunks@[ci].cells@, li, cell, m);
    lemma_count_chunks_same_cells(new.chunks@, mid, m);
}

/// Index of cell `(x, y)` inside its chunk.
pub open spec fn local_index(x: int, y: int) -> int {
    (y % 64) * 64 + x % 64
}

/// A cell inside the world lies in an existing chunk at a valid local index.
pub proof fn lemma_locate_bounds(w: World, x: int, y: int)
    requires
        w.wf(),
        w.inb(x, y),
    ensures
        0 <= w.ci_of(x, y) < w.chunks@.len(),
        0 <= local_index(x, y) < 4096,
        w.ci_of(x, y) == (y / 64) * w.width_chunks + x / 64,
{
    lemma_chunk_index_bound(w.width_chunks as int, w.height_chunks as int, x / 64, y / 64);
}

/// Distinct cells inside the world live at distinct (chunk, local) places.
pub proof fn lemma_locate_injective(w: World, x1: int, y1: int, x2: int, y2: int)
    requires
        w.wf(),
        w.inb(x1, y1),
        w.inb(x2, y2),
        w.ci_of(x1, y1) == w.ci_of(x2, y2),
        local_index(x1, y1) == local_index(x2, y2),
    ensures
        x1 == x2,
        y1 == y2,
{
    let wc = w.width_chunks as int;
    lemma_unique_decomp(y1 % 64, x1 % 64, y2 % 64, x2 % 64, 64);
    lemma_unique_decomp(y1 / 64, x1 / 64, y2 / 64, x2 / 64, wc);
}

/// Distinct chunk coordinates name distinct chunks.
pub proof fn lemma_chunk_at_injective(wc: int, cx1: int, cy1: int, cx2: int, cy2: int)
    requires
        wc >= 1,
        0 <= cx1 < wc,
        0 <= cx2 < wc,
        cy1 * wc + cx1 == cy2 * wc + cx2,
    ensures
        cx1 == cx2,
        cy1 == cy2,
{
    lemma_unique_decomp(cy1, cx1, cy2, cx2, wc);
}

impl World {
    /// A world of `width_chunks x height_chunks` all-air chunks, every chunk
    /// fully dirty for the first tick.
    pub fn new(width_chunks: usize, height_chunks: usize, seed: u64) -> (r: World)
        requires
            width_chunks >= 1,
            height_chunks >= 1,
            width_chunks * 64 <= i32::MAX,
            height_chunks * 64 <= i32::MAX,
            width_chunks * height_chunks <= usize::MAX,
        ensures
            r.wf(),
            r.width_chunks == width_chunks,
            r.height_chunks == height_chunks,
            r.seed == seed,
            r.tick == 0,
            r.vaporized_total == 0,
            forall|x: int, y: int| #[trigger] r.inb(x, y) ==> r.at(x, y)@ == 0,
            forall|i: int|
                0 <= i < r.chunks@.len() ==> {
                    &&& (#[trigger] r.chunks@[i]).dirty == full_rect()
                    &&& r.chunks@[i].next_dirty@ == (255u8, 255u8, 0u8, 0u8)
                    &&& r.chunks@[i].spawn_buf@.len() == 0
                },
    {
        let n: usize = width_chunks * height_chunks;
        let mut chunks: Vec<Chunk> = Vec::new();
        let mut i: usize = 0;
        while i < n
            invariant
                i <= n,
                chunks@.len() == i,
                forall|k: int|
                    0 <= k < i ==> {
                        &&& (#[trigger] chunks@[k]).cells@.len() == 4096
                        &&& forall|j: int| 0 <= j < 4096 ==> (#[trigger] chunks@[k].cells@[j])@ == 0
                        &&& chunks@[k].dirty == full_rect()
                        &&& chunks@[k].next_dirty@ == (255u8, 255u8, 0u8, 0u8)
                        &&& chunks@[k].spawn_buf@.len() == 0
                    },
            decreases n - i,
        {
            let mut c = Chunk::new();
            c.dirty = DirtyRect::full();
            chunks.push(c);
            i += 1;
        }
        let r = World { width_chunks, height_chunks, chunks, tick: 0, seed, vaporized_total: 0 };
        assert forall|x: int, y: int| #[trigger] r.inb(x, y) implies r.at(x, y)@ == 0 by {
            lemma_locate_bounds(r, x, y);
        }
        r
    }

    /// Cells removed by explosions without a splash (diagnostic counter).
    pub fn vaporized_total(&self) -> (r: u64)
        ensures
            r == self.vaporized_total,
    {
        self.vaporized_total
    }

    pub fn width(&self) -> (r: i32)
        requires
            self.wf(),
        ensures
            r == self.w(),
    {
        (self.width_chunks * CHUNK) as i32
    }

    pub fn height(&self) -> (r: i32)
        requires
            self.wf(),
        ensures
            r == self.h(),
    {
        (self.height_chunks * CHUNK) as i32
    }

    pub fn in_bounds(&self, x: i32, y: i32) -> (r: bool)
        requires
            self.wf(),
        ensures
            r == self.inb(x as int, y as int),
    {
        x >= 0 && y >= 0 && x < self.width() && y < self.height()
    }

    /// Row-major index of chunk `(cx, cy)`.
    pub fn chunk_index(&self, cx: usize, cy: usize) -> (r: usize)
        requires
            self.wf(),
            cx < self.width_chunks,
            cy < self.height_chunks,
        ensures
            r == cy * self.width_chunks + cx,
            r < self.chunks@.len(),
    {
        let n = self.chunks.len();
        proof {
            lemma_chunk_index_bound(self.width_chunks as int, self.height_chunks as int, cx as int, cy as int);
            assert(cy * self.width_chunks + cx < n);
        }
        cy * self.width_chunks + cx
    }

    /// The cell at `(x, y)`; the wall sentinel outside the world.
    pub fn cell(&self, x: i32, y: i32) -> (r: Cell)
        requires
            self.wf(),
        ensures
            r == self.at(x as int, y as int),
    {
        if !self.in_bounds(x, y) {
            return wall_sentinel();
        }
        let (ci, li) = self.locate(x, y);
        self.chunks[ci].cells[li]
    }

    /// Chunk index and local index of an in-bounds cell.
    fn locate(&self, x: i32, y: i32) -> (r: (usize, usize))
        requires
            self.wf(),
            self.inb(x as int, y as int),
        ensures
            r.0 == self.ci_of(x as int, y as int),
            r.1 == local_index(x as int, y as int),
            r.0 < self.chunks@.len(),
            r.1 < 4096,
    {
        proof {
            lemma_locate_bounds(*self, x as int, y as int);
        }
        let xu = x as usize;
        let yu = y as usize;
        let ci = self.chunk_index(xu / CHUNK, yu / CHUNK);
        (ci, (yu % CHUNK) * CHUNK + (xu % CHUNK))
    }

    /// Merge the clipped 3x3 neighbourhood of `(x, y)` into the write
    /// rectangle of every chunk it reaches (waking neighbours across chunk
    /// borders).
    pub fn mark_dirty_around(&mut self, x: i32, y: i32)
        requires
            old(self).wf(),
            old(self).inb(x as int, y as int),
        ensures
            final(self).wf(),
            final(self).same_shape(*old(self)),
            final(self).same_cells(*old(self)),
            final(self).same_scan(*old(self)),
            final(self).vaporized_total == old(self).vaporized_total,
            final(self).nd_marked(*old(self), x as int, y as int),
    {
        let ghost w0 = *self;
        let ghost (wi, hi) = (self.w(), self.h());
        let w = self.width();
        let h = self.height();
        let x0: i32 = if x - 1 > 0 { x - 1 } else { 0 };
        let y0: i32 = if y - 1 > 0 { y - 1 } else { 0 };
        let x1: i32 = if x + 1 < w - 1 { x + 1 } else { w - 1 };
        let y1: i32 = if y + 1 < h - 1 { y + 1 } else { h - 1 };
        let cx0: usize = (x0 as usize) / CHUNK;
        let cy0: usize = (y0 as usize) / CHUNK;
        let cx1: usize = (x1 as usize) / CHUNK;
        let cy1: usize = (y1 as usize) / CHUNK;
        let wc = self.width_chunks;
        let mut cy = cy0;
        while cy <= cy1
            invariant
                self.wf(),
                self.same_shape(w0),
                self.same_cells(w0),
                self.same_scan(w0),
                self.vaporized_total == w0.vaporized_total,
                wc == w0.width_chunks,
                w0.wf(),
                w0.inb(x as int, y as int),
                wi == w0.w(),
                hi == w0.h(),
                x0 == clip_lo(x as int),
                y0 == clip_lo(y as int),
                x1 == clip_hi(x as int, wi),
                y1 == clip_hi(y as int, hi),
                cx0 == x0 / 64,
                cy0 == y0 / 64,
                cx1 == x1 / 64,
                cy1 == y1 / 64,
                cx1 < self.width_chunks,
                cy1 < self.height_chunks,
                cy0 <= cy <= cy1 + 1,
                forall|ax: int, ay: int|
                    0 <= ax < self.width_chunks && 0 <= ay < self.height_chunks ==> (#[trigger] self.chunk_at(
                        ax,
                        ay,
                    )).next_dirty@ == if touches(wi, hi, x as int, y as int, ax, ay) && ay < cy {
                        merged(w0.chunk_at(ax, ay).next_dirty@, touch_rect(wi, hi, x as int, y as int, ax, ay))
                    } else {
                        w0.chunk_at(ax, ay).next_dirty@
                    },
            decreases cy1 + 1 - cy,
        {
            let mut cx = cx0;
            while cx <= cx1
                invariant
                    self.wf(),
                    self.same_shape(w0),
                    self.same_cells(w0),
                self.same_scan(w0),
                    self.vaporized_total == w0.vaporized_total,
                    wc == w0.width_chunks,
                    w0.wf(),
                    wi == w0.w(),
                    hi == w0.h(),
                    x0 == clip_lo(x as int),
                    y0 == clip_lo(y as int),
                    x1 == clip_hi(x as int, wi),
                    y1 == clip_hi(y as int, hi),
                    cx0 == x0 / 64,
                    cy0 == y0 / 64,
                    cx1 == x1 / 64,
                    cy1 == y1 / 64,
                    cx1 < self.width_chunks,
                    cy1 < self.height_chunks,
                    cy0 <= cy <= cy1,
                    cx0 <= cx <= cx1 + 1,
                    forall|ax: int, ay: int|
                        0 <= ax < self.width_chunks && 0 <= ay < self.height_chunks ==> (#[trigger] self.chunk_at(
                            ax,
                            ay,
                        )).next_dirty@ == if touches(wi, hi, x as int, y as int, ax, ay) && (ay < cy || (
                        ay == cy && ax < cx)) {
                            merged(
                                w0.chunk_at(ax, ay).next_dirty@,
                                touch_rect(wi, hi, x as int, y as int, ax, ay),
                            )
                        } else {
                            w0.chunk_at(ax, ay).next_dirty@
                        },
                decreases cx1 + 1 - cx,
            {
                let bx0: i32 = (cx * CHUNK) as i32;
                let by0: i32 = (cy * CHUNK) as i32;
                let lx0: u8 = ((if x0 > bx0 { x0 } else { bx0 }) - bx0) as u8;
                let ly0: u8 = ((if y0 > by0 { y0 } else { by0 }) - by0) as u8;
                let lx1: u8 = ((if x1 < bx0 + 63 { x1 } else { bx0 + 63 }) - bx0) as u8;
                let ly1: u8 = ((if y1 < by0 + 63 { y1 } else { by0 + 63 }) - by0) as u8;
                let ci = self.chunk_index(cx, cy);
                let ghost before = *self;
                self.chunks[ci].next_dirty.merge_rect(lx0, ly0, lx1, ly1);
                proof {
                    assert(touch_rect(wi, hi, x as int, y as int, cx as int, cy as int) == (lx0, ly0, lx1, ly1));
                    assert forall|ax: int, ay: int|
                        0 <= ax < self.width_chunks && 0 <= ay < self.height_chunks implies (
                        #[trigger] self.chunk_at(ax, ay)).next_dirty@ == if touches(
                            wi,
                            hi,
                            x as int,
                            y as int,
                            ax,
                            ay,
                        ) && (ay < cy || (ay == cy && ax < cx + 1)) {
                            merged(
                                w0.chunk_at(ax, ay).next_dirty@,
                                touch_rect(wi, hi, x as int, y as int, ax, ay),
                            )
                        } else {
                            w0.chunk_at(ax, ay).next_dirty@
                        } by {
                        lemma_chunk_index_bound(wc as int, self.height_chunks as int, ax, ay);
                        if ay * (wc as int) + ax == ci as int {
                            lemma_chunk_at_injective(wc as int, ax, ay, cx as int, cy as int);
                        }
                        assert(before.chunk_at(ax, ay) == before.chunks@[ay * (wc as int) + ax]);
                    }
                    assert forall|i: int| 0 <= i < self.chunks@.len() implies (
                    #[trigger] self.chunks@[i]).cells@.len() == 4096 by {
                        assert(before.chunks@[i].cells@.len() == 4096);
                    }
                }
                cx += 1;
            }
            cy += 1;
        }
    }

    /// The shared write path: store `material` with `stamp` at `(x, y)`
    /// (liquids and gases get their direction memory from the parity of `x`)
    /// and mark the neighbourhood dirty. Does nothing outside the world.
    pub fn set_cell_stamped(&mut self, table: &MaterialTable, x: i32, y: i32, material: u8, stamp: u8)
        requires
            old(self).wf(),
            old(self).inb(x as int, y as int) ==> (material as int) < table@.len(),
        ensures
            final(self).wf(),
            old(self).inb(x as int, y as int) ==> {
                let c = stamped_cell(is_flowing(table@[material as int].category), material, stamp, x as int);
                &&& forall|a: int, b: int| #[trigger]
                    final(self).at(a, b) == if a == x && b == y {
                        c
                    } else {
                        old(self).at(a, b)
                    }
                &&& final(self).nd_marked(*old(self), x as int, y as int)
                &&& forall|m: u8| #[trigger] world_count(*final(self), m) + ind(old(self).at(x as int, y as int).mat() == m)
                    == world_count(*old(self), m) + ind(material == m)
            },
            final(self).same_shape(*old(self)),
            final(self).same_scan(*old(self)),
            final(self).vaporized_total == old(self).vaporized_total,
            !old(self).inb(x as int, y as int) ==> *final(self) == *old(self),
    {
        if !self.in_bounds(x, y) {
            return;
        }
        let mut cell = Cell::pack(material, stamp);
        let flowing = match table.category(material) {
            Category::Liquid | Category::Gas => true,
            _ => false,
        };
        if flowing {
            cell = cell.with_dir(x & 1 == 1);
        }
        proof {
            let m = material;
            let s = stamp;
            let v = pack_bits(m, s);
            assert(v & !0x1_0000u32 == v) by (bit_vector)
                requires v == (m as u32) | ((s as u32) << 8u32);
            assert((x & 1 == 1) == ((x as int) % 2 == 1)) by (bit_vector)
                requires x >= 0;
            let sc = stamped_cell(is_flowing(table@[material as int].category), material, stamp, x as int);
            lemma_cell_from_bits(pack_bits(m, s));
            lemma_cell_from_bits(pack_bits(m, s) | 0x1_0000u32);
            assert(cell@ == sc@);
            lemma_cell_view_injective(cell, sc);
        }
        let (ci, li) = self.locate(x, y);
        let ghost w0 = *self;
        self.chunks[ci].cells[li] = cell;
        let ghost mid = *self;
        proof {
            assert forall|a: int, b: int| #[trigger]
                mid.at(a, b) == if a == x && b == y {
                    stamped_cell(is_flowing(table@[material as int].category), material, stamp, x as int)
                } else {
                    w0.at(a, b)
                } by {
                if mid.inb(a, b) {
                    lemma_locate_bounds(w0, a, b);
                    if w0.ci_of(a, b) == ci as int && local_index(a, b) == li as int {
                        lemma_locate_injective(w0, a, b, x as int, y as int);
                    }
                }
            }
            assert forall|i: int| 0 <= i < mid.chunks@.len() implies (#[trigger] mid.chunks@[i]).cells@.len()
                == 4096 by {
                assert(w0.chunks@[i].cells@.len() == 4096);
            }
        }
        self.mark_dirty_around(x, y);
        proof {
            assert forall|a: int, b: int| #[trigger] self.at(a, b) == mid.at(a, b) by {
                if self.inb(a, b) {
                    lemma_locate_bounds(mid, a, b);
                }
            }
            lemma_stamped_mat(is_flowing(table@[material as int].category), material, stamp, x as int);
            assert forall|m: u8| #[trigger] world_count(*self, m) + ind(w0.at(x as int, y as int).mat() == m)
                == world_count(w0, m) + ind(material == m) by {
                lemma_put_count(mid, w0, x as int, y as int, cell, m);
                lemma_count_chunks_same_cells(self.chunks@, mid.chunks@, m);
            }
            assert forall|cx: int, cy: int|
                0 <= cx < self.width_chunks && 0 <= cy < self.height_chunks implies #[trigger] mid.chunk_at(cx, cy).next_dirty@
                == w0.chunk_at(cx, cy).next_dirty@ by {
                lemma_chunk_index_bound(self.width_chunks as int, self.height_chunks as int, cx, cy);
            }
        }
    }

    /// Write the speed field of an existing cell (no dirty marking: the cell
    /// was just written through `set_cell_stamped`). Does nothing outside the world.
    pub fn set_cell_vel(&mut self, x: i32, y: i32, v: u8)
        requires
            old(self).wf(),
        ensures
            final(self).wf(),
            final(self).same_shape(*old(self)),
            final(self).same_scan(*old(self)),
            final(self).same_nd(*old(self)),
            final(self).vaporized_total == old(self).vaporized_total,
            forall|a: int, b: int| #[trigger]
                final(self).at(a, b) == if a == x && b == y && old(self).inb(a, b) {
                    cell_from_bits((old(self).at(a, b)@ & !0x3e_0000u32) | (((v as u32) << 17u32) & 0x3e_0000u32))
                } else {
                    old(self).at(a, b)
                },
    {
        if !self.in_bounds(x, y) {
            return;
        }
        let (ci, li) = self.locate(x, y);
        let ghost w0 = *self;
        let c = self.chunks[ci].cells[li].with_vel(v);
        self.chunks[ci].cells[li] = c;
        proof {
            let nb = (w0.at(x as int, y as int)@ & !0x3e_0000u32) | (((v as u32) << 17u32) & 0x3e_0000u32);
            lemma_cell_from_bits(nb);
            lemma_cell_view_injective(c, cell_from_bits(nb));
            assert forall|a: int, b: int| #[trigger]
                self.at(a, b) == if a == x && b == y && w0.inb(a, b) {
                    cell_from_bits((w0.at(a, b)@ & !0x3e_0000u32) | (((v as u32) << 17u32) & 0x3e_0000u32))
                } else {
                    w0.at(a, b)
                } by {
                if self.inb(a, b) {
                    lemma_locate_bounds(w0, a, b);
                    if w0.ci_of(a, b) == ci as int && local_index(a, b) == li as int {
                        lemma_locate_injective(w0, a, b, x as int, y as int);
                    }
                }
            }
            assert forall|i: int| 0 <= i < self.chunks@.len() implies (#[trigger] self.chunks@[i]).cells@.len()
                == 4096 by {
                assert(w0.chunks@[i].cells@.len() == 4096);
            }
        }
    }
}

} // verus!
