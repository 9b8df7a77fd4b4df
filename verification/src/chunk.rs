//! 64x64 chunks with their dirty rectangles.

use vstd::prelude::*;

use crate::cell::Cell;
use crate::world::SpawnRequest;

verus! {

pub const CHUNK: usize = 64;
pub const CELLS_PER_CHUNK: usize = 4096;

/// Closed rectangle in chunk-local coordinates; empty when `x0 > x1` or `y0 > y1`.
#[derive(Clone, Copy, Debug, PartialEq, Eq, Structural)]
pub struct DirtyRect {
    pub x0: u8,
    pub y0: u8,
    pub x1: u8,
    pub y1: u8,
}

/// The canonical empty rectangle.
pub open spec fn empty_rect() -> DirtyRect {
    DirtyRect { x0: 255, y0: 255, x1: 0, y1: 0 }
}

/// The whole chunk.
pub open spec fn full_rect() -> DirtyRect {
    DirtyRect { x0: 0, y0: 0, x1: 63, y1: 63 }
}

pub open spec fn min_u8(a: u8, b: u8) -> u8 {
    if a <= b { a } else { b }
}

pub open spec fn max_u8(a: u8, b: u8) -> u8 {
    if a >= b { a } else { b }
}

/// The bounding box of two rectangles; an empty operand is ignored.
pub open spec fn union_spec(a: DirtyRect, b: DirtyRect) -> DirtyRect {
    if a.is_empty_spec() {
        b
    } else if b.is_empty_spec() {
        a
    } else {
        DirtyRect {
            x0: min_u8(a.x0, b.x0),
            y0: min_u8(a.y0, b.y0),
            x1: max_u8(a.x1, b.x1),
            y1: max_u8(a.y1, b.y1),
        }
    }
}

impl DirtyRect {
    pub open spec fn is_empty_spec(self) -> bool {
        self.x0 > self.x1 || self.y0 > self.y1
    }

    /// Whether the point lies in the rectangle.
    pub open spec fn has(self, x: int, y: int) -> bool {
        self.x0 <= x <= self.x1 && self.y0 <= y <= self.y1
    }

    pub fn empty() -> (r: DirtyRect)
        ensures
            r == empty_rect(),
    {
        DirtyRect { x0: 255, y0: 255, x1: 0, y1: 0 }
    }

    pub fn full() -> (r: DirtyRect)
        ensures
            r == full_rect(),
    {
        DirtyRect { x0: 0, y0: 0, x1: 63, y1: 63 }
    }

    pub fn is_empty(&self) -> (r: bool)
        ensures
            r == self.is_empty_spec(),
            r == (forall|x: int, y: int| !#[trigger] self.has(x, y)),
    {
        proof {
            if !self.is_empty_spec() {
                assert(self.has(self.x0 as int, self.y0 as int));
            }
        }
        self.x0 > self.x1 || self.y0 > self.y1
    }

    /// Bounding box of the two rectangles (an empty one is ignored).
    pub fn union(self, other: DirtyRect) -> (r: DirtyRect)
        ensures
            r == union_spec(self, other),
    {
        if self.is_empty() {
            return other;
        }
        if other.is_empty() {
            return self;
        }
        DirtyRect {
            x0: if self.x0 <= other.x0 { self.x0 } else { other.x0 },
            y0: if self.y0 <= other.y0 { self.y0 } else { other.y0 },
            x1: if self.x1 >= other.x1 { self.x1 } else { other.x1 },
            y1: if self.y1 >= other.y1 { self.y1 } else { other.y1 },
        }
    }

    /// Grow the rectangle to include the point (no emptiness test).
    pub fn merge_point(&mut self, x: u8, y: u8)
        ensures
            *final(self) == (DirtyRect {
                x0: min_u8(old(self).x0, x),
                y0: min_u8(old(self).y0, y),
                x1: max_u8(old(self).x1, x),
                y1: max_u8(old(self).y1, y),
            }),
    {
        self.x0 = if self.x0 <= x { self.x0 } else { x };
        self.y0 = if self.y0 <= y { self.y0 } else { y };
        self.x1 = if self.x1 >= x { self.x1 } else { x };
        self.y1 = if self.y1 >= y { self.y1 } else { y };
    }
}

/// The union of two rectangles holds every point of each.
pub proof fn lemma_union_covers(a: DirtyRect, b: DirtyRect, x: int, y: int)
    ensures
        a.has(x, y) || b.has(x, y) ==> union_spec(a, b).has(x, y),
        union_spec(a, b).is_empty_spec() <==> a.is_empty_spec() && b.is_empty_spec(),
{
}

/// Accumulated dirty rectangle of a chunk: merging only takes minima and
/// maxima, so the order of merges does not matter.
#[derive(Debug)]
pub struct AtomicDirty {
    x0: u8,
    y0: u8,
    x1: u8,
    y1: u8,
}

/// Accumulator state after merging the rectangle `r` into `s`.
pub open spec fn merged(s: (u8, u8, u8, u8), r: (u8, u8, u8, u8)) -> (u8, u8, u8, u8) {
    (min_u8(s.0, r.0), min_u8(s.1, r.1), max_u8(s.2, r.2), max_u8(s.3, r.3))
}

/// The rectangle an accumulator state reads as (the canonical empty one when empty).
pub open spec fn read_rect(s: (u8, u8, u8, u8)) -> DirtyRect {
    let r = DirtyRect { x0: s.0, y0: s.1, x1: s.2, y1: s.3 };
    if r.is_empty_spec() { empty_rect() } else { r }
}

impl View for AtomicDirty {
    type V = (u8, u8, u8, u8);

    closed spec fn view(&self) -> (u8, u8, u8, u8) {
        (self.x0, self.y0, self.x1, self.y1)
    }
}

impl AtomicDirty {
    pub fn empty() -> (r: AtomicDirty)
        ensures
            r@ == (255u8, 255u8, 0u8, 0u8),
    {
        AtomicDirty { x0: 255, y0: 255, x1: 0, y1: 0 }
    }

    /// Merge a rectangle (per-coordinate minimum and maximum).
    pub fn merge_rect(&mut self, x0: u8, y0: u8, x1: u8, y1: u8)
        ensures
            final(self)@ == merged(old(self)@, (x0, y0, x1, y1)),
    {
        self.x0 = if self.x0 <= x0 { self.x0 } else { x0 };
        self.y0 = if self.y0 <= y0 { self.y0 } else { y0 };
        self.x1 = if self.x1 >= x1 { self.x1 } else { x1 };
        self.y1 = if self.y1 >= y1 { self.y1 } else { y1 };
    }

    /// Whether anything was merged since the last `take` (merges only lower `x0`).
    pub fn is_marked(&self) -> (r: bool)
        ensures
            r == (self@.0 != 255),
    {
        self.x0 != 255
    }

    /// The accumulated rectangle, without clearing it.
    pub fn snapshot(&self) -> (r: DirtyRect)
        ensures
            r == read_rect(self@),
    {
        let r = DirtyRect { x0: self.x0, y0: self.y0, x1: self.x1, y1: self.y1 };
        if r.is_empty() { DirtyRect::empty() } else { r }
    }

    /// The accumulated rectangle; the accumulator is cleared.
    pub fn take(&mut self) -> (r: DirtyRect)
        ensures
            r == read_rect(old(self)@),
            final(self)@ == (255u8, 255u8, 0u8, 0u8),
    {
        let r = DirtyRect { x0: self.x0, y0: self.y0, x1: self.x1, y1: self.y1 };
        self.x0 = 255;
        self.y0 = 255;
        self.x1 = 0;
        self.y1 = 0;
        if r.is_empty() { DirtyRect::empty() } else { r }
    }
}

/// Merging is order independent.
pub proof fn lemma_merge_commutes(s: (u8, u8, u8, u8), a: (u8, u8, u8, u8), b: (u8, u8, u8, u8))
    ensures
        merged(merged(s, a), b) == merged(merged(s, b), a),
{
}

/// Merging is idempotent.
pub proof fn lemma_merge_idempotent(s: (u8, u8, u8, u8), a: (u8, u8, u8, u8))
    ensures
        merged(merged(s, a), a) == merged(s, a),
{
}

pub struct Chunk {
    /// Row-major cells, `CELLS_PER_CHUNK` of them.
    pub cells: Vec<Cell>,
    /// The scan rectangle of this tick (frozen at the tick's start).
    pub dirty: DirtyRect,
    /// Writes of this tick, swapped into `dirty` at the end of the tick.
    pub next_dirty: AtomicDirty,
    /// Splash spawn requests made by this chunk this tick.
    pub spawn_buf: Vec<SpawnRequest>,
}

impl Chunk {
    /// An all-air chunk with nothing dirty.
    pub fn new() -> (r: Chunk)
        ensures
            r.cells@.len() == CELLS_PER_CHUNK,
            forall|i: int| 0 <= i < CELLS_PER_CHUNK ==> (#[trigger] r.cells@[i])@ == 0,
            r.dirty == empty_rect(),
            r.next_dirty@ == (255u8, 255u8, 0u8, 0u8),
            r.spawn_buf@.len() == 0,
    {
        let mut cells: Vec<Cell> = Vec::new();
        let mut i: usize = 0;
        while i < CELLS_PER_CHUNK
            invariant
                i <= CELLS_PER_CHUNK,
                cells@.len() == i,
                forall|k: int| 0 <= k < i ==> (#[trigger] cells@[k])@ == 0,
            decreases CELLS_PER_CHUNK - i,
        {
            cells.push(Cell::air());
            i += 1;
        }
        Chunk {
            cells,
            dirty: DirtyRect::empty(),
            next_dirty: AtomicDirty::empty(),
            spawn_buf: Vec::new(),
        }
    }
}

impl Default for Chunk {
    fn default() -> (r: Chunk)
        ensures
            r.cells@.len() == CELLS_PER_CHUNK,
            forall|i: int| 0 <= i < CELLS_PER_CHUNK ==> (#[trigger] r.cells@[i])@ == 0,
            r.dirty == empty_rect(),
            r.next_dirty@ == (255u8, 255u8, 0u8, 0u8),
            r.spawn_buf@.len() == 0,
    {
        Chunk::new()
    }
}


/// The accumulator state after merging the rectangles `rs` in order into a
/// cleared accumulator.
pub open spec fn merged_all(rs: Seq<(u8, u8, u8, u8)>) -> (u8, u8, u8, u8)
    decreases rs.len(),
{
    if rs.len() == 0 {
        (255u8, 255u8, 0u8, 0u8)
    } else {
        merged(merged_all(rs.drop_last()), rs.last())
    }
}

/// A non-empty rectangle inside a chunk, as `(x0, y0, x1, y1)`.
pub open spec fn chunk_rect(r: (u8, u8, u8, u8)) -> bool {
    r.0 <= r.2 <= 63 && r.1 <= r.3 <= 63
}

/// `m` is the bounding box of the rectangles `rs`: each corner coordinate is
/// the least (top-left) or greatest (bottom-right) among them.
pub open spec fn bounding(rs: Seq<(u8, u8, u8, u8)>, m: (u8, u8, u8, u8)) -> bool {
    &&& forall|i: int| 0 <= i < rs.len() ==> m.0 <= (#[trigger] rs[i]).0 && m.1 <= rs[i].1 && m.2 >= rs[i].2 && m.3 >= rs[i].3
    &&& exists|i: int| 0 <= i < rs.len() && m.0 == (#[trigger] rs[i]).0
    &&& exists|i: int| 0 <= i < rs.len() && m.1 == (#[trigger] rs[i]).1
    &&& exists|i: int| 0 <= i < rs.len() && m.2 == (#[trigger] rs[i]).2
    &&& exists|i: int| 0 <= i < rs.len() && m.3 == (#[trigger] rs[i]).3
}

/// Merging any non-empty list of in-chunk rectangles into a cleared
/// accumulator leaves their bounding box, which the snapshot reads back.
pub proof fn lemma_merged_all_bounding(rs: Seq<(u8, u8, u8, u8)>)
    requires
        rs.len() > 0,
        forall|i: int| 0 <= i < rs.len() ==> chunk_rect(#[trigger] rs[i]),
    ensures
        bounding(rs, merged_all(rs)),
        read_rect(merged_all(rs)) == (DirtyRect {
            x0: merged_all(rs).0,
            y0: merged_all(rs).1,
            x1: merged_all(rs).2,
            y1: merged_all(rs).3,
        }),
    decreases rs.len(),
{
    let d = rs.drop_last();
    let l = rs.last();
    let m = merged_all(rs);
    assert(chunk_rect(rs[rs.len() - 1]));
    if d.len() == 0 {
        assert(rs[0] == l);
        assert(merged_all(d) == (255u8, 255u8, 0u8, 0u8));
    } else {
        assert forall|i: int| 0 <= i < d.len() implies chunk_rect(#[trigger] d[i]) by {
            assert(d[i] == rs[i]);
        }
        lemma_merged_all_bounding(d);
        let md = merged_all(d);
        assert forall|i: int| 0 <= i < rs.len() implies m.0 <= (#[trigger] rs[i]).0 && m.1 <= rs[i].1 && m.2 >= rs[i].2
            && m.3 >= rs[i].3 by {
            if i < d.len() {
                assert(rs[i] == d[i]);
            }
        }
        let i0 = choose|i: int| 0 <= i < d.len() && md.0 == (#[trigger] d[i]).0;
        let i1 = choose|i: int| 0 <= i < d.len() && md.1 == (#[trigger] d[i]).1;
        let i2 = choose|i: int| 0 <= i < d.len() && md.2 == (#[trigger] d[i]).2;
        let i3 = choose|i: int| 0 <= i < d.len() && md.3 == (#[trigger] d[i]).3;
        assert(rs[i0] == d[i0] && rs[i1] == d[i1] && rs[i2] == d[i2] && rs[i3] == d[i3]);
        assert(md.0 <= d[0].0 <= d[0].2 <= 63);
        assert(md.1 <= d[0].1 <= d[0].3 <= 63);
        assert(md.2 >= d[0].2 && md.3 >= d[0].3);
    }
    assert(m.0 <= rs[0].0 && m.2 >= rs[0].2 && m.1 <= rs[0].1 && m.3 >= rs[0].3);
    let n = rs.len() - 1;
    assert(rs[n] == l);
    if d.len() > 0 {
        let md = merged_all(d);
        let i0 = choose|i: int| 0 <= i < d.len() && md.0 == (#[trigger] d[i]).0;
        let i1 = choose|i: int| 0 <= i < d.len() && md.1 == (#[trigger] d[i]).1;
        let i2 = choose|i: int| 0 <= i < d.len() && md.2 == (#[trigger] d[i]).2;
        let i3 = choose|i: int| 0 <= i < d.len() && md.3 == (#[trigger] d[i]).3;
        assert(rs[i0] == d[i0] && rs[i1] == d[i1] && rs[i2] == d[i2] && rs[i3] == d[i3]);
        assert(m.0 == rs[i0].0 || m.0 == rs[n].0);
        assert(m.1 == rs[i1].1 || m.1 == rs[n].1);
        assert(m.2 == rs[i2].2 || m.2 == rs[n].2);
        assert(m.3 == rs[i3].3 || m.3 == rs[n].3);
    } else {
        assert(merged_all(d) == (255u8, 255u8, 0u8, 0u8));
        assert(chunk_rect(l));
        assert(m.0 == rs[n].0 && m.1 == rs[n].1 && m.2 == rs[n].2 && m.3 == rs[n].3);
    }
}

/// Merging is order independent for any number of rectangles: merging the
/// same rectangles in any order gives the same accumulator.
pub proof fn lemma_merge_order_free(rs1: Seq<(u8, u8, u8, u8)>, rs2: Seq<(u8, u8, u8, u8)>)
    requires
        rs1.to_multiset() == rs2.to_multiset(),
        forall|i: int| 0 <= i < rs1.len() ==> chunk_rect(#[trigger] rs1[i]),
    ensures
        merged_all(rs1) == merged_all(rs2),
{
    broadcast use vstd::seq_lib::group_to_multiset_ensures;
    rs1.to_multiset_ensures();
    rs2.to_multiset_ensures();
    assert(rs1.len() == rs2.len());
    if rs1.len() == 0 {
        assert(rs2.len() == 0);
    } else {
        assert forall|i: int| 0 <= i < rs2.len() implies chunk_rect(#[trigger] rs2[i]) by {
            assert(rs2.to_multiset().count(rs2[i]) > 0);
            assert(rs1.to_multiset().count(rs2[i]) > 0);
            assert(rs1.contains(rs2[i]));
        }
        lemma_merged_all_bounding(rs1);
        lemma_merged_all_bounding(rs2);
        let (a, b) = (merged_all(rs1), merged_all(rs2));
        assert forall|i: int| 0 <= i < rs1.len() implies rs2.contains(#[trigger] rs1[i]) by {
            assert(rs1.to_multiset().count(rs1[i]) > 0);
        }
        assert forall|i: int| 0 <= i < rs2.len() implies rs1.contains(#[trigger] rs2[i]) by {
            assert(rs2.to_multiset().count(rs2[i]) > 0);
        }
        let j0 = choose|i: int| 0 <= i < rs1.len() && a.0 == (#[trigger] rs1[i]).0;
        let k0 = choose|i: int| 0 <= i < rs2.len() && b.0 == (#[trigger] rs2[i]).0;
        let j1 = choose|i: int| 0 <= i < rs1.len() && a.1 == (#[trigger] rs1[i]).1;
        let k1 = choose|i: int| 0 <= i < rs2.len() && b.1 == (#[trigger] rs2[i]).1;
        let j2 = choose|i: int| 0 <= i < rs1.len() && a.2 == (#[trigger] rs1[i]).2;
        let k2 = choose|i: int| 0 <= i < rs2.len() && b.2 == (#[trigger] rs2[i]).2;
        let j3 = choose|i: int| 0 <= i < rs1.len() && a.3 == (#[trigger] rs1[i]).3;
        let k3 = choose|i: int| 0 <= i < rs2.len() && b.3 == (#[trigger] rs2[i]).3;
        assert(rs2.contains(rs1[j0]) && rs2.contains(rs1[j1]) && rs2.contains(rs1[j2]) && rs2.contains(rs1[j3]));
        assert(rs1.contains(rs2[k0]) && rs1.contains(rs2[k1]) && rs1.contains(rs2[k2]) && rs1.contains(rs2[k3]));
    }
}

/// After merges of in-chunk rectangles into a cleared accumulator, it reads
/// as marked, and its snapshot as non-empty, exactly when there was a merge.
pub proof fn lemma_marked_iff_merged(rs: Seq<(u8, u8, u8, u8)>)
    requires
        forall|i: int| 0 <= i < rs.len() ==> chunk_rect(#[trigger] rs[i]),
    ensures
        (merged_all(rs).0 != 255) == (rs.len() > 0),
        !read_rect(merged_all(rs)).is_empty_spec() == (rs.len() > 0),
{
    if rs.len() > 0 {
        lemma_merged_all_bounding(rs);
        assert(merged_all(rs).0 <= rs[0].0 <= 63);
    }
}


/// The least of `s` (255 when empty).
pub open spec fn fold_min(s: Seq<u8>) -> u8
    decreases s.len(),
{
    if s.len() == 0 {
        255
    } else {
        min_u8(fold_min(s.drop_last()), s.last())
    }
}

/// The greatest of `s` (0 when empty).
pub open spec fn fold_max(s: Seq<u8>) -> u8
    decreases s.len(),
{
    if s.len() == 0 {
        0
    } else {
        max_u8(fold_max(s.drop_last()), s.last())
    }
}

/// One coordinate of each rectangle of `rs`: `k` is 0 for `x0`, 1 for `y0`,
/// 2 for `x1`, 3 for `y1`.
pub open spec fn coords(rs: Seq<(u8, u8, u8, u8)>, k: int) -> Seq<u8> {
    rs.map_values(|r: (u8, u8, u8, u8)| if k == 0 { r.0 } else if k == 1 { r.1 } else if k == 2 { r.2 } else { r.3 })
}

proof fn lemma_merged_all_coords(rs: Seq<(u8, u8, u8, u8)>)
    ensures
        merged_all(rs) == (fold_min(coords(rs, 0)), fold_min(coords(rs, 1)), fold_max(coords(rs, 2)), fold_max(coords(rs, 3))),
    decreases rs.len(),
{
    if rs.len() > 0 {
        lemma_merged_all_coords(rs.drop_last());
        assert(coords(rs, 0).drop_last() =~= coords(rs.drop_last(), 0));
        assert(coords(rs, 1).drop_last() =~= coords(rs.drop_last(), 1));
        assert(coords(rs, 2).drop_last() =~= coords(rs.drop_last(), 2));
        assert(coords(rs, 3).drop_last() =~= coords(rs.drop_last(), 3));
    }
}

/// After a cleared accumulator (`AtomicDirty::empty` or `take`) has merged
/// the in-chunk rectangles `rs` (`merge_rect`, one after another, in any
/// order), its snapshot is their bounding box, least top-left corner and
/// greatest bottom-right corner; it reads as marked and its snapshot as
/// non-empty exactly when `rs` is not empty.
pub proof fn lemma_snapshot_after_merges(rs: Seq<(u8, u8, u8, u8)>)
    requires
        forall|i: int| 0 <= i < rs.len() ==> chunk_rect(#[trigger] rs[i]),
    ensures
        rs.len() > 0 ==> read_rect(merged_all(rs)) == (DirtyRect {
            x0: fold_min(coords(rs, 0)),
            y0: fold_min(coords(rs, 1)),
            x1: fold_max(coords(rs, 2)),
            y1: fold_max(coords(rs, 3)),
        }),
        (merged_all(rs).0 != 255) == (rs.len() > 0),
        !read_rect(merged_all(rs)).is_empty_spec() == (rs.len() > 0),
        forall|rs2: Seq<(u8, u8, u8, u8)>| #[trigger] rs2.to_multiset() == rs.to_multiset() ==> merged_all(rs2) == merged_all(rs),
{
    lemma_merged_all_coords(rs);
    lemma_marked_iff_merged(rs);
    if rs.len() > 0 {
        lemma_merged_all_bounding(rs);
    }
    assert forall|rs2: Seq<(u8, u8, u8, u8)>| #[trigger] rs2.to_multiset() == rs.to_multiset() implies merged_all(rs2) == merged_all(rs) by {
        lemma_merge_order_free(rs, rs2);
    }
}

} // verus!
