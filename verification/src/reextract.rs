//! Re-extraction of damaged bodies: a body that lost pixels is split into
//! its 4-connected pieces. A piece of at least `MIN_BODY_PIXELS` becomes a
//! body of its own; a smaller one leaves the grid cell by cell, as debris.
//! What the physics engine does with the result (new collision shapes,
//! inherited transforms, the debris' speed) is the caller's part.

use vstd::prelude::*;

use crate::body::{first_with_id, position_of, indices_ok, queue_ok, Bodies, Body, MAX_REEXTRACT_PER_TICK, MIN_BODY_PIXELS, NO_SURFACE};
use crate::cell::Cell;
use crate::geom::{components4, components_spec, views};
use crate::material::{MaterialDef, MaterialTable, MAT_AIR};
use crate::explode::centre_of;
use crate::fixed::{half_cell, Fx};
use crate::world::{painted, SpawnRequest, World};

verus! {

/// A body's bitmap is `w x h`, its counters match it and its stamped pixel
/// indices lie inside it.
pub open spec fn shape_ok(b: Body) -> bool {
    &&& indices_ok(b)
    &&& b.mask@.len() == b.w as int * b.h as int
}

/// Ids never decrease along the list.
pub open spec fn ids_sorted(s: Seq<Body>) -> bool {
    forall|i: int, j: int| 0 <= i < j < s.len() ==> (#[trigger] s[i]).id <= (#[trigger] s[j]).id
}

/// Where pixel `i` was stamped: the cell of the last entry of `s` naming it.
pub open spec fn last_cell(s: Seq<(i32, i32, u32)>, i: int) -> Option<(i32, i32)>
    decreases s.len(),
{
    if s.len() == 0 {
        None
    } else if s.last().2 as int == i {
        Some((s.last().0, s.last().1))
    } else {
        last_cell(s.drop_last(), i)
    }
}

/// The pixels of component `c` that are on the grid, with their cells, in
/// component order.
pub open spec fn comp_stamped(s: Seq<(i32, i32, u32)>, c: Seq<usize>) -> Seq<(i32, i32, u32)>
    decreases c.len(),
{
    if c.len() == 0 {
        seq![]
    } else {
        let prev = comp_stamped(s, c.drop_last());
        match last_cell(s, c.last() as int) {
            Some(p) => prev.push((p.0, p.1, c.last() as u32)),
            None => prev,
        }
    }
}

/// The cells of [`comp_stamped`].
pub open spec fn comp_cells(s: Seq<(i32, i32, u32)>, c: Seq<usize>) -> Seq<(i32, i32)>
    decreases c.len(),
{
    if c.len() == 0 {
        seq![]
    } else {
        let prev = comp_cells(s, c.drop_last());
        match last_cell(s, c.last() as int) {
            Some(p) => prev.push(p),
            None => prev,
        }
    }
}

/// The components big enough to become bodies, in order.
pub open spec fn big_of(cs: Seq<Seq<usize>>) -> Seq<Seq<usize>>
    decreases cs.len(),
{
    if cs.len() == 0 {
        seq![]
    } else if cs.last().len() >= MIN_BODY_PIXELS {
        big_of(cs.drop_last()).push(cs.last())
    } else {
        big_of(cs.drop_last())
    }
}

/// The cells whose pixels leave the grid: those of the small components,
/// in component order.
pub open spec fn debris_of(s: Seq<(i32, i32, u32)>, cs: Seq<Seq<usize>>) -> Seq<(i32, i32)>
    decreases cs.len(),
{
    if cs.len() == 0 {
        seq![]
    } else if cs.last().len() >= MIN_BODY_PIXELS {
        debris_of(s, cs.drop_last())
    } else {
        debris_of(s, cs.drop_last()) + comp_cells(s, cs.last())
    }
}

/// `nb` is the body made of component `c` of `parent`, with id `id`: the
/// component's pixels with their counters, the stamped cells of those pixels,
/// not dirty and with no water line yet.
pub open spec fn is_child(nb: Body, parent: Body, c: Seq<usize>, id: u16) -> bool {
    &&& nb.id == id
    &&& nb.material == parent.material
    &&& nb.w == parent.w
    &&& nb.h == parent.h
    &&& nb.mask@ == Seq::new(parent.mask@.len(), |i: int| c.contains(i as usize))
    &&& nb.counter@ == Seq::new(parent.mask@.len(), |i: int| if c.contains(i as usize) { parent.counter@[i] } else { 0u8 })
    &&& nb.stamped@ == comp_stamped(parent.stamped@, c)
    &&& !nb.dirty
    &&& nb.last_h == NO_SURFACE
}

/// `s` with `b` put after every body of id at most `b.id` at its end: on a
/// list sorted by id, the place a stable sort by id gives it.
pub open spec fn ins_by_id(s: Seq<Body>, b: Body) -> Seq<Body>
    decreases s.len(),
{
    if s.len() == 0 {
        seq![b]
    } else if s.last().id <= b.id {
        s.push(b)
    } else {
        ins_by_id(s.drop_last(), b).push(s.last())
    }
}

/// The bodies `kids` put into `s` one after another (see [`ins_by_id`]).
pub open spec fn ins_all(s: Seq<Body>, kids: Seq<Body>) -> Seq<Body>
    decreases kids.len(),
{
    if kids.len() == 0 {
        s
    } else {
        ins_by_id(ins_all(s, kids.drop_last()), kids.last())
    }
}

/// The grid `g` with the in-world cells of `cells` cleared to air, one after
/// another, through the shared write path.
pub open spec fn clear_cells(
    w: World,
    t: Seq<MaterialDef>,
    stamp: u8,
    g: spec_fn(int, int) -> Cell,
    cells: Seq<(i32, i32)>,
) -> spec_fn(int, int) -> Cell
    decreases cells.len(),
{
    if cells.len() == 0 {
        g
    } else {
        let g1 = clear_cells(w, t, stamp, g, cells.drop_last());
        let p = cells.last();
        if w.inb(p.0 as int, p.1 as int) {
            |a: int, b: int| if a == p.0 && b == p.1 { painted(t, MAT_AIR, stamp, a) } else { g1(a, b) }
        } else {
            g1
        }
    }
}

/// `id` advanced by `k`, wrapping.
pub open spec fn id_plus(id: u16, k: int) -> u16 {
    ((id as int + k) % 65536) as u16
}

proof fn lemma_ins_at(s: Seq<Body>, b: Body, p: int)
    requires
        0 <= p <= s.len(),
        forall|j: int| p <= j < s.len() ==> (#[trigger] s[j]).id > b.id,
        p > 0 ==> s[p - 1].id <= b.id,
    ensures
        ins_by_id(s, b) == s.insert(p, b),
    decreases s.len(),
{
    if s.len() == 0 {
        assert(s.insert(p, b) =~= seq![b]);
    } else if p == s.len() {
        assert(s.insert(p, b) =~= s.push(b));
    } else {
        assert(s.last().id > b.id);
        let d = s.drop_last();
        assert forall|j: int| p <= j < d.len() implies (#[trigger] d[j]).id > b.id by {
            assert(d[j] == s[j]);
        }
        lemma_ins_at(d, b, p);
        assert(d.insert(p, b).push(s.last()) =~= s.insert(p, b));
    }
}

/// Where each pixel was last stamped (see [`last_cell`]).
fn last_cells(b: &Body) -> (r: Vec<Option<(i32, i32)>>)
    requires
        indices_ok(*b),
    ensures
        r@.len() == b.mask@.len(),
        forall|i: int| 0 <= i < r@.len() ==> #[trigger] r@[i] == last_cell(b.stamped@, i),
{
    let n = b.mask.len();
    let mut r: Vec<Option<(i32, i32)>> = Vec::new();
    let mut i: usize = 0;
    while i < n
        invariant
            n == b.mask@.len(),
            i <= n,
            r@.len() == i,
            forall|j: int| 0 <= j < i ==> #[trigger] r@[j] is None,
        decreases n - i,
    {
        r.push(None);
        i += 1;
    }
    let ghost s = b.stamped@;
    let mut k: usize = 0;
    while k < b.stamped.len()
        invariant
            s == b.stamped@,
            indices_ok(*b),
            n == b.mask@.len(),
            r@.len() == n,
            k <= s.len(),
            forall|j: int| 0 <= j < n ==> #[trigger] r@[j] == last_cell(s.subrange(0, k as int), j),
        decreases s.len() - k,
    {
        let (x, y, idx) = b.stamped[k];
        proof {
            assert(s.subrange(0, k as int + 1).drop_last() =~= s.subrange(0, k as int));
            assert(s.subrange(0, k as int + 1).last() == s[k as int]);
        }
        r.set(idx as usize, Some((x, y)));
        k += 1;
    }
    proof {
        assert(s.subrange(0, s.len() as int) =~= s);
    }
    r
}

/// The body made of component `comp` of `parent` (see [`is_child`]).
fn make_child(parent: &Body, comp: &Vec<usize>, cells: &Vec<Option<(i32, i32)>>, id: u16) -> (r: Body)
    requires
        shape_ok(*parent),
        forall|k: int| 0 <= k < comp@.len() ==> (#[trigger] comp@[k] as int) < parent.mask@.len(),
        cells@.len() == parent.mask@.len(),
        forall|i: int| 0 <= i < cells@.len() ==> #[trigger] cells@[i] == last_cell(parent.stamped@, i),
    ensures
        is_child(r, *parent, comp@, id),
        shape_ok(r),
{
    let n = parent.mask.len();
    let ghost c = comp@;
    let mut mask: Vec<bool> = Vec::new();
    let mut counter: Vec<u8> = Vec::new();
    let mut i: usize = 0;
    while i < n
        invariant
            n == parent.mask@.len(),
            i <= n,
            mask@.len() == i,
            counter@.len() == i,
            forall|j: int| 0 <= j < i ==> !(#[trigger] mask@[j]),
            forall|j: int| 0 <= j < i ==> #[trigger] counter@[j] == 0,
        decreases n - i,
    {
        mask.push(false);
        counter.push(0);
        i += 1;
    }
    let mut stamped: Vec<(i32, i32, u32)> = Vec::new();
    let mut k: usize = 0;
    while k < comp.len()
        invariant
            c == comp@,
            shape_ok(*parent),
            n == parent.mask@.len(),
            forall|q: int| 0 <= q < c.len() ==> (#[trigger] c[q] as int) < n,
            cells@.len() == n,
            forall|q: int| 0 <= q < n ==> #[trigger] cells@[q] == last_cell(parent.stamped@, q),
            k <= c.len(),
            mask@ == Seq::new(n as nat, |q: int| c.subrange(0, k as int).contains(q as usize)),
            counter@ == Seq::new(
                n as nat,
                |q: int| if c.subrange(0, k as int).contains(q as usize) { parent.counter@[q] } else { 0u8 },
            ),
            stamped@ == comp_stamped(parent.stamped@, c.subrange(0, k as int)),
            forall|q: int| 0 <= q < stamped@.len() ==> ((#[trigger] stamped@[q]).2 as int) < n,
        decreases c.len() - k,
    {
        let i = comp[k];
        let ghost pre = c.subrange(0, k as int);
        let ghost nxt = c.subrange(0, k as int + 1);
        proof {
            assert(nxt.drop_last() =~= pre);
            assert(nxt.last() == i);
            assert forall|q: int| #[trigger] nxt.contains(q as usize) <==> (pre.contains(q as usize) || q as usize == i) by {
                if nxt.contains(q as usize) {
                    let e = choose|e: int| 0 <= e < nxt.len() && nxt[e] == q as usize;
                    if e < k {
                        assert(pre[e] == nxt[e]);
                    }
                }
                if pre.contains(q as usize) {
                    let e = choose|e: int| 0 <= e < pre.len() && pre[e] == q as usize;
                    assert(nxt[e] == pre[e]);
                }
                if q as usize == i {
                    assert(nxt[k as int] == i);
                }
            }
        }
        mask.set(i, true);
        counter.set(i, parent.counter[i]);
        match cells[i] {
            Some((x, y)) => {
                stamped.push((x, y, i as u32));
            },
            None => {},
        }
        proof {
            assert(mask@ =~= Seq::new(n as nat, |q: int| nxt.contains(q as usize)));
            assert(counter@ =~= Seq::new(
                n as nat,
                |q: int| if nxt.contains(q as usize) { parent.counter@[q] } else { 0u8 },
            ));
        }
        k += 1;
    }
    proof {
        assert(c.subrange(0, c.len() as int) =~= c);
    }
    Body {
        id,
        material: parent.material,
        w: parent.w,
        h: parent.h,
        mask,
        counter,
        stamped,
        dirty: false,
        last_h: NO_SURFACE,
    }
}

/// Put `b` into the list where a stable sort by id puts it (see
/// [`ins_by_id`]).
fn insert_by_id(list: &mut Vec<Body>, b: Body)
    ensures
        final(list)@ == ins_by_id(old(list)@, b),
        ids_sorted(old(list)@) ==> ids_sorted(final(list)@),
        (forall|i: int| 0 <= i < old(list)@.len() ==> shape_ok(#[trigger] old(list)@[i])) && shape_ok(b) ==> forall|i: int|
            0 <= i < final(list)@.len() ==> shape_ok(#[trigger] final(list)@[i]),
{
    let ghost s = list@;
    let mut p: usize = list.len();
    while p > 0 && list[p - 1].id > b.id
        invariant
            list@ == s,
            p <= s.len(),
            forall|j: int| p <= j < s.len() ==> (#[trigger] s[j]).id > b.id,
        decreases p,
    {
        p -= 1;
    }
    proof {
        lemma_ins_at(s, b, p as int);
    }
    let ghost bid = b.id;
    list.insert(p, b);
    proof {
        let t = list@;
        assert forall|i: int| 0 <= i < t.len() && i != p implies #[trigger] t[i] == s[if i < p { i } else { i - 1 }] by {}
        if ids_sorted(s) {
            assert forall|i: int, j: int| 0 <= i < j < t.len() implies (#[trigger] t[i]).id <= (#[trigger] t[j]).id by {
                if j < p {
                } else if j == p {
                    assert(s[p - 1].id <= bid);
                    assert(s[i].id <= s[p - 1].id || i == p - 1);
                } else if i < p {
                    assert(t[j] == s[j - 1]);
                } else if i == p {
                    assert(t[j] == s[j - 1]);
                } else {
                    assert(t[i] == s[i - 1]);
                    assert(t[j] == s[j - 1]);
                }
            }
        }
    }
}


/// Clear the cells of the small piece `comp` of `parent` to air, adding them
/// to `debris` (see [`comp_cells`] and [`clear_cells`]).
fn clear_piece(
    world: &mut World,
    table: &MaterialTable,
    stamp: u8,
    parent: &Body,
    comp: &Vec<usize>,
    cells: &Vec<Option<(i32, i32)>>,
    debris: &mut Vec<(i32, i32)>,
    Ghost(w0): Ghost<World>,
)
    requires
        old(world).wf(),
        old(world).same_shape(w0),
        old(world).mats_valid(table@.len() as int),
        table@.len() >= 1,
        forall|e: int| 0 <= e < comp@.len() ==> (#[trigger] comp@[e] as int) < cells@.len(),
        forall|i: int| 0 <= i < cells@.len() ==> #[trigger] cells@[i] == last_cell(parent.stamped@, i),
        old(world).grid() == clear_cells(w0, table@, stamp, w0.grid(), old(debris)@),
    ensures
        final(world).wf(),
        final(world).same_shape(w0),
        final(world).vaporized_total == old(world).vaporized_total,
        final(world).mats_valid(table@.len() as int),
        final(debris)@ == old(debris)@ + comp_cells(parent.stamped@, comp@),
        final(world).grid() == clear_cells(w0, table@, stamp, w0.grid(), final(debris)@),
{
    let ghost d0 = debris@;
    let ghost c = comp@;
    let ghost v0 = world.vaporized_total;
    proof {
        crate::world::lemma_wall_mat();
        assert(c.subrange(0, 0) =~= seq![]);
        assert(d0 + comp_cells(parent.stamped@, c.subrange(0, 0)) =~= d0);
    }
    let mut j: usize = 0;
    while j < comp.len()
        invariant
            c == comp@,
            forall|e: int| 0 <= e < c.len() ==> (#[trigger] c[e] as int) < cells@.len(),
            forall|i: int| 0 <= i < cells@.len() ==> #[trigger] cells@[i] == last_cell(parent.stamped@, i),
            j <= c.len(),
            world.wf(),
            world.same_shape(w0),
            world.vaporized_total == v0,
            world.mats_valid(table@.len() as int),
            table@.len() >= 1,
            debris@ == d0 + comp_cells(parent.stamped@, c.subrange(0, j as int)),
            world.grid() == clear_cells(w0, table@, stamp, w0.grid(), debris@),
        decreases c.len() - j,
    {
        let i = comp[j];
        let ghost dp = debris@;
        let ghost wb = *world;
        proof {
            assert(c.subrange(0, j as int + 1).drop_last() =~= c.subrange(0, j as int));
            assert(c.subrange(0, j as int + 1).last() == i);
        }
        match cells[i] {
            Some((x, y)) => {
                debris.push((x, y));
                world.set_cell_stamped(table, x, y, MAT_AIR, stamp);
                proof {
                    assert(debris@ =~= d0 + comp_cells(parent.stamped@, c.subrange(0, j as int + 1)));
                    assert(debris@.drop_last() =~= dp);
                    assert(world.grid() =~= clear_cells(w0, table@, stamp, w0.grid(), debris@));
                    assert forall|a: int, b: int| #[trigger] world.inb(a, b) implies (world.at(a, b).mat() as int) < table@.len() by {
                        assert(wb.inb(a, b));
                        crate::world::lemma_stamped_mat(crate::world::is_flowing(table@[0].category), 0, stamp, a);
                    }
                }
            },
            None => {
                proof {
                    assert(debris@ =~= d0 + comp_cells(parent.stamped@, c.subrange(0, j as int + 1)));
                }
            },
        }
        j += 1;
    }
    proof {
        assert(c.subrange(0, c.len() as int) =~= c);
    }
}

/// `cs` are the pieces of bitmap `m` (see [`components_spec`]), kept
/// folded while a split is worked through.
#[verifier::opaque]
pub open spec fn pieces(m: Seq<bool>, w: int, h: int, cs: Seq<Seq<usize>>) -> bool {
    components_spec(m, w, h, cs)
}

/// What one re-extraction did.
pub enum Extracted {
    /// The queued id names no body.
    Missing { id: u16 },
    /// The body is one piece of at least `MIN_BODY_PIXELS` pixels: it stays,
    /// no longer dirty, and its collision shape is rebuilt from its bitmap.
    Reshaped { id: u16 },
    /// The body broke up and left the list: `children` are the ids of the
    /// new bodies, piece by piece, and `debris` the cells whose pixels left
    /// the grid.
    Split { parent: Body, children: Vec<u16>, debris: Vec<(i32, i32)> },
}

/// `nb` is `b` no longer dirty.
pub open spec fn undirtied(b: Body, nb: Body) -> bool {
    &&& nb.id == b.id
    &&& nb.material == b.material
    &&& nb.w == b.w
    &&& nb.h == b.h
    &&& nb.mask@ == b.mask@
    &&& nb.counter@ == b.counter@
    &&& nb.stamped@ == b.stamped@
    &&& nb.last_h == b.last_h
    &&& !nb.dirty
}

/// A broken-up body `parent` with pieces `cs`, taken out of the list to
/// leave `rest`: the big pieces become bodies with ids counted on from
/// `next0` and put into the list in id order, the cells of the small ones
/// are cleared to air.
pub open spec fn split_ok(
    parent: Body,
    cs: Seq<Seq<usize>>,
    rest: Seq<Body>,
    next0: u16,
    w0: World,
    t: Seq<MaterialDef>,
    stamp: u8,
    list: Seq<Body>,
    next1: u16,
    w1: World,
    children: Seq<u16>,
    debris: Seq<(i32, i32)>,
) -> bool {
    let big = big_of(cs);
    &&& children == Seq::new(big.len(), |k: int| id_plus(next0, k))
    &&& next1 == id_plus(next0, big.len() as int)
    &&& debris == debris_of(parent.stamped@, cs)
    &&& w1.grid() == clear_cells(w0, t, stamp, w0.grid(), debris)
    &&& exists|kids: Seq<Body>| {
        &&& kids.len() == big.len()
        &&& forall|k: int| 0 <= k < kids.len() ==> is_child(#[trigger] kids[k], parent, big[k], id_plus(next0, k))
        &&& list == ins_all(rest, kids)
    }
}

/// Two states of the bodies are the same.
pub open spec fn same_bodies(a: Bodies, b: Bodies) -> bool {
    &&& a.list@ == b.list@
    &&& a.next_id == b.next_id
    &&& a.reextract_queue@ == b.reextract_queue@
    &&& a.rejected_total == b.rejected_total
    &&& a.terrain_rebuilds == b.terrain_rebuilds
}

/// One re-extraction from bodies `b0` on grid `w0` to `b1` on `w1`, with
/// result `r`: the head of the queue leaves it; a missing body is skipped;
/// a body that is one big piece is kept, no longer dirty; any other is split
/// (see [`split_ok`]). An empty queue does nothing.
pub open spec fn extract_step(
    b0: Bodies,
    w0: World,
    t: Seq<MaterialDef>,
    stamp: u8,
    b1: Bodies,
    w1: World,
    r: Option<Extracted>,
) -> bool {
    let q = b0.reextract_queue@;
    let l = b0.list@;
    if q.len() == 0 {
        r is None && same_bodies(b0, b1) && w1 == w0
    } else {
        let id = q[0];
        &&& b1.reextract_queue@ == q.subrange(1, q.len() as int)
        &&& b1.rejected_total == b0.rejected_total
        &&& b1.terrain_rebuilds == b0.terrain_rebuilds
        &&& match r {
            None => false,
            Some(Extracted::Missing { id: i }) => {
                &&& i == id
                &&& forall|j: int| 0 <= j < l.len() ==> (#[trigger] l[j]).id != id
                &&& b1.list@ == l
                &&& b1.next_id == b0.next_id
                &&& w1 == w0
            },
            Some(Extracted::Reshaped { id: i }) => {
                &&& i == id
                &&& b1.next_id == b0.next_id
                &&& w1 == w0
                &&& exists|p: int| {
                    &&& first_with_id(l, id, p)
                    &&& (exists|cs: Seq<Seq<usize>>| {
                        &&& components_spec(l[p].mask@, l[p].w as int, l[p].h as int, cs)
                        &&& cs.len() == 1
                        &&& cs[0].len() >= MIN_BODY_PIXELS
                    })
                    &&& b1.list@.len() == l.len()
                    &&& undirtied(l[p], b1.list@[p])
                    &&& forall|j: int| 0 <= j < l.len() && j != p ==> #[trigger] b1.list@[j] == l[j]
                }
            },
            Some(Extracted::Split { parent, children, debris }) => {
                &&& w1.wf()
                &&& w1.same_shape(w0)
                &&& w1.vaporized_total == w0.vaporized_total
                &&& exists|p: int| {
                    &&& first_with_id(l, id, p)
                    &&& parent == l[p]
                    &&& exists|cs: Seq<Seq<usize>>| {
                        &&& components_spec(l[p].mask@, l[p].w as int, l[p].h as int, cs)
                        &&& !(cs.len() == 1 && cs[0].len() >= MIN_BODY_PIXELS)
                        &&& split_ok(
                            parent,
                            cs,
                            l.remove(p),
                            b0.next_id,
                            w0,
                            t,
                            stamp,
                            b1.list@,
                            b1.next_id,
                            w1,
                            children@,
                            debris@,
                        )
                    }
                }
            },
        }
    }
}

/// What re-extraction needs of the bodies: each bitmap is `w x h` with its
/// counters and stamped indices inside it.
pub open spec fn shapes_ok(l: Seq<Body>) -> bool {
    forall|i: int| 0 <= i < l.len() ==> shape_ok(#[trigger] l[i])
}

impl Bodies {
    /// Re-extract the body at the head of the queue (see [`extract_step`]);
    /// `None` when the queue is empty.
    #[verifier::spinoff_prover]
    #[verifier::rlimit(60)]
    pub fn reextract_one(&mut self, world: &mut World, table: &MaterialTable, stamp: u8) -> (r: Option<Extracted>)
        requires
            old(world).wf(),
            old(world).mats_valid(table@.len() as int),
            table@.len() >= 1,
            shapes_ok(old(self).list@),
        ensures
            extract_step(*old(self), *old(world), table@, stamp, *final(self), *final(world), r),
            final(world).wf(),
            final(world).same_shape(*old(world)),
            final(world).mats_valid(table@.len() as int),
            shapes_ok(final(self).list@),
            ids_sorted(old(self).list@) ==> ids_sorted(final(self).list@),
            queue_ok(old(self).reextract_queue@) ==> queue_ok(final(self).reextract_queue@),
    {
        if self.reextract_queue.len() == 0 {
            return None;
        }
        let ghost b0 = *self;
        let ghost w0 = *world;
        let ghost q = self.reextract_queue@;
        let id = self.reextract_queue.remove(0);
        proof {
            assert(self.reextract_queue@ =~= q.subrange(1, q.len() as int));
        }
        let pos = match position_of(&self.list, id) {
            None => {
                return Some(Extracted::Missing { id });
            },
            Some(p) => p,
        };
        let comps = components4(self.list[pos].mask.as_slice(), self.list[pos].w as usize, self.list[pos].h as usize);
        let ghost cs = views(comps@);
        proof {
            assert(cs.len() == comps@.len());
            assert forall|c: int| 0 <= c < cs.len() implies #[trigger] cs[c] == comps@[c]@ by {}
        }
        if comps.len() == 1 && comps[0].len() >= MIN_BODY_PIXELS {
            let mut b = self.list.remove(pos);
            b.dirty = false;
            self.list.insert(pos, b);
            proof {
                let l = b0.list@;
                assert forall|j: int| 0 <= j < l.len() && j != pos implies #[trigger] self.list@[j] == l[j] by {
                    if j < pos {
                    } else {
                    }
                }
                assert(first_with_id(l, id, pos as int));
                assert(cs[0].len() >= MIN_BODY_PIXELS);
                assert(components_spec(l[pos as int].mask@, l[pos as int].w as int, l[pos as int].h as int, cs));
                assert(ids_sorted(l) ==> ids_sorted(self.list@)) by {
                    if ids_sorted(l) {
                        assert forall|i: int, j: int| 0 <= i < j < self.list@.len() implies (#[trigger] self.list@[i]).id <= (
                        #[trigger] self.list@[j]).id by {
                            assert(self.list@[i].id == l[i].id);
                            assert(self.list@[j].id == l[j].id);
                        }
                    }
                }
                assert forall|i: int| 0 <= i < self.list@.len() implies shape_ok(#[trigger] self.list@[i]) by {
                    assert(shape_ok(l[i]));
                }
            }
            return Some(Extracted::Reshaped { id });
        }
        let ghost l0 = self.list@;
        let parent = self.list.remove(pos);
        let ghost rest = self.list@;
        let ghost next0 = self.next_id;
        proof {
            assert(rest == l0.remove(pos as int));
            assert(shape_ok(parent));
            assert forall|i: int| 0 <= i < rest.len() implies shape_ok(#[trigger] rest[i]) by {
                if i < pos {
                    assert(rest[i] == l0[i]);
                } else {
                    assert(rest[i] == l0[i + 1]);
                }
            }
            assert(ids_sorted(l0) ==> ids_sorted(rest)) by {
                if ids_sorted(l0) {
                    assert forall|i: int, j: int| 0 <= i < j < rest.len() implies (#[trigger] rest[i]).id <= (#[trigger] rest[j]).id by {
                        let i0 = if i < pos { i } else { i + 1 };
                        let j0 = if j < pos { j } else { j + 1 };
                        assert(rest[i] == l0[i0]);
                        assert(rest[j] == l0[j0]);
                    }
                }
            }
        }
        proof {
            reveal(pieces);
            assert(pieces(parent.mask@, parent.w as int, parent.h as int, cs));
        }
        let cells = last_cells(&parent);
        let mut children: Vec<u16> = Vec::new();
        let mut debris: Vec<(i32, i32)> = Vec::new();
        let ghost mut kids: Seq<Body> = seq![];
        proof {
            crate::world::lemma_wall_mat();
            assert(cs.subrange(0, 0) =~= seq![]);
            assert(children@ =~= Seq::new(0, |k: int| id_plus(next0, k)));
            assert(id_plus(next0, 0) == next0);
        }
        let mut k: usize = 0;
        while k < comps.len()
            invariant
                cs == views(comps@),
                pieces(parent.mask@, parent.w as int, parent.h as int, cs),
                forall|c: int, e: int| 0 <= c < cs.len() && 0 <= e < cs[c].len() ==> (#[trigger] cs[c][e] as int) < parent.mask@.len(),
                shape_ok(parent),
                cells@.len() == parent.mask@.len(),
                forall|i: int| 0 <= i < cells@.len() ==> #[trigger] cells@[i] == last_cell(parent.stamped@, i),
                k <= cs.len(),
                world.wf(),
                world.same_shape(w0),
                world.vaporized_total == w0.vaporized_total,
                world.mats_valid(table@.len() as int),
                table@.len() >= 1,
                self.reextract_queue@ == q.subrange(1, q.len() as int),
                self.rejected_total == b0.rejected_total,
                self.terrain_rebuilds == b0.terrain_rebuilds,
                children@ == Seq::new(big_of(cs.subrange(0, k as int)).len(), |j: int| id_plus(next0, j)),
                self.next_id == id_plus(next0, big_of(cs.subrange(0, k as int)).len() as int),
                kids.len() == big_of(cs.subrange(0, k as int)).len(),
                forall|j: int| 0 <= j < kids.len() ==> is_child(#[trigger] kids[j], parent, big_of(cs.subrange(0, k as int))[j], id_plus(next0, j)),
                self.list@ == ins_all(rest, kids),
                shapes_ok(self.list@),
                ids_sorted(l0) ==> ids_sorted(self.list@),
                debris@ == debris_of(parent.stamped@, cs.subrange(0, k as int)),
                world.grid() == clear_cells(w0, table@, stamp, w0.grid(), debris@),
            decreases cs.len() - k,
        {
            let comp = &comps[k];
            let ghost pre = cs.subrange(0, k as int);
            let ghost nxt = cs.subrange(0, k as int + 1);
            proof {
                assert(nxt.drop_last() =~= pre);
                assert(nxt.last() == cs[k as int]);
                assert(comp@ == cs[k as int]);
                assert forall|e: int| 0 <= e < comp@.len() implies (#[trigger] comp@[e] as int) < parent.mask@.len() by {
                    assert(cs[k as int][e] == comp@[e]);
                }
            }
            if comp.len() >= MIN_BODY_PIXELS {
                let child = make_child(&parent, comp, &cells, self.next_id);
                let ghost n = kids.len() as int;
                let ghost k0 = kids;
                let ghost lb = self.list@;
                proof {
                    assert(big_of(nxt) == big_of(pre).push(comp@));
                    vstd::arithmetic::div_mod::lemma_add_mod_noop(next0 as int + n, 1, 65536);
                    kids = kids.push(child);
                }
                children.push(self.next_id);
                self.next_id = self.next_id.wrapping_add(1);
                insert_by_id(&mut self.list, child);
                proof {
                    assert(kids.drop_last() =~= k0);
                    assert(kids.last() == child);
                    assert(lb == ins_all(rest, k0));
                    assert(ins_all(rest, kids) == ins_by_id(ins_all(rest, kids.drop_last()), kids.last()));
                    assert(self.list@ == ins_by_id(lb, child));
                    assert(children@ =~= Seq::new(big_of(nxt).len(), |j: int| id_plus(next0, j)));
                    assert forall|j: int| 0 <= j < kids.len() implies is_child(#[trigger] kids[j], parent, big_of(nxt)[j], id_plus(next0, j)) by {}
                    assert(debris_of(parent.stamped@, nxt) == debris_of(parent.stamped@, pre));
                }
            } else {
                let ghost c = comp@;
                clear_piece(world, table, stamp, &parent, comp, &cells, &mut debris, Ghost(w0));
                proof {
                    assert(big_of(nxt) == big_of(pre));
                    assert(debris_of(parent.stamped@, nxt) == debris_of(parent.stamped@, pre) + comp_cells(parent.stamped@, c));
                }
            }
            k += 1;
        }
        proof {
            reveal(pieces);
            assert(cs.subrange(0, cs.len() as int) =~= cs);
            assert(first_with_id(l0, id, pos as int));
            assert(split_ok(
                parent,
                cs,
                l0.remove(pos as int),
                next0,
                w0,
                table@,
                stamp,
                self.list@,
                self.next_id,
                *world,
                children@,
                debris@,
            ));
        }
        Some(Extracted::Split { parent, children, debris })
    }
}


/// The re-extractions `rs`, one after another, through the states `st`
/// of the bodies and the grid: step `k` goes from `st[k]` to `st[k + 1]`
/// (see [`extract_step`]).
pub open spec fn extract_chain(st: Seq<(Bodies, World)>, t: Seq<MaterialDef>, stamp: u8, rs: Seq<Extracted>) -> bool {
    &&& st.len() == rs.len() + 1
    &&& forall|k: int|
        0 <= k < rs.len() ==> extract_step(st[k].0, st[k].1, t, stamp, st[k + 1].0, st[k + 1].1, Some(#[trigger] rs[k]))
}

impl Bodies {
    /// One tick's re-extraction: the first `MAX_REEXTRACT_PER_TICK` queued
    /// bodies (fewer if the queue is shorter) are re-extracted in queue order
    /// (see [`extract_step`]); the rest of the queue waits, in order, for the
    /// next tick.
    pub fn reextract(&mut self, world: &mut World, table: &MaterialTable, stamp: u8) -> (r: Vec<Extracted>)
        requires
            old(world).wf(),
            old(world).mats_valid(table@.len() as int),
            table@.len() >= 1,
            shapes_ok(old(self).list@),
        ensures
            r@.len() == if old(self).reextract_queue@.len() < MAX_REEXTRACT_PER_TICK {
                old(self).reextract_queue@.len() as int
            } else {
                MAX_REEXTRACT_PER_TICK as int
            },
            final(self).reextract_queue@ == old(self).reextract_queue@.subrange(
                r@.len() as int,
                old(self).reextract_queue@.len() as int,
            ),
            exists|st: Seq<(Bodies, World)>| {
                &&& #[trigger] extract_chain(st, table@, stamp, r@)
                &&& st[0] == (*old(self), *old(world))
                &&& st.last() == (*final(self), *final(world))
            },
            final(world).wf(),
            final(world).same_shape(*old(world)),
            final(world).mats_valid(table@.len() as int),
            shapes_ok(final(self).list@),
            ids_sorted(old(self).list@) ==> ids_sorted(final(self).list@),
            queue_ok(old(self).reextract_queue@) ==> queue_ok(final(self).reextract_queue@),
    {
        let ghost b0 = *self;
        let ghost w0 = *world;
        let ghost q = self.reextract_queue@;
        let mut r: Vec<Extracted> = Vec::new();
        let mut i: usize = 0;
        let ghost mut st: Seq<(Bodies, World)> = seq![(b0, w0)];
        proof {
            assert(q.subrange(0, q.len() as int) =~= q);
        }
        while i < MAX_REEXTRACT_PER_TICK && self.reextract_queue.len() > 0
            invariant
                i <= MAX_REEXTRACT_PER_TICK,
                i <= q.len(),
                r@.len() == i,
                self.reextract_queue@ == q.subrange(i as int, q.len() as int),
                extract_chain(st, table@, stamp, r@),
                st[0] == (b0, w0),
                st.last() == (*self, *world),
                world.wf(),
                world.same_shape(w0),
                world.mats_valid(table@.len() as int),
                table@.len() >= 1,
                shapes_ok(self.list@),
                ids_sorted(b0.list@) ==> ids_sorted(self.list@),
                queue_ok(q) ==> queue_ok(self.reextract_queue@),
            decreases MAX_REEXTRACT_PER_TICK - i,
        {
            let ghost rm = r@;
            let e = self.reextract_one(world, table, stamp);
            match e {
                Some(x) => {
                    r.push(x);
                    proof {
                        let st0 = st;
                        st = st.push((*self, *world));
                        assert forall|k: int| 0 <= k < r@.len() implies extract_step(
                            st[k].0,
                            st[k].1,
                            table@,
                            stamp,
                            st[k + 1].0,
                            st[k + 1].1,
                            Some(#[trigger] r@[k]),
                        ) by {
                            if k < rm.len() {
                                assert(r@[k] == rm[k]);
                                assert(st[k] == st0[k] && st[k + 1] == st0[k + 1]);
                            } else {
                                assert(st[k] == st0.last());
                            }
                        }
                        assert(self.reextract_queue@ =~= q.subrange(i as int + 1, q.len() as int));
                    }
                },
                None => {},
            }
            i += 1;
        }
        proof {
            assert(extract_chain(st, table@, stamp, r@));
        }
        r
    }
}

/// Spawn requests for debris cells: one particle of `material` at the centre
/// of each cell, in order, moving at `(vx, vy)`.
pub fn debris_spawns(debris: &Vec<(i32, i32)>, material: u8, vx: Fx, vy: Fx) -> (r: Vec<SpawnRequest>)
    ensures
        r@.len() == debris@.len(),
        forall|k: int| 0 <= k < r@.len() ==> #[trigger] r@[k] == (SpawnRequest {
            material,
            x: centre_of(debris@[k].0),
            y: centre_of(debris@[k].1),
            vx,
            vy,
        }),
{
    let mut r: Vec<SpawnRequest> = Vec::new();
    let mut k: usize = 0;
    while k < debris.len()
        invariant
            k <= debris@.len(),
            r@.len() == k,
            forall|j: int| 0 <= j < k ==> #[trigger] r@[j] == (SpawnRequest {
                material,
                x: centre_of(debris@[j].0),
                y: centre_of(debris@[j].1),
                vx,
                vy,
            }),
        decreases debris@.len() - k,
    {
        let (x, y) = debris[k];
        let sx = Fx::from_int(x) + half_cell();
        let sy = Fx::from_int(y) + half_cell();
        r.push(SpawnRequest { material, x: sx, y: sy, vx, vy });
        k += 1;
    }
    r
}

} // verus!
