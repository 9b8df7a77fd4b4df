//! Pixel rigid bodies, grid side: a body is a bitmap of one static material
//! stamped into the grid cell by cell. What lives here reads and writes the
//! grid only: the water line beside a body, its sealed bottom, the chunks
//! around it, its terrain, and the pixels it lost. Moving bodies (transforms,
//! forces, contacts) is the physics engine's work and is not part of this
//! library.

use vstd::prelude::*;

use crate::cell::Cell;
use crate::geom::{cover_spec, lemma_cover_maximal, rect_cover, Rect};
use crate::material::{solid_spec, is_solid, Category, MaterialDef, MaterialTable};
use crate::world::{painted, World};

verus! {

/// Smallest body area; smaller fragments leave the grid as particles.
pub const MIN_BODY_PIXELS: usize = 12;
/// Re-extractions per tick.
pub const MAX_REEXTRACT_PER_TICK: usize = 2;
/// Largest number of bodies.
pub const MAX_BODIES: usize = 256;
/// A body whose box lies this many cells outside the world is removed.
pub const OUT_OF_WORLD_MARGIN: i32 = 64;
/// Terrain is built this many chunks around a body's box.
pub const TERRAIN_MARGIN: i32 = 1;
/// How far out from a contact the water line is sampled.
pub const SURFACE_REACH: i32 = 5;
/// Water-line change (rows) that wakes a sleeping body.
pub const WAKE_H_ROWS: i32 = 2;
/// Liquid cells heaped on a sleeping body that wake it.
pub const WAKE_TOP_LOAD_CELLS: usize = 16;
/// "No water line".
pub const NO_SURFACE: i32 = 0x7FFF_FFFF;
/// Vertical speed field (raw) below which a liquid counts as settled.
pub const SETTLED_VEL_MAX: u8 = 8;

/// One body: a `w x h` bitmap (row-major, pixel `(i, j)` at `j * w + i`) of
/// `material`, the burn counters of its pixels, and the cells it is stamped
/// into, each with its pixel index.
pub struct Body {
    pub id: u16,
    pub material: u8,
    pub w: u16,
    pub h: u16,
    pub mask: Vec<bool>,
    pub counter: Vec<u8>,
    pub stamped: Vec<(i32, i32, u32)>,
    /// Pixels were lost: the body waits for re-extraction.
    pub dirty: bool,
    /// Water line when last awake (`NO_SURFACE` for none).
    pub last_h: i32,
}

/// The bodies, in increasing id order, and the queue of bodies to re-extract.
pub struct Bodies {
    pub list: Vec<Body>,
    pub next_id: u16,
    pub reextract_queue: Vec<u16>,
    /// Spawns refused (diagnostic).
    pub rejected_total: u64,
    /// Terrain rebuilds (diagnostic).
    pub terrain_rebuilds: u64,
}

/// Index of the first body of `s` with id `id`.
pub open spec fn first_with_id(s: Seq<Body>, id: u16, i: int) -> bool {
    0 <= i < s.len() && s[i].id == id && forall|j: int| 0 <= j < i ==> (#[trigger] s[j]).id != id
}

impl Bodies {
    /// No bodies.
    pub fn new() -> (r: Bodies)
        ensures
            r.list@.len() == 0,
            r.next_id == 0,
            r.reextract_queue@.len() == 0,
            r.rejected_total == 0,
            r.terrain_rebuilds == 0,
    {
        Bodies { list: Vec::new(), next_id: 0, reextract_queue: Vec::new(), rejected_total: 0, terrain_rebuilds: 0 }
    }

    pub fn len(&self) -> (r: usize)
        ensures
            r == self.list@.len(),
    {
        self.list.len()
    }

    pub fn is_empty(&self) -> (r: bool)
        ensures
            r == (self.list@.len() == 0),
    {
        self.list.len() == 0
    }

    /// The body with id `id`.
    pub fn get(&self, id: u16) -> (r: Option<&Body>)
        ensures
            r matches Some(b) ==> exists|i: int| first_with_id(self.list@, id, i) && *b == self.list@[i],
            r is None ==> forall|i: int| 0 <= i < self.list@.len() ==> (#[trigger] self.list@[i]).id != id,
    {
        let mut i: usize = 0;
        while i < self.list.len()
            invariant
                i <= self.list@.len(),
                forall|j: int| 0 <= j < i ==> (#[trigger] self.list@[j]).id != id,
            decreases self.list@.len() - i,
        {
            if self.list[i].id == id {
                proof {
                    assert(first_with_id(self.list@, id, i as int));
                }
                return Some(&self.list[i]);
            }
            i += 1;
        }
        None
    }
}

/// A settled liquid: a liquid cell not stamped by a body whose vertical
/// speed field is below `SETTLED_VEL_MAX`.
pub open spec fn settled_spec(c: Cell, t: Seq<MaterialDef>) -> bool {
    !c.bdy() && c.vl() < SETTLED_VEL_MAX && t[c.mat() as int].category == Category::Liquid
}

/// Whether the cell at `(x, y)` is a settled liquid.
pub fn settled_liquid(world: &World, table: &MaterialTable, x: i32, y: i32) -> (r: bool)
    requires
        world.wf(),
        world.mats_valid(table@.len() as int),
        table@.len() >= 2,
    ensures
        r == settled_spec(world.at(x as int, y as int), table@),
{
    proof {
        crate::world::lemma_wall_mat();
    }
    let c = world.cell(x, y);
    !c.is_body() && c.vel() < SETTLED_VEL_MAX && table.category(c.material()) == Category::Liquid
}

/// Number of occurrences of `v` in `s`.
pub open spec fn count_of(s: Seq<u8>, v: u8) -> nat
    decreases s.len(),
{
    if s.len() == 0 {
        0
    } else {
        count_of(s.drop_last(), v) + if s.last() == v { 1nat } else { 0nat }
    }
}

/// The most frequent value of a non-empty sequence, the smallest on a tie.
pub fn most_common(mats: &[u8]) -> (r: u8)
    requires
        mats@.len() > 0,
    ensures
        count_of(mats@, r) > 0,
        forall|v: u8| #[trigger] count_of(mats@, v) <= count_of(mats@, r),
        forall|v: u8| v < r ==> #[trigger] count_of(mats@, v) < count_of(mats@, r),
{
    let mut counts: Vec<usize> = Vec::new();
    let mut v: usize = 0;
    while v < 256
        invariant
            v <= 256,
            counts@.len() == v,
            forall|u: int| 0 <= u < v ==> #[trigger] counts@[u] == 0,
        decreases 256 - v,
    {
        counts.push(0);
        v += 1;
    }
    let mut i: usize = 0;
    while i < mats.len()
        invariant
            i <= mats@.len(),
            counts@.len() == 256,
            forall|u: u8| #[trigger] counts@[u as int] == count_of(mats@.subrange(0, i as int), u),
        decreases mats@.len() - i,
    {
        let m = mats[i];
        proof {
            assert(mats@.subrange(0, i as int + 1).drop_last() =~= mats@.subrange(0, i as int));
            lemma_count_le(mats@.subrange(0, i as int), m);
        }
        let c = counts[m as usize];
        counts.set(m as usize, c + 1);
        i += 1;
    }
    proof {
        assert(mats@.subrange(0, mats@.len() as int) =~= mats@);
    }
    let mut best: u8 = 0;
    let mut best_n: usize = counts[0];
    let mut u: usize = 1;
    while u < 256
        invariant
            1 <= u <= 256,
            counts@.len() == 256,
            forall|x: u8| #[trigger] counts@[x as int] == count_of(mats@, x),
            best < u,
            best_n == count_of(mats@, best),
            forall|x: u8| (x as int) < u ==> #[trigger] count_of(mats@, x) <= best_n,
            forall|x: u8| x < best ==> #[trigger] count_of(mats@, x) < best_n,
        decreases 256 - u,
    {
        let c = counts[u];
        proof {
            assert(counts@[(u as u8) as int] == count_of(mats@, u as u8));
        }
        if c > best_n {
            best = u as u8;
            best_n = c;
        }
        u += 1;
    }
    proof {
        let m0 = mats@[0];
        assert(count_of(mats@, m0) > 0) by {
            lemma_count_pos(mats@, 0);
        }
        assert(count_of(mats@, m0) <= best_n);
    }
    best
}

/// A value occurs at most as often as the sequence is long.
proof fn lemma_count_le(s: Seq<u8>, v: u8)
    ensures
        count_of(s, v) <= s.len(),
    decreases s.len(),
{
    if s.len() > 0 {
        lemma_count_le(s.drop_last(), v);
    }
}

/// An element of a sequence is counted.
proof fn lemma_count_pos(s: Seq<u8>, k: int)
    requires
        0 <= k < s.len(),
    ensures
        count_of(s, s[k]) > 0,
    decreases s.len(),
{
    if k < s.len() - 1 {
        assert(s.drop_last()[k] == s[k]);
        lemma_count_pos(s.drop_last(), k);
    }
}

/// `v / 64` rounded toward negative infinity.
fn floor_div64(v: i64) -> (r: i64)
    requires
        -0x1_0000_0000_0000 <= v <= 0x1_0000_0000_0000,
    ensures
        r == v / 64,
{
    if v >= 0 {
        v / 64
    } else {
        let q = -((-v - 1) / 64) - 1;
        proof {
            let a = -v - 1;
            assert(a >= 0);
            let b = a / 64;
            assert(0 <= a - 64 * b < 64) by (nonlinear_arith)
                requires b == a / 64, a >= 0;
            assert(v == 64 * (-b - 1) + (63 - (a - 64 * b)));
            vstd::arithmetic::div_mod::lemma_fundamental_div_mod_converse(v as int, 64, -b - 1, 63 - (a - 64 * b));
        }
        q
    }
}

/// Whether some chunk within `margin` cells of the box `[x0, x1] x [y0, y1]`
/// (clipped to the world) had a non-empty scan rectangle.
pub open spec fn box_dirty(world: World, x0: int, y0: int, x1: int, y1: int, margin: int) -> bool {
    let cx0 = if (x0 - margin) / 64 > 0 { (x0 - margin) / 64 } else { 0 };
    let cy0 = if (y0 - margin) / 64 > 0 { (y0 - margin) / 64 } else { 0 };
    let cx1 = if (x1 + margin) / 64 < world.width_chunks - 1 { (x1 + margin) / 64 } else { world.width_chunks - 1 };
    let cy1 = if (y1 + margin) / 64 < world.height_chunks - 1 { (y1 + margin) / 64 } else { world.height_chunks - 1 };
    exists|cx: int, cy: int|
        cx0 <= cx <= cx1 && cy0 <= cy <= cy1 && !(#[trigger] world.chunk_at(cx, cy)).dirty.is_empty_spec()
}

/// Whether a chunk around the box had writes last tick (see [`box_dirty`]).
pub fn any_chunk_dirty(world: &World, bbox: (i32, i32, i32, i32), margin: i32) -> (r: bool)
    requires
        world.wf(),
    ensures
        r == box_dirty(*world, bbox.0 as int, bbox.1 as int, bbox.2 as int, bbox.3 as int, margin as int),
{
    let (x0, y0, x1, y1) = bbox;
    let m = margin as i64;
    let wc = world.width_chunks as i64;
    let hc = world.height_chunks as i64;
    let a = floor_div64(x0 as i64 - m);
    let b = floor_div64(y0 as i64 - m);
    let c = floor_div64(x1 as i64 + m);
    let d = floor_div64(y1 as i64 + m);
    let cx0: i64 = if a > 0 { a } else { 0 };
    let cy0: i64 = if b > 0 { b } else { 0 };
    let cx1: i64 = if c < wc - 1 { c } else { wc - 1 };
    let cy1: i64 = if d < hc - 1 { d } else { hc - 1 };
    let mut cy = cy0;
    while cy <= cy1
        invariant
            world.wf(),
            bbox == (x0, y0, x1, y1),
            wc == world.width_chunks,
            hc == world.height_chunks,
            cx0 == (if (x0 - margin) / 64 > 0 { (x0 - margin) / 64 } else { 0 }),
            cy0 == (if (y0 - margin) / 64 > 0 { (y0 - margin) / 64 } else { 0 }),
            cx1 == (if (x1 + margin) / 64 < world.width_chunks - 1 { (x1 + margin) / 64 } else { world.width_chunks - 1 }),
            cy1 == (if (y1 + margin) / 64 < world.height_chunks - 1 { (y1 + margin) / 64 } else { world.height_chunks - 1 }),
            cx0 >= 0,
            cy0 >= 0,
            cx1 <= wc - 1,
            cy1 <= hc - 1,
            cy0 <= cy,
            cy == cy0 || cy <= cy1 + 1,
            forall|ax: int, ay: int| cx0 <= ax <= cx1 && cy0 <= ay < cy ==> (#[trigger] world.chunk_at(ax, ay)).dirty.is_empty_spec(),
        decreases cy1 + 1 - cy,
    {
        let mut cx = cx0;
        while cx <= cx1
            invariant
                world.wf(),
                bbox == (x0, y0, x1, y1),
                wc == world.width_chunks,
                hc == world.height_chunks,
                cx0 == (if (x0 - margin) / 64 > 0 { (x0 - margin) / 64 } else { 0 }),
                cy0 == (if (y0 - margin) / 64 > 0 { (y0 - margin) / 64 } else { 0 }),
                cx1 == (if (x1 + margin) / 64 < world.width_chunks - 1 { (x1 + margin) / 64 } else { world.width_chunks - 1 }),
                cy1 == (if (y1 + margin) / 64 < world.height_chunks - 1 { (y1 + margin) / 64 } else { world.height_chunks - 1 }),
                cx0 >= 0,
                cy0 >= 0,
                cx1 <= wc - 1,
                cy1 <= hc - 1,
                cy0 <= cy <= cy1,
                cx0 <= cx,
                cx == cx0 || cx <= cx1 + 1,
                forall|ax: int, ay: int| cx0 <= ax <= cx1 && cy0 <= ay < cy ==> (#[trigger] world.chunk_at(ax, ay)).dirty.is_empty_spec(),
                forall|ax: int| cx0 <= ax < cx ==> (#[trigger] world.chunk_at(ax, cy as int)).dirty.is_empty_spec(),
            decreases cx1 + 1 - cx,
        {
            let ci = world.chunk_index(cx as usize, cy as usize);
            if !world.chunks[ci].dirty.is_empty() {
                proof {
                    assert(world.chunk_at(cx as int, cy as int) == world.chunks@[ci as int]);
                }
                return true;
            }
            proof {
                assert(world.chunk_at(cx as int, cy as int) == world.chunks@[ci as int]);
            }
            cx += 1;
        }
        cy += 1;
    }
    false
}

/// The hard-cell mask of chunk `(cx, cy)` (bodies excluded), row-major.
pub open spec fn terrain_mask(world: World, t: Seq<MaterialDef>, cx: int, cy: int) -> Seq<bool> {
    Seq::new(4096, |k: int| solid_spec(world.at(cx * 64 + k % 64, cy * 64 + k / 64), t, false))
}

/// Rectangle `r` moved by `(ox, oy)`.
pub open spec fn shifted(r: Rect, ox: int, oy: int) -> Rect {
    Rect { x0: (r.x0 + ox) as i32, y0: (r.y0 + oy) as i32, x1: (r.x1 + ox) as i32, y1: (r.y1 + oy) as i32 }
}

/// The hard cells of chunk `(cx, cy)` as world rectangles: the cover of its
/// hard-cell mask, moved to the chunk's origin.
pub fn terrain_rects(world: &World, table: &MaterialTable, cx: u32, cy: u32) -> (r: Vec<Rect>)
    requires
        world.wf(),
        world.mats_valid(table@.len() as int),
        table@.len() >= 2,
        cx * 64 + 63 <= i32::MAX,
        cy * 64 + 63 <= i32::MAX,
    ensures
        r@ == cover_spec(terrain_mask(*world, table@, cx as int, cy as int), 64, 64).map_values(
            |q: Rect| shifted(q, cx * 64, cy * 64),
        ),
{
    proof {
        crate::world::lemma_wall_mat();
    }
    let ox: i32 = (cx * 64) as i32;
    let oy: i32 = (cy * 64) as i32;
    let ghost tm = terrain_mask(*world, table@, cx as int, cy as int);
    let mut mask: Vec<bool> = Vec::new();
    let mut k: usize = 0;
    while k < 4096
        invariant
            world.wf(),
            world.mats_valid(table@.len() as int),
            table@.len() >= 2,
            ox == cx * 64,
            oy == cy * 64,
            cx * 64 + 63 <= i32::MAX,
            cy * 64 + 63 <= i32::MAX,
            k <= 4096,
            tm == terrain_mask(*world, table@, cx as int, cy as int),
            mask@ == tm.subrange(0, k as int),
        decreases 4096 - k,
    {
        let lx = (k % 64) as i32;
        let ly = (k / 64) as i32;
        let c = world.cell(ox + lx, oy + ly);
        proof {
            crate::world::lemma_wall_mat();
            if world.inb((ox + lx) as int, (oy + ly) as int) {
            }
        }
        let hard = is_solid(c, table, false);
        mask.push(hard);
        proof {
            assert(mask@ =~= tm.subrange(0, k as int + 1));
        }
        k += 1;
    }
    proof {
        assert(mask@ =~= tm);
    }
    let cover = rect_cover(mask.as_slice(), 64, 64);
    let mut out: Vec<Rect> = Vec::new();
    let mut i: usize = 0;
    while i < cover.len()
        invariant
            i <= cover@.len(),
            cover@ == cover_spec(tm, 64, 64),
            tm.len() == 4096,
            ox == cx * 64,
            oy == cy * 64,
            cx * 64 + 63 <= i32::MAX,
            cy * 64 + 63 <= i32::MAX,
            out@ == cover@.subrange(0, i as int).map_values(|q: Rect| shifted(q, cx * 64, cy * 64)),
        decreases cover@.len() - i,
    {
        let q = cover[i];
        proof {
            lemma_cover_maximal(tm, 64, 64, i as int);
        }
        out.push(Rect { x0: q.x0 + ox, y0: q.y0 + oy, x1: q.x1 + ox, y1: q.y1 + oy });
        proof {
            assert(out@ =~= cover@.subrange(0, i as int + 1).map_values(|q: Rect| shifted(q, cx * 64, cy * 64)));
        }
        i += 1;
    }
    proof {
        assert(cover@.subrange(0, cover@.len() as int) =~= cover@);
    }
    out
}

/// Every stamped cell lies inside the world.
pub open spec fn stamped_in(world: World, s: Seq<(i32, i32, u32)>) -> bool {
    forall|k: int| 0 <= k < s.len() ==> world.inb((#[trigger] s[k]).0 as int, s[k].1 as int)
}

/// A side neighbour that does not seal: not a body cell, and air, liquid or gas.
pub open spec fn leaks(c: Cell, t: Seq<MaterialDef>) -> bool {
    !c.bdy() && (c.mat() == crate::material::MAT_AIR || t[c.mat() as int].category == Category::Liquid
        || t[c.mat() as int].category == Category::Gas)
}

/// Whether pixel `p` has a leaking side neighbour.
pub open spec fn side_leaks(world: World, t: Seq<MaterialDef>, p: (i32, i32, u32)) -> bool {
    leaks(world.at(p.0 - 1, p.1 as int), t) || leaks(world.at(p.0 + 1, p.1 as int), t)
}

/// How many of the pixels `s` have a settled liquid right below.
pub open spec fn bottom_count(world: World, t: Seq<MaterialDef>, s: Seq<(i32, i32, u32)>) -> nat
    decreases s.len(),
{
    if s.len() == 0 {
        0
    } else {
        bottom_count(world, t, s.drop_last()) + if settled_spec(world.at(s.last().0 as int, s.last().1 + 1), t) {
            1nat
        } else {
            0nat
        }
    }
}

/// A sealed bottom: no stamped pixel has a leaking side neighbour and some
/// stamped pixel sits on a settled liquid; their number.
pub open spec fn sealed_spec(world: World, t: Seq<MaterialDef>, s: Seq<(i32, i32, u32)>) -> Option<nat> {
    if exists|k: int| 0 <= k < s.len() && side_leaks(world, t, #[trigger] s[k]) {
        None
    } else if bottom_count(world, t, s) > 0 {
        Some(bottom_count(world, t, s))
    } else {
        None
    }
}

/// A body held up by a sealed column of liquid (see [`sealed_spec`]): the
/// number of its pixels resting on settled liquid.
pub fn sealed_bottom(world: &World, table: &MaterialTable, body: &Body) -> (r: Option<usize>)
    requires
        world.wf(),
        world.mats_valid(table@.len() as int),
        table@.len() >= 2,
        stamped_in(*world, body.stamped@),
    ensures
        r matches Some(n) ==> sealed_spec(*world, table@, body.stamped@) == Some(n as nat),
        r is None ==> sealed_spec(*world, table@, body.stamped@) is None,
{
    proof {
        crate::world::lemma_wall_mat();
    }
    let ghost s = body.stamped@;
    let mut n: usize = 0;
    let mut k: usize = 0;
    while k < body.stamped.len()
        invariant
            world.wf(),
            world.mats_valid(table@.len() as int),
            table@.len() >= 2,
            s == body.stamped@,
            stamped_in(*world, s),
            k <= s.len(),
            n == bottom_count(*world, table@, s.subrange(0, k as int)),
            n <= k,
            forall|j: int| 0 <= j < k ==> !side_leaks(*world, table@, #[trigger] s[j]),
        decreases s.len() - k,
    {
        let (x, y, _) = body.stamped[k];
        proof {
            assert(world.inb(s[k as int].0 as int, s[k as int].1 as int));
            crate::world::lemma_wall_mat();
            if world.inb(x - 1, y as int) {
            }
            if world.inb(x + 1, y as int) {
            }
        }
        let l = world.cell(x - 1, y);
        if !l.is_body() {
            let m = l.material();
            let cat = table.category(m);
            if m == crate::material::MAT_AIR || cat == Category::Liquid || cat == Category::Gas {
                proof {
                    assert(side_leaks(*world, table@, s[k as int]));
                }
                return None;
            }
        }
        let rr = world.cell(x + 1, y);
        if !rr.is_body() {
            let m = rr.material();
            let cat = table.category(m);
            if m == crate::material::MAT_AIR || cat == Category::Liquid || cat == Category::Gas {
                proof {
                    assert(side_leaks(*world, table@, s[k as int]));
                }
                return None;
            }
        }
        proof {
            assert(s.subrange(0, k as int + 1).drop_last() =~= s.subrange(0, k as int));
        }
        if settled_liquid(world, table, x, y + 1) {
            n += 1;
        }
        k += 1;
    }
    proof {
        assert(s.subrange(0, s.len() as int) =~= s);
    }
    if n > 0 {
        Some(n)
    } else {
        None
    }
}

/// Whether the cell at `(x, y)` is a settled liquid.
pub open spec fn liq(world: World, t: Seq<MaterialDef>, x: int, y: int) -> bool {
    settled_spec(world.at(x, y), t)
}

/// The liquid contacts of one stamped pixel, left neighbour first: the
/// contact column, the pixel's row and the direction away from the pixel.
pub open spec fn pixel_events(world: World, t: Seq<MaterialDef>, p: (i32, i32, u32)) -> Seq<(int, int, int)> {
    (if liq(world, t, p.0 - 1, p.1 as int) { seq![(p.0 - 1, p.1 as int, -1int)] } else { seq![] })
        + (if liq(world, t, p.0 + 1, p.1 as int) { seq![(p.0 + 1, p.1 as int, 1int)] } else { seq![] })
}

/// The liquid contacts of the stamped pixels `s`, in order.
pub open spec fn events(world: World, t: Seq<MaterialDef>, s: Seq<(i32, i32, u32)>) -> Seq<(int, int, int)>
    decreases s.len(),
{
    if s.len() == 0 {
        seq![]
    } else {
        events(world, t, s.drop_last()) + pixel_events(world, t, s.last())
    }
}

/// The contact materials of the stamped pixels `s`, in contact order.
pub open spec fn contact_mats(world: World, s: Seq<(int, int, int)>) -> Seq<u8> {
    s.map_values(|e: (int, int, int)| world.at(e.0, e.1).mat())
}

/// What the contacts `e` say of column `x`: the highest contact row, the
/// lowest contact row and the direction of the first contact at that lowest row.
pub open spec fn entry(e: Seq<(int, int, int)>, x: int) -> Option<(int, int, int)>
    decreases e.len(),
{
    if e.len() == 0 {
        None
    } else {
        let prev = entry(e.drop_last(), x);
        let c = e.last();
        if c.0 != x {
            prev
        } else {
            match prev {
                None => Some((c.1, c.1, c.2)),
                Some((top, low, dir)) => Some((
                    if c.1 < top { c.1 } else { top },
                    if c.1 > low { c.1 } else { low },
                    if c.1 > low { c.2 } else { dir },
                )),
            }
        }
    }
}

/// Collect the liquid contacts of a body's stamped pixels and their materials.
fn collect_events(world: &World, table: &MaterialTable, body: &Body) -> (r: (Vec<(i32, i32, i32)>, Vec<u8>))
    requires
        world.wf(),
        world.mats_valid(table@.len() as int),
        table@.len() >= 2,
        stamped_in(*world, body.stamped@),
    ensures
        r.0@.len() == events(*world, table@, body.stamped@).len(),
        forall|i: int| 0 <= i < r.0@.len() ==> {
            let a = #[trigger] r.0@[i];
            let b = events(*world, table@, body.stamped@)[i];
            a.0 == b.0 && a.1 == b.1 && a.2 == b.2
        },
        r.1@ == contact_mats(*world, events(*world, table@, body.stamped@)),
{
    let ghost s = body.stamped@;
    let mut ev: Vec<(i32, i32, i32)> = Vec::new();
    let mut mats: Vec<u8> = Vec::new();
    let mut k: usize = 0;
    while k < body.stamped.len()
        invariant
            world.wf(),
            world.mats_valid(table@.len() as int),
            table@.len() >= 2,
            s == body.stamped@,
            stamped_in(*world, s),
            k <= s.len(),
            ev@.len() == events(*world, table@, s.subrange(0, k as int)).len(),
            forall|i: int| 0 <= i < ev@.len() ==> {
                let a = #[trigger] ev@[i];
                let b = events(*world, table@, s.subrange(0, k as int))[i];
                a.0 == b.0 && a.1 == b.1 && a.2 == b.2
            },
            mats@ == contact_mats(*world, events(*world, table@, s.subrange(0, k as int))),
        decreases s.len() - k,
    {
        let (x, y, _) = body.stamped[k];
        let ghost e0 = events(*world, table@, s.subrange(0, k as int));
        let ghost ev0 = ev@;
        proof {
            assert(world.inb(s[k as int].0 as int, s[k as int].1 as int));
            assert(s.subrange(0, k as int + 1).drop_last() =~= s.subrange(0, k as int));
            assert(s.subrange(0, k as int + 1).last() == s[k as int]);
        }
        let ghost pe = pixel_events(*world, table@, s[k as int]);
        if settled_liquid(world, table, x - 1, y) {
            ev.push((x - 1, y, -1));
            mats.push(world.cell(x - 1, y).material());
        }
        if settled_liquid(world, table, x + 1, y) {
            ev.push((x + 1, y, 1));
            mats.push(world.cell(x + 1, y).material());
        }
        proof {
            let e1 = events(*world, table@, s.subrange(0, k as int + 1));
            assert(e1 == e0 + pe);
            assert forall|i: int| 0 <= i < ev@.len() implies {
                let a = #[trigger] ev@[i];
                let b = e1[i];
                a.0 == b.0 && a.1 == b.1 && a.2 == b.2
            } by {
                if i < ev0.len() {
                    assert(ev@[i] == ev0[i]);
                    assert(e1[i] == e0[i]);
                }
            }
            assert(mats@ =~= contact_mats(*world, e1));
        }
        k += 1;
    }
    proof {
        assert(s.subrange(0, s.len() as int) =~= s);
    }
    (ev, mats)
}

/// The contacts of an exec vector, as integers.
pub open spec fn evs(v: Seq<(i32, i32, i32)>) -> Seq<(int, int, int)> {
    v.map_values(|a: (i32, i32, i32)| (a.0 as int, a.1 as int, a.2 as int))
}

/// What the contacts say of column `x` (see [`entry`]).
fn contact_entry(ev: &Vec<(i32, i32, i32)>, x: i32) -> (r: Option<(i32, i32, i32)>)
    ensures
        match r {
            Some(a) => entry(evs(ev@), x as int) == Some((a.0 as int, a.1 as int, a.2 as int)),
            None => entry(evs(ev@), x as int) is None,
        },
{
    let mut cur: Option<(i32, i32, i32)> = None;
    let mut i: usize = 0;
    while i < ev.len()
        invariant
            i <= ev@.len(),
            match cur {
                Some(a) => entry(evs(ev@.subrange(0, i as int)), x as int) == Some((a.0 as int, a.1 as int, a.2 as int)),
                None => entry(evs(ev@.subrange(0, i as int)), x as int) is None,
            },
        decreases ev@.len() - i,
    {
        let (cx, cy, d) = ev[i];
        proof {
            assert(evs(ev@.subrange(0, i as int + 1)).drop_last() =~= evs(ev@.subrange(0, i as int)));
            assert(evs(ev@.subrange(0, i as int + 1)).last() == (cx as int, cy as int, d as int));
        }
        if cx == x {
            cur = match cur {
                None => Some((cy, cy, d)),
                Some((top, low, dir)) => Some((
                    if cy < top { cy } else { top },
                    if cy > low { cy } else { low },
                    if cy > low { d } else { dir },
                )),
            };
        }
        i += 1;
    }
    proof {
        assert(ev@.subrange(0, ev@.len() as int) =~= ev@);
    }
    cur
}

/// How many cells from `(x + d, y)` on in direction `d`, at most
/// `SURFACE_REACH`, are settled liquid, counting from the `j`-th.
pub open spec fn run_from(world: World, t: Seq<MaterialDef>, x: int, y: int, d: int, j: int) -> int
    decreases 6 - j,
{
    if j > 5 || !liq(world, t, x + d * j, y) {
        j - 1
    } else {
        run_from(world, t, x, y, d, j + 1)
    }
}

/// The sampled columns of the contact column `x` whose lowest contact is at
/// row `low` in direction `d`: the settled liquid run beyond it.
fn run_len(world: &World, table: &MaterialTable, x: i32, low: i32, d: i32) -> (r: i32)
    requires
        world.wf(),
        world.mats_valid(table@.len() as int),
        table@.len() >= 2,
        d == 1 || d == -1,
        -0x4000_0000 <= x <= 0x4000_0000,
    ensures
        r == run_from(*world, table@, x as int, low as int, d as int, 1),
        0 <= r <= 5,
{
    let mut j: i32 = 1;
    while j <= 5
        invariant
            world.wf(),
            world.mats_valid(table@.len() as int),
            table@.len() >= 2,
            d == 1 || d == -1,
            -0x4000_0000 <= x <= 0x4000_0000,
            1 <= j <= 6,
            run_from(*world, table@, x as int, low as int, d as int, 1) == run_from(*world, table@, x as int, low as int, d as int, j as int),
        decreases 6 - j,
    {
        let off: i32 = if d > 0 { j } else { -j };
        proof {
            assert(d * j == off) by (nonlinear_arith)
                requires
                    d == 1 || d == -1,
                    off == (if d > 0 { j as int } else { -j }),
            ;
        }
        if !settled_liquid(world, table, x + off, low) {
            return j - 1;
        }
        j += 1;
    }
    5
}

/// Whether column `c` is sampled beside the contact column `x` (see [`run_from`]).
pub open spec fn sampled_by(world: World, t: Seq<MaterialDef>, e: Seq<(int, int, int)>, x: int, c: int) -> bool {
    &&& entry(e, x) is Some
    &&& {
        let (top, low, d) = entry(e, x)->Some_0;
        let i = (c - x) * d;
        1 <= i <= run_from(world, t, x, low, d, 1)
    }
}

/// Whether column `c` is sampled beside some contact column.
pub open spec fn sampled(world: World, t: Seq<MaterialDef>, e: Seq<(int, int, int)>, c: int) -> bool {
    exists|x: int| #[trigger] sampled_by(world, t, e, x, c)
}

/// Leftmost stamped column.
pub open spec fn xmin(s: Seq<(i32, i32, u32)>) -> int
    decreases s.len(),
{
    if s.len() <= 1 {
        if s.len() == 1 { s[0].0 as int } else { 0 }
    } else {
        let m = xmin(s.drop_last());
        if (s.last().0 as int) < m { s.last().0 as int } else { m }
    }
}

/// Rightmost stamped column.
pub open spec fn xmax(s: Seq<(i32, i32, u32)>) -> int
    decreases s.len(),
{
    if s.len() <= 1 {
        if s.len() == 1 { s[0].0 as int } else { 0 }
    } else {
        let m = xmax(s.drop_last());
        if (s.last().0 as int) > m { s.last().0 as int } else { m }
    }
}

/// Every stamped column lies between [`xmin`] and [`xmax`].
proof fn lemma_x_bounds(s: Seq<(i32, i32, u32)>)
    ensures
        forall|k: int| 0 <= k < s.len() ==> xmin(s) <= (#[trigger] s[k]).0 <= xmax(s),
    decreases s.len(),
{
    if s.len() > 1 {
        lemma_x_bounds(s.drop_last());
        assert forall|k: int| 0 <= k < s.len() implies xmin(s) <= (#[trigger] s[k]).0 <= xmax(s) by {
            if k < s.len() - 1 {
                assert(s[k] == s.drop_last()[k]);
            }
        }
    }
}

/// Every contact is one column beside a stamped pixel, pointing away from it.
proof fn lemma_events_shape(world: World, t: Seq<MaterialDef>, s: Seq<(i32, i32, u32)>)
    ensures
        forall|k: int| 0 <= k < events(world, t, s).len() ==> {
            let e = #[trigger] events(world, t, s)[k];
            &&& e.2 == 1 || e.2 == -1
            &&& exists|j: int| 0 <= j < s.len() && e.0 == s[j].0 + e.2 && e.1 == s[j].1
        },
    decreases s.len(),
{
    if s.len() > 0 {
        let d = s.drop_last();
        lemma_events_shape(world, t, d);
        let e0 = events(world, t, d);
        let pe = pixel_events(world, t, s.last());
        let es = events(world, t, s);
        assert(es == e0 + pe);
        assert forall|k: int| 0 <= k < es.len() implies {
            let e = #[trigger] es[k];
            &&& e.2 == 1 || e.2 == -1
            &&& exists|j: int| 0 <= j < s.len() && e.0 == s[j].0 + e.2 && e.1 == s[j].1
        } by {
            if k < e0.len() {
                assert(es[k] == e0[k]);
                let j = choose|j: int| 0 <= j < d.len() && e0[k].0 == d[j].0 + e0[k].2 && e0[k].1 == d[j].1;
                assert(s[j] == d[j]);
            } else {
                assert(es[k] == pe[k - e0.len()]);
                assert(s[s.len() - 1] == s.last());
            }
        }
    }
}

/// A column's entry comes from one of its contacts: its direction is that contact's.
proof fn lemma_entry_from(e: Seq<(int, int, int)>, x: int)
    ensures
        entry(e, x) is Some ==> exists|k: int| 0 <= k < e.len() && e[k].0 == x && e[k].2 == entry(e, x)->Some_0.2,
    decreases e.len(),
{
    if e.len() > 0 {
        let d = e.drop_last();
        lemma_entry_from(d, x);
        if entry(e, x) is Some {
            if e.last().0 == x && (entry(d, x) is None || e.last().1 > entry(d, x)->Some_0.1) {
                assert(e[e.len() - 1] == e.last());
            } else {
                let k = choose|k: int| 0 <= k < d.len() && d[k].0 == x && d[k].2 == entry(d, x)->Some_0.2;
                assert(e[k] == d[k]);
            }
        }
    }
}

/// A run counts at most `SURFACE_REACH` cells.
proof fn lemma_run_le(world: World, t: Seq<MaterialDef>, x: int, y: int, d: int, j: int)
    requires
        1 <= j <= 6,
    ensures
        j - 1 <= run_from(world, t, x, y, d, j) <= 5,
    decreases 6 - j,
{
    if j <= 5 && liq(world, t, x + d * j, y) {
        lemma_run_le(world, t, x, y, d, j + 1);
    }
}

/// Whether column `c` is sampled beside some contact column (see [`sampled`]).
fn is_sampled(world: &World, table: &MaterialTable, ev: &Vec<(i32, i32, i32)>, c: i32) -> (r: bool)
    requires
        world.wf(),
        world.mats_valid(table@.len() as int),
        table@.len() >= 2,
        -0x3000_0000 <= c <= 0x3000_0000,
        forall|k: int| 0 <= k < ev@.len() ==> (#[trigger] ev@[k]).2 == 1 || ev@[k].2 == -1,
    ensures
        r == sampled(*world, table@, evs(ev@), c as int),
{
    let ghost e = evs(ev@);
    let mut off: i32 = 1;
    while off <= 5
        invariant
            world.wf(),
            world.mats_valid(table@.len() as int),
            table@.len() >= 2,
            -0x3000_0000 <= c <= 0x3000_0000,
            forall|k: int| 0 <= k < ev@.len() ==> (#[trigger] ev@[k]).2 == 1 || ev@[k].2 == -1,
            e == evs(ev@),
            1 <= off <= 6,
            forall|x: int| 0 < c - x < off || 0 < x - c < off ==> !#[trigger] sampled_by(*world, table@, e, x, c as int),
        decreases 6 - off,
    {
        let mut side: usize = 0;
        while side < 2
            invariant
                world.wf(),
                world.mats_valid(table@.len() as int),
                table@.len() >= 2,
                -0x3000_0000 <= c <= 0x3000_0000,
                forall|k: int| 0 <= k < ev@.len() ==> (#[trigger] ev@[k]).2 == 1 || ev@[k].2 == -1,
                e == evs(ev@),
                1 <= off <= 5,
                side <= 2,
                forall|x: int| 0 < c - x < off || 0 < x - c < off ==> !#[trigger] sampled_by(*world, table@, e, x, c as int),
                side >= 1 ==> !sampled_by(*world, table@, e, c - off, c as int),
                side >= 2 ==> !sampled_by(*world, table@, e, c + off, c as int),
            decreases 2 - side,
        {
            let x: i32 = if side == 0 { c - off } else { c + off };
            match contact_entry(ev, x) {
                Some((_top, low, d)) => {
                    proof {
                        lemma_entry_from(e, x as int);
                        let k = choose|k: int| 0 <= k < e.len() && e[k].0 == x && e[k].2 == entry(e, x as int)->Some_0.2;
                        assert(e[k].2 == ev@[k].2);
                    }
                    let i: i32 = if d > 0 { c - x } else { x - c };
                    proof {
                        assert(i == (c - x) * d) by (nonlinear_arith)
                            requires
                                d == 1 || d == -1,
                                i == (if d > 0 { c - x } else { x - c }),
                        ;
                    }
                    if i >= 1 {
                        let n = run_len(world, table, x, low, d);
                        if i <= n {
                            proof {
                                assert(sampled_by(*world, table@, e, x as int, c as int));
                            }
                            return true;
                        }
                    }
                },
                None => {},
            }
            proof {
                assert(!sampled_by(*world, table@, e, x as int, c as int));
            }
            side += 1;
        }
        off += 1;
    }
    proof {
        assert forall|x: int| !#[trigger] sampled_by(*world, table@, e, x, c as int) by {
            if sampled_by(*world, table@, e, x, c as int) {
                let (top, low, d) = entry(e, x)->Some_0;
                lemma_entry_from(e, x);
                let k = choose|k: int| 0 <= k < e.len() && e[k].0 == x && e[k].2 == d;
                assert(e[k].2 == ev@[k].2);
                lemma_run_le(*world, table@, x, low, d, 1);
                let i = (c - x) * d;
                assert(0 < c - x <= 5 || 0 < x - c <= 5) by (nonlinear_arith)
                    requires
                        d == 1 || d == -1,
                        i == (c - x) * d,
                        1 <= i <= 5,
                ;
            }
        }
    }
    false
}

/// Whether candidate column `c` is picked: a sampled column when there is
/// one, else a contact column.
pub open spec fn pick(world: World, t: Seq<MaterialDef>, e: Seq<(int, int, int)>, any: bool, c: int) -> bool {
    if any { sampled(world, t, e, c) } else { entry(e, c) is Some }
}

/// The picked columns among `lo .. lo + n`, in increasing order.
pub open spec fn picked(world: World, t: Seq<MaterialDef>, e: Seq<(int, int, int)>, any: bool, lo: int, n: int) -> Seq<int>
    decreases n,
{
    if n <= 0 {
        seq![]
    } else {
        picked(world, t, e, any, lo, n - 1) + if pick(world, t, e, any, lo + n - 1) { seq![lo + n - 1] } else { seq![] }
    }
}

/// The sampled columns of a body whose stamped pixels are `s`, in increasing
/// order; the contact columns when no column is sampled.
pub open spec fn cols_of(world: World, t: Seq<MaterialDef>, s: Seq<(i32, i32, u32)>) -> Seq<int> {
    let e = events(world, t, s);
    let any = exists|c: int| sampled(world, t, e, c);
    picked(world, t, e, any, xmin(s) - 6, xmax(s) - xmin(s) + 13)
}

/// The first settled liquid of column `c` from row `y` down; `None` at a
/// body cell or once the world's last row is passed.
pub open spec fn first_liquid(world: World, t: Seq<MaterialDef>, c: int, y: int) -> Option<int>
    decreases world.h() - y,
{
    if world.at(c, y).bdy() {
        None
    } else if liq(world, t, c, y) {
        Some(y)
    } else if y >= world.h() - 1 {
        None
    } else {
        first_liquid(world, t, c, y + 1)
    }
}

/// The lowest first-liquid row over the columns `cs` (from row `y`), if any.
pub open spec fn lowest_surface(world: World, t: Seq<MaterialDef>, cs: Seq<int>, y: int) -> Option<int>
    decreases cs.len(),
{
    if cs.len() == 0 {
        None
    } else {
        let prev = lowest_surface(world, t, cs.drop_last(), y);
        match first_liquid(world, t, cs.last(), y) {
            Some(v) => Some(
                match prev {
                    Some(p) => if p > v { p } else { v },
                    None => v,
                },
            ),
            None => prev,
        }
    }
}

/// The highest contact row.
pub open spec fn top_row(e: Seq<(int, int, int)>) -> int
    decreases e.len(),
{
    if e.len() <= 1 {
        if e.len() == 1 { e[0].1 } else { 0 }
    } else {
        let m = top_row(e.drop_last());
        if e.last().1 < m { e.last().1 } else { m }
    }
}

/// The most frequent value of `s`, the smallest on a tie.
pub open spec fn mode_of(s: Seq<u8>) -> u8 {
    choose|r: u8|
        count_of(s, r) > 0 && (forall|v: u8| #[trigger] count_of(s, v) <= count_of(s, r)) && (forall|v: u8|
            v < r ==> #[trigger] count_of(s, v) < count_of(s, r))
}

/// The mode is unique.
proof fn lemma_mode_unique(s: Seq<u8>, r: u8)
    requires
        count_of(s, r) > 0,
        forall|v: u8| #[trigger] count_of(s, v) <= count_of(s, r),
        forall|v: u8| v < r ==> #[trigger] count_of(s, v) < count_of(s, r),
    ensures
        mode_of(s) == r,
{
    let m = mode_of(s);
    assert(count_of(s, m) > 0 && (forall|v: u8| #[trigger] count_of(s, v) <= count_of(s, m)) && (forall|v: u8|
        v < m ==> #[trigger] count_of(s, v) < count_of(s, m)));
    assert(count_of(s, m) <= count_of(s, r));
    assert(count_of(s, r) <= count_of(s, m));
    if m < r {
        assert(count_of(s, m) < count_of(s, r));
    }
    if r < m {
        assert(count_of(s, r) < count_of(s, m));
    }
}

/// The water line beside a body: `None` without a settled liquid beside any
/// stamped pixel; else the lowest first-liquid row over the sampled columns
/// (searched from the row above the box's top row), or the highest contact
/// row when no column finds one, the density of the most frequent contact
/// liquid, and the sampled columns.
pub open spec fn surface_spec(world: World, t: Seq<MaterialDef>, s: Seq<(i32, i32, u32)>, y0: int) -> Option<(int, u16, Seq<int>)> {
    let e = events(world, t, s);
    if e.len() == 0 {
        None
    } else {
        let cols = cols_of(world, t, s);
        let ya = if y0 - 1 > 0 { y0 - 1 } else { 0 };
        let h = match lowest_surface(world, t, cols, ya) {
            Some(v) => v,
            None => top_row(e),
        };
        Some((h, t[mode_of(contact_mats(world, e)) as int].density, cols))
    }
}

/// A counted value occurs in the sequence.
proof fn lemma_count_member(s: Seq<u8>, v: u8)
    requires
        count_of(s, v) > 0,
    ensures
        exists|k: int| 0 <= k < s.len() && s[k] == v,
    decreases s.len(),
{
    if s.last() == v {
        assert(s[s.len() - 1] == v);
    } else {
        lemma_count_member(s.drop_last(), v);
        let k = choose|k: int| 0 <= k < s.len() - 1 && s.drop_last()[k] == v;
        assert(s[k] == v);
    }
}

/// The first settled liquid of column `x` from row `y` down (see [`first_liquid`]).
fn first_liquid_at(world: &World, table: &MaterialTable, x: i32, y: i32) -> (r: Option<i32>)
    requires
        world.wf(),
        world.mats_valid(table@.len() as int),
        table@.len() >= 2,
        0 <= y,
    ensures
        match r {
            Some(v) => first_liquid(*world, table@, x as int, y as int) == Some(v as int),
            None => first_liquid(*world, table@, x as int, y as int) is None,
        },
{
    let hgt = world.height();
    let mut yy = y;
    loop
        invariant
            world.wf(),
            world.mats_valid(table@.len() as int),
            table@.len() >= 2,
            hgt == world.h(),
            y <= yy,
            first_liquid(*world, table@, x as int, yy as int) == first_liquid(*world, table@, x as int, y as int),
        decreases world.h() - yy,
    {
        let c = world.cell(x, yy);
        if c.is_body() {
            return None;
        }
        if settled_liquid(world, table, x, yy) {
            return Some(yy);
        }
        if yy >= hgt - 1 {
            return None;
        }
        yy += 1;
    }
}

/// The highest contact row (see [`top_row`]).
fn top_contact(ev: &Vec<(i32, i32, i32)>) -> (r: i32)
    ensures
        r == top_row(evs(ev@)),
{
    if ev.len() == 0 {
        return 0;
    }
    let mut m: i32 = ev[0].1;
    let mut i: usize = 1;
    while i < ev.len()
        invariant
            1 <= i <= ev@.len(),
            m == top_row(evs(ev@.subrange(0, i as int))),
        decreases ev@.len() - i,
    {
        proof {
            assert(evs(ev@.subrange(0, i as int + 1)).drop_last() =~= evs(ev@.subrange(0, i as int)));
        }
        let v = ev[i].1;
        if v < m {
            m = v;
        }
        i += 1;
    }
    proof {
        assert(ev@.subrange(0, ev@.len() as int) =~= ev@);
    }
    m
}

/// Contact columns lie one column beside the stamped ones; sampled columns
/// at most `SURFACE_REACH` further out.
proof fn lemma_cols_in_range(world: World, t: Seq<MaterialDef>, s: Seq<(i32, i32, u32)>, c: int)
    ensures
        entry(events(world, t, s), c) is Some ==> xmin(s) - 1 <= c <= xmax(s) + 1,
        sampled(world, t, events(world, t, s), c) ==> xmin(s) - 6 <= c <= xmax(s) + 6,
{
    let e = events(world, t, s);
    lemma_events_shape(world, t, s);
    lemma_x_bounds(s);
    lemma_entry_from(e, c);
    if entry(e, c) is Some {
        let k = choose|k: int| 0 <= k < e.len() && e[k].0 == c && e[k].2 == entry(e, c)->Some_0.2;
        let j = choose|j: int| 0 <= j < s.len() && e[k].0 == s[j].0 + e[k].2 && e[k].1 == s[j].1;
        assert(xmin(s) <= s[j].0 <= xmax(s));
    }
    if sampled(world, t, e, c) {
        let x = choose|x: int| #[trigger] sampled_by(world, t, e, x, c);
        lemma_entry_from(e, x);
        let (top, low, d) = entry(e, x)->Some_0;
        let k = choose|k: int| 0 <= k < e.len() && e[k].0 == x && e[k].2 == d;
        let j = choose|j: int| 0 <= j < s.len() && e[k].0 == s[j].0 + e[k].2 && e[k].1 == s[j].1;
        assert(xmin(s) <= s[j].0 <= xmax(s));
        lemma_run_le(world, t, x, low, d, 1);
        let i = (c - x) * d;
        assert(-5 <= c - x <= 5) by (nonlinear_arith)
            requires
                d == 1 || d == -1,
                i == (c - x) * d,
                1 <= i <= 5,
        ;
    }
}

/// The leftmost and rightmost stamped columns.
fn x_extent(world: &World, body: &Body) -> (r: (i32, i32))
    requires
        world.wf(),
        stamped_in(*world, body.stamped@),
        body.stamped@.len() > 0,
    ensures
        r.0 == xmin(body.stamped@),
        r.1 == xmax(body.stamped@),
        0 <= r.0 <= r.1 < world.w(),
{
    let ghost s = body.stamped@;
    let mut lo: i32 = body.stamped[0].0;
    let mut hi: i32 = body.stamped[0].0;
    let mut k: usize = 1;
    proof {
        assert(world.inb(s[0].0 as int, s[0].1 as int));
        assert(s.subrange(0, 1) =~= seq![s[0]]);
    }
    while k < body.stamped.len()
        invariant
            s == body.stamped@,
            stamped_in(*world, s),
            world.wf(),
            1 <= k <= s.len(),
            lo == xmin(s.subrange(0, k as int)),
            hi == xmax(s.subrange(0, k as int)),
            0 <= lo <= hi < world.w(),
        decreases s.len() - k,
    {
        let x = body.stamped[k].0;
        proof {
            assert(world.inb(s[k as int].0 as int, s[k as int].1 as int));
            assert(s.subrange(0, k as int + 1).drop_last() =~= s.subrange(0, k as int));
        }
        if x < lo {
            lo = x;
        }
        if x > hi {
            hi = x;
        }
        k += 1;
    }
    proof {
        assert(s.subrange(0, s.len() as int) =~= s);
    }
    (lo, hi)
}

/// Whether some column of `[lo, hi]` is sampled.
fn any_sampled(world: &World, table: &MaterialTable, ev: &Vec<(i32, i32, i32)>, lo: i32, hi: i32) -> (r: bool)
    requires
        world.wf(),
        world.mats_valid(table@.len() as int),
        table@.len() >= 2,
        -0x1000_0000 <= lo,
        hi <= 0x2000_0000,
        forall|k: int| 0 <= k < ev@.len() ==> (#[trigger] ev@[k]).2 == 1 || ev@[k].2 == -1,
    ensures
        r == exists|x: int| lo <= x <= hi && #[trigger] sampled(*world, table@, evs(ev@), x),
{
    let mut c: i32 = lo;
    while c <= hi
        invariant
            world.wf(),
            world.mats_valid(table@.len() as int),
            table@.len() >= 2,
            -0x1000_0000 <= lo,
            hi <= 0x2000_0000,
            lo <= c,
            c <= hi + 1 || c == lo,
            forall|k: int| 0 <= k < ev@.len() ==> (#[trigger] ev@[k]).2 == 1 || ev@[k].2 == -1,
            forall|x: int| lo <= x < c ==> !#[trigger] sampled(*world, table@, evs(ev@), x),
        decreases hi + 1 - c,
    {
        if is_sampled(world, table, ev, c) {
            return true;
        }
        c += 1;
    }
    false
}

/// The picked columns of `[lo, hi]` (see [`pick`]), in increasing order.
fn pick_cols(world: &World, table: &MaterialTable, ev: &Vec<(i32, i32, i32)>, any: bool, lo: i32, hi: i32) -> (r: Vec<i32>)
    requires
        world.wf(),
        world.mats_valid(table@.len() as int),
        table@.len() >= 2,
        -0x1000_0000 <= lo <= hi <= 0x2000_0000,
        forall|k: int| 0 <= k < ev@.len() ==> (#[trigger] ev@[k]).2 == 1 || ev@[k].2 == -1,
    ensures
        r@.map_values(|v: i32| v as int) == picked(*world, table@, evs(ev@), any, lo as int, hi - lo + 1),
{
    let mut cols: Vec<i32> = Vec::new();
    let mut c: i32 = lo;
    while c <= hi
        invariant
            world.wf(),
            world.mats_valid(table@.len() as int),
            table@.len() >= 2,
            -0x1000_0000 <= lo <= hi <= 0x2000_0000,
            lo <= c <= hi + 1,
            forall|k: int| 0 <= k < ev@.len() ==> (#[trigger] ev@[k]).2 == 1 || ev@[k].2 == -1,
            cols@.map_values(|v: i32| v as int) == picked(*world, table@, evs(ev@), any, lo as int, c - lo),
        decreases hi + 1 - c,
    {
        let take = if any { is_sampled(world, table, ev, c) } else { contact_entry(ev, c).is_some() };
        if take {
            cols.push(c);
        }
        proof {
            assert(cols@.map_values(|v: i32| v as int) =~= picked(*world, table@, evs(ev@), any, lo as int, c - lo + 1));
        }
        c += 1;
    }
    cols
}

/// The lowest first-liquid row over the columns `cols`, searched from row `ya`.
fn lowest_of(world: &World, table: &MaterialTable, cols: &Vec<i32>, ya: i32) -> (r: Option<i32>)
    requires
        world.wf(),
        world.mats_valid(table@.len() as int),
        table@.len() >= 2,
        0 <= ya,
    ensures
        match r {
            Some(v) => lowest_surface(*world, table@, cols@.map_values(|v: i32| v as int), ya as int) == Some(v as int),
            None => lowest_surface(*world, table@, cols@.map_values(|v: i32| v as int), ya as int) is None,
        },
{
    let ghost cs = cols@.map_values(|v: i32| v as int);
    let mut h: Option<i32> = None;
    let mut i: usize = 0;
    while i < cols.len()
        invariant
            world.wf(),
            world.mats_valid(table@.len() as int),
            table@.len() >= 2,
            0 <= ya,
            i <= cols@.len(),
            cs == cols@.map_values(|v: i32| v as int),
            match h {
                Some(v) => lowest_surface(*world, table@, cs.subrange(0, i as int), ya as int) == Some(v as int),
                None => lowest_surface(*world, table@, cs.subrange(0, i as int), ya as int) is None,
            },
        decreases cols@.len() - i,
    {
        let x = cols[i];
        proof {
            assert(cs.subrange(0, i as int + 1).drop_last() =~= cs.subrange(0, i as int));
            assert(cs.subrange(0, i as int + 1).last() == x as int);
        }
        let found = first_liquid_at(world, table, x, ya);
        match found {
            Some(yf) => {
                h = match h {
                    Some(p) => Some(if p > yf { p } else { yf }),
                    None => Some(yf),
                };
            },
            None => {},
        }
        i += 1;
    }
    proof {
        assert(cs.subrange(0, cs.len() as int) =~= cs);
    }
    h
}

/// The water line beside a body (see [`surface_spec`]): its row, the
/// density of the contact liquid and the sampled columns.
#[verifier::spinoff_prover]
#[verifier::rlimit(40)]
pub fn surface_line(world: &World, table: &MaterialTable, body: &Body, bbox: (i32, i32, i32, i32)) -> (r: Option<(i32, u16, Vec<i32>)>)
    requires
        world.wf(),
        world.mats_valid(table@.len() as int),
        table@.len() >= 2,
        world.w() <= 0x1000_0000,
        stamped_in(*world, body.stamped@),
        bbox.1 > i32::MIN,
    ensures
        match r {
            Some((h, rho, cols)) => surface_spec(*world, table@, body.stamped@, bbox.1 as int) == Some(
                (h as int, rho, cols@.map_values(|c: i32| c as int)),
            ),
            None => surface_spec(*world, table@, body.stamped@, bbox.1 as int) is None,
        },
{
    let ghost s = body.stamped@;
    let (ev, mats) = collect_events(world, table, body);
    let ghost e = events(*world, table@, s);
    proof {
        assert(evs(ev@) =~= e);
        lemma_events_shape(*world, table@, s);
        assert forall|k: int| 0 <= k < ev@.len() implies (#[trigger] ev@[k]).2 == 1 || ev@[k].2 == -1 by {
            assert(e[k].2 == ev@[k].2);
        }
    }
    if ev.len() == 0 {
        return None;
    }
    proof {
        if s.len() == 0 {
            assert(events(*world, table@, s).len() == 0);
        }
    }
    let (xa, xb) = x_extent(world, body);
    let lo = xa - 6;
    let hi = xb + 6;
    let any = any_sampled(world, table, &ev, lo, hi);
    proof {
        assert(any == exists|x: int| sampled(*world, table@, e, x)) by {
            assert forall|x: int| #[trigger] sampled(*world, table@, e, x) implies lo <= x <= hi by {
                lemma_cols_in_range(*world, table@, s, x);
            }
        }
    }
    let cols = pick_cols(world, table, &ev, any, lo, hi);
    let (_, y0, _, _) = bbox;
    let ya: i32 = if y0 - 1 > 0 { y0 - 1 } else { 0 };
    let h = lowest_of(world, table, &cols, ya);
    let hv = match h {
        Some(v) => v,
        None => top_contact(&ev),
    };
    let m = most_common(mats.as_slice());
    proof {
        lemma_mode_unique(mats@, m);
        crate::world::lemma_wall_mat();
        lemma_count_member(mats@, m);
        let k = choose|k: int| 0 <= k < mats@.len() && mats@[k] == m;
        assert(mats@[k] == world.at(e[k].0, e[k].1).mat());
        if world.inb(e[k].0, e[k].1) {
        }
    }
    let rho = table.density(m);
    Some((hv, rho, cols))
}

/// The state [`unstamp`] works on: the grid, the bitmap, the counters and
/// the dirty flag.
pub type UnstampState = (spec_fn(int, int) -> Cell, Seq<bool>, Seq<u8>, bool);

/// One stamped pixel `p` of a body of `material` taken off the grid: a cell
/// still stamped by the body gives its counter back to the pixel and becomes
/// air; any other cell means the pixel was destroyed (cleared, body dirty).
pub open spec fn unstamp_one(t: Seq<MaterialDef>, material: u8, stamp: u8, st: UnstampState, p: (i32, i32, u32)) -> UnstampState {
    let (g, mask, counter, dirty) = st;
    let c = g(p.0 as int, p.1 as int);
    if c.bdy() && c.mat() == material {
        (
            |a: int, b: int| if a == p.0 && b == p.1 { painted(t, crate::material::MAT_AIR, stamp, a) } else { g(a, b) },
            mask,
            counter.update(p.2 as int, c.ctr()),
            dirty,
        )
    } else {
        (g, mask.update(p.2 as int, false), counter.update(p.2 as int, 0), true)
    }
}

/// The stamped pixels `s` taken off one after another.
pub open spec fn unstamp_all(t: Seq<MaterialDef>, material: u8, stamp: u8, st: UnstampState, s: Seq<(i32, i32, u32)>) -> UnstampState
    decreases s.len(),
{
    if s.len() == 0 {
        st
    } else {
        unstamp_one(t, material, stamp, unstamp_all(t, material, stamp, st, s.drop_last()), s.last())
    }
}

/// Every stamped pixel index is inside the bitmap.
pub open spec fn indices_ok(b: Body) -> bool {
    &&& b.counter@.len() == b.mask@.len()
    &&& forall|k: int| 0 <= k < b.stamped@.len() ==> ((#[trigger] b.stamped@[k]).2 as int) < b.mask@.len()
}

/// Take a body off the grid, pixel by pixel in stamp order (see
/// [`unstamp_one`]); its stamp list is emptied.
pub fn unstamp(body: &mut Body, world: &mut World, table: &MaterialTable, stamp: u8)
    requires
        old(world).wf(),
        old(world).mats_valid(table@.len() as int),
        table@.len() >= 2,
        stamped_in(*old(world), old(body).stamped@),
        indices_ok(*old(body)),
    ensures
        final(world).wf(),
        final(world).same_shape(*old(world)),
        final(world).vaporized_total == old(world).vaporized_total,
        final(world).mats_valid(table@.len() as int),
        ({
            let r = unstamp_all(
                table@,
                old(body).material,
                stamp,
                (old(world).grid(), old(body).mask@, old(body).counter@, old(body).dirty),
                old(body).stamped@,
            );
            &&& final(world).grid() == r.0
            &&& final(body).mask@ == r.1
            &&& final(body).counter@ == r.2
            &&& final(body).dirty == r.3
        }),
        final(body).stamped@.len() == 0,
        final(body).id == old(body).id,
        final(body).material == old(body).material,
        final(body).w == old(body).w,
        final(body).h == old(body).h,
        final(body).last_h == old(body).last_h,
{
    let mut stamped: Vec<(i32, i32, u32)> = Vec::new();
    std::mem::swap(&mut stamped, &mut body.stamped);
    let ghost s = stamped@;
    let ghost w0 = *world;
    let ghost b0 = *body;
    let ghost st0: UnstampState = (w0.grid(), body.mask@, body.counter@, body.dirty);
    proof {
        crate::world::lemma_wall_mat();
    }
    let mut k: usize = 0;
    while k < stamped.len()
        invariant
            s == stamped@,
            world.wf(),
            world.same_shape(w0),
            world.vaporized_total == w0.vaporized_total,
            world.mats_valid(table@.len() as int),
            table@.len() >= 2,
            stamped_in(w0, s),
            body.counter@.len() == body.mask@.len(),
            forall|j: int| 0 <= j < s.len() ==> ((#[trigger] s[j]).2 as int) < body.mask@.len(),
            body.stamped@.len() == 0,
            body.id == b0.id,
            body.material == b0.material,
            body.w == b0.w,
            body.h == b0.h,
            body.last_h == b0.last_h,
            k <= s.len(),
            unstamp_all(table@, body.material, stamp, st0, s.subrange(0, k as int)) == (
                world.grid(),
                body.mask@,
                body.counter@,
                body.dirty,
            ),
        decreases s.len() - k,
    {
        let (x, y, idx) = stamped[k];
        let ghost wb = *world;
        let ghost before: UnstampState = (world.grid(), body.mask@, body.counter@, body.dirty);
        proof {
            assert(s.subrange(0, k as int + 1).drop_last() =~= s.subrange(0, k as int));
            assert(s.subrange(0, k as int + 1).last() == s[k as int]);
            assert(w0.inb(x as int, y as int));
            assert(world.grid()(x as int, y as int) == world.at(x as int, y as int));
        }
        let c = world.cell(x, y);
        if c.is_body() && c.material() == body.material {
            body.counter.set(idx as usize, c.counter());
            world.set_cell_stamped(table, x, y, crate::material::MAT_AIR, stamp);
            proof {
                assert(world.grid() =~= unstamp_one(table@, body.material, stamp, before, s[k as int]).0);
                assert forall|a: int, b: int| #[trigger] world.inb(a, b) implies (world.at(a, b).mat() as int) < table@.len() by {
                    assert(wb.inb(a, b));
                    crate::world::lemma_stamped_mat(crate::world::is_flowing(table@[0].category), 0, stamp, a);
                }
            }
        } else {
            body.mask.set(idx as usize, false);
            body.counter.set(idx as usize, 0);
            body.dirty = true;
        }
        k += 1;
    }
    proof {
        assert(s.subrange(0, s.len() as int) =~= s);
    }
}


/// The re-extraction queue is strictly increasing: sorted, no id twice.
pub open spec fn queue_ok(q: Seq<u16>) -> bool {
    forall|i: int, j: int| 0 <= i < j < q.len() ==> q[i] < q[j]
}

/// Put `id` into the sorted queue unless it is there already.
pub fn queue_insert(q: &mut Vec<u16>, id: u16)
    requires
        queue_ok(old(q)@),
    ensures
        queue_ok(final(q)@),
        forall|x: u16| #[trigger] final(q)@.contains(x) <==> (old(q)@.contains(x) || x == id),
{
    let ghost q0 = q@;
    let mut p: usize = 0;
    while p < q.len() && q[p] < id
        invariant
            q@ == q0,
            p <= q0.len(),
            forall|j: int| 0 <= j < p ==> q0[j] < id,
        decreases q0.len() - p,
    {
        p += 1;
    }
    if p < q.len() && q[p] == id {
        return;
    }
    q.insert(p, id);
    proof {
        let q1 = q@;
        assert(q1 == q0.insert(p as int, id));
        assert forall|j: int| p <= j < q0.len() implies id < #[trigger] q0[j] by {
            assert(q0[p as int] >= id);
            assert(q0[p as int] != id);
            if j > p {
                assert(q0[p as int] < q0[j]);
            }
        }
        assert forall|i: int, j: int| 0 <= i < j < q1.len() implies q1[i] < q1[j] by {
            if i < p && j < p {
            } else if i < p && j == p {
            } else if i < p {
                assert(q1[j] == q0[j - 1]);
            } else if i == p {
                assert(q1[j] == q0[j - 1]);
            } else {
                assert(q1[i] == q0[i - 1]);
                assert(q1[j] == q0[j - 1]);
            }
        }
        assert forall|x: u16| #[trigger] q1.contains(x) <==> (q0.contains(x) || x == id) by {
            if q1.contains(x) {
                let k = choose|k: int| 0 <= k < q1.len() && q1[k] == x;
                if k < p {
                    assert(q0[k] == x);
                } else if k > p {
                    assert(q0[k - 1] == x);
                }
            }
            if q0.contains(x) {
                let k = choose|k: int| 0 <= k < q0.len() && q0[k] == x;
                if k < p {
                    assert(q1[k] == x);
                } else {
                    assert(q1[k + 1] == x);
                }
            }
            if x == id {
                assert(q1[p as int] == id);
            }
        }
    }
}

/// What reconciliation makes of a body's pixels: the bitmap, the counters,
/// the pixels still stamped, and whether one was lost.
pub type ReconcileState = (Seq<bool>, Seq<u8>, Seq<(i32, i32, u32)>, bool);

/// Pixel `p` of a body of `material` is still on the grid: its cell is a
/// body cell of that material.
pub open spec fn pixel_alive(w: World, material: u8, p: (i32, i32, u32)) -> bool {
    w.at(p.0 as int, p.1 as int).bdy() && w.at(p.0 as int, p.1 as int).mat() == material
}

/// One stamped pixel checked: kept while alive, else cleared from the
/// bitmap and the counters.
pub open spec fn reconcile_one(w: World, material: u8, st: ReconcileState, p: (i32, i32, u32)) -> ReconcileState {
    let (mask, counter, kept, lost) = st;
    if pixel_alive(w, material, p) {
        (mask, counter, kept.push(p), lost)
    } else {
        (mask.update(p.2 as int, false), counter.update(p.2 as int, 0), kept, true)
    }
}

/// The stamped pixels `s` checked in order.
pub open spec fn reconcile_all(w: World, material: u8, st: ReconcileState, s: Seq<(i32, i32, u32)>) -> ReconcileState
    decreases s.len(),
{
    if s.len() == 0 {
        st
    } else {
        reconcile_one(w, material, reconcile_all(w, material, st, s.drop_last()), s.last())
    }
}

/// `nb` is body `b` reconciled against `w`: lost pixels leave its bitmap,
/// its counters and its stamp list, and a loss marks it dirty.
pub open spec fn reconciled(b: Body, w: World, nb: Body) -> bool {
    let r = reconcile_all(w, b.material, (b.mask@, b.counter@, Seq::empty(), false), b.stamped@);
    &&& nb.mask@ == r.0
    &&& nb.counter@ == r.1
    &&& nb.stamped@ == r.2
    &&& nb.dirty == (b.dirty || r.3)
    &&& nb.id == b.id
    &&& nb.material == b.material
    &&& nb.w == b.w
    &&& nb.h == b.h
    &&& nb.last_h == b.last_h
}

/// Reconcile one body with the grid.
pub fn reconcile_body(body: &mut Body, world: &World)
    requires
        world.wf(),
        indices_ok(*old(body)),
    ensures
        reconciled(*old(body), *world, *final(body)),
        indices_ok(*final(body)),
{
    let mut stamped: Vec<(i32, i32, u32)> = Vec::new();
    std::mem::swap(&mut stamped, &mut body.stamped);
    let ghost s = stamped@;
    let ghost b0 = *body;
    let ghost st0: ReconcileState = (body.mask@, body.counter@, Seq::empty(), false);
    let mut kept: Vec<(i32, i32, u32)> = Vec::new();
    let mut lost = false;
    let mut k: usize = 0;
    while k < stamped.len()
        invariant
            s == stamped@,
            world.wf(),
            body.counter@.len() == body.mask@.len(),
            body.mask@.len() == b0.mask@.len(),
            forall|j: int| 0 <= j < s.len() ==> ((#[trigger] s[j]).2 as int) < body.mask@.len(),
            forall|j: int| 0 <= j < kept@.len() ==> ((#[trigger] kept@[j]).2 as int) < body.mask@.len(),
            body.id == b0.id,
            body.material == b0.material,
            body.w == b0.w,
            body.h == b0.h,
            body.last_h == b0.last_h,
            body.dirty == b0.dirty,
            k <= s.len(),
            reconcile_all(*world, body.material, st0, s.subrange(0, k as int)) == (
                body.mask@,
                body.counter@,
                kept@,
                lost,
            ),
        decreases s.len() - k,
    {
        let (x, y, idx) = stamped[k];
        proof {
            assert(s.subrange(0, k as int + 1).drop_last() =~= s.subrange(0, k as int));
            assert(s.subrange(0, k as int + 1).last() == s[k as int]);
        }
        let c = world.cell(x, y);
        if c.is_body() && c.material() == body.material {
            kept.push((x, y, idx));
        } else {
            body.mask.set(idx as usize, false);
            body.counter.set(idx as usize, 0);
            lost = true;
        }
        k += 1;
    }
    proof {
        assert(s.subrange(0, s.len() as int) =~= s);
    }
    body.stamped = kept;
    if lost {
        body.dirty = true;
    }
}

/// The bodies' invariant: every stamped pixel index lies in its bitmap and
/// the re-extraction queue is strictly increasing.
pub open spec fn bodies_ok(list: Seq<Body>, q: Seq<u16>) -> bool {
    &&& queue_ok(q)
    &&& forall|i: int| 0 <= i < list.len() ==> indices_ok(#[trigger] list[i])
}

impl Bodies {
    /// Reconcile every body with the grid (see [`reconciled`]) and queue each
    /// dirty body for re-extraction; the queue stays sorted, each id once.
    pub fn reconcile(&mut self, world: &World)
        requires
            world.wf(),
            bodies_ok(old(self).list@, old(self).reextract_queue@),
        ensures
            bodies_ok(final(self).list@, final(self).reextract_queue@),
            final(self).list@.len() == old(self).list@.len(),
            forall|i: int| 0 <= i < old(self).list@.len() ==> reconciled(#[trigger] old(self).list@[i], *world, final(self).list@[i]),
            forall|x: u16| #[trigger] final(self).reextract_queue@.contains(x) <==> (old(self).reextract_queue@.contains(x) || exists|i: int|
                0 <= i < final(self).list@.len() && final(self).list@[i].dirty && #[trigger] final(self).list@[i].id == x),
            final(self).next_id == old(self).next_id,
            final(self).rejected_total == old(self).rejected_total,
            final(self).terrain_rebuilds == old(self).terrain_rebuilds,
    {
        let mut rest: Vec<Body> = Vec::new();
        std::mem::swap(&mut rest, &mut self.list);
        let ghost l0 = rest@;
        let ghost q0 = self.reextract_queue@;
        let mut done: Vec<Body> = Vec::new();
        while rest.len() > 0
            invariant
                world.wf(),
                self.next_id == old(self).next_id,
                self.rejected_total == old(self).rejected_total,
                self.terrain_rebuilds == old(self).terrain_rebuilds,
                done@.len() + rest@.len() == l0.len(),
                rest@ == l0.subrange(done@.len() as int, l0.len() as int),
                forall|i: int| 0 <= i < l0.len() ==> indices_ok(#[trigger] l0[i]),
                forall|i: int| 0 <= i < done@.len() ==> reconciled(#[trigger] l0[i], *world, done@[i]),
                forall|i: int| 0 <= i < done@.len() ==> indices_ok(#[trigger] done@[i]),
                queue_ok(self.reextract_queue@),
                forall|x: u16| #[trigger] self.reextract_queue@.contains(x) <==> (q0.contains(x) || exists|i: int|
                    0 <= i < done@.len() && done@[i].dirty && #[trigger] done@[i].id == x),
            decreases rest@.len(),
        {
            let ghost n = done@.len() as int;
            let mut b = rest.remove(0);
            proof {
                assert(b == l0[n]);
            }
            reconcile_body(&mut b, world);
            let dirty = b.dirty;
            let id = b.id;
            let ghost d0 = done@;
            let ghost qa = self.reextract_queue@;
            done.push(b);
            if dirty {
                queue_insert(&mut self.reextract_queue, id);
            }
            proof {
                assert(rest@ =~= l0.subrange(done@.len() as int, l0.len() as int));
                assert forall|i: int| 0 <= i < done@.len() implies reconciled(#[trigger] l0[i], *world, done@[i]) by {
                    if i < n {
                        assert(done@[i] == d0[i]);
                    }
                }
                assert forall|i: int| 0 <= i < done@.len() implies indices_ok(#[trigger] done@[i]) by {
                    if i < n {
                        assert(done@[i] == d0[i]);
                    }
                }
                assert forall|x: u16| #[trigger] self.reextract_queue@.contains(x) <==> (q0.contains(x) || exists|i: int|
                    0 <= i < done@.len() && done@[i].dirty && #[trigger] done@[i].id == x) by {
                    if exists|i: int| 0 <= i < done@.len() && done@[i].dirty && #[trigger] done@[i].id == x {
                        let i = choose|i: int| 0 <= i < done@.len() && done@[i].dirty && #[trigger] done@[i].id == x;
                        if i < n {
                            assert(d0[i] == done@[i]);
                            assert(qa.contains(x));
                        }
                    }
                    if qa.contains(x) && !q0.contains(x) {
                        let i = choose|i: int| 0 <= i < d0.len() && d0[i].dirty && #[trigger] d0[i].id == x;
                        assert(done@[i] == d0[i]);
                    }
                }
            }
        }
        self.list = done;
    }
}


/// The queue without `id`.
pub open spec fn queue_without(q: Seq<u16>, id: u16) -> Seq<u16>
    decreases q.len(),
{
    if q.len() == 0 {
        q
    } else if q.last() == id {
        queue_without(q.drop_last(), id)
    } else {
        queue_without(q.drop_last(), id).push(q.last())
    }
}

/// Index of the first body with id `id`.
pub(crate) fn position_of(list: &Vec<Body>, id: u16) -> (r: Option<usize>)
    ensures
        r matches Some(i) ==> first_with_id(list@, id, i as int),
        r is None ==> forall|i: int| 0 <= i < list@.len() ==> (#[trigger] list@[i]).id != id,
{
    let mut i: usize = 0;
    while i < list.len()
        invariant
            i <= list@.len(),
            forall|j: int| 0 <= j < i ==> (#[trigger] list@[j]).id != id,
        decreases list@.len() - i,
    {
        if list[i].id == id {
            return Some(i);
        }
        i += 1;
    }
    None
}

impl Bodies {
    /// Remove the first body with id `id`, if any, and take `id` out of the
    /// re-extraction queue; the removed body is handed back.
    pub fn remove(&mut self, id: u16) -> (r: Option<Body>)
        ensures
            match r {
                Some(b) => exists|i: int| {
                    &&& first_with_id(old(self).list@, id, i)
                    &&& b == old(self).list@[i]
                    &&& final(self).list@ == old(self).list@.remove(i)
                },
                None => {
                    &&& forall|i: int| 0 <= i < old(self).list@.len() ==> (#[trigger] old(self).list@[i]).id != id
                    &&& final(self).list@ == old(self).list@
                },
            },
            final(self).reextract_queue@ == queue_without(old(self).reextract_queue@, id),
            final(self).next_id == old(self).next_id,
            final(self).rejected_total == old(self).rejected_total,
            final(self).terrain_rebuilds == old(self).terrain_rebuilds,
    {
        let r = match position_of(&self.list, id) {
            Some(i) => Some(self.list.remove(i)),
            None => None,
        };
        let mut q: Vec<u16> = Vec::new();
        let mut k: usize = 0;
        while k < self.reextract_queue.len()
            invariant
                self.reextract_queue@ == old(self).reextract_queue@,
                k <= self.reextract_queue@.len(),
                q@ == queue_without(self.reextract_queue@.subrange(0, k as int), id),
            decreases self.reextract_queue@.len() - k,
        {
            proof {
                let qs = self.reextract_queue@;
                assert(qs.subrange(0, k as int + 1).drop_last() =~= qs.subrange(0, k as int));
                assert(qs.subrange(0, k as int + 1).last() == qs[k as int]);
            }
            let v = self.reextract_queue[k];
            if v != id {
                q.push(v);
            }
            k += 1;
        }
        proof {
            assert(self.reextract_queue@.subrange(0, self.reextract_queue@.len() as int) =~= self.reextract_queue@);
        }
        self.reextract_queue = q;
        r
    }
}


/// A sleeping body wakes when its water line appeared or vanished, moved by
/// at least `WAKE_H_ROWS` rows, or when at least `WAKE_TOP_LOAD_CELLS` cells
/// of liquid are heaped on it.
pub open spec fn wakes_spec(h_now: i32, last_h: i32, top_cells: usize) -> bool {
    let moved = if h_now == NO_SURFACE && last_h == NO_SURFACE {
        false
    } else if h_now == NO_SURFACE || last_h == NO_SURFACE {
        true
    } else {
        h_now - last_h >= WAKE_H_ROWS || last_h - h_now >= WAKE_H_ROWS
    };
    moved || top_cells >= WAKE_TOP_LOAD_CELLS
}

/// Whether a sleeping body wakes (see [`wakes_spec`]); `top_cells` is the
/// number of liquid cells heaped on it (0 for none).
pub fn sleeper_wakes(h_now: i32, last_h: i32, top_cells: usize) -> (r: bool)
    ensures
        r == wakes_spec(h_now, last_h, top_cells),
{
    let moved = if h_now == NO_SURFACE && last_h == NO_SURFACE {
        false
    } else if h_now == NO_SURFACE || last_h == NO_SURFACE {
        true
    } else {
        let d = (h_now as i64) - (last_h as i64);
        d >= WAKE_H_ROWS as i64 || -d >= WAKE_H_ROWS as i64
    };
    moved || top_cells >= WAKE_TOP_LOAD_CELLS
}

/// Whether some sample column holds settled liquid in row `yy`.
pub open spec fn col_settled(w: World, t: Seq<MaterialDef>, cols: Seq<i32>, yy: int) -> bool {
    exists|k: int| 0 <= k < cols.len() && settled_spec(w.at(#[trigger] cols[k] as int, yy), t)
}

/// The cells of the unbroken run of settled liquid in column `x` from row
/// `yy` upwards (stopping above row 0), keeping the rows where no sample
/// column is settled liquid.
pub open spec fn climb(w: World, t: Seq<MaterialDef>, cols: Seq<i32>, x: i32, yy: int) -> Seq<(i32, i32)>
    decreases yy + 1,
{
    if yy < 0 || !settled_spec(w.at(x as int, yy), t) {
        seq![]
    } else {
        (if !col_settled(w, t, cols, yy) { seq![(x, yy as i32)] } else { seq![] }) + climb(w, t, cols, x, yy - 1)
    }
}

/// The liquid heaped on a body above the water around it: over each stamped
/// pixel in order, the cells [`climb`] gives from the row above it.
pub open spec fn load_cells(w: World, t: Seq<MaterialDef>, s: Seq<(i32, i32, u32)>, cols: Seq<i32>) -> Seq<(i32, i32)>
    decreases s.len(),
{
    if s.len() == 0 {
        seq![]
    } else {
        load_cells(w, t, s.drop_last(), cols) + climb(w, t, cols, s.last().0, s.last().1 - 1)
    }
}

/// The materials of cells `c`.
pub open spec fn mats_of(w: World, c: Seq<(i32, i32)>) -> Seq<u8> {
    c.map_values(|p: (i32, i32)| w.at(p.0 as int, p.1 as int).mat())
}

fn any_col_settled(world: &World, table: &MaterialTable, cols: &[i32], yy: i32) -> (r: bool)
    requires
        world.wf(),
        world.mats_valid(table@.len() as int),
        table@.len() >= 2,
    ensures
        r == col_settled(*world, table@, cols@, yy as int),
{
    let mut k: usize = 0;
    while k < cols.len()
        invariant
            world.wf(),
            world.mats_valid(table@.len() as int),
            table@.len() >= 2,
            k <= cols@.len(),
            forall|j: int| 0 <= j < k ==> !settled_spec(world.at(#[trigger] cols@[j] as int, yy as int), table@),
        decreases cols@.len() - k,
    {
        if settled_liquid(world, table, cols[k], yy) {
            return true;
        }
        k += 1;
    }
    false
}

/// The liquid cells heaped on a body (see [`load_cells`]) and the density
/// of their most common material (the smallest id on a tie); `None` when
/// there are none. `cols` are the sample columns of its water line.
pub fn top_load_cells(world: &World, table: &MaterialTable, body: &Body, cols: &[i32]) -> (r: Option<(Vec<(i32, i32)>, u16)>)
    requires
        world.wf(),
        world.mats_valid(table@.len() as int),
        table@.len() >= 2,
        forall|k: int| 0 <= k < body.stamped@.len() ==> (#[trigger] body.stamped@[k]).1 > i32::MIN,
    ensures
        match r {
            None => load_cells(*world, table@, body.stamped@, cols@).len() == 0,
            Some((c, rho)) => {
                &&& c@ == load_cells(*world, table@, body.stamped@, cols@)
                &&& c@.len() > 0
                &&& rho == table@[mode_of(mats_of(*world, c@)) as int].density
            },
        },
{
    let ghost s = body.stamped@;
    let mut cells: Vec<(i32, i32)> = Vec::new();
    let mut mats: Vec<u8> = Vec::new();
    let mut k: usize = 0;
    proof {
        crate::world::lemma_wall_mat();
    }
    while k < body.stamped.len()
        invariant
            s == body.stamped@,
            world.wf(),
            world.mats_valid(table@.len() as int),
            table@.len() >= 2,
            forall|q: int| 0 <= q < s.len() ==> (#[trigger] s[q]).1 > i32::MIN,
            k <= s.len(),
            cells@ == load_cells(*world, table@, s.subrange(0, k as int), cols@),
            mats@ == mats_of(*world, cells@),
        decreases s.len() - k,
    {
        let (x, y, _) = body.stamped[k];
        let ghost c0 = cells@;
        proof {
            assert(s.subrange(0, k as int + 1).drop_last() =~= s.subrange(0, k as int));
            assert(s.subrange(0, k as int + 1).last() == s[k as int]);
            assert(s[k as int].1 > i32::MIN);
        }
        let mut yy: i32 = y - 1;
        while yy >= 0 && settled_liquid(world, table, x, yy)
            invariant
                world.wf(),
                world.mats_valid(table@.len() as int),
                table@.len() >= 2,
                yy <= y - 1,
                c0 + climb(*world, table@, cols@, x, (y - 1) as int) == cells@ + climb(*world, table@, cols@, x, yy as int),
                mats@ == mats_of(*world, cells@),
            decreases yy + 1,
        {
            let ghost cb = cells@;
            if !any_col_settled(world, table, cols, yy) {
                cells.push((x, yy));
                mats.push(world.cell(x, yy).material());
                proof {
                    assert(cells@ == cb + seq![(x, yy)]);
                }
            }
            proof {
                assert(mats@ =~= mats_of(*world, cells@));
                assert(climb(*world, table@, cols@, x, yy as int) == (if !col_settled(*world, table@, cols@, yy as int) {
                    seq![(x, yy)]
                } else {
                    seq![]
                }) + climb(*world, table@, cols@, x, yy - 1));
                assert(cells@ + climb(*world, table@, cols@, x, yy - 1) =~= cb + climb(*world, table@, cols@, x, yy as int));
            }
            yy -= 1;
        }
        proof {
            assert(climb(*world, table@, cols@, x, yy as int) =~= Seq::<(i32, i32)>::empty());
            assert(cells@ =~= c0 + climb(*world, table@, cols@, x, (y - 1) as int));
        }
        k += 1;
    }
    proof {
        assert(s.subrange(0, s.len() as int) =~= s);
    }
    if cells.len() == 0 {
        return None;
    }
    let m = most_common(mats.as_slice());
    proof {
        lemma_mode_unique(mats@, m);
        lemma_count_member(mats@, m);
        let q = choose|q: int| 0 <= q < mats@.len() && mats@[q] == m;
        assert(mats@[q] == world.at(cells@[q].0 as int, cells@[q].1 as int).mat());
        crate::world::lemma_wall_mat();
        if world.inb(cells@[q].0 as int, cells@[q].1 as int) {
        }
    }
    let rho = table.density(m);
    Some((cells, rho))
}


/// Chunk `(cx, cy)` lies within `TERRAIN_MARGIN` chunks of the chunks of
/// the cell box `b`.
pub open spec fn near_box(b: (i32, i32, i32, i32), cx: int, cy: int) -> bool {
    &&& b.0 / 64 - TERRAIN_MARGIN <= cx <= b.2 / 64 + TERRAIN_MARGIN
    &&& b.1 / 64 - TERRAIN_MARGIN <= cy <= b.3 / 64 + TERRAIN_MARGIN
}

/// Chunk `(cx, cy)` of the world needs terrain: it is near one of `boxes`.
pub open spec fn terrain_needed(w: World, boxes: Seq<(i32, i32, i32, i32)>, cx: int, cy: int) -> bool {
    &&& 0 <= cx < w.width_chunks
    &&& 0 <= cy < w.height_chunks
    &&& exists|k: int| 0 <= k < boxes.len() && near_box(#[trigger] boxes[k], cx, cy)
}

/// Chunk coordinates in increasing order, by column and then by row.
pub open spec fn chunk_lt(a: (u32, u32), b: (u32, u32)) -> bool {
    a.0 < b.0 || (a.0 == b.0 && a.1 < b.1)
}

fn near_any(boxes: &Vec<(i32, i32, i32, i32)>, cx: i64, cy: i64) -> (r: bool)
    ensures
        r == exists|k: int| 0 <= k < boxes@.len() && near_box(#[trigger] boxes@[k], cx as int, cy as int),
{
    let mut k: usize = 0;
    while k < boxes.len()
        invariant
            k <= boxes@.len(),
            forall|j: int| 0 <= j < k ==> !near_box(#[trigger] boxes@[j], cx as int, cy as int),
        decreases boxes@.len() - k,
    {
        let (x0, y0, x1, y1) = boxes[k];
        let ax = floor_div64(x0 as i64) - TERRAIN_MARGIN as i64;
        let bx = floor_div64(x1 as i64) + TERRAIN_MARGIN as i64;
        let ay = floor_div64(y0 as i64) - TERRAIN_MARGIN as i64;
        let by = floor_div64(y1 as i64) + TERRAIN_MARGIN as i64;
        if ax <= cx && cx <= bx && ay <= cy && cy <= by {
            return true;
        }
        k += 1;
    }
    false
}

/// The chunks whose terrain the bodies with cell boxes `boxes` need: every
/// chunk of the world within `TERRAIN_MARGIN` chunks of a box's chunks,
/// each once, by column and then by row.
pub fn terrain_chunks(world: &World, boxes: &Vec<(i32, i32, i32, i32)>) -> (r: Vec<(u32, u32)>)
    requires
        world.wf(),
    ensures
        forall|k: int| 0 <= k < r@.len() ==> terrain_needed(*world, boxes@, (#[trigger] r@[k]).0 as int, r@[k].1 as int),
        forall|cx: int, cy: int| #[trigger] terrain_needed(*world, boxes@, cx, cy) ==> r@.contains((cx as u32, cy as u32)),
        forall|i: int, j: int| 0 <= i < j < r@.len() ==> chunk_lt(#[trigger] r@[i], #[trigger] r@[j]),
{
    let wc = world.width_chunks;
    let hc = world.height_chunks;
    let mut r: Vec<(u32, u32)> = Vec::new();
    let mut cx: usize = 0;
    while cx < wc
        invariant
            world.wf(),
            wc == world.width_chunks,
            hc == world.height_chunks,
            cx <= wc,
            forall|k: int| 0 <= k < r@.len() ==> terrain_needed(*world, boxes@, (#[trigger] r@[k]).0 as int, r@[k].1 as int),
            forall|k: int| 0 <= k < r@.len() ==> ((#[trigger] r@[k]).0 as int) < cx,
            forall|a: int, b: int| #[trigger] terrain_needed(*world, boxes@, a, b) && a < cx ==> r@.contains((a as u32, b as u32)),
            forall|i: int, j: int| 0 <= i < j < r@.len() ==> chunk_lt(#[trigger] r@[i], #[trigger] r@[j]),
        decreases wc - cx,
    {
        let ghost r0 = r@;
        let mut cy: usize = 0;
        while cy < hc
            invariant
                world.wf(),
                wc == world.width_chunks,
                hc == world.height_chunks,
                cx < wc,
                cy <= hc,
                r0.len() <= r@.len(),
                forall|k: int| 0 <= k < r0.len() ==> #[trigger] r@[k] == r0[k],
                forall|k: int| 0 <= k < r0.len() ==> ((#[trigger] r0[k]).0 as int) < cx,
                forall|k: int| r0.len() <= k < r@.len() ==> (#[trigger] r@[k]).0 == cx && (r@[k].1 as int) < cy,
                forall|k: int| 0 <= k < r@.len() ==> terrain_needed(*world, boxes@, (#[trigger] r@[k]).0 as int, r@[k].1 as int),
                forall|a: int, b: int| #[trigger] terrain_needed(*world, boxes@, a, b) && a < cx ==> r0.contains((a as u32, b as u32)),
                forall|b: int| #[trigger] terrain_needed(*world, boxes@, cx as int, b) && b < cy ==> r@.contains((cx as u32, b as u32)),
                forall|i: int, j: int| 0 <= i < j < r@.len() ==> chunk_lt(#[trigger] r@[i], #[trigger] r@[j]),
            decreases hc - cy,
        {
            let ghost rb = r@;
            if near_any(boxes, cx as i64, cy as i64) {
                r.push((cx as u32, cy as u32));
                proof {
                    assert(terrain_needed(*world, boxes@, cx as int, cy as int));
                    assert(r@[r@.len() - 1] == (cx as u32, cy as u32));
                    assert forall|i: int, j: int| 0 <= i < j < r@.len() implies chunk_lt(#[trigger] r@[i], #[trigger] r@[j]) by {
                        if j == r@.len() - 1 && i < rb.len() {
                            assert(r@[i] == rb[i]);
                            if i < r0.len() {
                                assert(r@[i] == r0[i]);
                            }
                        }
                    }
                    assert forall|b: int| #[trigger] terrain_needed(*world, boxes@, cx as int, b) && b < cy + 1 implies r@.contains((cx as u32, b as u32)) by {
                        if b < cy {
                            assert(rb.contains((cx as u32, b as u32)));
                            let q = choose|q: int| 0 <= q < rb.len() && rb[q] == (cx as u32, b as u32);
                            assert(r@[q] == rb[q]);
                        } else {
                            assert(r@[r@.len() - 1] == (cx as u32, cy as u32));
                        }
                    }
                    assert forall|a: int, b: int| #[trigger] terrain_needed(*world, boxes@, a, b) && a < cx implies r0.contains((a as u32, b as u32)) by {}
                }
            } else {
                proof {
                    assert forall|b: int| #[trigger] terrain_needed(*world, boxes@, cx as int, b) && b < cy + 1 implies r@.contains((cx as u32, b as u32)) by {
                        if b == cy {
                            assert(!terrain_needed(*world, boxes@, cx as int, cy as int));
                        }
                    }
                }
            }
            cy += 1;
        }
        proof {
            assert forall|a: int, b: int| #[trigger] terrain_needed(*world, boxes@, a, b) && a < cx + 1 implies r@.contains((a as u32, b as u32)) by {
                if a < cx {
                    assert(r0.contains((a as u32, b as u32)));
                    let q = choose|q: int| 0 <= q < r0.len() && r0[q] == (a as u32, b as u32);
                    assert(r@[q] == r0[q]);
                }
            }
        }
        cx += 1;
    }
    r
}


/// The terrain rectangles of chunk `(cx, cy)` (see [`terrain_rects`]).
pub open spec fn terrain_spec(w: World, t: Seq<MaterialDef>, cx: int, cy: int) -> Seq<Rect> {
    cover_spec(terrain_mask(w, t, cx, cy), 64, 64).map_values(|q: Rect| shifted(q, cx * 64, cy * 64))
}

fn same_rects(a: &Vec<Rect>, b: &Vec<Rect>) -> (r: bool)
    ensures
        r == (a@ == b@),
{
    if a.len() != b.len() {
        return false;
    }
    let mut i: usize = 0;
    while i < a.len()
        invariant
            a@.len() == b@.len(),
            i <= a@.len(),
            forall|j: int| 0 <= j < i ==> a@[j] == b@[j],
        decreases a@.len() - i,
    {
        if a[i] != b[i] {
            return false;
        }
        i += 1;
    }
    proof {
        assert(a@ =~= b@);
    }
    true
}

/// What chunk `(cx, cy)`'s terrain needs, given the rectangles `cached` for
/// it: nothing (`None`) when cached and the chunk had no writes last tick,
/// or when its hard cells still give the cached rectangles; else its new
/// rectangles, for the physics engine.
pub fn terrain_refresh(world: &World, table: &MaterialTable, cx: u32, cy: u32, cached: Option<&Vec<Rect>>) -> (r: Option<Vec<Rect>>)
    requires
        world.wf(),
        world.mats_valid(table@.len() as int),
        table@.len() >= 2,
        (cx as int) < world.width_chunks,
        (cy as int) < world.height_chunks,
    ensures
        ({
            let clean = cached is Some && world.chunk_at(cx as int, cy as int).dirty.is_empty_spec();
            let fresh = terrain_spec(*world, table@, cx as int, cy as int);
            match r {
                None => clean || (cached is Some && cached->Some_0@ == fresh),
                Some(v) => !clean && v@ == fresh && (cached is None || cached->Some_0@ != fresh),
            }
        }),
{
    let ci = world.chunk_index(cx as usize, cy as usize);
    let clean = match cached {
        Some(_) => world.chunks[ci].dirty.is_empty(),
        None => false,
    };
    if clean {
        return None;
    }
    let rects = terrain_rects(world, table, cx, cy);
    match cached {
        Some(c) => {
            if same_rects(c, &rects) {
                None
            } else {
                Some(rects)
            }
        },
        None => Some(rects),
    }
}

} // verus!
