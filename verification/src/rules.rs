//! Movement rules of powders and liquids, dispatched on the material's
//! category. One chunk is scanned bottom-up, each row in the direction given
//! by the tick's phase and the row's parity; every move swaps two cells, so
//! the amount of every material is kept.

use vstd::prelude::*;

use crate::cell::{cell_from_bits, lemma_cell_from_bits, lemma_cell_view_injective, Cell};
use crate::chunk::DirtyRect;
use crate::material::{Category, MaterialTable, DISPERSION_MAX, MAT_AIR};
use crate::rng::{rng_spec, rng_u32, scan_flip, scan_flip_spec, STREAM_DIAG};
use crate::window::WriteWindow;
use crate::world::{ind, lemma_nd_marked_view, marks_after, nd_view, world_count, Marks, World};

verus! {

/// `c` with its stamp replaced by `s`.
pub open spec fn restamped(c: Cell, s: u8) -> Cell {
    cell_from_bits((c@ & !0xff00u32) | ((s as u32) << 8u32))
}

/// `c` with its direction memory set to `right`.
pub open spec fn redirected(c: Cell, right: bool) -> Cell {
    cell_from_bits(if right { c@ | 0x1_0000u32 } else { c@ & !0x1_0000u32 })
}

/// Whether `(x, y)` lies in the window's own chunk.
pub open spec fn in_own(win: WriteWindow, x: int, y: int) -> bool {
    win.ocx * 64 <= x < win.ocx * 64 + 64 && win.ocy * 64 <= y < win.ocy * 64 + 64
}

/// Whether a cell holding `c` may move into a cell holding `t`: `t` is air,
/// or a lighter non-static material.
pub open spec fn may_displace(tb: Seq<crate::material::MaterialDef>, c: Cell, t: Cell) -> bool {
    t.mat() == MAT_AIR || (tb[t.mat() as int].category != Category::Static && tb[t.mat() as int].density
        < tb[c.mat() as int].density)
}

/// `new` is `old` with `(x1, y1)` set to `c1` and then `(x2, y2)` set to `c2`.
pub open spec fn two_writes(new: World, old: World, x1: int, y1: int, c1: Cell, x2: int, y2: int, c2: Cell) -> bool {
    forall|a: int, b: int| #[trigger]
        new.at(a, b) == if a == x2 && b == y2 {
            c2
        } else if a == x1 && b == y1 {
            c1
        } else {
            old.at(a, b)
        }
}

/// Every material keeps its cell count.
pub open spec fn counts_kept(new: World, old: World) -> bool {
    forall|m: u8| #[trigger] world_count(new, m) == world_count(old, m)
}

/// What a rule step may change besides cells: dirty marks grow, the live
/// rectangle grows, nothing else.
pub open spec fn step_frame(nw: World, ow: World, nwin: WriteWindow, owin: WriteWindow) -> bool {
    &&& nw.wf()
    &&& nw.same_shape(ow)
    &&& nw.same_scan(ow)
    &&& nw.nd_grows(ow)
    &&& nw.vaporized_total == ow.vaporized_total
    &&& nwin.fits(nw)
    &&& nwin.width_chunks == owin.width_chunks && nwin.ocx == owin.ocx && nwin.ocy == owin.ocy
    &&& nwin.wx0 == owin.wx0 && nwin.wx1 == owin.wx1 && nwin.wy0 == owin.wy0 && nwin.wy1 == owin.wy1
    &&& nwin.own_ci == owin.own_ci && nwin.world_w == owin.world_w && nwin.world_h == owin.world_h
    &&& nwin.live.x0 <= owin.live.x0 && nwin.live.y0 <= owin.live.y0
    &&& nwin.live.x1 >= owin.live.x1 && nwin.live.y1 >= owin.live.y1
    &&& (live_ok(owin.live) ==> live_ok(nwin.live))
    &&& forall|a: int, b: int| !owin.has(a, b) ==> #[trigger] nw.at(a, b) == ow.at(a, b)
    &&& nw.rects_ok() || !ow.rects_ok()
}

/// A live rectangle inside the chunk (or the canonical empty one).
pub open spec fn live_ok(r: DirtyRect) -> bool {
    (r.x0 <= 63 && r.x1 <= 63 && r.y0 <= 63 && r.y1 <= 63) || (r.x0 == 255 && r.y0 == 255 && r.x1 <= 63 && r.y1 <= 63)
}

/// A frame step followed by another is a frame step.
pub proof fn lemma_frame_trans(w2: World, w1: World, w0: World, n2: WriteWindow, n1: WriteWindow, n0: WriteWindow)
    requires
        step_frame(w1, w0, n1, n0),
        step_frame(w2, w1, n2, n1),
    ensures
        step_frame(w2, w0, n2, n0),
{
    crate::world::lemma_grows_trans(w2, w1, w0);
    assert forall|i: int| 0 <= i < w2.chunks@.len() implies {
        &&& (#[trigger] w2.chunks@[i]).dirty == w0.chunks@[i].dirty
        &&& w2.chunks@[i].spawn_buf@ == w0.chunks@[i].spawn_buf@
    } by {
        assert(w1.chunks@[i].dirty == w0.chunks@[i].dirty);
    }
    assert forall|a: int, b: int| !n0.has(a, b) implies #[trigger] w2.at(a, b) == w0.at(a, b) by {
        assert(w1.at(a, b) == w0.at(a, b));
    }
}

/// No change at all is a frame step.
pub proof fn lemma_frame_refl(w: World, n: WriteWindow)
    requires
        n.fits(w),
    ensures
        step_frame(w, w, n, n),
        counts_kept(w, w),
{
    crate::world::lemma_grows_refl(w);
}

/// One write through the window keeps the frame.
proof fn lemma_set_frame(nw: World, ow: World, nwin: WriteWindow, owin: WriteWindow, x: int, y: int)
    requires
        nw.wf(),
        nw.same_shape(ow),
        nw.same_scan(ow),
        nw.vaporized_total == ow.vaporized_total,
        nw.nd_marked(ow, x, y),
        owin.fits(ow),
        ow.inb(x, y),
        nwin == (WriteWindow { live: owin.live_after(ow.w(), ow.h(), x, y), ..owin }),
        nwin.fits(nw),
        owin.has(x, y),
        forall|a: int, b: int| !(a == x && b == y) ==> #[trigger] nw.at(a, b) == ow.at(a, b),
    ensures
        step_frame(nw, ow, nwin, owin),
{
    crate::world::lemma_marked_grows(nw, ow, x, y);
    if ow.rects_ok() {
        crate::world::lemma_marked_rects(nw, ow, x, y);
    }
}

/// Restamping: the executable setter gives [`restamped`], keeping the material.
pub fn restamp(c: Cell, s: u8) -> (r: Cell)
    ensures
        r == restamped(c, s),
        r.mat() == c.mat(),
{
    let r = c.with_stamp(s);
    proof {
        lemma_cell_from_bits((c@ & !0xff00u32) | ((s as u32) << 8u32));
        lemma_cell_view_injective(r, restamped(c, s));
    }
    r
}

/// Redirecting: the executable setter gives [`redirected`], keeping the material.
pub fn redirect(c: Cell, right: bool) -> (r: Cell)
    ensures
        r == redirected(c, right),
        r.mat() == c.mat(),
{
    let r = c.with_dir(right);
    proof {
        lemma_cell_from_bits(if right { c@ | 0x1_0000u32 } else { c@ & !0x1_0000u32 });
        lemma_cell_view_injective(r, redirected(c, right));
    }
    r
}

/// The common preconditions of a rule step at `(x, y)`.
pub open spec fn step_ok(world: World, win: WriteWindow, tb: Seq<crate::material::MaterialDef>, x: int, y: int) -> bool {
    &&& win.fits(world)
    &&& world.mats_valid(tb.len() as int)
    &&& crate::material::table_valid(tb)
    &&& in_own(win, x, y)
    &&& world.inb(x, y)
    &&& live_ok(win.live)
}

/// A cell within 9 columns and 1 row of a cell of the own chunk, if inside
/// the world, is inside the window.
proof fn lemma_near_in_window(world: World, win: WriteWindow, x: int, y: int, nx: int, ny: int)
    requires
        win.fits(world),
        in_own(win, x, y),
        -9 <= nx - x <= 9,
        -1 <= ny - y <= 1,
    ensures
        world.inb(nx, ny) ==> win.has(nx, ny),
{
}

/// Move `c` (the cell at `(x, y)`) into `(nx, ny)` if that cell is air or a
/// lighter non-static material; the two cells swap, both stamped.
fn displace(
    win: &mut WriteWindow,
    world: &mut World,
    table: &MaterialTable,
    stamp: u8,
    x: i32,
    y: i32,
    c: Cell,
    nx: i32,
    ny: i32,
) -> (r: bool)
    requires
        step_ok(*old(world), *old(win), table@, x as int, y as int),
        old(world).at(x as int, y as int) == c,
        -1 <= nx - x <= 1,
        ny == y + 1,
    ensures
        step_ok(*final(world), *final(win), table@, x as int, y as int),
        step_frame(*final(world), *old(world), *final(win), *old(win)),
        counts_kept(*final(world), *old(world)),
        ({
            let t = old(world).at(nx as int, ny as int);
            &&& r == may_displace(table@, c, t)
            &&& r ==> two_writes(*final(world), *old(world), nx as int, ny as int, restamped(c, stamp), x as int, y as int, restamped(t, stamp))
            &&& !r ==> *final(world) == *old(world) && *final(win) == *old(win)
        }),
        *final(win) == win_moved(*old(win), old(world).w(), old(world).h(), x as int, y as int,
            displace_move(old(world).grid(), table@, stamp, x as int, y as int, c, nx as int, ny as int)),
        nd_view(*final(world)) == marks_moved(nd_view(*old(world)), old(world).w(), old(world).h(), x as int, y as int,
            displace_move(old(world).grid(), table@, stamp, x as int, y as int, c, nx as int, ny as int)),
{
    proof {
        lemma_near_in_window(*world, *win, x as int, y as int, nx as int, ny as int);
        crate::world::lemma_wall_mat();
    }
    let t = win.get(world, nx, ny);
    let tm = t.material();
    let ok = tm == MAT_AIR || (!table.is_static(tm) && table.density(tm) < table.density(c.material()));
    if !ok {
        proof {
            lemma_frame_refl(*world, *win);
        }
        return false;
    }
    proof {
        // an air or movable target lies inside the world (outside is wall)
        if !world.inb(nx as int, ny as int) {
            assert(t.mat() == 1);
        }
    }
    let ghost (w0, n0) = (*world, *win);
    let c1 = restamp(c, stamp);
    win.set(world, nx, ny, c1);
    let ghost (w1, n1) = (*world, *win);
    proof {
        lemma_set_frame(w1, w0, n1, n0, nx as int, ny as int);
        lemma_nd_marked_view(w1, w0, nx as int, ny as int);
    }
    let t1 = restamp(t, stamp);
    win.set(world, x, y, t1);
    proof {
        lemma_nd_marked_view(*world, w1, x as int, y as int);
        lemma_set_frame(*world, w1, *win, n1, x as int, y as int);
        lemma_frame_trans(*world, w1, w0, *win, n1, n0);
        assert forall|m: u8| #[trigger] world_count(*world, m) == world_count(w0, m) by {
            assert(world_count(w1, m) + ind(w0.at(nx as int, ny as int).mat() == m) == world_count(w0, m) + ind(c1.mat() == m));
            assert(world_count(*world, m) + ind(w1.at(x as int, y as int).mat() == m) == world_count(w1, m) + ind(t1.mat() == m));
        }
        assert forall|a: int, b: int| #[trigger] world.inb(a, b) implies (world.at(a, b).mat() as int) < table@.len() by {
            assert(w0.inb(a, b));
        }
    }
    true
}

/// Column `i` cells from `x` in direction `d` (`d > 0`: right).
pub open spec fn sx(x: int, d: int, i: int) -> int {
    if d > 0 { x + i } else { x - i }
}

/// How many consecutive air cells lie beside `(x, y)` in direction `d`,
/// looking at most `reach` cells far, counting from the `i`-th.
pub open spec fn side_run(g: spec_fn(int, int) -> Cell, x: int, y: int, d: int, i: int, reach: int) -> int
    decreases reach - i + 1,
{
    if i > reach || g(sx(x, d, i), y).mat() != MAT_AIR {
        i - 1
    } else {
        side_run(g, x, y, d, i + 1, reach)
    }
}

/// Reach of a sideways flow of material `m`: its dispersion, at most `DISPERSION_MAX`.
pub open spec fn reach_of(tb: Seq<crate::material::MaterialDef>, m: u8) -> int {
    let d = tb[m as int].dispersion;
    if d < DISPERSION_MAX { d as int } else { DISPERSION_MAX as int }
}

/// A move of the cell at `(x, y)`: the target cell and the two cells written
/// (at the target, then back at `(x, y)`).
pub type Move = (int, int, Cell, Cell);

/// The sideways flow of `c` at `(x, y)` in direction `d`: to the farthest
/// reachable air cell, remembering the direction.
pub open spec fn side_move(g: spec_fn(int, int) -> Cell, tb: Seq<crate::material::MaterialDef>, stamp: u8, x: int, y: int, c: Cell, d: int) -> Option<Move> {
    let k = side_run(g, x, y, d, 1, reach_of(tb, c.mat()));
    let far = sx(x, d, k);
    if k > 0 {
        Some((far, y, restamped(redirected(c, d > 0), stamp), restamped(g(far, y), stamp)))
    } else {
        None
    }
}

/// The swap of `c` at `(x, y)` into `(nx, ny)`, when allowed.
pub open spec fn displace_move(g: spec_fn(int, int) -> Cell, tb: Seq<crate::material::MaterialDef>, stamp: u8, x: int, y: int, c: Cell, nx: int, ny: int) -> Option<Move> {
    let t = g(nx, ny);
    if may_displace(tb, c, t) {
        Some((nx, ny, restamped(c, stamp), restamped(t, stamp)))
    } else {
        None
    }
}

/// The first of two candidate moves that applies.
pub open spec fn first_move(a: Option<Move>, b: Option<Move>) -> Option<Move> {
    if a is Some { a } else { b }
}

/// The diagonal side of this tick at `(x, y)`: +1 or -1.
pub open spec fn diag_spec(fseed: u32, x: int, y: int) -> int {
    if rng_spec(fseed, STREAM_DIAG, x as i32, y as i32, 0, 0) & 1 == 0 { 1 } else { -1 }
}

/// A powder falls, else slides diagonally (this tick's side first).
pub open spec fn powder_move(g: spec_fn(int, int) -> Cell, tb: Seq<crate::material::MaterialDef>, stamp: u8, fseed: u32, x: int, y: int, c: Cell) -> Option<Move> {
    let s = diag_spec(fseed, x, y);
    first_move(
        displace_move(g, tb, stamp, x, y, c, x, y + 1),
        first_move(
            displace_move(g, tb, stamp, x, y, c, x + s, y + 1),
            displace_move(g, tb, stamp, x, y, c, x - s, y + 1),
        ),
    )
}

/// A liquid moves like a powder, else flows sideways (remembered direction first).
pub open spec fn liquid_move(g: spec_fn(int, int) -> Cell, tb: Seq<crate::material::MaterialDef>, stamp: u8, fseed: u32, x: int, y: int, c: Cell) -> Option<Move> {
    let d = if c.right() { 1int } else { -1int };
    first_move(
        powder_move(g, tb, stamp, fseed, x, y, c),
        first_move(side_move(g, tb, stamp, x, y, c, d), side_move(g, tb, stamp, x, y, c, -d)),
    )
}

/// The window after move `mv` of the cell at `(x, y)` of a `w x h` world:
/// the live rectangle takes the write at the target, then the one at `(x, y)`.
pub open spec fn win_moved(n: WriteWindow, w: int, h: int, x: int, y: int, mv: Option<Move>) -> WriteWindow {
    match mv {
        Some((tx, ty, _c1, _c2)) => {
            let n1 = WriteWindow { live: n.live_after(w, h, tx, ty), ..n };
            WriteWindow { live: n1.live_after(w, h, x, y), ..n1 }
        },
        None => n,
    }
}

/// Write rectangles after move `mv` of the cell at `(x, y)`: the write at
/// the target, then the one at `(x, y)`.
pub open spec fn marks_moved(m: Marks, w: int, h: int, x: int, y: int, mv: Option<Move>) -> Marks {
    match mv {
        Some((tx, ty, _c1, _c2)) => marks_after(marks_after(m, w, h, tx, ty), w, h, x, y),
        None => m,
    }
}

/// `new` is `old` after move `mv` of the cell at `(x, y)` (unchanged for no move).
pub open spec fn moved(new: World, old: World, x: int, y: int, mv: Option<Move>) -> bool {
    match mv {
        Some((tx, ty, c1, c2)) => two_writes(new, old, tx, ty, c1, x, y, c2),
        None => new == old,
    }
}

fn diag_side(fseed: u32, x: i32, y: i32) -> (r: i32)
    ensures
        r == diag_spec(fseed, x as int, y as int),
{
    if rng_u32(fseed, STREAM_DIAG, x, y, 0, 0) & 1 == 0 {
        1
    } else {
        -1
    }
}

/// Flow sideways in direction `d` to the farthest air cell within reach.
fn side(
    win: &mut WriteWindow,
    world: &mut World,
    table: &MaterialTable,
    stamp: u8,
    x: i32,
    y: i32,
    c: Cell,
    d: i32,
) -> (r: bool)
    requires
        step_ok(*old(world), *old(win), table@, x as int, y as int),
        old(world).at(x as int, y as int) == c,
        d == 1 || d == -1,
    ensures
        step_ok(*final(world), *final(win), table@, x as int, y as int),
        step_frame(*final(world), *old(world), *final(win), *old(win)),
        counts_kept(*final(world), *old(world)),
        r == side_move(old(world).grid(), table@, stamp, x as int, y as int, c, d as int) is Some,
        moved(*final(world), *old(world), x as int, y as int, side_move(old(world).grid(), table@, stamp, x as int, y as int, c, d as int)),
        !r ==> *final(win) == *old(win),
        *final(win) == win_moved(*old(win), old(world).w(), old(world).h(), x as int, y as int,
            side_move(old(world).grid(), table@, stamp, x as int, y as int, c, d as int)),
        nd_view(*final(world)) == marks_moved(nd_view(*old(world)), old(world).w(), old(world).h(), x as int, y as int,
            side_move(old(world).grid(), table@, stamp, x as int, y as int, c, d as int)),
{
    let ghost w0 = *world;
    proof {
        crate::world::lemma_wall_mat();
    }
    let disp = table.dispersion(c.material());
    let reach: i32 = (if disp < DISPERSION_MAX { disp } else { DISPERSION_MAX }) as i32;
    let mut far = x;
    let mut far_cell = Cell::air();
    let mut i: i32 = 1;
    let mut going = true;
    while going && i <= reach
        invariant
            step_ok(*world, *win, table@, x as int, y as int),
            *world == w0,
            d == 1 || d == -1,
            0 <= reach <= 8,
            reach == reach_of(table@, c.mat()),
            1 <= i <= reach + 1,
            going ==> far == sx(x as int, d as int, i - 1),
            going ==> side_run(w0.grid(), x as int, y as int, d as int, 1, reach as int) == side_run(w0.grid(), x as int, y as int, d as int, i as int, reach as int),
            !going ==> side_run(w0.grid(), x as int, y as int, d as int, 1, reach as int) == i - 1 && far == sx(x as int, d as int, i - 1),
            i > 1 ==> far_cell == w0.at(far as int, y as int),
            i > 1 ==> far_cell.mat() == MAT_AIR,
        decreases reach + 1 - i, if going { 1int } else { 0int },
    {
        let nx = if d > 0 { x + i } else { x - i };
        proof {
            lemma_near_in_window(*world, *win, x as int, y as int, nx as int, y as int);
        }
        let t = win.get(world, nx, y);
        if t.material() != MAT_AIR {
            going = false;
        } else {
            far = nx;
            far_cell = t;
            i += 1;
        }
    }
    let ghost k = side_run(w0.grid(), x as int, y as int, d as int, 1, reach as int);
    proof {
        if going {
            assert(side_run(w0.grid(), x as int, y as int, d as int, i as int, reach as int) == i - 1);
        }
        assert(k == i - 1);
    }
    if far == x {
        proof {
            lemma_frame_refl(*world, *win);
        }
        return false;
    }
    proof {
        assert(k > 0);
        assert(w0.inb(far as int, y as int)) by {
            if !w0.inb(far as int, y as int) {
                assert(w0.at(far as int, y as int).mat() == 1);
            }
        }
        lemma_near_in_window(*world, *win, x as int, y as int, far as int, y as int);
    }
    let ghost (n0) = *win;
    let c1 = restamp(redirect(c, d > 0), stamp);
    win.set(world, far, y, c1);
    let ghost (w1, n1) = (*world, *win);
    proof {
        lemma_set_frame(w1, w0, n1, n0, far as int, y as int);
        lemma_nd_marked_view(w1, w0, far as int, y as int);
    }
    let c2 = restamp(far_cell, stamp);
    win.set(world, x, y, c2);
    proof {
        lemma_nd_marked_view(*world, w1, x as int, y as int);
        lemma_set_frame(*world, w1, *win, n1, x as int, y as int);
        lemma_frame_trans(*world, w1, w0, *win, n1, n0);
        assert forall|m: u8| #[trigger] world_count(*world, m) == world_count(w0, m) by {
            assert(world_count(w1, m) + ind(w0.at(far as int, y as int).mat() == m) == world_count(w0, m) + ind(c1.mat() == m));
            assert(world_count(*world, m) + ind(w1.at(x as int, y as int).mat() == m) == world_count(w1, m) + ind(c2.mat() == m));
        }
        assert forall|a: int, b: int| #[trigger] world.inb(a, b) implies (world.at(a, b).mat() as int) < table@.len() by {
            assert(w0.inb(a, b));
        }
    }
    true
}

/// A powder at `(x, y)` holding `c`: fall, else slide diagonally.
fn powder_step(win: &mut WriteWindow, world: &mut World, table: &MaterialTable, stamp: u8, fseed: u32, x: i32, y: i32, c: Cell)
    requires
        step_ok(*old(world), *old(win), table@, x as int, y as int),
        old(world).at(x as int, y as int) == c,
    ensures
        step_ok(*final(world), *final(win), table@, x as int, y as int),
        step_frame(*final(world), *old(world), *final(win), *old(win)),
        counts_kept(*final(world), *old(world)),
        moved(*final(world), *old(world), x as int, y as int, powder_move(old(world).grid(), table@, stamp, fseed, x as int, y as int, c)),
        powder_move(old(world).grid(), table@, stamp, fseed, x as int, y as int, c) is None ==> *final(win) == *old(win),
        *final(win) == win_moved(*old(win), old(world).w(), old(world).h(), x as int, y as int,
            powder_move(old(world).grid(), table@, stamp, fseed, x as int, y as int, c)),
        nd_view(*final(world)) == marks_moved(nd_view(*old(world)), old(world).w(), old(world).h(), x as int, y as int,
            powder_move(old(world).grid(), table@, stamp, fseed, x as int, y as int, c)),
{
    if displace(win, world, table, stamp, x, y, c, x, y + 1) {
        return;
    }
    let s = diag_side(fseed, x, y);
    if displace(win, world, table, stamp, x, y, c, x + s, y + 1) {
        return;
    }
    let _ = displace(win, world, table, stamp, x, y, c, x - s, y + 1);
}

/// A liquid at `(x, y)` holding `c`: move like a powder, else flow sideways.
fn liquid_step(win: &mut WriteWindow, world: &mut World, table: &MaterialTable, stamp: u8, fseed: u32, x: i32, y: i32, c: Cell)
    requires
        step_ok(*old(world), *old(win), table@, x as int, y as int),
        old(world).at(x as int, y as int) == c,
    ensures
        step_ok(*final(world), *final(win), table@, x as int, y as int),
        step_frame(*final(world), *old(world), *final(win), *old(win)),
        counts_kept(*final(world), *old(world)),
        moved(*final(world), *old(world), x as int, y as int, liquid_move(old(world).grid(), table@, stamp, fseed, x as int, y as int, c)),
        *final(win) == win_moved(*old(win), old(world).w(), old(world).h(), x as int, y as int,
            liquid_move(old(world).grid(), table@, stamp, fseed, x as int, y as int, c)),
        nd_view(*final(world)) == marks_moved(nd_view(*old(world)), old(world).w(), old(world).h(), x as int, y as int,
            liquid_move(old(world).grid(), table@, stamp, fseed, x as int, y as int, c)),
{
    let ghost (w0, n0) = (*world, *win);
    if displace(win, world, table, stamp, x, y, c, x, y + 1) {
        return;
    }
    let s = diag_side(fseed, x, y);
    if displace(win, world, table, stamp, x, y, c, x + s, y + 1) {
        return;
    }
    if displace(win, world, table, stamp, x, y, c, x - s, y + 1) {
        return;
    }
    let d = c.dir();
    if side(win, world, table, stamp, x, y, c, d) {
        return;
    }
    let _ = side(win, world, table, stamp, x, y, c, -d);
}

/// The move of the cell at `(x, y)` this pass: powders and liquids not yet
/// moved this tick (stamp differs) move; everything else stays.
pub open spec fn eval_move(g: spec_fn(int, int) -> Cell, tb: Seq<crate::material::MaterialDef>, stamp: u8, fseed: u32, x: int, y: int) -> Option<Move> {
    let c = g(x, y);
    let cat = tb[c.mat() as int].category;
    if cat == Category::Static || c.stmp() == stamp {
        None
    } else if cat == Category::Powder {
        powder_move(g, tb, stamp, fseed, x, y, c)
    } else if cat == Category::Liquid {
        liquid_move(g, tb, stamp, fseed, x, y, c)
    } else {
        None
    }
}

/// Evaluate the cell at `(x, y)` of the own chunk.
fn eval(win: &mut WriteWindow, world: &mut World, table: &MaterialTable, stamp: u8, fseed: u32, x: i32, y: i32)
    requires
        step_ok(*old(world), *old(win), table@, x as int, y as int),
    ensures
        step_ok(*final(world), *final(win), table@, x as int, y as int),
        step_frame(*final(world), *old(world), *final(win), *old(win)),
        counts_kept(*final(world), *old(world)),
        moved(*final(world), *old(world), x as int, y as int, eval_move(old(world).grid(), table@, stamp, fseed, x as int, y as int)),
        *final(win) == win_moved(*old(win), old(world).w(), old(world).h(), x as int, y as int,
            eval_move(old(world).grid(), table@, stamp, fseed, x as int, y as int)),
        nd_view(*final(world)) == marks_moved(nd_view(*old(world)), old(world).w(), old(world).h(), x as int, y as int,
            eval_move(old(world).grid(), table@, stamp, fseed, x as int, y as int)),
{
    proof {
        lemma_near_in_window(*world, *win, x as int, y as int, x as int, y as int);
        lemma_frame_refl(*world, *win);
    }
    let c = win.get(world, x, y);
    let m = c.material();
    if !table.is_static(m) && c.stamp() != stamp {
        match table.category(m) {
            Category::Powder => powder_step(win, world, table, stamp, fseed, x, y, c),
            Category::Liquid => liquid_step(win, world, table, stamp, fseed, x, y, c),
            _ => {},
        }
    }
}

/// Grid `g` after move `mv` of the cell at `(x, y)`: the target takes the
/// first written cell, then `(x, y)` the second.
pub open spec fn grid_moved(g: spec_fn(int, int) -> Cell, x: int, y: int, mv: Option<Move>) -> spec_fn(int, int) -> Cell {
    match mv {
        Some((tx, ty, c1, c2)) => |a: int, b: int|
            if a == x && b == y {
                c2
            } else if a == tx && b == ty {
                c1
            } else {
                g(a, b)
            },
        None => g,
    }
}

/// The fixed inputs of one chunk pass.
pub struct PassCtx {
    pub tb: Seq<crate::material::MaterialDef>,
    pub stamp: u8,
    pub fseed: u32,
    pub flip: u64,
    pub ox: int,
    pub oy: int,
    pub w: int,
    pub h: int,
}

/// The pass inputs of tick `tick` for the chunk at `(ox, oy)` of a `w x h` world.
pub open spec fn pass_ctx(tb: Seq<crate::material::MaterialDef>, tick: u64, fseed: u32, ox: int, oy: int, w: int, h: int) -> PassCtx {
    PassCtx { tb, stamp: (tick % 256) as u8, fseed, flip: scan_flip_spec(fseed), ox, oy, w, h }
}

/// One cell evaluation of a pass: the grid and the window after it.
pub open spec fn eval_at(k: PassCtx, g: spec_fn(int, int) -> Cell, n: WriteWindow, x: int, y: int) -> (spec_fn(int, int) -> Cell, WriteWindow) {
    let mv = eval_move(g, k.tb, k.stamp, k.fseed, x, y);
    (grid_moved(g, x, y, mv), win_moved(n, k.w, k.h, x, y, mv))
}

/// A row scanned left to right from local column `lx`, the right bound
/// re-read from the live rectangle before each cell.
pub open spec fn row_ltr(k: PassCtx, g: spec_fn(int, int) -> Cell, n: WriteWindow, y: int, lx: int) -> (spec_fn(int, int) -> Cell, WriteWindow)
    decreases 256 - lx,
{
    if lx > n.live.x1 {
        (g, n)
    } else {
        let (g1, n1) = eval_at(k, g, n, k.ox + lx, y);
        row_ltr(k, g1, n1, y, lx + 1)
    }
}

/// A row scanned right to left from local column `lx`, the left bound
/// re-read from the live rectangle before each cell.
pub open spec fn row_rtl(k: PassCtx, g: spec_fn(int, int) -> Cell, n: WriteWindow, y: int, lx: int) -> (spec_fn(int, int) -> Cell, WriteWindow)
    decreases lx + 1,
{
    if lx < n.live.x0 || lx < 0 {
        (g, n)
    } else {
        let (g1, n1) = eval_at(k, g, n, k.ox + lx, y);
        row_rtl(k, g1, n1, y, lx - 1)
    }
}

/// Whether row `y` runs left to right.
pub open spec fn ltr_row(flip: u64, y: int) -> bool {
    ((y as u64) ^ flip) & 1 == 0
}

/// The rows from local row `ly` up to the live rectangle's top (re-read
/// after each row), each from the live rectangle's edge at its start.
pub open spec fn rows_from(k: PassCtx, g: spec_fn(int, int) -> Cell, n: WriteWindow, ly: int) -> (spec_fn(int, int) -> Cell, WriteWindow)
    decreases ly + 1,
{
    if ly < n.live.y0 || ly < 0 {
        (g, n)
    } else {
        let y = k.oy + ly;
        let (g1, n1) = if ltr_row(k.flip, y) {
            row_ltr(k, g, n, y, n.live.x0 as int)
        } else {
            row_rtl(k, g, n, y, n.live.x1 as int)
        };
        rows_from(k, g1, n1, ly - 1)
    }
}

/// A pass over a chunk from rectangle `start`: nothing for an empty start,
/// else the rows from `start`'s bottom row with `start` as live rectangle.
pub open spec fn chunk_pass(k: PassCtx, g: spec_fn(int, int) -> Cell, n: WriteWindow, start: DirtyRect) -> (spec_fn(int, int) -> Cell, WriteWindow) {
    if start.is_empty_spec() {
        (g, n)
    } else {
        rows_from(k, g, WriteWindow { live: start, ..n }, start.y1 as int)
    }
}

/// The write rectangles after [`row_ltr`] from `(g, n)`, starting from `m`.
pub open spec fn row_ltr_marks(k: PassCtx, g: spec_fn(int, int) -> Cell, n: WriteWindow, m: Marks, y: int, lx: int) -> Marks
    decreases 256 - lx,
{
    if lx > n.live.x1 {
        m
    } else {
        let mv = eval_move(g, k.tb, k.stamp, k.fseed, k.ox + lx, y);
        let (g1, n1) = eval_at(k, g, n, k.ox + lx, y);
        row_ltr_marks(k, g1, n1, marks_moved(m, k.w, k.h, k.ox + lx, y, mv), y, lx + 1)
    }
}

/// The write rectangles after [`row_rtl`] from `(g, n)`, starting from `m`.
pub open spec fn row_rtl_marks(k: PassCtx, g: spec_fn(int, int) -> Cell, n: WriteWindow, m: Marks, y: int, lx: int) -> Marks
    decreases lx + 1,
{
    if lx < n.live.x0 || lx < 0 {
        m
    } else {
        let mv = eval_move(g, k.tb, k.stamp, k.fseed, k.ox + lx, y);
        let (g1, n1) = eval_at(k, g, n, k.ox + lx, y);
        row_rtl_marks(k, g1, n1, marks_moved(m, k.w, k.h, k.ox + lx, y, mv), y, lx - 1)
    }
}

/// The write rectangles after [`rows_from`] from `(g, n)`, starting from `m`.
pub open spec fn rows_from_marks(k: PassCtx, g: spec_fn(int, int) -> Cell, n: WriteWindow, m: Marks, ly: int) -> Marks
    decreases ly + 1,
{
    if ly < n.live.y0 || ly < 0 {
        m
    } else {
        let y = k.oy + ly;
        let (r, m1) = if ltr_row(k.flip, y) {
            (row_ltr(k, g, n, y, n.live.x0 as int), row_ltr_marks(k, g, n, m, y, n.live.x0 as int))
        } else {
            (row_rtl(k, g, n, y, n.live.x1 as int), row_rtl_marks(k, g, n, m, y, n.live.x1 as int))
        };
        rows_from_marks(k, r.0, r.1, m1, ly - 1)
    }
}

/// The write rectangles after [`chunk_pass`] from `(g, n)`, starting from `m`.
pub open spec fn chunk_pass_marks(k: PassCtx, g: spec_fn(int, int) -> Cell, n: WriteWindow, m: Marks, start: DirtyRect) -> Marks {
    if start.is_empty_spec() {
        m
    } else {
        rows_from_marks(k, g, WriteWindow { live: start, ..n }, m, start.y1 as int)
    }
}

/// Scan the window's own chunk, whose origin is `(ox, oy)`, starting from
/// rectangle `start`: rows bottom-up from `start`'s bottom row; the live
/// rectangle (grown by writes inside the chunk) bounds every row and the top
/// row, re-read at each step. Row `y` runs left to right when
/// `(y ^ flip) & 1 == 0`, `flip` being this tick's phase.
pub fn update_chunk(win: &mut WriteWindow, world: &mut World, table: &MaterialTable, tick: u64, fseed: u32, start: DirtyRect, ox: i32, oy: i32)
    requires
        old(win).fits(*old(world)),
        old(world).mats_valid(table@.len() as int),
        crate::material::table_valid(table@),
        ox == old(win).ocx * 64,
        oy == old(win).ocy * 64,
        live_ok(start) || start.is_empty_spec(),
    ensures
        final(world).mats_valid(table@.len() as int),
        start.is_empty_spec() ==> *final(world) == *old(world) && *final(win) == *old(win),
        !start.is_empty_spec() ==> step_frame(*final(world), *old(world), *final(win), WriteWindow { live: start, ..*old(win) }),
        counts_kept(*final(world), *old(world)),
        ({
            let k = pass_ctx(table@, tick, fseed, ox as int, oy as int, old(world).w(), old(world).h());
            let res = chunk_pass(k, old(world).grid(), *old(win), start);
            &&& final(world).grid() == res.0
            &&& *final(win) == res.1
            &&& nd_view(*final(world)) == chunk_pass_marks(k, old(world).grid(), *old(win), nd_view(*old(world)), start)
        }),
{
    proof {
        lemma_frame_refl(*world, *win);
    }
    if start.is_empty() {
        return;
    }
    let ghost k = pass_ctx(table@, tick, fseed, ox as int, oy as int, world.w(), world.h());
    let ghost total = chunk_pass(k, world.grid(), *win, start);
    let ghost total_m = chunk_pass_marks(k, world.grid(), *win, nd_view(*world), start);
    win.seed_live(start);
    let ghost (w0, n0) = (*world, *win);
    proof {
        lemma_frame_refl(w0, n0);
    }
    let flip = scan_flip(fseed);
    let stamp = (tick % 256) as u8;
    let mut ly: i32 = start.y1 as i32;
    while ly >= win.live_rect().y0 as i32
        invariant
            win.fits(*world),
            world.mats_valid(table@.len() as int),
            crate::material::table_valid(table@),
            ox == win.ocx * 64,
            oy == win.ocy * 64,
            live_ok(win.live),
            win.live.x0 <= win.live.x1,
            -1 <= ly <= 63,
            step_frame(*world, w0, *win, n0),
            counts_kept(*world, w0),
            k == pass_ctx(table@, tick, fseed, ox as int, oy as int, world.w(), world.h()),
            stamp == k.stamp,
            flip == k.flip,
            rows_from(k, world.grid(), *win, ly as int) == total,
            rows_from_marks(k, world.grid(), *win, nd_view(*world), ly as int) == total_m,
        decreases ly + 1,
    {
        let y = oy + ly;
        let ltr = ((y as u64) ^ flip) & 1 == 0;
        let row = win.live_rect();
        proof {
            assert(ltr == ltr_row(k.flip, y as int));
        }
        if ltr {
            let mut lx: i32 = row.x0 as i32;
            while lx <= win.live_rect().x1 as i32
                invariant
                    win.fits(*world),
                    world.mats_valid(table@.len() as int),
                    crate::material::table_valid(table@),
                    ox == win.ocx * 64,
                    oy == win.ocy * 64,
                    live_ok(win.live),
                    win.live.x0 <= win.live.x1,
                    0 <= ly <= 63,
                    y == oy + ly,
                    0 <= lx <= 64,
                    step_frame(*world, w0, *win, n0),
                    counts_kept(*world, w0),
                    k == pass_ctx(table@, tick, fseed, ox as int, oy as int, world.w(), world.h()),
                    stamp == k.stamp,
                    flip == k.flip,
                    ({
                        let r = row_ltr(k, world.grid(), *win, y as int, lx as int);
                        rows_from(k, r.0, r.1, ly - 1)
                    }) == total,
                    ({
                        let r = row_ltr(k, world.grid(), *win, y as int, lx as int);
                        rows_from_marks(k, r.0, r.1, row_ltr_marks(k, world.grid(), *win, nd_view(*world), y as int, lx as int), ly - 1)
                    }) == total_m,
                decreases 64 - lx,
            {
                let ghost (w1, n1) = (*world, *win);
                eval(win, world, table, stamp, fseed, ox + lx, y);
                proof {
                    lemma_frame_trans(*world, w1, w0, *win, n1, n0);
                    let mv = eval_move(w1.grid(), table@, stamp, fseed, (ox + lx) as int, y as int);
                    assert(world.grid() =~= grid_moved(w1.grid(), (ox + lx) as int, y as int, mv));
                }
                lx += 1;
            }
        } else {
            let mut lx: i32 = row.x1 as i32;
            while lx >= win.live_rect().x0 as i32
                invariant
                    win.fits(*world),
                    world.mats_valid(table@.len() as int),
                    crate::material::table_valid(table@),
                    ox == win.ocx * 64,
                    oy == win.ocy * 64,
                    live_ok(win.live),
                    win.live.x0 <= win.live.x1,
                    0 <= ly <= 63,
                    y == oy + ly,
                    -1 <= lx <= 63,
                    step_frame(*world, w0, *win, n0),
                    counts_kept(*world, w0),
                    k == pass_ctx(table@, tick, fseed, ox as int, oy as int, world.w(), world.h()),
                    stamp == k.stamp,
                    flip == k.flip,
                    ({
                        let r = row_rtl(k, world.grid(), *win, y as int, lx as int);
                        rows_from(k, r.0, r.1, ly - 1)
                    }) == total,
                    ({
                        let r = row_rtl(k, world.grid(), *win, y as int, lx as int);
                        rows_from_marks(k, r.0, r.1, row_rtl_marks(k, world.grid(), *win, nd_view(*world), y as int, lx as int), ly - 1)
                    }) == total_m,
                decreases lx + 1,
            {
                let ghost (w1, n1) = (*world, *win);
                eval(win, world, table, stamp, fseed, ox + lx, y);
                proof {
                    lemma_frame_trans(*world, w1, w0, *win, n1, n0);
                    let mv = eval_move(w1.grid(), table@, stamp, fseed, (ox + lx) as int, y as int);
                    assert(world.grid() =~= grid_moved(w1.grid(), (ox + lx) as int, y as int, mv));
                }
                lx -= 1;
            }
        }
        ly -= 1;
    }
}


/// A falling or flowing cell of material `m` can enter a cell holding `t`:
/// `t` is air, or a material that is not static and is lighter than `m`.
pub open spec fn enterable(tb: Seq<crate::material::MaterialDef>, m: u8, t: Cell) -> bool {
    t.mat() == MAT_AIR || (tb[t.mat() as int].category != Category::Static && tb[t.mat() as int].density < tb[m as int].density)
}

/// The grid after the cell at `(x, y)` is evaluated.
pub open spec fn after_eval(g: spec_fn(int, int) -> Cell, tb: Seq<crate::material::MaterialDef>, stamp: u8, fseed: u32, x: int, y: int) -> spec_fn(int, int) -> Cell {
    grid_moved(g, x, y, eval_move(g, tb, stamp, fseed, x, y))
}

/// Restamping and redirecting keep a cell's material.
proof fn lemma_rewrites_keep_mat(c: Cell, s: u8, right: bool)
    ensures
        restamped(c, s).mat() == c.mat(),
        restamped(redirected(c, right), s).mat() == c.mat(),
{
    let v = c@;
    let v1 = (v & !0xff00u32) | ((s as u32) << 8u32);
    lemma_cell_from_bits(v1);
    assert(((v1 & 0xff) as u8) == ((v & 0xff) as u8)) by (bit_vector)
        requires
            v1 == (v & !0xff00u32) | ((s as u32) << 8u32),
    ;
    let r = if right { v | 0x1_0000u32 } else { v & !0x1_0000u32 };
    lemma_cell_from_bits(r);
    assert(((r & 0xff) as u8) == ((v & 0xff) as u8)) by (bit_vector)
        requires
            r == (if right { v | 0x1_0000u32 } else { v & !0x1_0000u32 }),
    ;
    let r2 = (r & !0xff00u32) | ((s as u32) << 8u32);
    lemma_cell_from_bits(r2);
    assert(((r2 & 0xff) as u8) == ((r & 0xff) as u8)) by (bit_vector)
        requires
            r2 == (r & !0xff00u32) | ((s as u32) << 8u32),
    ;
}

/// The falling part shared by powders and liquids.
proof fn lemma_fall_part(g: spec_fn(int, int) -> Cell, tb: Seq<crate::material::MaterialDef>, stamp: u8, fseed: u32, x: int, y: int)
    ensures
        ({
            let c = g(x, y);
            let mv = powder_move(g, tb, stamp, fseed, x, y, c);
            &&& enterable(tb, c.mat(), g(x, y + 1)) ==> mv == Some((x, y + 1, restamped(c, stamp), restamped(g(x, y + 1), stamp)))
            &&& !enterable(tb, c.mat(), g(x, y + 1)) && (enterable(tb, c.mat(), g(x - 1, y + 1)) || enterable(tb, c.mat(), g(x + 1, y + 1)))
                ==> exists|d: int| (d == 1 || d == -1) && enterable(tb, c.mat(), #[trigger] g(x + d, y + 1))
                    && mv == Some((x + d, y + 1, restamped(c, stamp), restamped(g(x + d, y + 1), stamp)))
            &&& !enterable(tb, c.mat(), g(x, y + 1)) && !enterable(tb, c.mat(), g(x - 1, y + 1)) && !enterable(tb, c.mat(), g(x + 1, y + 1))
                ==> mv is None
        }),
{
    let c = g(x, y);
    let sd = diag_spec(fseed, x, y);
    assert(sd == 1 || sd == -1);
    if !enterable(tb, c.mat(), g(x, y + 1)) && (enterable(tb, c.mat(), g(x - 1, y + 1)) || enterable(tb, c.mat(), g(x + 1, y + 1))) {
        if enterable(tb, c.mat(), g(x + sd, y + 1)) {
            assert(enterable(tb, c.mat(), g(x + sd, y + 1)));
        } else {
            assert(enterable(tb, c.mat(), g(x - sd, y + 1)));
            assert(x - sd == x + (-sd));
        }
    }
}

/// Law of powders: a powder cell not yet moved this tick falls into the
/// cell below when it can enter it; otherwise it slides into a lower
/// diagonal cell it can enter (either side); otherwise it stays. A move
/// swaps the two cells.
pub proof fn lemma_powder_law(g: spec_fn(int, int) -> Cell, tb: Seq<crate::material::MaterialDef>, stamp: u8, fseed: u32, x: int, y: int)
    requires
        (g(x, y).mat() as int) < tb.len(),
        tb[g(x, y).mat() as int].category == Category::Powder,
        g(x, y).stmp() != stamp,
    ensures
        ({
            let c = g(x, y);
            let g2 = after_eval(g, tb, stamp, fseed, x, y);
            &&& enterable(tb, c.mat(), g(x, y + 1)) ==> g2(x, y + 1).mat() == c.mat() && g2(x, y).mat() == g(x, y + 1).mat()
            &&& !enterable(tb, c.mat(), g(x, y + 1)) && (enterable(tb, c.mat(), g(x - 1, y + 1)) || enterable(tb, c.mat(), g(x + 1, y + 1)))
                ==> exists|d: int| (d == 1 || d == -1) && enterable(tb, c.mat(), #[trigger] g(x + d, y + 1))
                    && g2(x + d, y + 1).mat() == c.mat() && g2(x, y).mat() == g(x + d, y + 1).mat()
            &&& !enterable(tb, c.mat(), g(x, y + 1)) && !enterable(tb, c.mat(), g(x - 1, y + 1)) && !enterable(tb, c.mat(), g(x + 1, y + 1))
                ==> g2 == g
        }),
{
    let c = g(x, y);
    lemma_fall_part(g, tb, stamp, fseed, x, y);
    lemma_rewrites_keep_mat(c, stamp, true);
    lemma_rewrites_keep_mat(g(x, y + 1), stamp, true);
    lemma_rewrites_keep_mat(g(x - 1, y + 1), stamp, true);
    lemma_rewrites_keep_mat(g(x + 1, y + 1), stamp, true);
    let g2 = after_eval(g, tb, stamp, fseed, x, y);
    if !enterable(tb, c.mat(), g(x, y + 1)) && (enterable(tb, c.mat(), g(x - 1, y + 1)) || enterable(tb, c.mat(), g(x + 1, y + 1))) {
        let d = choose|d: int| (d == 1 || d == -1) && enterable(tb, c.mat(), #[trigger] g(x + d, y + 1))
            && powder_move(g, tb, stamp, fseed, x, y, c) == Some((x + d, y + 1, restamped(c, stamp), restamped(g(x + d, y + 1), stamp)));
        assert(g2(x + d, y + 1).mat() == c.mat() && g2(x, y).mat() == g(x + d, y + 1).mat());
    }
}

/// The sideways run: how far the cells beside `(x, y)` in direction `d`
/// stay air, up to `reach`.
proof fn lemma_side_run(g: spec_fn(int, int) -> Cell, x: int, y: int, d: int, i: int, reach: int)
    requires
        1 <= i,
    ensures
        ({
            let k = side_run(g, x, y, d, i, reach);
            &&& i - 1 <= k
            &&& k <= (if reach >= i - 1 { reach } else { i - 1 })
            &&& forall|j: int| i <= j <= k ==> (#[trigger] g(sx(x, d, j), y)).mat() == MAT_AIR
            &&& k < reach ==> g(sx(x, d, k + 1), y).mat() != MAT_AIR
        }),
    decreases reach - i + 1,
{
    if !(i > reach || g(sx(x, d, i), y).mat() != MAT_AIR) {
        lemma_side_run(g, x, y, d, i + 1, reach);
    }
}

/// Column `k` cells from `x` in direction `d`.
pub open spec fn col_at(x: int, d: int, k: int) -> int {
    x + d * k
}

/// The direction a cell remembers: +1 for right, -1 for left.
pub open spec fn dir_of(c: Cell) -> int {
    if c.right() { 1 } else { -1 }
}

/// `g2` shows the cell at `(x, y)` of `g` moved along its row in direction
/// `d` to the far end of the run of air cells there, at most `reach` cells
/// away, turned to face `d`, with air left behind.
pub open spec fn flows_along_row(g: spec_fn(int, int) -> Cell, g2: spec_fn(int, int) -> Cell, x: int, y: int, d: int, reach: int) -> bool {
    exists|k: int| #![trigger col_at(x, d, k)]
        1 <= k <= reach && (forall|j: int| 1 <= j <= k ==> (#[trigger] g(col_at(x, d, j), y)).mat() == MAT_AIR)
        && (k < reach ==> g(col_at(x, d, k + 1), y).mat() != MAT_AIR)
        && g2(col_at(x, d, k), y).mat() == g(x, y).mat() && g2(col_at(x, d, k), y).right() == (d > 0)
        && g2(x, y).mat() == MAT_AIR
}

/// A sideways flow in direction `d` moves the cell to the far end of the run
/// of air cells beside it.
proof fn lemma_side_flow(g: spec_fn(int, int) -> Cell, tb: Seq<crate::material::MaterialDef>, stamp: u8, x: int, y: int, d: int)
    requires
        d == 1 || d == -1,
        reach_of(tb, g(x, y).mat()) >= 1,
        g(x + d, y).mat() == MAT_AIR,
    ensures
        side_move(g, tb, stamp, x, y, g(x, y), d) is Some,
        flows_along_row(g, grid_moved(g, x, y, side_move(g, tb, stamp, x, y, g(x, y), d)), x, y, d, reach_of(tb, g(x, y).mat())),
{
    let c = g(x, y);
    let reach = reach_of(tb, c.mat());
    let g2 = grid_moved(g, x, y, side_move(g, tb, stamp, x, y, c, d));
    lemma_side_run(g, x, y, d, 1, reach);
    let k = side_run(g, x, y, d, 1, reach);
    assert(sx(x, d, 1) == x + d);
    assert(k >= 1);
    let far = sx(x, d, k);
    assert(far == x + d * k);
    let t = g(far, y);
    assert(t.mat() == MAT_AIR);
    lemma_rewrites_keep_mat(t, stamp, true);
    lemma_rewrites_keep_mat(c, stamp, d > 0);
    let c1 = restamped(redirected(c, d > 0), stamp);
    assert(c1.right() == (d > 0)) by {
        let v = c@;
        let r = if d > 0 { v | 0x1_0000u32 } else { v & !0x1_0000u32 };
        let r2 = (r & !0xff00u32) | ((stamp as u32) << 8u32);
        lemma_cell_from_bits(r);
        lemma_cell_from_bits(r2);
        let b = d > 0;
        assert(crate::cell::bits_dir(r2) == b) by (bit_vector)
            requires
                r == (if b { v | 0x1_0000u32 } else { v & !0x1_0000u32 }),
                r2 == (r & !0xff00u32) | ((stamp as u32) << 8u32),
        ;
    }
    assert forall|j: int| 1 <= j <= k implies (#[trigger] g(col_at(x, d, j), y)).mat() == MAT_AIR by {
        assert(sx(x, d, j) == col_at(x, d, j));
    }
    if k < reach {
        assert(sx(x, d, k + 1) == col_at(x, d, k + 1));
    }
    assert(col_at(x, d, k) == far);
    assert(side_move(g, tb, stamp, x, y, c, d) == Some((far, y, c1, restamped(t, stamp))));
    assert(far != x);
    assert(g2(col_at(x, d, k), y) == c1);
    assert(g2(x, y) == restamped(t, stamp));
    assert(flows_along_row(g, g2, x, y, d, reach));
}

/// Law of liquids: a liquid cell not yet moved this tick falls or slides
/// like a powder; when it can enter none of the three cells below, it flows
/// along its row (when it spreads at least one cell): in its remembered
/// direction when the next cell that way is air, else the other way when
/// the next cell that way is air. It moves to the farthest cell of the run
/// of air cells there, at most its spread away, and remembers the direction
/// it took.
pub proof fn lemma_liquid_law(g: spec_fn(int, int) -> Cell, tb: Seq<crate::material::MaterialDef>, stamp: u8, fseed: u32, x: int, y: int)
    requires
        (g(x, y).mat() as int) < tb.len(),
        tb[g(x, y).mat() as int].category == Category::Liquid,
        g(x, y).stmp() != stamp,
    ensures
        enterable(tb, g(x, y).mat(), g(x, y + 1)) ==> after_eval(g, tb, stamp, fseed, x, y)(x, y + 1).mat() == g(x, y).mat()
            && after_eval(g, tb, stamp, fseed, x, y)(x, y).mat() == g(x, y + 1).mat(),
        !enterable(tb, g(x, y).mat(), g(x, y + 1))
            && (enterable(tb, g(x, y).mat(), g(x - 1, y + 1)) || enterable(tb, g(x, y).mat(), g(x + 1, y + 1)))
            ==> exists|e: int| (e == 1 || e == -1) && enterable(tb, g(x, y).mat(), #[trigger] g(x + e, y + 1))
                && after_eval(g, tb, stamp, fseed, x, y)(x + e, y + 1).mat() == g(x, y).mat()
                && after_eval(g, tb, stamp, fseed, x, y)(x, y).mat() == g(x + e, y + 1).mat(),
        !enterable(tb, g(x, y).mat(), g(x, y + 1)) && !enterable(tb, g(x, y).mat(), g(x - 1, y + 1))
            && !enterable(tb, g(x, y).mat(), g(x + 1, y + 1))
            && reach_of(tb, g(x, y).mat()) >= 1 && g(x + dir_of(g(x, y)), y).mat() == MAT_AIR
            ==> flows_along_row(g, after_eval(g, tb, stamp, fseed, x, y), x, y, dir_of(g(x, y)), reach_of(tb, g(x, y).mat())),
        !enterable(tb, g(x, y).mat(), g(x, y + 1)) && !enterable(tb, g(x, y).mat(), g(x - 1, y + 1))
            && !enterable(tb, g(x, y).mat(), g(x + 1, y + 1))
            && reach_of(tb, g(x, y).mat()) >= 1 && g(x + dir_of(g(x, y)), y).mat() != MAT_AIR
            && g(x - dir_of(g(x, y)), y).mat() == MAT_AIR
            ==> flows_along_row(g, after_eval(g, tb, stamp, fseed, x, y), x, y, -dir_of(g(x, y)), reach_of(tb, g(x, y).mat())),
{
    let c = g(x, y);
    lemma_fall_part(g, tb, stamp, fseed, x, y);
    lemma_rewrites_keep_mat(c, stamp, true);
    lemma_rewrites_keep_mat(g(x, y + 1), stamp, true);
    lemma_rewrites_keep_mat(g(x - 1, y + 1), stamp, true);
    lemma_rewrites_keep_mat(g(x + 1, y + 1), stamp, true);
    let g2 = after_eval(g, tb, stamp, fseed, x, y);
    let d = dir_of(c);
    let reach = reach_of(tb, c.mat());
    if !enterable(tb, c.mat(), g(x, y + 1)) && (enterable(tb, c.mat(), g(x - 1, y + 1)) || enterable(tb, c.mat(), g(x + 1, y + 1))) {
        let e = choose|e: int| (e == 1 || e == -1) && enterable(tb, c.mat(), #[trigger] g(x + e, y + 1))
            && powder_move(g, tb, stamp, fseed, x, y, c) == Some((x + e, y + 1, restamped(c, stamp), restamped(g(x + e, y + 1), stamp)));
        assert(g2(x + e, y + 1).mat() == c.mat() && g2(x, y).mat() == g(x + e, y + 1).mat());
    }
    if !enterable(tb, c.mat(), g(x, y + 1)) && !enterable(tb, c.mat(), g(x - 1, y + 1)) && !enterable(tb, c.mat(), g(x + 1, y + 1))
        && reach >= 1 {
        assert(powder_move(g, tb, stamp, fseed, x, y, c) is None);
        if g(x + d, y).mat() == MAT_AIR {
            lemma_side_flow(g, tb, stamp, x, y, d);
            assert(eval_move(g, tb, stamp, fseed, x, y) == side_move(g, tb, stamp, x, y, c, d));
        } else if g(x - d, y).mat() == MAT_AIR {
            assert(sx(x, d, 1) == x + d);
            assert(side_run(g, x, y, d, 1, reach) == 0);
            assert(side_move(g, tb, stamp, x, y, c, d) is None);
            assert(x + (-d) == x - d);
            lemma_side_flow(g, tb, stamp, x, y, -d);
            assert(eval_move(g, tb, stamp, fseed, x, y) == side_move(g, tb, stamp, x, y, c, -d));
        }
    }
}

} // verus!
