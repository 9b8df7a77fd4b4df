//! Grid traversal from `pos` to `pos + vel`: the cells entered, in the order
//! their borders are crossed. Border crossings are compared by 64-bit cross
//! multiplication, with no division.
//!
//! The start cell itself is never visited. Leaving the world and being blocked
//! are distinct outcomes: any cell outside the world ends the trace as
//! [`Trace::Gone`]; a non-air cell inside the world blocks it.

use vstd::prelude::*;

use crate::cell::Cell;
use crate::fixed::Fx;
use crate::material::MAT_AIR;
use crate::world::World;

verus! {

/// Width of one cell in raw Q16.16 units.
pub const CELL_RAW: i64 = 65536;

/// How a traversal ends.
#[derive(Clone, Copy, Debug, PartialEq, Eq)]
pub enum Trace {
    /// Hit a non-air cell; `land_cell` is the last air cell before it (possibly the start cell).
    Blocked { land_cell: (i32, i32) },
    /// No obstacle and the end stays in the world: `end_pos = pos + vel`.
    Clear { end_pos: (Fx, Fx) },
    /// The path leaves the world.
    Gone,
}

/// Per-axis traversal state: `step` is the direction (-1, 0, +1), `rem` the
/// raw distance to the next border still to cross, `total` the raw length
/// of the displacement on this axis.
#[derive(Clone, Copy, Debug)]
pub struct AxisState {
    pub step: i32,
    pub rem: i64,
    pub total: i64,
}

/// The cells from `pos` toward `pos + vel`, excluding the start cell and
/// ending with the end cell. Once the walk reaches the end cell's column
/// (row), it makes no further horizontal (vertical) step.
#[derive(Clone, Copy, Debug)]
pub struct CellWalk {
    pub cx: i32,
    pub cy: i32,
    pub target_cx: i32,
    pub target_cy: i32,
    pub ax: AxisState,
    pub ay: AxisState,
}

/// Direction of a raw value.
pub open spec fn sign_spec(v: int) -> int {
    if v > 0 { 1 } else if v < 0 { -1 } else { 0 }
}

pub open spec fn iabs(v: int) -> int {
    if v < 0 { -v } else { v }
}

/// Initial axis state for start coordinate `p` and displacement `v` (raw).
pub open spec fn axis_start(p: int, v: int) -> AxisState {
    let step = sign_spec(v);
    let cell = p / 65536;
    if step == 0 {
        AxisState { step: 0, rem: 0, total: 0 }
    } else if step > 0 {
        AxisState { step: 1, rem: ((cell + 1) * 65536 - p) as i64, total: iabs(v) as i64 }
    } else {
        AxisState { step: -1i32, rem: (p - cell * 65536) as i64, total: iabs(v) as i64 }
    }
}

/// The walk from `pos` with displacement `vel`.
pub open spec fn walk_start(pos: (Fx, Fx), vel: (Fx, Fx)) -> CellWalk {
    CellWalk {
        cx: (pos.0.0 / 65536) as i32,
        cy: (pos.1.0 / 65536) as i32,
        target_cx: ((pos.0.0 + vel.0.0) / 65536) as i32,
        target_cy: ((pos.1.0 + vel.1.0) / 65536) as i32,
        ax: axis_start(pos.0.0 as int, vel.0.0 as int),
        ay: axis_start(pos.1.0 as int, vel.1.0 as int),
    }
}

/// A displacement whose end stays inside the `i32` range.
pub open spec fn no_wrap(pos: (Fx, Fx), vel: (Fx, Fx)) -> bool {
    &&& i32::MIN <= pos.0.0 + vel.0.0 <= i32::MAX
    &&& i32::MIN <= pos.1.0 + vel.1.0 <= i32::MAX
}

/// Consistency of one axis: `c` is the current cell, `t` the target cell.
pub open spec fn axis_inv(a: AxisState, c: int, t: int) -> bool {
    &&& -32768 <= c <= 32767
    &&& -32768 <= t <= 32767
    &&& 0 <= a.total <= 0x8000_0000
    &&& 0 <= a.rem
    &&& if a.step == 0 {
        c == t && a.rem == 0 && a.total == 0
    } else if a.step == 1 {
        &&& a.rem <= a.total + 65536
        &&& t == ((c + 1) * 65536 - a.rem + a.total) / 65536
    } else {
        &&& a.step == -1
        &&& a.rem < a.total + 65536
        &&& t == (c * 65536 + a.rem - a.total) / 65536
    }
}

impl CellWalk {
    pub open spec fn inv(self) -> bool {
        axis_inv(self.ax, self.cx as int, self.target_cx as int) && axis_inv(
            self.ay,
            self.cy as int,
            self.target_cy as int,
        )
    }

    pub open spec fn done(self) -> bool {
        self.cx == self.target_cx && self.cy == self.target_cy
    }

    /// Cells still to visit.
    pub open spec fn measure(self) -> nat {
        (iabs(self.target_cx - self.cx) + iabs(self.target_cy - self.cy)) as nat
    }

    /// Whether the next step is horizontal: the only axis not yet at its
    /// target, or, with both pending, the one whose next border comes first
    /// (ties go to x).
    pub open spec fn x_first(self) -> bool {
        if self.cy == self.target_cy {
            true
        } else if self.cx == self.target_cx {
            false
        } else {
            self.ax.rem * self.ay.total <= self.ay.rem * self.ax.total
        }
    }

    /// The walk after one step (only meaningful when not done).
    pub open spec fn advance(self) -> CellWalk {
        if self.x_first() {
            CellWalk {
                cx: (self.cx + self.ax.step) as i32,
                ax: AxisState { rem: (self.ax.rem + 65536) as i64, ..self.ax },
                ..self
            }
        } else {
            CellWalk {
                cy: (self.cy + self.ay.step) as i32,
                ay: AxisState { rem: (self.ay.rem + 65536) as i64, ..self.ay },
                ..self
            }
        }
    }
}

/// A pending axis moves toward its target and stays consistent after the crossing.
pub proof fn lemma_axis_cross(a: AxisState, c: int, t: int)
    requires
        axis_inv(a, c, t),
        c != t,
    ensures
        a.step == (if t > c { 1int } else { -1int }),
        a.step == 1 ==> a.rem <= a.total,
        a.step == -1 ==> a.rem < a.total,
        axis_inv(AxisState { rem: (a.rem + 65536) as i64, ..a }, c + a.step, t),
{
    if a.step == 1 {
        let n = (c + 1) * 65536 - a.rem + a.total;
        assert(n >= c * 65536);
        assert(t >= c);
        assert((c + 1) * 65536 <= n);
        assert((c + 2) * 65536 - (a.rem + 65536) + a.total == n);
    } else {
        let n = c * 65536 + a.rem - a.total;
        assert(n < (c + 1) * 65536);
        assert(t <= c);
        assert(n < c * 65536);
        assert((c - 1) * 65536 + (a.rem + 65536) - a.total == n);
    }
}

/// One step keeps the walk consistent and brings it one cell closer to its target.
pub proof fn lemma_advance(w: CellWalk)
    requires
        w.inv(),
        !w.done(),
    ensures
        w.advance().inv(),
        w.advance().measure() + 1 == w.measure(),
        w.advance().target_cx == w.target_cx,
        w.advance().target_cy == w.target_cy,
{
    if w.x_first() {
        lemma_axis_cross(w.ax, w.cx as int, w.target_cx as int);
    } else {
        lemma_axis_cross(w.ay, w.cy as int, w.target_cy as int);
    }
}

/// The cells a consistent walk still visits, in order.
pub open spec fn walk_cells(w: CellWalk) -> Seq<(i32, i32)>
    decreases w.measure(),
{
    if !w.inv() || w.done() {
        Seq::empty()
    } else {
        proof {
            lemma_advance(w);
        }
        seq![(w.advance().cx, w.advance().cy)] + walk_cells(w.advance())
    }
}

/// Grid distance from cell `c` to the walk's target.
pub open spec fn cell_dist(w: CellWalk, c: (i32, i32)) -> int {
    iabs(w.target_cx - c.0) + iabs(w.target_cy - c.1)
}

/// A walk visits exactly `measure` cells, each one step closer to the target
/// than the one before; in particular no cell is visited twice.
pub proof fn lemma_walk_cells_dist(w: CellWalk)
    requires
        w.inv(),
    ensures
        walk_cells(w).len() == w.measure(),
        forall|i: int|
            0 <= i < walk_cells(w).len() ==> cell_dist(w, #[trigger] walk_cells(w)[i]) == w.measure() - 1 - i,
    decreases w.measure(),
{
    if !w.done() {
        lemma_advance(w);
        let n = w.advance();
        lemma_walk_cells_dist(n);
        let s = walk_cells(w);
        assert(s == seq![(n.cx, n.cy)] + walk_cells(n));
        assert forall|i: int| 0 <= i < s.len() implies cell_dist(w, #[trigger] s[i]) == w.measure() - 1 - i by {
            if i > 0 {
                assert(s[i] == walk_cells(n)[i - 1]);
                assert(cell_dist(n, walk_cells(n)[i - 1]) == n.measure() - 1 - (i - 1));
            }
        }
    }
}

/// The cells from `pos` toward `pos + vel` (start cell excluded, end cell included).
pub open spec fn walk_path(pos: (Fx, Fx), vel: (Fx, Fx)) -> Seq<(i32, i32)> {
    walk_cells(walk_start(pos, vel))
}

pub fn sign(v: Fx) -> (r: i32)
    ensures
        r == sign_spec(v.0 as int),
{
    if v.0 > 0 {
        1
    } else if v.0 < 0 {
        -1
    } else {
        0
    }
}

/// Initial state of one axis: `p` is the start coordinate, `v` the displacement.
pub fn axis_init(p: Fx, v: Fx) -> (r: AxisState)
    ensures
        r == axis_start(p.0 as int, v.0 as int),
{
    let step = sign(v);
    if step == 0 {
        return AxisState { step: 0, rem: 0, total: 0 };
    }
    let cell = (p.to_cell()) as i64;
    let bound = if step > 0 { (cell + 1) * CELL_RAW } else { cell * CELL_RAW };
    let rem = if step > 0 { bound - p.0 as i64 } else { p.0 as i64 - bound };
    let total = if v.0 < 0 { -(v.0 as i64) } else { v.0 as i64 };
    AxisState { step, rem, total }
}

/// Whether the next crossing is horizontal (see [`CellWalk::x_first`]).
fn x_crosses_first(w: &CellWalk) -> (r: bool)
    requires
        w.inv(),
        !w.done(),
    ensures
        r == w.x_first(),
{
    if w.cy == w.target_cy {
        true
    } else if w.cx == w.target_cx {
        false
    } else {
        proof {
            lemma_axis_cross(w.ax, w.cx as int, w.target_cx as int);
            lemma_axis_cross(w.ay, w.cy as int, w.target_cy as int);
            let (a, b, c, d) = (w.ax.rem as int, w.ay.total as int, w.ay.rem as int, w.ax.total as int);
            assert(0 <= a * b <= 0x4000_0000_0000_0000) by (nonlinear_arith)
                requires
                    0 <= a <= 0x8000_0000,
                    0 <= b <= 0x8000_0000,
            ;
            assert(0 <= c * d <= 0x4000_0000_0000_0000) by (nonlinear_arith)
                requires
                    0 <= c <= 0x8000_0000,
                    0 <= d <= 0x8000_0000,
            ;
        }
        w.ax.rem * w.ay.total <= w.ay.rem * w.ax.total
    }
}

/// Lemma for the initial state: the start walk is consistent.
pub proof fn lemma_walk_start(pos: (Fx, Fx), vel: (Fx, Fx))
    requires
        no_wrap(pos, vel),
    ensures
        walk_start(pos, vel).inv(),
{
    let w = walk_start(pos, vel);
    let (px, vx, py, vy) = (pos.0.0 as int, vel.0.0 as int, pos.1.0 as int, vel.1.0 as int);
    assert(-32768 <= px / 65536 <= 32767);
    assert(-32768 <= (px + vx) / 65536 <= 32767);
    assert(-32768 <= py / 65536 <= 32767);
    assert(-32768 <= (py + vy) / 65536 <= 32767);
}

impl CellWalk {
    pub fn new(pos: (Fx, Fx), vel: (Fx, Fx)) -> (r: CellWalk)
        requires
            no_wrap(pos, vel),
        ensures
            r == walk_start(pos, vel),
            r.inv(),
    {
        proof {
            lemma_walk_start(pos, vel);
        }
        let ex: i32 = pos.0.0 + vel.0.0;
        let ey: i32 = pos.1.0 + vel.1.0;
        CellWalk {
            cx: pos.0.to_cell(),
            cy: pos.1.to_cell(),
            target_cx: Fx(ex).to_cell(),
            target_cy: Fx(ey).to_cell(),
            ax: axis_init(pos.0, vel.0),
            ay: axis_init(pos.1, vel.1),
        }
    }

    /// The next cell entered, or `None` once the end cell is reached.
    pub fn next(&mut self) -> (r: Option<(i32, i32)>)
        requires
            old(self).inv(),
        ensures
            final(self).inv(),
            old(self).done() ==> r.is_none() && *final(self) == *old(self),
            !old(self).done() ==> *final(self) == old(self).advance() && r == Some(
                (final(self).cx, final(self).cy),
            ),
            walk_cells(*old(self)) == (match r {
                Some(c) => seq![c] + walk_cells(*final(self)),
                None => Seq::<(i32, i32)>::empty(),
            }),
    {
        if self.cx == self.target_cx && self.cy == self.target_cy {
            return None;
        }
        proof {
            lemma_advance(*self);
        }
        if x_crosses_first(self) {
            proof {
                lemma_axis_cross(self.ax, self.cx as int, self.target_cx as int);
            }
            self.cx = self.cx + self.ax.step;
            self.ax.rem = self.ax.rem + CELL_RAW;
        } else {
            proof {
                lemma_axis_cross(self.ay, self.cy as int, self.target_cy as int);
            }
            self.cy = self.cy + self.ay.step;
            self.ay.rem = self.ay.rem + CELL_RAW;
        }
        Some((self.cx, self.cy))
    }

    /// All remaining cells, in order.
    pub fn collect_cells(self) -> (r: Vec<(i32, i32)>)
        requires
            self.inv(),
        ensures
            r@ == walk_cells(self),
    {
        let mut w = self;
        let mut out: Vec<(i32, i32)> = Vec::new();
        while w.cx != w.target_cx || w.cy != w.target_cy
            invariant
                w.inv(),
                out@ + walk_cells(w) == walk_cells(self),
            decreases w.measure(),
        {
            proof {
                lemma_advance(w);
            }
            let ghost before = w;
            let c = w.next();
            match c {
                Some(p) => {
                    out.push(p);
                    proof {
                        assert(out@ + walk_cells(w) =~= (out@.drop_last() + walk_cells(before)));
                    }
                },
                None => {},
            }
        }
        proof {
            assert(out@ + walk_cells(w) =~= out@);
        }
        out
    }
}

/// Whether `(x, y)` lies in a `w x h` grid.
pub open spec fn in_grid(w: int, h: int, x: int, y: int) -> bool {
    0 <= x < w && 0 <= y < h
}

/// The outcome of a traversal over grid `g` of size `w x h`, given the
/// remaining walk, the last air cell so far and the end position.
pub open spec fn trace_from(g: spec_fn(int, int) -> Cell, gw: int, gh: int, w: CellWalk, last: (i32, i32), end: (Fx, Fx)) -> Trace
    decreases w.measure(),
{
    if !w.inv() || w.done() {
        Trace::Clear { end_pos: end }
    } else {
        proof {
            lemma_advance(w);
        }
        let n = w.advance();
        if !in_grid(gw, gh, n.cx as int, n.cy as int) {
            Trace::Gone
        } else if g(n.cx as int, n.cy as int).mat() != MAT_AIR {
            Trace::Blocked { land_cell: last }
        } else {
            trace_from(g, gw, gh, n, (n.cx, n.cy), end)
        }
    }
}

/// A blocked traversal lands on the last air cell: the start cell or a cell inside the grid.
pub proof fn lemma_trace_land(g: spec_fn(int, int) -> Cell, gw: int, gh: int, w: CellWalk, last: (i32, i32), end: (Fx, Fx))
    ensures
        trace_from(g, gw, gh, w, last, end) matches Trace::Blocked { land_cell } ==> land_cell == last
            || in_grid(gw, gh, land_cell.0 as int, land_cell.1 as int),
    decreases w.measure(),
{
    if w.inv() && !w.done() {
        lemma_advance(w);
        let n = w.advance();
        if in_grid(gw, gh, n.cx as int, n.cy as int) && g(n.cx as int, n.cy as int).mat() == MAT_AIR {
            lemma_trace_land(g, gw, gh, n, (n.cx, n.cy), end);
        }
    }
}

/// A clear traversal ends at its end position, in a cell that is the
/// walk's current cell or a cell inside the grid.
pub proof fn lemma_trace_clear(g: spec_fn(int, int) -> Cell, gw: int, gh: int, w: CellWalk, last: (i32, i32), end: (Fx, Fx))
    requires
        w.inv(),
        last == (w.cx, w.cy),
        end.0.0 / 65536 == w.target_cx,
        end.1.0 / 65536 == w.target_cy,
    ensures
        trace_from(g, gw, gh, w, last, end) matches Trace::Clear { end_pos } ==> {
            &&& end_pos == end
            &&& (end.0.0 / 65536 == w.cx && end.1.0 / 65536 == w.cy) || in_grid(gw, gh, end.0.0 / 65536, end.1.0 / 65536)
        },
    decreases w.measure(),
{
    if !w.done() {
        lemma_advance(w);
        let n = w.advance();
        if in_grid(gw, gh, n.cx as int, n.cy as int) && g(n.cx as int, n.cy as int).mat() == MAT_AIR {
            lemma_trace_clear(g, gw, gh, n, (n.cx, n.cy), end);
        }
    }
}

/// The traversal from `pos` to `pos + vel` over grid `g` of size `w x h`.
pub open spec fn trace_grid(g: spec_fn(int, int) -> Cell, w: int, h: int, pos: (Fx, Fx), vel: (Fx, Fx)) -> Trace {
    trace_from(
        g,
        w,
        h,
        walk_start(pos, vel),
        ((pos.0.0 / 65536) as i32, (pos.1.0 / 65536) as i32),
        (Fx((pos.0.0 + vel.0.0) as i32), Fx((pos.1.0 + vel.1.0) as i32)),
    )
}

/// The traversal from `pos` to `pos + vel` over `world`.
pub open spec fn trace_spec(world: World, pos: (Fx, Fx), vel: (Fx, Fx)) -> Trace {
    trace_grid(world.grid(), world.w(), world.h(), pos, vel)
}

/// Traverse from `pos` to `pos + vel` over a read-only world: the start cell
/// is never checked; the first cell outside the world gives `Gone`, the first
/// non-air cell `Blocked` at the last air cell; otherwise `Clear` at the end.
pub fn trace(pos: (Fx, Fx), vel: (Fx, Fx), world: &World) -> (r: Trace)
    requires
        world.wf(),
        no_wrap(pos, vel),
    ensures
        r == trace_spec(*world, pos, vel),
{
    let end = (pos.0 + vel.0, pos.1 + vel.1);
    let mut last_air = (pos.0.to_cell(), pos.1.to_cell());
    let mut walk = CellWalk::new(pos, vel);
    loop
        invariant
            world.wf(),
            walk.inv(),
            end == (Fx((pos.0.0 + vel.0.0) as i32), Fx((pos.1.0 + vel.1.0) as i32)),
            trace_from(world.grid(), world.w(), world.h(), walk, last_air, end) == trace_spec(*world, pos, vel),
        decreases walk.measure(),
    {
        proof {
            if !walk.done() {
                lemma_advance(walk);
            }
        }
        match walk.next() {
            None => {
                return Trace::Clear { end_pos: end };
            },
            Some((cx, cy)) => {
                if !world.in_bounds(cx, cy) {
                    return Trace::Gone;
                }
                if world.cell(cx, cy).material() != MAT_AIR {
                    return Trace::Blocked { land_cell: last_air };
                }
                last_air = (cx, cy);
            },
        }
    }
}

} // verus!
