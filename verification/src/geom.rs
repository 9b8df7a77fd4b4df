//! Bitmap geometry: boolean masks in, integer rectangles and index sets out.
//! Everything here is pure integer code; a mask of `w x h` cells is stored
//! row-major, cell `(x, y)` at index `y * w + x`.

use vstd::prelude::*;
use vstd::arithmetic::div_mod::{lemma_fundamental_div_mod, lemma_fundamental_div_mod_converse, lemma_mod_pos_bound};

verus! {

/// Axis-aligned rectangle of cells, the closed ranges `[x0, x1] x [y0, y1]`.
#[derive(Clone, Copy, Debug, PartialEq, Eq, Structural)]
pub struct Rect {
    pub x0: i32,
    pub y0: i32,
    pub x1: i32,
    pub y1: i32,
}

/// Cell `(x, y)` is set (and inside the mask).
pub open spec fn px(m: Seq<bool>, w: int, h: int, x: int, y: int) -> bool {
    0 <= x < w && 0 <= y < h && m[y * w + x]
}

/// The last column of the horizontal run of set cells that goes right from `x`
/// (`x` itself is not looked at).
pub open spec fn run_end(m: Seq<bool>, w: int, h: int, x: int, y: int) -> int
    decreases w - x,
{
    if x + 1 < w && px(m, w, h, x + 1, y) {
        run_end(m, w, h, x + 1, y)
    } else {
        x
    }
}

/// Row `y` holds exactly the maximal run `[x0, x1]`.
pub open spec fn is_run(m: Seq<bool>, w: int, h: int, x0: int, x1: int, y: int) -> bool {
    &&& px(m, w, h, x0, y)
    &&& !px(m, w, h, x0 - 1, y)
    &&& run_end(m, w, h, x0, y) == x1
}

/// A rectangle starts at `(x, y)`: a maximal run begins there and the row
/// above does not hold the very same run.
pub open spec fn starts(m: Seq<bool>, w: int, h: int, x: int, y: int) -> bool {
    &&& px(m, w, h, x, y)
    &&& !px(m, w, h, x - 1, y)
    &&& !is_run(m, w, h, x, run_end(m, w, h, x, y), y - 1)
}

/// The last row of the stack of identical runs `[x0, x1]` that goes down from `y`.
pub open spec fn down_end(m: Seq<bool>, w: int, h: int, x0: int, x1: int, y: int) -> int
    decreases h - y,
{
    if is_run(m, w, h, x0, x1, y + 1) {
        down_end(m, w, h, x0, x1, y + 1)
    } else {
        y
    }
}

/// The rectangle that starts at `(x, y)`.
pub open spec fn rect_at(m: Seq<bool>, w: int, h: int, x: int, y: int) -> Rect {
    let e = run_end(m, w, h, x, y);
    Rect { x0: x as i32, y0: y as i32, x1: e as i32, y1: down_end(m, w, h, x, e, y) as i32 }
}

/// The rectangles that start in row `y` before column `x`, left to right.
pub open spec fn row_upto(m: Seq<bool>, w: int, h: int, x: int, y: int) -> Seq<Rect>
    decreases x,
{
    if x <= 0 {
        seq![]
    } else {
        row_upto(m, w, h, x - 1, y) + if starts(m, w, h, x - 1, y) {
            seq![rect_at(m, w, h, x - 1, y)]
        } else {
            seq![]
        }
    }
}

/// The rectangles that start before row `y`, row by row.
pub open spec fn rows_upto(m: Seq<bool>, w: int, h: int, y: int) -> Seq<Rect>
    decreases y,
{
    if y <= 0 {
        seq![]
    } else {
        rows_upto(m, w, h, y - 1) + row_upto(m, w, h, w, y - 1)
    }
}

/// The cover of the whole mask.
pub open spec fn cover_spec(m: Seq<bool>, w: int, h: int) -> Seq<Rect> {
    rows_upto(m, w, h, h)
}

proof fn lemma_index(w: int, h: int, x: int, y: int)
    requires
        0 <= x < w,
        0 <= y < h,
    ensures
        0 <= y * w,
        y * w + w <= w * h,
        (y + 1) * w == y * w + w,
{
    assert(0 <= y * w) by (nonlinear_arith)
        requires
            0 <= y,
            0 <= x < w,
    ;
    assert((y + 1) * w == y * w + w) by (nonlinear_arith);
    assert(y * w + w <= w * h) by (nonlinear_arith)
        requires
            0 <= y < h,
            0 <= x < w,
    ;
}

/// What `run_end` is: every cell after `x` up to it is set, the next one is not.
proof fn lemma_run_end(m: Seq<bool>, w: int, h: int, x: int, y: int)
    requires
        0 <= x < w,
    ensures
        x <= run_end(m, w, h, x, y) < w,
        forall|k: int| x < k <= run_end(m, w, h, x, y) ==> px(m, w, h, k, y),
        !px(m, w, h, run_end(m, w, h, x, y) + 1, y),
    decreases w - x,
{
    if x + 1 < w && px(m, w, h, x + 1, y) {
        lemma_run_end(m, w, h, x + 1, y);
    }
}

/// `run_end` is pinned by the set cells after `x` and the unset one after them.
proof fn lemma_run_end_is(m: Seq<bool>, w: int, h: int, x0: int, x1: int, y: int)
    requires
        0 <= x0 <= x1 < w,
        forall|k: int| x0 < k <= x1 ==> px(m, w, h, k, y),
        !px(m, w, h, x1 + 1, y),
    ensures
        run_end(m, w, h, x0, y) == x1,
{
    lemma_run_end(m, w, h, x0, y);
    let e = run_end(m, w, h, x0, y);
    if e < x1 {
        assert(px(m, w, h, e + 1, y));
    } else if e > x1 {
        assert(px(m, w, h, x1 + 1, y));
    }
}

/// A maximal run: its cells are set, the cells just outside are not.
proof fn lemma_run_cells(m: Seq<bool>, w: int, h: int, x0: int, x1: int, y: int)
    requires
        is_run(m, w, h, x0, x1, y),
    ensures
        0 <= x0 <= x1 < w,
        0 <= y < h,
        forall|k: int| x0 <= k <= x1 ==> px(m, w, h, k, y),
        !px(m, w, h, x0 - 1, y),
        !px(m, w, h, x1 + 1, y),
{
    lemma_run_end(m, w, h, x0, y);
}

/// Two maximal runs of one row that share a cell are the same run.
proof fn lemma_run_unique(m: Seq<bool>, w: int, h: int, a: int, b: int, a2: int, b2: int, y: int, c: int)
    requires
        is_run(m, w, h, a, b, y),
        is_run(m, w, h, a2, b2, y),
        a <= c <= b,
        a2 <= c <= b2,
    ensures
        a == a2,
        b == b2,
{
    lemma_run_cells(m, w, h, a, b, y);
    lemma_run_cells(m, w, h, a2, b2, y);
    if a < a2 {
        assert(px(m, w, h, a2 - 1, y));
    } else if a2 < a {
        assert(px(m, w, h, a - 1, y));
    }
}

/// The stack of identical runs below a run: every row of it holds the run,
/// the row after it does not.
proof fn lemma_down(m: Seq<bool>, w: int, h: int, x0: int, x1: int, y: int)
    requires
        is_run(m, w, h, x0, x1, y),
    ensures
        y <= down_end(m, w, h, x0, x1, y) < h,
        forall|r: int| y <= r <= down_end(m, w, h, x0, x1, y) ==> #[trigger] is_run(m, w, h, x0, x1, r),
        !is_run(m, w, h, x0, x1, down_end(m, w, h, x0, x1, y) + 1),
    decreases h - y,
{
    lemma_run_cells(m, w, h, x0, x1, y);
    if is_run(m, w, h, x0, x1, y + 1) {
        lemma_down(m, w, h, x0, x1, y + 1);
    }
}

/// A stack of identical runs from `y` through `t` reaches at least `t`.
proof fn lemma_down_reaches(m: Seq<bool>, w: int, h: int, x0: int, x1: int, y: int, t: int)
    requires
        y <= t,
        forall|r: int| y <= r <= t ==> #[trigger] is_run(m, w, h, x0, x1, r),
    ensures
        down_end(m, w, h, x0, x1, y) >= t,
    decreases t - y,
{
    if y < t {
        assert(is_run(m, w, h, x0, x1, y + 1));
        lemma_run_cells(m, w, h, x0, x1, y + 1);
        lemma_down_reaches(m, w, h, x0, x1, y + 1, t);
    } else {
        assert(is_run(m, w, h, x0, x1, y));
        lemma_down(m, w, h, x0, x1, y);
    }
}

/// The first column of the run of set cells that holds `(x, y)`.
pub open spec fn run_begin(m: Seq<bool>, w: int, h: int, x: int, y: int) -> int
    decreases x,
{
    if x > 0 && px(m, w, h, x - 1, y) {
        run_begin(m, w, h, x - 1, y)
    } else {
        x
    }
}

proof fn lemma_run_begin(m: Seq<bool>, w: int, h: int, x: int, y: int)
    requires
        px(m, w, h, x, y),
    ensures
        0 <= run_begin(m, w, h, x, y) <= x,
        forall|k: int| run_begin(m, w, h, x, y) <= k <= x ==> px(m, w, h, k, y),
        !px(m, w, h, run_begin(m, w, h, x, y) - 1, y),
    decreases x,
{
    if x > 0 && px(m, w, h, x - 1, y) {
        lemma_run_begin(m, w, h, x - 1, y);
    }
}

/// The first row of the stack of identical runs `[x0, x1]` that goes up from `y`.
pub open spec fn stack_top(m: Seq<bool>, w: int, h: int, x0: int, x1: int, y: int) -> int
    decreases y,
{
    if y > 0 && is_run(m, w, h, x0, x1, y - 1) {
        stack_top(m, w, h, x0, x1, y - 1)
    } else {
        y
    }
}

proof fn lemma_stack_top(m: Seq<bool>, w: int, h: int, x0: int, x1: int, y: int)
    requires
        is_run(m, w, h, x0, x1, y),
    ensures
        0 <= stack_top(m, w, h, x0, x1, y) <= y,
        forall|r: int| stack_top(m, w, h, x0, x1, y) <= r <= y ==> #[trigger] is_run(m, w, h, x0, x1, r),
        !is_run(m, w, h, x0, x1, stack_top(m, w, h, x0, x1, y) - 1),
    decreases y,
{
    lemma_run_cells(m, w, h, x0, x1, y);
    if y > 0 && is_run(m, w, h, x0, x1, y - 1) {
        lemma_stack_top(m, w, h, x0, x1, y - 1);
    }
}

/// What a started rectangle is: a stack of identical maximal runs, not
/// continued above or below.
proof fn lemma_rect_at(m: Seq<bool>, w: int, h: int, x: int, y: int)
    requires
        starts(m, w, h, x, y),
        w <= i32::MAX,
        h <= i32::MAX,
    ensures
        ({
            let r = rect_at(m, w, h, x, y);
            &&& r.x0 == x && r.y0 == y
            &&& 0 <= r.x0 <= r.x1 < w
            &&& 0 <= r.y0 <= r.y1 < h
            &&& forall|k: int| r.y0 <= k <= r.y1 ==> #[trigger] is_run(m, w, h, x, r.x1 as int, k)
            &&& !is_run(m, w, h, x, r.x1 as int, r.y0 - 1)
            &&& !is_run(m, w, h, x, r.x1 as int, r.y1 + 1)
        }),
{
    lemma_run_end(m, w, h, x, y);
    let e = run_end(m, w, h, x, y);
    assert(is_run(m, w, h, x, e, y));
    lemma_down(m, w, h, x, e, y);
}

/// `a` comes before `b` in `(y0, x0)` order.
pub open spec fn before(a: Rect, b: Rect) -> bool {
    a.y0 < b.y0 || (a.y0 == b.y0 && a.x0 < b.x0)
}

/// Rectangle `r` covers cell `(x, y)`.
pub open spec fn covers(r: Rect, x: int, y: int) -> bool {
    r.x0 <= x <= r.x1 && r.y0 <= y <= r.y1
}

proof fn lemma_row(m: Seq<bool>, w: int, h: int, xe: int, y: int)
    requires
        0 <= xe <= w,
        0 <= y < h,
        w <= i32::MAX,
        h <= i32::MAX,
    ensures
        ({
            let s = row_upto(m, w, h, xe, y);
            &&& forall|i: int| 0 <= i < s.len() ==> {
                &&& (#[trigger] s[i]).y0 == y
                &&& 0 <= s[i].x0 < xe
                &&& starts(m, w, h, s[i].x0 as int, y)
                &&& s[i] == rect_at(m, w, h, s[i].x0 as int, y)
            }
            &&& forall|x: int| 0 <= x < xe && starts(m, w, h, x, y) ==> s.contains(#[trigger] rect_at(m, w, h, x, y))
            &&& forall|i: int, j: int| 0 <= i < j < s.len() ==> (#[trigger] s[i]).x0 < (#[trigger] s[j]).x0
        }),
    decreases xe,
{
    if xe > 0 {
        lemma_row(m, w, h, xe - 1, y);
        let p = row_upto(m, w, h, xe - 1, y);
        let s = row_upto(m, w, h, xe, y);
        if starts(m, w, h, xe - 1, y) {
            lemma_rect_at(m, w, h, xe - 1, y);
            let r = rect_at(m, w, h, xe - 1, y);
            assert(s == p.push(r));
            assert forall|x: int| 0 <= x < xe && starts(m, w, h, x, y) implies s.contains(#[trigger] rect_at(m, w, h, x, y)) by {
                if x < xe - 1 {
                    let k = choose|k: int| 0 <= k < p.len() && p[k] == rect_at(m, w, h, x, y);
                    assert(s[k] == p[k]);
                } else {
                    assert(s[p.len() as int] == r);
                }
            }
        } else {
            assert(s =~= p);
        }
    }
}

proof fn lemma_rows(m: Seq<bool>, w: int, h: int, ye: int)
    requires
        0 <= ye <= h,
        0 <= w,
        w <= i32::MAX,
        h <= i32::MAX,
    ensures
        ({
            let s = rows_upto(m, w, h, ye);
            &&& forall|i: int| 0 <= i < s.len() ==> {
                &&& 0 <= (#[trigger] s[i]).y0 < ye
                &&& 0 <= s[i].x0 < w
                &&& starts(m, w, h, s[i].x0 as int, s[i].y0 as int)
                &&& s[i] == rect_at(m, w, h, s[i].x0 as int, s[i].y0 as int)
            }
            &&& forall|x: int, y: int| 0 <= x < w && 0 <= y < ye && starts(m, w, h, x, y)
                ==> s.contains(#[trigger] rect_at(m, w, h, x, y))
            &&& forall|i: int, j: int| 0 <= i < j < s.len() ==> before(#[trigger] s[i], #[trigger] s[j])
        }),
    decreases ye,
{
    if ye > 0 {
        lemma_rows(m, w, h, ye - 1);
        lemma_row(m, w, h, w, ye - 1);
        let p = rows_upto(m, w, h, ye - 1);
        let q = row_upto(m, w, h, w, ye - 1);
        let s = rows_upto(m, w, h, ye);
        assert(s == p + q);
        assert forall|i: int| 0 <= i < s.len() implies {
            &&& 0 <= (#[trigger] s[i]).y0 < ye
            &&& 0 <= s[i].x0 < w
            &&& starts(m, w, h, s[i].x0 as int, s[i].y0 as int)
            &&& s[i] == rect_at(m, w, h, s[i].x0 as int, s[i].y0 as int)
        } by {
            if i < p.len() {
                assert(s[i] == p[i]);
            } else {
                assert(s[i] == q[i - p.len()]);
            }
        }
        assert forall|x: int, y: int| 0 <= x < w && 0 <= y < ye && starts(m, w, h, x, y)
            implies s.contains(#[trigger] rect_at(m, w, h, x, y)) by {
            if y < ye - 1 {
                let k = choose|k: int| 0 <= k < p.len() && p[k] == rect_at(m, w, h, x, y);
                assert(s[k] == p[k]);
            } else {
                let k = choose|k: int| 0 <= k < q.len() && q[k] == rect_at(m, w, h, x, y);
                assert(s[p.len() + k] == q[k]);
            }
        }
        assert forall|i: int, j: int| 0 <= i < j < s.len() implies before(#[trigger] s[i], #[trigger] s[j]) by {
            if j < p.len() {
                assert(s[i] == p[i] && s[j] == p[j]);
            } else if i >= p.len() {
                assert(s[i] == q[i - p.len()] && s[j] == q[j - p.len()]);
            } else {
                assert(s[i] == p[i] && s[j] == q[j - p.len()]);
            }
        }
    }
}

/// The cover is exact: a cell is set if and only if some rectangle of the
/// cover holds it.
pub proof fn lemma_cover_exact(m: Seq<bool>, w: int, h: int, x: int, y: int)
    requires
        m.len() == w * h,
        0 <= w <= i32::MAX,
        0 <= h <= i32::MAX,
    ensures
        px(m, w, h, x, y) <==> exists|i: int| 0 <= i < cover_spec(m, w, h).len() && covers(#[trigger] cover_spec(m, w, h)[i], x, y),
{
    let s = cover_spec(m, w, h);
    lemma_rows(m, w, h, h);
    if px(m, w, h, x, y) {
        lemma_run_begin(m, w, h, x, y);
        let a = run_begin(m, w, h, x, y);
        lemma_run_end(m, w, h, a, y);
        let b = run_end(m, w, h, a, y);
        if b < x {
            assert(px(m, w, h, b + 1, y));
        }
        assert(is_run(m, w, h, a, b, y));
        lemma_stack_top(m, w, h, a, b, y);
        let t = stack_top(m, w, h, a, b, y);
        assert(is_run(m, w, h, a, b, t));
        lemma_run_cells(m, w, h, a, b, t);
        assert(starts(m, w, h, a, t));
        lemma_rect_at(m, w, h, a, t);
        lemma_down_reaches(m, w, h, a, b, t, y);
        let r = rect_at(m, w, h, a, t);
        assert(covers(r, x, y));
        assert(s.contains(rect_at(m, w, h, a, t)));
        let k = choose|k: int| 0 <= k < s.len() && s[k] == r;
        assert(covers(s[k], x, y));
    }
    if exists|i: int| 0 <= i < s.len() && covers(#[trigger] s[i], x, y) {
        let i = choose|i: int| 0 <= i < s.len() && covers(#[trigger] s[i], x, y);
        let r = s[i];
        lemma_rect_at(m, w, h, r.x0 as int, r.y0 as int);
        assert(is_run(m, w, h, r.x0 as int, r.x1 as int, y));
        lemma_run_cells(m, w, h, r.x0 as int, r.x1 as int, y);
    }
}

/// No two rectangles of the cover share a cell.
pub proof fn lemma_cover_disjoint(m: Seq<bool>, w: int, h: int, i: int, j: int, x: int, y: int)
    requires
        m.len() == w * h,
        0 <= w <= i32::MAX,
        0 <= h <= i32::MAX,
        0 <= i < cover_spec(m, w, h).len(),
        0 <= j < cover_spec(m, w, h).len(),
        i != j,
    ensures
        !(covers(cover_spec(m, w, h)[i], x, y) && covers(cover_spec(m, w, h)[j], x, y)),
{
    let s = cover_spec(m, w, h);
    lemma_rows(m, w, h, h);
    if covers(s[i], x, y) && covers(s[j], x, y) {
        let (p, q) = if i < j { (s[i], s[j]) } else { (s[j], s[i]) };
        assert(before(p, q));
        lemma_rect_at(m, w, h, p.x0 as int, p.y0 as int);
        lemma_rect_at(m, w, h, q.x0 as int, q.y0 as int);
        assert(is_run(m, w, h, p.x0 as int, p.x1 as int, y));
        assert(is_run(m, w, h, q.x0 as int, q.x1 as int, y));
        lemma_run_unique(m, w, h, p.x0 as int, p.x1 as int, q.x0 as int, q.x1 as int, y, x);
        assert(is_run(m, w, h, p.x0 as int, p.x1 as int, q.y0 - 1));
    }
}

/// The cover is in strictly increasing `(y0, x0)` order.
pub proof fn lemma_cover_sorted(m: Seq<bool>, w: int, h: int, i: int, j: int)
    requires
        m.len() == w * h,
        0 <= w <= i32::MAX,
        0 <= h <= i32::MAX,
        0 <= i < j < cover_spec(m, w, h).len(),
    ensures
        before(cover_spec(m, w, h)[i], cover_spec(m, w, h)[j]),
{
    lemma_rows(m, w, h, h);
}

/// Each rectangle of the cover is a stack of identical maximal runs that the
/// rows just above and below do not continue.
pub proof fn lemma_cover_maximal(m: Seq<bool>, w: int, h: int, i: int)
    requires
        m.len() == w * h,
        0 <= w <= i32::MAX,
        0 <= h <= i32::MAX,
        0 <= i < cover_spec(m, w, h).len(),
    ensures
        ({
            let r = cover_spec(m, w, h)[i];
            &&& 0 <= r.x0 <= r.x1 < w
            &&& 0 <= r.y0 <= r.y1 < h
            &&& forall|k: int| r.y0 <= k <= r.y1 ==> #[trigger] is_run(m, w, h, r.x0 as int, r.x1 as int, k)
            &&& !is_run(m, w, h, r.x0 as int, r.x1 as int, r.y0 - 1)
            &&& !is_run(m, w, h, r.x0 as int, r.x1 as int, r.y1 + 1)
        }),
{
    lemma_rows(m, w, h, h);
    let r = cover_spec(m, w, h)[i];
    lemma_rect_at(m, w, h, r.x0 as int, r.y0 as int);
}

/// Whether row `y` holds exactly the run `[x0, x1]`.
fn exact_run(mask: &[bool], w: usize, h: usize, x0: usize, x1: usize, y: usize) -> (r: bool)
    requires
        mask@.len() == w * h,
        x0 <= x1 < w,
        y < h,
    ensures
        r == is_run(mask@, w as int, h as int, x0 as int, x1 as int, y as int),
{
    let ghost m = mask@;
    let n = mask.len();
    proof {
        lemma_index(w as int, h as int, x0 as int, y as int);
        lemma_run_end(m, w as int, h as int, x0 as int, y as int);
    }
    let row = y * w;
    if x0 > 0 && mask[row + x0 - 1] {
        return false;
    }
    let mut x = x0;
    while x <= x1
        invariant
            mask@ == m,
            m.len() == w * h,
            n == m.len(),
            x0 <= x <= x1 + 1,
            x1 < w,
            y < h,
            row == y * w,
            row + w <= w * h,
            forall|k: int| x0 <= k < x ==> px(m, w as int, h as int, k, y as int),
        decreases x1 + 1 - x,
    {
        if !mask[row + x] {
            proof {
                if x > x0 {
                    lemma_run_end(m, w as int, h as int, x0 as int, y as int);
                    let e = run_end(m, w as int, h as int, x0 as int, y as int);
                    if e >= x {
                        assert(px(m, w as int, h as int, x as int, y as int));
                    }
                }
            }
            return false;
        }
        x = x + 1;
    }
    if x1 + 1 < w && mask[row + x1 + 1] {
        proof {
            lemma_run_end(m, w as int, h as int, x0 as int, y as int);
            let e = run_end(m, w as int, h as int, x0 as int, y as int);
            if e == x1 {
                assert(!px(m, w as int, h as int, x1 + 1, y as int));
            }
        }
        return false;
    }
    proof {
        lemma_run_end_is(m, w as int, h as int, x0 as int, x1 as int, y as int);
    }
    true
}

/// Decompose a mask into non-overlapping rectangles: greedily, each row's
/// maximal horizontal runs, a run merged into the rectangle above when that
/// rectangle ends on the previous row with exactly the same columns. The
/// output is in `(y0, x0)` order and covers exactly the set cells.
pub fn rect_cover(mask: &[bool], w: usize, h: usize) -> (out: Vec<Rect>)
    requires
        mask@.len() == w * h,
        w <= i32::MAX,
        h <= i32::MAX,
    ensures
        out@ == cover_spec(mask@, w as int, h as int),
{
    let ghost m = mask@;
    let n = mask.len();
    let ghost (wi, hi) = (w as int, h as int);
    let mut out: Vec<Rect> = Vec::new();
    let mut y: usize = 0;
    while y < h
        invariant
            mask@ == m,
            m.len() == w * h,
            n == m.len(),
            wi == w && hi == h,
            w <= i32::MAX,
            h <= i32::MAX,
            y <= h,
            out@ == rows_upto(m, wi, hi, y as int),
        decreases h - y,
    {
        proof {
            if w > 0 {
                lemma_index(wi, hi, 0, y as int);
            } else {
                assert(y * w == 0) by (nonlinear_arith)
                    requires
                        w == 0,
                ;
            }
        }
        let row = y * w;
        let mut x: usize = 0;
        while x < w
            invariant
                mask@ == m,
                m.len() == w * h,
                n == m.len(),
                wi == w && hi == h,
                w <= i32::MAX,
                h <= i32::MAX,
                y < h,
                x <= w,
                row == y * w,
                row + w <= w * h,
                x < w ==> (x == 0 || !px(m, wi, hi, x - 1, y as int)),
                out@ == rows_upto(m, wi, hi, y as int) + row_upto(m, wi, hi, x as int, y as int),
            decreases w - x,
        {
            if !mask[row + x] {
                proof {
                    assert(row_upto(m, wi, hi, x + 1, y as int) =~= row_upto(m, wi, hi, x as int, y as int));
                }
                x = x + 1;
            } else {
                let x0 = x;
                x = x + 1;
                while x < w && mask[row + x]
                    invariant
                        mask@ == m,
                        m.len() == w * h,
                        n == m.len(),
                        wi == w && hi == h,
                        y < h,
                        x0 < x <= w,
                        px(m, wi, hi, x0 as int, y as int),
                        row == y * w,
                        row + w <= w * h,
                        forall|k: int| x0 < k < x ==> px(m, wi, hi, k, y as int),
                        row_upto(m, wi, hi, x as int, y as int) == row_upto(m, wi, hi, x0 + 1, y as int),
                    decreases w - x,
                {
                    proof {
                        assert(px(m, wi, hi, x - 1, y as int));
                        assert(row_upto(m, wi, hi, x + 1, y as int) =~= row_upto(m, wi, hi, x as int, y as int));
                    }
                    x = x + 1;
                }
                let x1 = x - 1;
                proof {
                    lemma_run_end_is(m, wi, hi, x0 as int, x1 as int, y as int);
                }
                let above = y > 0 && exact_run(mask, w, h, x0, x1, y - 1);
                if !above {
                    let mut yy = y;
                    while yy + 1 < h && exact_run(mask, w, h, x0, x1, yy + 1)
                        invariant
                            mask@ == m,
                            m.len() == w * h,
                            n == m.len(),
                            wi == w && hi == h,
                            y <= yy < h,
                            x0 <= x1 < w,
                            down_end(m, wi, hi, x0 as int, x1 as int, yy as int)
                                == down_end(m, wi, hi, x0 as int, x1 as int, y as int),
                        decreases h - yy,
                    {
                        yy = yy + 1;
                    }
                    out.push(Rect { x0: x0 as i32, y0: y as i32, x1: x1 as i32, y1: yy as i32 });
                }
                proof {
                    assert(out@ =~= rows_upto(m, wi, hi, y as int) + row_upto(m, wi, hi, x as int, y as int));
                }
                if x < w {
                    proof {
                        assert(row_upto(m, wi, hi, x + 1, y as int) =~= row_upto(m, wi, hi, x as int, y as int));
                    }
                    x = x + 1;
                }
            }
        }
        proof {
            assert(out@ =~= rows_upto(m, wi, hi, y + 1));
        }
        y = y + 1;
    }
    out
}

/// Index `j` is one of the four neighbours of index `i` (left, right, up, down).
pub open spec fn adj4(w: int, h: int, i: int, j: int) -> bool {
    let x = i % w;
    let y = i / w;
    ||| (x > 0 && j == i - 1)
    ||| (x + 1 < w && j == i + 1)
    ||| (y > 0 && j == i - w)
    ||| (y + 1 < h && j == i + w)
}

/// `p` walks over set cells, each step to a neighbour.
pub open spec fn is_path(m: Seq<bool>, w: int, h: int, p: Seq<int>) -> bool {
    &&& p.len() > 0
    &&& forall|k: int| 0 <= k < p.len() ==> 0 <= #[trigger] p[k] < m.len() && m[p[k]]
    &&& forall|k: int| 0 <= k < p.len() - 1 ==> adj4(w, h, #[trigger] p[k], p[k + 1])
}

/// Some path over set cells leads from `a` to `b`.
pub open spec fn has_path(m: Seq<bool>, w: int, h: int, a: int, b: int) -> bool {
    exists|p: Seq<int>| is_path(m, w, h, p) && p[0] == a && p.last() == b
}

/// Strictly increasing.
pub open spec fn increasing(s: Seq<usize>) -> bool {
    forall|a: int, b: int| 0 <= a < b < s.len() ==> #[trigger] s[a] < #[trigger] s[b]
}

/// `cs` is the list of 4-connected components of the set cells: each
/// component listed in increasing index order, the components ordered by
/// their smallest index.
pub open spec fn components_spec(m: Seq<bool>, w: int, h: int, cs: Seq<Seq<usize>>) -> bool {
    &&& forall|c: int| 0 <= c < cs.len() ==> (#[trigger] cs[c]).len() > 0 && increasing(cs[c])
    &&& forall|c: int, k: int| 0 <= c < cs.len() && 0 <= k < cs[c].len()
        ==> (#[trigger] cs[c][k]) < m.len() && m[cs[c][k] as int]
    &&& forall|i: int| 0 <= i < m.len() && m[i] ==> exists|c: int| 0 <= c < cs.len() && (#[trigger] cs[c]).contains(i as usize)
    &&& forall|c1: int, c2: int, k1: int, k2: int|
        0 <= c1 < cs.len() && 0 <= c2 < cs.len() && c1 != c2 && 0 <= k1 < cs[c1].len() && 0 <= k2 < cs[c2].len()
        ==> #[trigger] cs[c1][k1] != #[trigger] cs[c2][k2]
    &&& forall|c1: int, c2: int| 0 <= c1 < c2 < cs.len() ==> (#[trigger] cs[c1])[0] < (#[trigger] cs[c2])[0]
    &&& forall|c: int, k: int, j: int| 0 <= c < cs.len() && 0 <= k < cs[c].len() && 0 <= j < m.len() && m[j]
        && #[trigger] adj4(w, h, cs[c][k] as int, j) ==> cs[c].contains(j as usize)
    &&& forall|c: int, k: int| 0 <= c < cs.len() && 0 <= k < cs[c].len()
        ==> has_path(m, w, h, cs[c][0] as int, #[trigger] cs[c][k] as int)
}

/// Row and column of an index, and which neighbours stay inside.
proof fn lemma_coords(w: int, h: int, i: int)
    requires
        w > 0,
        0 <= i < w * h,
    ensures
        i == (i / w) * w + i % w,
        0 <= i % w < w,
        0 <= i / w < h,
        i / w > 0 ==> i >= w,
        i / w + 1 < h ==> i + w < w * h,
        i % w + 1 < w ==> i + 1 < w * h,
{
    let x = i % w;
    let y = i / w;
    lemma_fundamental_div_mod(i, w);
    lemma_mod_pos_bound(i, w);
    assert(i == y * w + x) by (nonlinear_arith)
        requires
            i == w * (i / w) + (i % w),
            x == i % w,
            y == i / w,
    ;
    assert(0 <= y < h) by (nonlinear_arith)
        requires
            i == y * w + x,
            0 <= x < w,
            0 <= i < w * h,
    ;
    assert(y > 0 ==> i >= w) by (nonlinear_arith)
        requires
            i == y * w + x,
            0 <= x,
            w > 0,
    ;
    assert(y + 1 < h ==> i + w < w * h) by (nonlinear_arith)
        requires
            i == y * w + x,
            0 <= x < w,
            w > 0,
    ;
    assert(y * w + w <= w * h) by (nonlinear_arith)
        requires
            0 <= y < h,
            w > 0,
    ;
}

/// The contents of each vector.
pub open spec fn views(vs: Seq<Vec<usize>>) -> Seq<Seq<usize>> {
    vs.map_values(|v: Vec<usize>| v@)
}

/// Neighbourhood is symmetric.
proof fn lemma_adj_sym(w: int, h: int, i: int, j: int)
    requires
        w > 0,
        0 <= i < w * h,
        adj4(w, h, i, j),
    ensures
        adj4(w, h, j, i),
        0 <= j < w * h,
        j != i,
{
    let x = i % w;
    let y = i / w;
    lemma_coords(w, h, i);
    if x > 0 && j == i - 1 {
        lemma_fundamental_div_mod_converse(j, w, y, x - 1);
    } else if x + 1 < w && j == i + 1 {
        lemma_fundamental_div_mod_converse(j, w, y, x + 1);
    } else if y > 0 && j == i - w {
        assert(j == (y - 1) * w + x) by (nonlinear_arith)
            requires
                j == i - w,
                i == y * w + x,
        ;
        lemma_fundamental_div_mod_converse(j, w, y - 1, x);
    } else {
        assert(j == (y + 1) * w + x) by (nonlinear_arith)
            requires
                j == i + w,
                i == y * w + x,
        ;
        lemma_fundamental_div_mod_converse(j, w, y + 1, x);
    }
}

/// Number of zero entries.
pub open spec fn zeros(s: Seq<usize>) -> nat
    decreases s.len(),
{
    if s.len() == 0 {
        0
    } else {
        zeros(s.drop_last()) + if s.last() == 0 { 1nat } else { 0nat }
    }
}

proof fn lemma_zeros_update(s: Seq<usize>, i: int, v: usize)
    requires
        0 <= i < s.len(),
        s[i] == 0,
        v != 0,
    ensures
        zeros(s.update(i, v)) + 1 == zeros(s),
    decreases s.len(),
{
    let t = s.update(i, v);
    if i == s.len() - 1 {
        assert(t.drop_last() =~= s.drop_last());
    } else {
        assert(t.drop_last() =~= s.drop_last().update(i, v));
        lemma_zeros_update(s.drop_last(), i, v);
    }
}

/// The 4-connected components of the set cells (see [`components_spec`]).
pub fn components4(mask: &[bool], w: usize, h: usize) -> (out: Vec<Vec<usize>>)
    requires
        mask@.len() == w * h,
    ensures
        components_spec(mask@, w as int, h as int, views(out@)),
{
    let ghost m = mask@;
    let ghost (wi, hi) = (w as int, h as int);
    let n = mask.len();
    let mut label: Vec<usize> = Vec::new();
    let mut k: usize = 0;
    while k < n
        invariant
            k <= n,
            label@ == Seq::new(k as nat, |q: int| 0usize),
        decreases n - k,
    {
        label.push(0);
        k = k + 1;
    }
    let mut out: Vec<Vec<usize>> = Vec::new();
    let ghost mut pth: Seq<Seq<int>> = Seq::new(n as nat, |q: int| seq![q]);
    let ghost mut roots: Seq<int> = seq![];
    let mut start: usize = 0;
    while start < n
        invariant
            mask@ == m,
            wi == w && hi == h,
            n == m.len(),
            m.len() == w * h,
            start <= n,
            label@.len() == n,
            pth.len() == n,
            roots.len() == out@.len(),
            out@.len() <= start,
            forall|i: int| 0 <= i < n ==> #[trigger] label@[i] <= out@.len(),
            forall|i: int| 0 <= i < n && label@[i] > 0 ==> m[i],
            forall|i: int| 0 <= i < start && m[i] ==> #[trigger] label@[i] > 0,
            forall|i: int, j: int| 0 <= i < n && 0 <= j < n && label@[i] > 0 && m[j] && adj4(wi, hi, i, j)
                ==> #[trigger] label@[j] == #[trigger] label@[i],
            forall|i: int| 0 <= i < n && label@[i] > 0 ==> {
                &&& is_path(m, wi, hi, #[trigger] pth[i])
                &&& pth[i][0] == roots[label@[i] - 1]
                &&& pth[i].last() == i
            },
            forall|c: int| 0 <= c < roots.len() ==> {
                &&& 0 <= #[trigger] roots[c] < start
                &&& label@[roots[c]] == c + 1
            },
            forall|i: int| 0 <= i < n && label@[i] > 0 ==> roots[label@[i] - 1] <= i,
            forall|c1: int, c2: int| 0 <= c1 < c2 < roots.len() ==> #[trigger] roots[c1] < #[trigger] roots[c2],
            forall|c: int| 0 <= c < out@.len() ==> {
                &&& increasing(#[trigger] out@[c]@)
                &&& forall|q: int| 0 <= q < out@[c]@.len() ==> (#[trigger] out@[c]@[q]) < n && label@[out@[c]@[q] as int] == c + 1
                &&& forall|i: int| 0 <= i < n && #[trigger] label@[i] == c + 1 ==> out@[c]@.contains(i as usize)
            },
        decreases n - start,
    {
        if mask[start] && label[start] == 0 {
            let lab = out.len() + 1;
            proof {
                lemma_zeros_update(label@, start as int, lab);
            }
            label.set(start, lab);
            proof {
                pth = pth.update(start as int, seq![start as int]);
                roots = roots.push(start as int);
            }
            let mut stack: Vec<usize> = Vec::new();
            stack.push(start);
            proof {
                assert(stack@[0] == start);
                assert(stack@.contains(start));
            }
            let mut top: usize = start;
            while stack.len() > 0
                invariant
                    mask@ == m,
                    wi == w && hi == h,
                    n == m.len(),
                    m.len() == w * h,
                    start < n,
                    start <= top < n,
                    lab == out@.len() + 1,
                    label@.len() == n,
                    pth.len() == n,
                    roots.len() == lab,
                    roots[lab - 1] == start,
                    label@[start as int] == lab,
                    stack@.no_duplicates(),
                    forall|q: int| 0 <= q < stack@.len() ==> (#[trigger] stack@[q]) < n && label@[stack@[q] as int] == lab,
                    forall|i: int| 0 <= i < n ==> #[trigger] label@[i] <= lab,
                    forall|i: int| 0 <= i < n && label@[i] > 0 ==> m[i],
                    forall|i: int| 0 <= i < start && m[i] ==> #[trigger] label@[i] > 0,
                    forall|i: int, j: int| 0 <= i < n && 0 <= j < n && 0 < label@[i] < lab && m[j] && adj4(wi, hi, i, j)
                        ==> #[trigger] label@[j] == #[trigger] label@[i],
                    forall|i: int, j: int| 0 <= i < n && 0 <= j < n && label@[i] == lab && !stack@.contains(i as usize)
                        && m[j] && adj4(wi, hi, i, j) ==> #[trigger] label@[j] == #[trigger] label@[i],
                    forall|i: int| 0 <= i < n && label@[i] > 0 ==> {
                        &&& is_path(m, wi, hi, #[trigger] pth[i])
                        &&& pth[i][0] == roots[label@[i] - 1]
                        &&& pth[i].last() == i
                    },
                    forall|c: int| 0 <= c < lab - 1 ==> {
                        &&& 0 <= #[trigger] roots[c] < start
                        &&& label@[roots[c]] == c + 1
                    },
                    forall|i: int| 0 <= i < n && label@[i] > 0 ==> roots[label@[i] - 1] <= i,
                    forall|i: int| 0 <= i < n && label@[i] == lab ==> i <= top,
                    forall|c1: int, c2: int| 0 <= c1 < c2 < roots.len() ==> #[trigger] roots[c1] < #[trigger] roots[c2],
                    forall|c: int| 0 <= c < out@.len() ==> {
                        &&& increasing(#[trigger] out@[c]@)
                        &&& forall|q: int| 0 <= q < out@[c]@.len() ==> (#[trigger] out@[c]@[q]) < n && label@[out@[c]@[q] as int] == c + 1
                        &&& forall|i: int| 0 <= i < n && #[trigger] label@[i] == c + 1 ==> out@[c]@.contains(i as usize)
                    },
                decreases 2 * zeros(label@) + stack@.len(),
            {
                let ghost before = stack@;
                let i = stack.pop().unwrap();
                proof {
                    assert(before == stack@.push(i));
                    assert(before[before.len() - 1] == i);
                    assert(w > 0) by (nonlinear_arith)
                        requires
                            i < w * h,
                    ;
                    assert(label@[i as int] == lab);
                    lemma_coords(wi, hi, i as int);
                    assert forall|v: usize| stack@.contains(v) implies before.contains(v) by {
                        let k = choose|k: int| 0 <= k < stack@.len() && stack@[k] == v;
                        assert(before[k] == v);
                    }
                    if stack@.contains(i) {
                        let k = choose|k: int| 0 <= k < stack@.len() && stack@[k] == i;
                        assert(before[k] == before[before.len() - 1]);
                    }
                }
                let x = i % w;
                let y = i / w;
                let mut nb: Vec<usize> = Vec::new();
                if x > 0 {
                    nb.push(i - 1);
                }
                if x + 1 < w {
                    nb.push(i + 1);
                }
                if y > 0 {
                    nb.push(i - w);
                }
                if y + 1 < h {
                    nb.push(i + w);
                }
                proof {
                    assert forall|q: int| 0 <= q < nb@.len() implies adj4(wi, hi, i as int, #[trigger] nb@[q] as int) && nb@[q] < n by {
                        lemma_adj_sym(wi, hi, i as int, nb@[q] as int);
                    }
                    assert forall|j: int| adj4(wi, hi, i as int, j) implies nb@.contains(j as usize) by {
                        lemma_adj_sym(wi, hi, i as int, j);
                        if x > 0 && j == i - 1 {
                            assert(nb@[0] == j);
                        } else if x + 1 < w && j == i + 1 {
                            if x > 0 { assert(nb@[1] == j); } else { assert(nb@[0] == j); }
                        } else if y > 0 && j == i - w {
                            let q = (if x > 0 { 1int } else { 0int }) + (if x + 1 < w { 1int } else { 0int });
                            assert(nb@[q] == j);
                        } else {
                            let q = (if x > 0 { 1int } else { 0int }) + (if x + 1 < w { 1int } else { 0int })
                                + (if y > 0 { 1int } else { 0int });
                            assert(nb@[q] == j);
                        }
                    }
                }
                let ghost stack0 = stack@;
                let ghost z0 = zeros(label@);
                let mut t: usize = 0;
                while t < nb.len()
                    invariant
                        mask@ == m,
                        wi == w && hi == h,
                        n == m.len(),
                        m.len() == w * h,
                        start < n,
                        start <= top < n,
                        i < n,
                        t <= nb@.len(),
                        lab == out@.len() + 1,
                        label@.len() == n,
                        pth.len() == n,
                        roots.len() == lab,
                        roots[lab - 1] == start,
                        label@[start as int] == lab,
                        label@[i as int] == lab,
                        !stack0.contains(i),
                        stack@.no_duplicates(),
                        stack@.len() + 2 * zeros(label@) <= stack0.len() + 2 * z0,
                        forall|q: int| 0 <= q < stack@.len() ==> (#[trigger] stack@[q]) < n && label@[stack@[q] as int] == lab,
                        forall|v: usize| stack0.contains(v) ==> #[trigger] stack@.contains(v),
                        !stack@.contains(i),
                        forall|q: int| 0 <= q < nb@.len() ==> adj4(wi, hi, i as int, #[trigger] nb@[q] as int) && nb@[q] < n,
                        forall|q: int| 0 <= q < t && m[nb@[q] as int] ==> label@[#[trigger] nb@[q] as int] > 0,
                        forall|ii: int| 0 <= ii < n ==> #[trigger] label@[ii] <= lab,
                        forall|ii: int| 0 <= ii < n && label@[ii] > 0 ==> m[ii],
                        forall|ii: int| 0 <= ii < start && m[ii] ==> #[trigger] label@[ii] > 0,
                        forall|ii: int, j: int| 0 <= ii < n && 0 <= j < n && 0 < label@[ii] < lab && m[j] && adj4(wi, hi, ii, j)
                            ==> #[trigger] label@[j] == #[trigger] label@[ii],
                        forall|ii: int, j: int| 0 <= ii < n && 0 <= j < n && label@[ii] == lab && ii != i && !stack@.contains(ii as usize)
                            && m[j] && adj4(wi, hi, ii, j) ==> #[trigger] label@[j] == #[trigger] label@[ii],
                        forall|ii: int| 0 <= ii < n && label@[ii] > 0 ==> {
                            &&& is_path(m, wi, hi, #[trigger] pth[ii])
                            &&& pth[ii][0] == roots[label@[ii] - 1]
                            &&& pth[ii].last() == ii
                        },
                        forall|c: int| 0 <= c < lab - 1 ==> {
                            &&& 0 <= #[trigger] roots[c] < start
                            &&& label@[roots[c]] == c + 1
                        },
                        forall|ii: int| 0 <= ii < n && label@[ii] > 0 ==> roots[label@[ii] - 1] <= ii,
                        forall|ii: int| 0 <= ii < n && label@[ii] == lab ==> ii <= top,
                        forall|c1: int, c2: int| 0 <= c1 < c2 < roots.len() ==> #[trigger] roots[c1] < #[trigger] roots[c2],
                        forall|c: int| 0 <= c < out@.len() ==> {
                            &&& increasing(#[trigger] out@[c]@)
                            &&& forall|q: int| 0 <= q < out@[c]@.len() ==> (#[trigger] out@[c]@[q]) < n && label@[out@[c]@[q] as int] == c + 1
                            &&& forall|ii: int| 0 <= ii < n && #[trigger] label@[ii] == c + 1 ==> out@[c]@.contains(ii as usize)
                        },
                    decreases nb@.len() - t,
                {
                    let j = nb[t];
                    if mask[j] && label[j] == 0 {
                        proof {
                            lemma_zeros_update(label@, j as int, lab);
                            pth = pth.update(j as int, pth[i as int].push(j as int));
                            let p = pth[j as int];
                            assert(is_path(m, wi, hi, p)) by {
                                assert forall|q: int| 0 <= q < p.len() - 1 implies adj4(wi, hi, #[trigger] p[q], p[q + 1]) by {
                                    if q < p.len() - 2 {
                                        assert(p[q] == pth[i as int][q] && p[q + 1] == pth[i as int][q + 1]);
                                    }
                                }
                            }
                        }
                        label.set(j, lab);
                        let ghost sprev = stack@;
                        stack.push(j);
                        proof {
                            lemma_adj_sym(wi, hi, i as int, j as int);
                            assert(stack@[stack@.len() - 1] == j);
                            assert forall|v: usize| sprev.contains(v) implies #[trigger] stack@.contains(v) by {
                                let k = choose|k: int| 0 <= k < sprev.len() && sprev[k] == v;
                                assert(stack@[k] == v);
                            }
                            if stack@.contains(i) {
                                let k = choose|k: int| 0 <= k < stack@.len() && stack@[k] == i;
                                if k < sprev.len() {
                                    assert(sprev[k] == i);
                                }
                            }
                            assert forall|v: usize| stack@.contains(v) && !sprev.contains(v) implies v == j by {
                                let k = choose|k: int| 0 <= k < stack@.len() && stack@[k] == v;
                                if k < sprev.len() {
                                    assert(sprev[k] == v);
                                }
                            }
                        }
                        if j > top {
                            top = j;
                        }
                    }
                    t = t + 1;
                }
                proof {
                    assert forall|j: int| 0 <= j < n && m[j] && adj4(wi, hi, i as int, j) implies #[trigger] label@[j] == label@[i as int] by {
                        assert(nb@.contains(j as usize));
                        let q = choose|q: int| 0 <= q < nb@.len() && nb@[q] == j as usize;
                        assert(label@[nb@[q] as int] > 0);
                        lemma_adj_sym(wi, hi, i as int, j);
                        if label@[j] < lab {
                            assert(label@[i as int] == label@[j]);
                        }
                    }
                }
            }
            let mut comp: Vec<usize> = Vec::new();
            let mut q: usize = start;
            while q <= top
                invariant
                    start <= q <= top + 1,
                    top < n,
                    label@.len() == n,
                    label@[start as int] == lab,
                    forall|ii: int| 0 <= ii < n && label@[ii] == lab ==> start <= ii <= top,
                    increasing(comp@),
                    forall|r: int| 0 <= r < comp@.len() ==> start <= #[trigger] comp@[r] < q && label@[comp@[r] as int] == lab,
                    forall|ii: int| start <= ii < q && #[trigger] label@[ii] == lab ==> comp@.contains(ii as usize),
                    q > start ==> comp@.len() > 0 && comp@[0] == start,
                decreases top + 1 - q,
            {
                if label[q] == lab {
                    let ghost cprev = comp@;
                    comp.push(q);
                    proof {
                        assert forall|ii: int| start <= ii < q + 1 && #[trigger] label@[ii] == lab implies comp@.contains(ii as usize) by {
                            if ii == q {
                                assert(comp@[comp@.len() - 1] == q);
                            } else {
                                assert(cprev.contains(ii as usize));
                                let k = choose|k: int| 0 <= k < cprev.len() && cprev[k] == ii as usize;
                                assert(comp@[k] == ii as usize);
                            }
                        }
                    }
                }
                q = q + 1;
            }
            out.push(comp);
        }
        start = start + 1;
    }
    proof {
        let cs = views(out@);
        assert forall|c: int| 0 <= c < cs.len() implies cs[c][0] == roots[c] by {
            assert(cs[c] == out@[c]@);
            assert(out@[c]@.contains(roots[c] as usize));
            let q = choose|q: int| 0 <= q < out@[c]@.len() && out@[c]@[q] == roots[c] as usize;
            if q > 0 {
                assert(out@[c]@[0] < out@[c]@[q]);
            }
        }
        assert forall|c: int, k: int| 0 <= c < cs.len() && 0 <= k < cs[c].len()
            implies has_path(m, wi, hi, cs[c][0] as int, #[trigger] cs[c][k] as int) by {
            let e = cs[c][k] as int;
            assert(label@[e] == c + 1);
            assert(is_path(m, wi, hi, pth[e]));
            assert(pth[e][0] == cs[c][0] as int);
        }
        assert forall|i: int| 0 <= i < m.len() && m[i] implies exists|c: int| 0 <= c < cs.len() && (#[trigger] cs[c]).contains(i as usize) by {
            let c = label@[i] - 1;
            assert(out@[c]@.contains(i as usize));
            assert(cs[c] == out@[c]@);
        }
        assert forall|c: int, k: int, j: int| 0 <= c < cs.len() && 0 <= k < cs[c].len() && 0 <= j < m.len() && m[j]
            && #[trigger] adj4(wi, hi, cs[c][k] as int, j) implies cs[c].contains(j as usize) by {
            let e = cs[c][k] as int;
            assert(label@[e] == c + 1);
            assert(label@[j] == label@[e]);
            assert(out@[c]@.contains(j as usize));
        }
        assert forall|c: int| 0 <= c < cs.len() implies (#[trigger] cs[c]).len() > 0 && increasing(cs[c]) by {
            assert(cs[c] == out@[c]@);
            assert(out@[c]@.contains(roots[c] as usize));
        }
        assert forall|c: int, k: int| 0 <= c < cs.len() && 0 <= k < cs[c].len()
            implies (#[trigger] cs[c][k]) < m.len() && m[cs[c][k] as int] by {
            assert(cs[c] == out@[c]@);
        }
        assert forall|c1: int, c2: int, k1: int, k2: int|
            0 <= c1 < cs.len() && 0 <= c2 < cs.len() && c1 != c2 && 0 <= k1 < cs[c1].len() && 0 <= k2 < cs[c2].len()
            implies #[trigger] cs[c1][k1] != #[trigger] cs[c2][k2] by {
            assert(cs[c1] == out@[c1]@);
            assert(cs[c2] == out@[c2]@);
        }
        assert forall|c1: int, c2: int| 0 <= c1 < c2 < cs.len() implies (#[trigger] cs[c1])[0] < (#[trigger] cs[c2])[0] by {
            assert(roots[c1] < roots[c2]);
        }
        assert(components_spec(m, wi, hi, cs));
    }
    out
}

} // verus!
