//! The grid step of one tick: four phases of chunks whose windows do not
//! overlap, in an order rotating with the tick; every updated chunk is
//! scanned once. Within a phase the chunks' updates commute, so the result
//! is that of updating them in row-major order.

use vstd::prelude::*;
use vstd::arithmetic::div_mod::lemma_fundamental_div_mod_converse;

use crate::chunk::{full_rect, read_rect, union_spec, Chunk, DirtyRect};
use crate::material::MaterialTable;
use crate::reaction::ReactionTable;
use crate::rng;
use crate::cell::Cell;
use crate::rules::{chunk_pass, chunk_pass_marks, counts_kept, live_ok, pass_ctx, step_frame, update_chunk};
use crate::window::{fresh_window, WriteWindow};
use crate::world::{nd_view, rect_in_chunk, Marks, SpawnRequest, World};
use crate::ScanMode;

verus! {

/// The four phases, as chunk-coordinate parities `(x & 1, y & 1)`.
pub open spec fn phase_spec(i: int) -> (usize, usize) {
    if i == 0 {
        (0, 0)
    } else if i == 1 {
        (1, 0)
    } else if i == 2 {
        (1, 1)
    } else {
        (0, 1)
    }
}

/// The phases in the order of tick `tick`: rotated by `tick % 4`.
pub fn phase_order(tick: u64) -> (r: [(usize, usize); 4])
    ensures
        forall|i: int| 0 <= i < 4 ==> #[trigger] r@[i] == phase_spec((i + tick % 4) % 4),
{
    let r: usize = (tick % 4) as usize;
    let mut out: [(usize, usize); 4] = [(0, 0); 4];
    let mut i: usize = 0;
    while i < 4
        invariant
            i <= 4,
            r == tick % 4,
            forall|j: int| 0 <= j < i ==> #[trigger] out@[j] == phase_spec((j + tick % 4) % 4),
        decreases 4 - i,
    {
        let k = (i + r) % 4;
        let p: (usize, usize) = if k == 0 {
            (0, 0)
        } else if k == 1 {
            (1, 0)
        } else if k == 2 {
            (1, 1)
        } else {
            (0, 1)
        };
        out.set(i, p);
        i += 1;
    }
    out
}

/// Whether a chunk rectangle is inside the chunk or empty, as a `DirtyRect`.
pub open spec fn rect_ok(r: DirtyRect) -> bool {
    rect_in_chunk((r.x0, r.y0, r.x1, r.y1))
}

/// The rectangles of a chunk's pass under each scan mode.
proof fn lemma_start_ok(a: DirtyRect, b: DirtyRect)
    requires
        rect_ok(a),
        rect_ok(b),
    ensures
        live_ok(union_spec(a, b)) || union_spec(a, b).is_empty_spec(),
{
}

/// Where a chunk's pass starts under `scan`, given its scan rectangle
/// `dirty` and its write rectangle `nd`: the full chunk under `Full`;
/// otherwise `None` (asleep) when neither is marked, else the awake
/// rectangle (their union) under `LiveRect` and the full chunk under `ChunkSleep`.
pub open spec fn chunk_start(scan: ScanMode, dirty: DirtyRect, nd: (u8, u8, u8, u8)) -> Option<DirtyRect> {
    if scan == ScanMode::Full {
        Some(full_rect())
    } else {
        let awake = union_spec(dirty, read_rect(nd));
        if awake.is_empty_spec() {
            None
        } else if scan == ScanMode::LiveRect {
            Some(awake)
        } else {
            Some(full_rect())
        }
    }
}

/// The chunks of phase `(px, py)` that `scan` updates, from chunk index `i`
/// on, in index (row-major) order, each with its start rectangle; the scan
/// rectangles are `w`'s, the write rectangles `m`.
pub open spec fn phase_ids(w: World, m: Marks, scan: ScanMode, px: int, py: int, i: int) -> Seq<(usize, usize, DirtyRect)>
    decreases w.width_chunks * w.height_chunks - i,
{
    if i < 0 || i >= w.width_chunks * w.height_chunks {
        Seq::empty()
    } else {
        let cx = i % (w.width_chunks as int);
        let cy = i / (w.width_chunks as int);
        let rest = phase_ids(w, m, scan, px, py, i + 1);
        if cx % 2 == px && cy % 2 == py {
            match chunk_start(scan, w.chunks@[i].dirty, m(cx, cy)) {
                Some(st) => seq![(cx as usize, cy as usize, st)] + rest,
                None => rest,
            }
        } else {
            rest
        }
    }
}

/// The grid after the passes `ids[k..]`, one after another, of tick `tick`.
pub open spec fn chunks_fold(
    tb: Seq<crate::material::MaterialDef>,
    tick: u64,
    fseed: u32,
    wc: usize,
    hc: usize,
    g: spec_fn(int, int) -> Cell,
    ids: Seq<(usize, usize, DirtyRect)>,
    k: int,
) -> spec_fn(int, int) -> Cell
    decreases ids.len() - k,
{
    if k < 0 || k >= ids.len() {
        g
    } else {
        let (cx, cy, st) = ids[k];
        let kc = pass_ctx(tb, tick, fseed, cx * 64, cy * 64, wc * 64, hc * 64);
        chunks_fold(tb, tick, fseed, wc, hc, chunk_pass(kc, g, fresh_window(wc, hc, cx, cy), st).0, ids, k + 1)
    }
}

/// The write rectangles after the passes `ids[k..]`, starting from grid `g`
/// and write rectangles `m`.
pub open spec fn chunks_fold_marks(
    tb: Seq<crate::material::MaterialDef>,
    tick: u64,
    fseed: u32,
    wc: usize,
    hc: usize,
    g: spec_fn(int, int) -> Cell,
    m: Marks,
    ids: Seq<(usize, usize, DirtyRect)>,
    k: int,
) -> Marks
    decreases ids.len() - k,
{
    if k < 0 || k >= ids.len() {
        m
    } else {
        let (cx, cy, st) = ids[k];
        let kc = pass_ctx(tb, tick, fseed, cx * 64, cy * 64, wc * 64, hc * 64);
        let fw = fresh_window(wc, hc, cx, cy);
        chunks_fold_marks(tb, tick, fseed, wc, hc, chunk_pass(kc, g, fw, st).0, chunk_pass_marks(kc, g, fw, m, st), ids, k + 1)
    }
}

/// Update every chunk of phase `(px, py)` that the scan mode selects.
fn run_phase(
    world: &mut World,
    table: &MaterialTable,
    tick: u64,
    fseed: u32,
    scan: ScanMode,
    px: usize,
    py: usize,
    spawns: &mut Vec<SpawnRequest>,
)
    requires
        old(world).wf(),
        old(world).rects_ok(),
        old(world).mats_valid(table@.len() as int),
        old(world).bufs_empty(),
        crate::material::table_valid(table@),
        tick == old(world).tick,
    ensures
        final(world).wf(),
        final(world).rects_ok(),
        final(world).mats_valid(table@.len() as int),
        final(world).bufs_empty(),
        final(world).grid() == chunks_fold(
            table@,
            tick,
            fseed,
            old(world).width_chunks,
            old(world).height_chunks,
            old(world).grid(),
            phase_ids(*old(world), nd_view(*old(world)), scan, px as int, py as int, 0),
            0,
        ),
        nd_view(*final(world)) == chunks_fold_marks(
            table@,
            tick,
            fseed,
            old(world).width_chunks,
            old(world).height_chunks,
            old(world).grid(),
            nd_view(*old(world)),
            phase_ids(*old(world), nd_view(*old(world)), scan, px as int, py as int, 0),
            0,
        ),
        final(world).same_shape(*old(world)),
        final(world).vaporized_total == old(world).vaporized_total,
        counts_kept(*final(world), *old(world)),
        final(spawns)@ == old(spawns)@,
        forall|i: int| 0 <= i < final(world).chunks@.len() ==> #[trigger] final(world).chunks@[i].dirty == old(world).chunks@[i].dirty,
{
    let wc = world.width_chunks;
    let hc = world.height_chunks;
    let nchunks = world.chunks.len();
    let ghost wi = *world;
    let ghost all = phase_ids(wi, nd_view(wi), scan, px as int, py as int, 0);
    let mut ids: Vec<(usize, usize, DirtyRect)> = Vec::new();
    let mut cy: usize = 0;
    while cy < hc
        invariant
            world.wf(),
            world.rects_ok(),
            world.bufs_empty(),
            wc == world.width_chunks,
            hc == world.height_chunks,
            cy <= hc,
            *world == wi,
            all == phase_ids(wi, nd_view(wi), scan, px as int, py as int, 0),
            ids@ + phase_ids(wi, nd_view(wi), scan, px as int, py as int, cy * wc) == all,
            forall|k: int| 0 <= k < ids@.len() ==> {
                &&& (#[trigger] ids@[k]).0 < wc
                &&& ids@[k].1 < hc
                &&& live_ok(ids@[k].2)
            },
        decreases hc - cy,
    {
        let mut cx: usize = 0;
        while cx < wc
            invariant
                world.wf(),
                world.rects_ok(),
                world.bufs_empty(),
                wc == world.width_chunks,
                hc == world.height_chunks,
                cy < hc,
                cx <= wc,
                *world == wi,
                all == phase_ids(wi, nd_view(wi), scan, px as int, py as int, 0),
                ids@ + phase_ids(wi, nd_view(wi), scan, px as int, py as int, cy * wc + cx) == all,
                forall|k: int| 0 <= k < ids@.len() ==> {
                    &&& (#[trigger] ids@[k]).0 < wc
                    &&& ids@[k].1 < hc
                    &&& live_ok(ids@[k].2)
                },
            decreases wc - cx,
        {
            let ghost i = cy * wc + cx;
            let ghost ids0 = ids@;
            proof {
                crate::world::lemma_chunk_index_bound(wc as int, hc as int, cx as int, cy as int);
                lemma_fundamental_div_mod_converse(i, wc as int, cy as int, cx as int);
                assert(wi.width_chunks * wi.height_chunks == wc * hc);
            }
            if cx % 2 == px && cy % 2 == py {
                let ci = world.chunk_index(cx, cy);
                match scan {
                    ScanMode::Full => {
                        ids.push((cx, cy, DirtyRect::full()));
                    },
                    _ => {
                        let c = &world.chunks[ci];
                        let snap = c.next_dirty.snapshot();
                        let awake = c.dirty.union(snap);
                        proof {
                            assert(rect_in_chunk(world.chunks@[ci as int].next_dirty@));
                            lemma_start_ok(c.dirty, snap);
                        }
                        if !awake.is_empty() {
                            match scan {
                                ScanMode::LiveRect => {
                                    ids.push((cx, cy, awake));
                                },
                                _ => {
                                    ids.push((cx, cy, DirtyRect::full()));
                                },
                            }
                        }
                    },
                }
            }
            proof {
                let rest = phase_ids(wi, nd_view(wi), scan, px as int, py as int, i + 1);
                assert(ids@ + rest =~= all);
            }
            cx += 1;
        }
        proof {
            assert(cy * wc + wc == (cy + 1) * wc) by (nonlinear_arith);
        }
        cy += 1;
    }
    proof {
        assert(hc * wc == wc * hc) by (nonlinear_arith);
        assert(ids@ =~= all);
    }
    let ghost w0 = *world;
    let mut k: usize = 0;
    while k < ids.len()
        invariant
            world.wf(),
            world.rects_ok(),
            world.mats_valid(table@.len() as int),
            crate::material::table_valid(table@),
            wc == world.width_chunks,
            hc == world.height_chunks,
            nchunks == world.chunks@.len(),
            world.same_shape(w0),
            world.vaporized_total == w0.vaporized_total,
            counts_kept(*world, w0),
            forall|i: int| 0 <= i < world.chunks@.len() ==> #[trigger] world.chunks@[i].dirty == w0.chunks@[i].dirty,
            forall|q: int| 0 <= q < ids@.len() ==> {
                &&& (#[trigger] ids@[q]).0 < wc
                &&& ids@[q].1 < hc
                &&& live_ok(ids@[q].2)
            },
            k <= ids@.len(),
            world.bufs_empty(),
            spawns@ == old(spawns)@,
            world.tick == tick,
            chunks_fold(table@, tick, fseed, wc, hc, world.grid(), ids@, k as int)
                == chunks_fold(table@, tick, fseed, wc, hc, w0.grid(), ids@, 0),
            chunks_fold_marks(table@, tick, fseed, wc, hc, world.grid(), nd_view(*world), ids@, k as int)
                == chunks_fold_marks(table@, tick, fseed, wc, hc, w0.grid(), nd_view(w0), ids@, 0),
        decreases ids@.len() - k,
    {
        let (cx, cy, start) = ids[k];
        let mut win = WriteWindow::new(wc, hc, cx, cy);
        let ghost (w1, n1) = (*world, win);
        update_chunk(&mut win, world, table, world.tick, fseed, start, (cx * 64) as i32, (cy * 64) as i32);
        proof {
            if !start.is_empty_spec() {
                assert(step_frame(*world, w1, win, WriteWindow { live: start, ..n1 }));
            }
        }
        let ci = world.chunk_index(cx, cy);
        let ghost w2 = *world;
        let mut buf: Vec<SpawnRequest> = Vec::new();
        std::mem::swap(&mut buf, &mut world.chunks[ci].spawn_buf);
        proof {
            assert(w2.bufs_empty()) by {
                if !start.is_empty_spec() {
                    assert forall|i: int| 0 <= i < w2.chunks@.len() implies (#[trigger] w2.chunks@[i]).spawn_buf@.len() == 0 by {
                        assert(w2.chunks@[i].spawn_buf@ == w1.chunks@[i].spawn_buf@);
                    }
                }
            }
            assert(buf@.len() == 0);
            assert forall|i: int| 0 <= i < world.chunks@.len() implies (#[trigger] world.chunks@[i]).spawn_buf@.len() == 0 by {
                if i != ci {
                    assert(world.chunks@[i] == w2.chunks@[i]);
                }
            }
            assert forall|i: int| 0 <= i < world.chunks@.len() implies (#[trigger] world.chunks@[i]).cells@.len() == 4096 by {
                assert(w2.chunks@[i].cells@.len() == 4096);
            }
            assert forall|a: int, b: int| #[trigger] world.at(a, b) == w2.at(a, b) by {
                if world.inb(a, b) {
                    crate::world::lemma_locate_bounds(w2, a, b);
                }
            }
            assert forall|m: u8| #[trigger] crate::world::world_count(*world, m) == crate::world::world_count(w2, m) by {
                crate::world::lemma_count_chunks_same_cells(world.chunks@, w2.chunks@, m);
            }
            assert forall|i: int| 0 <= i < world.chunks@.len() implies {
                &&& rect_in_chunk((#[trigger] world.chunks@[i]).next_dirty@)
                &&& rect_in_chunk((world.chunks@[i].dirty.x0, world.chunks@[i].dirty.y0, world.chunks@[i].dirty.x1, world.chunks@[i].dirty.y1))
            } by {
                assert(w2.chunks@[i].next_dirty@ == world.chunks@[i].next_dirty@);
            }
            assert forall|a: int, b: int| #[trigger] world.inb(a, b) implies (world.at(a, b).mat() as int) < table@.len() by {
                assert(w2.inb(a, b));
            }
        }
        proof {
            assert(world.grid() =~= w2.grid());
            assert(nd_view(*world) =~= nd_view(w2)) by {
                assert forall|ax: int, ay: int| #[trigger] nd_view(*world)(ax, ay) == nd_view(w2)(ax, ay) by {
                    if 0 <= ax < wc && 0 <= ay < hc {
                        crate::world::lemma_chunk_index_bound(wc as int, hc as int, ax, ay);
                    }
                }
            }
        }
        spawns.append(&mut buf);
        k += 1;
    }
}

/// Under `Full`, the chunks of a phase depend only on the world's dimensions.
pub proof fn lemma_full_ids(a: World, ma: Marks, b: World, mb: Marks, px: int, py: int, i: int)
    requires
        a.width_chunks == b.width_chunks,
        a.height_chunks == b.height_chunks,
    ensures
        phase_ids(a, ma, ScanMode::Full, px, py, i) == phase_ids(b, mb, ScanMode::Full, px, py, i),
    decreases a.width_chunks * a.height_chunks - i,
{
    if 0 <= i < a.width_chunks * a.height_chunks {
        lemma_full_ids(a, ma, b, mb, px, py, i + 1);
    }
}

/// The chunks of a phase depend on the world only through its dimensions
/// and its scan rectangles.
pub proof fn lemma_ids_same_dirty(a: World, b: World, m: Marks, scan: ScanMode, px: int, py: int, i: int)
    requires
        a.width_chunks == b.width_chunks,
        a.height_chunks == b.height_chunks,
        forall|j: int| 0 <= j < a.width_chunks * a.height_chunks ==> #[trigger] a.chunks@[j].dirty == b.chunks@[j].dirty,
    ensures
        phase_ids(a, m, scan, px, py, i) == phase_ids(b, m, scan, px, py, i),
    decreases a.width_chunks * a.height_chunks - i,
{
    if 0 <= i < a.width_chunks * a.height_chunks {
        assert(a.chunks@[i].dirty == b.chunks@[i].dirty);
        lemma_ids_same_dirty(a, b, m, scan, px, py, i + 1);
    }
}

/// The grid after phases `p..` of tick `tick` under `Full`: every chunk of
/// each phase, in index order, from its full rectangle.
pub open spec fn full_phases(
    tb: Seq<crate::material::MaterialDef>,
    tick: u64,
    fseed: u32,
    w: World,
    g: spec_fn(int, int) -> Cell,
    p: int,
) -> spec_fn(int, int) -> Cell
    decreases 4 - p,
{
    if p < 0 || p >= 4 {
        g
    } else {
        let (px, py) = phase_spec((p + tick % 4) % 4);
        let ids = phase_ids(w, nd_view(w), ScanMode::Full, px as int, py as int, 0);
        full_phases(tb, tick, fseed, w, chunks_fold(tb, tick, fseed, w.width_chunks, w.height_chunks, g, ids, 0), p + 1)
    }
}

/// Under `Full`, a tick's phases depend only on the world's dimensions.
pub proof fn lemma_full_phases_dims(
    tb: Seq<crate::material::MaterialDef>,
    tick: u64,
    fseed: u32,
    a: World,
    b: World,
    g: spec_fn(int, int) -> Cell,
    p: int,
)
    requires
        a.width_chunks == b.width_chunks,
        a.height_chunks == b.height_chunks,
    ensures
        full_phases(tb, tick, fseed, a, g, p) == full_phases(tb, tick, fseed, b, g, p),
    decreases 4 - p,
{
    if 0 <= p < 4 {
        let (px, py) = phase_spec((p + tick % 4) % 4);
        lemma_full_ids(a, nd_view(a), b, nd_view(b), px as int, py as int, 0);
        let ids = phase_ids(a, nd_view(a), ScanMode::Full, px as int, py as int, 0);
        lemma_full_phases_dims(tb, tick, fseed, a, b, chunks_fold(tb, tick, fseed, a.width_chunks, a.height_chunks, g, ids, 0), p + 1);
    }
}

/// The grid and write rectangles after phases `p..` of tick `tick` under
/// `scan`, the scan rectangles being those of `w` (they do not change
/// during the phases).
pub open spec fn tick_phases(
    tb: Seq<crate::material::MaterialDef>,
    tick: u64,
    fseed: u32,
    scan: ScanMode,
    w: World,
    g: spec_fn(int, int) -> Cell,
    m: Marks,
    p: int,
) -> (spec_fn(int, int) -> Cell, Marks)
    decreases 4 - p,
{
    if p < 0 || p >= 4 {
        (g, m)
    } else {
        let (px, py) = phase_spec((p + tick % 4) % 4);
        let ids = phase_ids(w, m, scan, px as int, py as int, 0);
        tick_phases(
            tb,
            tick,
            fseed,
            scan,
            w,
            chunks_fold(tb, tick, fseed, w.width_chunks, w.height_chunks, g, ids, 0),
            chunks_fold_marks(tb, tick, fseed, w.width_chunks, w.height_chunks, g, m, ids, 0),
            p + 1,
        )
    }
}

/// The grid step of one tick: the four phases in this tick's order, then
/// every chunk's write rectangle becomes its next scan rectangle, and the tick advances.
pub fn step(world: &mut World, table: &MaterialTable, reactions: &ReactionTable, scan: ScanMode, spawns: &mut Vec<SpawnRequest>)
    requires
        old(world).wf(),
        old(world).rects_ok(),
        old(world).mats_valid(table@.len() as int),
        old(world).tick < u64::MAX,
        old(world).bufs_empty(),
    ensures
        final(world).wf(),
        final(world).rects_ok(),
        final(world).mats_valid(table@.len() as int),
        final(world).bufs_empty(),
        final(world).width_chunks == old(world).width_chunks,
        final(world).height_chunks == old(world).height_chunks,
        final(world).seed == old(world).seed,
        final(world).tick == old(world).tick + 1,
        final(world).vaporized_total == old(world).vaporized_total,
        counts_kept(*final(world), *old(world)),
        forall|i: int| 0 <= i < final(world).chunks@.len() ==> (#[trigger] final(world).chunks@[i]).next_dirty@ == (255u8, 255u8, 0u8, 0u8),
        final(spawns)@ == old(spawns)@,
        ({
            let res = tick_phases(
                table@,
                old(world).tick,
                rng::frame_seed_spec(old(world).seed, old(world).tick),
                scan,
                *old(world),
                old(world).grid(),
                nd_view(*old(world)),
                0,
            );
            &&& final(world).grid() == res.0
            &&& forall|cx: int, cy: int|
                0 <= cx < old(world).width_chunks && 0 <= cy < old(world).height_chunks ==> #[trigger] final(world).chunk_at(
                    cx,
                    cy,
                ).dirty == read_rect(res.1(cx, cy))
        }),
        scan == ScanMode::Full ==> final(world).grid() == full_phases(
            table@,
            old(world).tick,
            rng::frame_seed_spec(old(world).seed, old(world).tick),
            *old(world),
            old(world).grid(),
            0,
        ),
{
    let n = table.len();
    let tick = world.tick;
    let fseed = rng::frame_seed(world.seed, tick);
    let order = phase_order(tick);
    let ghost w0 = *world;
    let mut p: usize = 0;
    while p < 4
        invariant
            world.wf(),
            world.rects_ok(),
            world.mats_valid(table@.len() as int),
            crate::material::table_valid(table@),
            world.width_chunks == w0.width_chunks,
            world.height_chunks == w0.height_chunks,
            world.seed == w0.seed,
            world.tick == tick,
            w0.tick == tick,
            world.vaporized_total == w0.vaporized_total,
            counts_kept(*world, w0),
            p <= 4,
            world.bufs_empty(),
            spawns@ == old(spawns)@,
            fseed == rng::frame_seed_spec(w0.seed, w0.tick),
            forall|i: int| 0 <= i < 4 ==> #[trigger] order@[i] == phase_spec((i + tick % 4) % 4),
            scan == ScanMode::Full ==> full_phases(table@, tick, fseed, w0, world.grid(), p as int)
                == full_phases(table@, tick, fseed, w0, w0.grid(), 0),
            tick_phases(table@, tick, fseed, scan, w0, world.grid(), nd_view(*world), p as int)
                == tick_phases(table@, tick, fseed, scan, w0, w0.grid(), nd_view(w0), 0),
            world.chunks@.len() == w0.chunks@.len(),
            forall|j: int| 0 <= j < world.chunks@.len() ==> #[trigger] world.chunks@[j].dirty == w0.chunks@[j].dirty,
        decreases 4 - p,
    {
        let (px, py) = order[p];
        let ghost wb = *world;
        run_phase(world, table, tick, fseed, scan, px, py, spawns);
        proof {
            assert(order@[p as int] == phase_spec((p + tick % 4) % 4));
            lemma_ids_same_dirty(wb, w0, nd_view(wb), scan, px as int, py as int, 0);
            if scan == ScanMode::Full {
                lemma_full_ids(wb, nd_view(wb), w0, nd_view(w0), px as int, py as int, 0);
            }
        }
        p += 1;
    }
    let ghost w1 = *world;
    let mut i: usize = 0;
    while i < world.chunks.len()
        invariant
            world.wf(),
            w1.wf(),
            w1.mats_valid(table@.len() as int),
            world.width_chunks == w1.width_chunks,
            world.height_chunks == w1.height_chunks,
            world.seed == w1.seed,
            world.tick == w1.tick,
            world.vaporized_total == w1.vaporized_total,
            world.chunks@.len() == w1.chunks@.len(),
            w1.rects_ok(),
            world.same_cells(w1),
            world.bufs_empty(),
            i <= world.chunks@.len(),
            forall|j: int| 0 <= j < world.chunks@.len() ==> {
                &&& rect_in_chunk((#[trigger] world.chunks@[j]).next_dirty@)
                &&& rect_in_chunk((world.chunks@[j].dirty.x0, world.chunks@[j].dirty.y0, world.chunks@[j].dirty.x1, world.chunks@[j].dirty.y1))
            },
            forall|j: int| 0 <= j < i ==> (#[trigger] world.chunks@[j]).next_dirty@ == (255u8, 255u8, 0u8, 0u8),
            forall|j: int| 0 <= j < i ==> (#[trigger] world.chunks@[j]).dirty == read_rect(w1.chunks@[j].next_dirty@),
            forall|j: int| i <= j < world.chunks@.len() ==> (#[trigger] world.chunks@[j]) == w1.chunks@[j],
        decreases world.chunks@.len() - i,
    {
        let ghost wb = *world;
        let d = world.chunks[i].next_dirty.take();
        world.chunks[i].dirty = d;
        proof {
            assert forall|q: int| 0 <= q < world.chunks@.len() implies (#[trigger] world.chunks@[q]).cells@.len() == 4096 by {
                assert(wb.chunks@[q].cells@.len() == 4096);
            }
            assert forall|q: int| 0 <= q < world.chunks@.len() implies (#[trigger] world.chunks@[q]).cells@ == w1.chunks@[q].cells@ by {
                assert(wb.chunks@[q].cells@ == w1.chunks@[q].cells@);
            }
            assert forall|q: int| 0 <= q < world.chunks@.len() implies (#[trigger] world.chunks@[q]).spawn_buf@.len() == 0 by {
                assert(wb.chunks@[q].spawn_buf@.len() == 0);
            }
        }
        i += 1;
    }
    let ghost w2 = *world;
    world.tick = world.tick + 1;
    proof {
        assert forall|cx: int, cy: int| 0 <= cx < w0.width_chunks && 0 <= cy < w0.height_chunks implies #[trigger] world.chunk_at(
            cx,
            cy,
        ).dirty == read_rect(nd_view(w1)(cx, cy)) by {
            crate::world::lemma_chunk_index_bound(w0.width_chunks as int, w0.height_chunks as int, cx, cy);
        }
        assert(world.grid() =~= w1.grid()) by {
            assert forall|a: int, b: int| #[trigger] world.grid()(a, b) == w1.grid()(a, b) by {
                if world.inb(a, b) {
                    crate::world::lemma_locate_bounds(w1, a, b);
                }
            }
        }
        let _ = reactions;
        assert forall|a: int, b: int| #[trigger] world.inb(a, b) implies (world.at(a, b).mat() as int) < table@.len() by {
            crate::world::lemma_locate_bounds(w1, a, b);
            assert(w1.inb(a, b));
            assert(world.at(a, b) == w2.at(a, b));
        }
        assert forall|m: u8| #[trigger] crate::world::world_count(*world, m) == crate::world::world_count(w0, m) by {
            crate::world::lemma_count_chunks_same_cells(world.chunks@, w1.chunks@, m);
            assert(crate::world::world_count(w1, m) == crate::world::world_count(w0, m));
        }
    }
}


/// Every chunk starts the tick with a non-empty scan rectangle.
pub open spec fn all_awake(w: World) -> bool {
    forall|j: int| 0 <= j < w.width_chunks * w.height_chunks ==> !(#[trigger] w.chunks@[j].dirty).is_empty_spec()
}

proof fn lemma_awake_ids(w: World, m: Marks, px: int, py: int, i: int)
    requires
        all_awake(w),
    ensures
        phase_ids(w, m, ScanMode::ChunkSleep, px, py, i) == phase_ids(w, m, ScanMode::Full, px, py, i),
    decreases w.width_chunks * w.height_chunks - i,
{
    if 0 <= i < w.width_chunks * w.height_chunks {
        let d = w.chunks@[i].dirty;
        assert(!d.is_empty_spec());
        let cx = i % (w.width_chunks as int);
        let cy = i / (w.width_chunks as int);
        crate::chunk::lemma_union_covers(d, read_rect(m(cx, cy)), 0, 0);
        lemma_awake_ids(w, m, px, py, i + 1);
    }
}

proof fn lemma_awake_phases(
    tb: Seq<crate::material::MaterialDef>,
    tick: u64,
    fseed: u32,
    w: World,
    g: spec_fn(int, int) -> Cell,
    m: Marks,
    p: int,
)
    requires
        all_awake(w),
    ensures
        tick_phases(tb, tick, fseed, ScanMode::ChunkSleep, w, g, m, p).0 == full_phases(tb, tick, fseed, w, g, p),
    decreases 4 - p,
{
    if 0 <= p < 4 {
        let (px, py) = phase_spec((p + tick % 4) % 4);
        lemma_awake_ids(w, m, px as int, py as int, 0);
        lemma_full_ids(w, m, w, nd_view(w), px as int, py as int, 0);
        let ids = phase_ids(w, m, ScanMode::ChunkSleep, px as int, py as int, 0);
        lemma_awake_phases(
            tb,
            tick,
            fseed,
            w,
            chunks_fold(tb, tick, fseed, w.width_chunks, w.height_chunks, g, ids, 0),
            chunks_fold_marks(tb, tick, fseed, w.width_chunks, w.height_chunks, g, m, ids, 0),
            p + 1,
        );
    }
}

/// A tick whose chunks all start with a non-empty scan rectangle gives the
/// same grid under `ChunkSleep` as under `Full`, whatever the write
/// rectangles.
pub proof fn lemma_awake_tick_is_full(
    tb: Seq<crate::material::MaterialDef>,
    tick: u64,
    fseed: u32,
    w: World,
    g: spec_fn(int, int) -> Cell,
    m: Marks,
)
    requires
        all_awake(w),
    ensures
        tick_phases(tb, tick, fseed, ScanMode::ChunkSleep, w, g, m, 0).0 == full_phases(tb, tick, fseed, w, g, 0),
{
    lemma_awake_phases(tb, tick, fseed, w, g, m, 0);
}


/// Every write rectangle's far corner lies inside its chunk.
pub open spec fn marks_capped(m: Marks) -> bool {
    forall|cx: int, cy: int| (#[trigger] m(cx, cy)).2 <= 63 && m(cx, cy).3 <= 63
}

proof fn lemma_after_capped(m: Marks, w: int, h: int, x: int, y: int)
    requires
        marks_capped(m),
    ensures
        marks_capped(crate::world::marks_after(m, w, h, x, y)),
{
    let m2 = crate::world::marks_after(m, w, h, x, y);
    assert forall|cx: int, cy: int| (#[trigger] m2(cx, cy)).2 <= 63 && m2(cx, cy).3 <= 63 by {
        assert(m(cx, cy).2 <= 63 && m(cx, cy).3 <= 63);
        if crate::world::touches(w, h, x, y, cx, cy) {
            let t = crate::world::touch_rect(w, h, x, y, cx, cy);
            assert(t.2 <= 63 && t.3 <= 63);
        }
    }
}

proof fn lemma_moved_capped(m: Marks, w: int, h: int, x: int, y: int, mv: Option<crate::rules::Move>)
    requires
        marks_capped(m),
    ensures
        marks_capped(crate::rules::marks_moved(m, w, h, x, y, mv)),
{
    if let Some((tx, ty, _c1, _c2)) = mv {
        lemma_after_capped(m, w, h, tx, ty);
        lemma_after_capped(crate::world::marks_after(m, w, h, tx, ty), w, h, x, y);
    }
}

proof fn lemma_ltr_capped(k: crate::rules::PassCtx, g: spec_fn(int, int) -> Cell, n: crate::window::WriteWindow, m: Marks, y: int, lx: int)
    requires
        marks_capped(m),
    ensures
        marks_capped(crate::rules::row_ltr_marks(k, g, n, m, y, lx)),
    decreases 256 - lx,
{
    if lx <= n.live.x1 {
        let mv = crate::rules::eval_move(g, k.tb, k.stamp, k.fseed, k.ox + lx, y);
        let (g1, n1) = crate::rules::eval_at(k, g, n, k.ox + lx, y);
        lemma_moved_capped(m, k.w, k.h, k.ox + lx, y, mv);
        lemma_ltr_capped(k, g1, n1, crate::rules::marks_moved(m, k.w, k.h, k.ox + lx, y, mv), y, lx + 1);
    }
}

proof fn lemma_rtl_capped(k: crate::rules::PassCtx, g: spec_fn(int, int) -> Cell, n: crate::window::WriteWindow, m: Marks, y: int, lx: int)
    requires
        marks_capped(m),
    ensures
        marks_capped(crate::rules::row_rtl_marks(k, g, n, m, y, lx)),
    decreases lx + 1,
{
    if !(lx < n.live.x0 || lx < 0) {
        let mv = crate::rules::eval_move(g, k.tb, k.stamp, k.fseed, k.ox + lx, y);
        let (g1, n1) = crate::rules::eval_at(k, g, n, k.ox + lx, y);
        lemma_moved_capped(m, k.w, k.h, k.ox + lx, y, mv);
        lemma_rtl_capped(k, g1, n1, crate::rules::marks_moved(m, k.w, k.h, k.ox + lx, y, mv), y, lx - 1);
    }
}

proof fn lemma_rows_capped(k: crate::rules::PassCtx, g: spec_fn(int, int) -> Cell, n: crate::window::WriteWindow, m: Marks, ly: int)
    requires
        marks_capped(m),
    ensures
        marks_capped(crate::rules::rows_from_marks(k, g, n, m, ly)),
    decreases ly + 1,
{
    if !(ly < n.live.y0 || ly < 0) {
        let y = k.oy + ly;
        if crate::rules::ltr_row(k.flip, y) {
            lemma_ltr_capped(k, g, n, m, y, n.live.x0 as int);
            let r = crate::rules::row_ltr(k, g, n, y, n.live.x0 as int);
            lemma_rows_capped(k, r.0, r.1, crate::rules::row_ltr_marks(k, g, n, m, y, n.live.x0 as int), ly - 1);
        } else {
            lemma_rtl_capped(k, g, n, m, y, n.live.x1 as int);
            let r = crate::rules::row_rtl(k, g, n, y, n.live.x1 as int);
            lemma_rows_capped(k, r.0, r.1, crate::rules::row_rtl_marks(k, g, n, m, y, n.live.x1 as int), ly - 1);
        }
    }
}

proof fn lemma_fold_capped(
    tb: Seq<crate::material::MaterialDef>,
    tick: u64,
    fseed: u32,
    wc: usize,
    hc: usize,
    g: spec_fn(int, int) -> Cell,
    m: Marks,
    ids: Seq<(usize, usize, DirtyRect)>,
    k: int,
)
    requires
        marks_capped(m),
    ensures
        marks_capped(chunks_fold_marks(tb, tick, fseed, wc, hc, g, m, ids, k)),
    decreases ids.len() - k,
{
    if 0 <= k < ids.len() {
        let (cx, cy, st) = ids[k];
        let kc = pass_ctx(tb, tick, fseed, cx * 64, cy * 64, wc * 64, hc * 64);
        let fw = fresh_window(wc, hc, cx, cy);
        if !st.is_empty_spec() {
            lemma_rows_capped(kc, g, crate::window::WriteWindow { live: st, ..fw }, m, st.y1 as int);
        }
        lemma_fold_capped(tb, tick, fseed, wc, hc, chunk_pass(kc, g, fw, st).0, chunk_pass_marks(kc, g, fw, m, st), ids, k + 1);
    }
}

/// Every chunk starts the tick with the full scan rectangle.
pub open spec fn all_full(w: World) -> bool {
    forall|j: int| 0 <= j < w.width_chunks * w.height_chunks ==> (#[trigger] w.chunks@[j].dirty) == full_rect()
}

proof fn lemma_full_live_ids(w: World, m: Marks, px: int, py: int, i: int)
    requires
        all_full(w),
        marks_capped(m),
    ensures
        phase_ids(w, m, ScanMode::LiveRect, px, py, i) == phase_ids(w, m, ScanMode::Full, px, py, i),
    decreases w.width_chunks * w.height_chunks - i,
{
    if 0 <= i < w.width_chunks * w.height_chunks {
        assert(w.chunks@[i].dirty == full_rect());
        let cx = i % (w.width_chunks as int);
        let cy = i / (w.width_chunks as int);
        assert(m(cx, cy).2 <= 63 && m(cx, cy).3 <= 63);
        lemma_full_live_ids(w, m, px, py, i + 1);
    }
}

proof fn lemma_full_live_phases(
    tb: Seq<crate::material::MaterialDef>,
    tick: u64,
    fseed: u32,
    w: World,
    g: spec_fn(int, int) -> Cell,
    m: Marks,
    p: int,
)
    requires
        all_full(w),
        marks_capped(m),
    ensures
        tick_phases(tb, tick, fseed, ScanMode::LiveRect, w, g, m, p).0 == full_phases(tb, tick, fseed, w, g, p),
    decreases 4 - p,
{
    if 0 <= p < 4 {
        let (px, py) = phase_spec((p + tick % 4) % 4);
        lemma_full_live_ids(w, m, px as int, py as int, 0);
        lemma_full_ids(w, m, w, nd_view(w), px as int, py as int, 0);
        let ids = phase_ids(w, m, ScanMode::LiveRect, px as int, py as int, 0);
        lemma_fold_capped(tb, tick, fseed, w.width_chunks, w.height_chunks, g, m, ids, 0);
        lemma_full_live_phases(
            tb,
            tick,
            fseed,
            w,
            chunks_fold(tb, tick, fseed, w.width_chunks, w.height_chunks, g, ids, 0),
            chunks_fold_marks(tb, tick, fseed, w.width_chunks, w.height_chunks, g, m, ids, 0),
            p + 1,
        );
    }
}

/// A tick whose chunks all start with the full scan rectangle gives the
/// same grid under `LiveRect` as under `Full`, for a well-formed world whose
/// write rectangles lie inside their chunks.
pub proof fn lemma_full_tick_is_full(
    tb: Seq<crate::material::MaterialDef>,
    tick: u64,
    fseed: u32,
    w: World,
    g: spec_fn(int, int) -> Cell,
)
    requires
        w.wf(),
        w.rects_ok(),
        all_full(w),
    ensures
        tick_phases(tb, tick, fseed, ScanMode::LiveRect, w, g, nd_view(w), 0).0 == full_phases(tb, tick, fseed, w, g, 0),
{
    let m = nd_view(w);
    assert forall|cx: int, cy: int| (#[trigger] m(cx, cy)).2 <= 63 && m(cx, cy).3 <= 63 by {
        if 0 <= cx < w.width_chunks && 0 <= cy < w.height_chunks {
            let i = cy * w.width_chunks + cx;
            assert(0 <= i < w.chunks@.len()) by (nonlinear_arith)
                requires
                    0 <= cx < w.width_chunks,
                    0 <= cy < w.height_chunks,
                    i == cy * w.width_chunks + cx,
                    w.chunks@.len() == w.width_chunks * w.height_chunks,
            ;
            assert(rect_in_chunk(w.chunks@[i].next_dirty@));
        }
    }
    lemma_full_live_phases(tb, tick, fseed, w, g, m, 0);
}


proof fn lemma_tick_full_phases(
    tb: Seq<crate::material::MaterialDef>,
    tick: u64,
    fseed: u32,
    w: World,
    g: spec_fn(int, int) -> Cell,
    m: Marks,
    p: int,
)
    ensures
        tick_phases(tb, tick, fseed, ScanMode::Full, w, g, m, p).0 == full_phases(tb, tick, fseed, w, g, p),
    decreases 4 - p,
{
    if 0 <= p < 4 {
        let (px, py) = phase_spec((p + tick % 4) % 4);
        lemma_full_ids(w, m, w, nd_view(w), px as int, py as int, 0);
        let ids = phase_ids(w, m, ScanMode::Full, px as int, py as int, 0);
        lemma_tick_full_phases(
            tb,
            tick,
            fseed,
            w,
            chunks_fold(tb, tick, fseed, w.width_chunks, w.height_chunks, g, ids, 0),
            chunks_fold_marks(tb, tick, fseed, w.width_chunks, w.height_chunks, g, m, ids, 0),
            p + 1,
        );
    }
}

/// When every chunk starts the tick with the full scan rectangle (as after
/// a world is made), the three scan modes give the same grid.
pub proof fn lemma_scan_modes_agree_when_all_full(
    tb: Seq<crate::material::MaterialDef>,
    tick: u64,
    fseed: u32,
    scan: ScanMode,
    w: World,
    g: spec_fn(int, int) -> Cell,
)
    requires
        w.wf(),
        w.rects_ok(),
        all_full(w),
    ensures
        tick_phases(tb, tick, fseed, scan, w, g, nd_view(w), 0).0 == tick_phases(tb, tick, fseed, ScanMode::Full, w, g, nd_view(w), 0).0,
{
    lemma_tick_full_phases(tb, tick, fseed, w, g, nd_view(w), 0);
    match scan {
        ScanMode::Full => {},
        ScanMode::ChunkSleep => {
            assert forall|j: int| 0 <= j < w.width_chunks * w.height_chunks implies !(#[trigger] w.chunks@[j].dirty).is_empty_spec() by {
                assert(w.chunks@[j].dirty == full_rect());
            }
            lemma_awake_tick_is_full(tb, tick, fseed, w, g, nd_view(w));
        },
        ScanMode::LiveRect => {
            lemma_full_tick_is_full(tb, tick, fseed, w, g);
        },
    }
}

} // verus!
