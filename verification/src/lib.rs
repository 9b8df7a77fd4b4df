//! Deterministic falling-sand kernel: an integer cellular-automaton grid with
//! free-flying particles, explosions and emitters, driven as a pure function
//! of (state, inputs).

use vstd::prelude::*;

pub mod body;
pub mod cell;
pub mod chunk;
pub mod creature;
pub mod dda;
pub mod emit;
pub mod explode;
pub mod fixed;
pub mod geom;
pub mod hash;
pub mod input;
pub mod loader;
pub mod material;
pub mod particle;
pub mod projectile;
pub mod reaction;
pub mod reextract;
pub mod render;
pub mod rng;
pub mod runner;
pub mod rules;
pub mod scenario;
pub mod scheduler;
pub mod sin_table;
pub mod spell;
pub mod window;
pub mod world;

pub use crate::cell::{Cell, G_ACCEL, VEL_ONE, V_MAX_CELL};
pub use crate::creature::{CreatureTable, Creatures};
pub use crate::emit::MAX_EMIT_JITTER_RAW;
pub use crate::fixed::Fx;
pub use crate::input::{InputFrame, MAX_SLOTS};
pub use crate::material::{Category, MaterialDef, MaterialTable, DISPERSION_MAX, MAT_AIR, MAT_WALL};
pub use crate::particle::{Particles, MAX_PARTICLES};
pub use crate::projectile::{Projectiles, MAX_PROJECTILES};
pub use crate::reaction::{ReactionRule, ReactionTable};
pub use crate::spell::{SpellDef, SpellKind, SpellTable};
pub use crate::world::{Op, World};

use crate::emit::emitted;
use crate::explode::{explode_in_range, lemma_explode_spawns_ok, spawns_ok, MAX_EXPLODE_POWER, MAX_FLIGHT_CELLS};
use crate::hash::{combine_spec, state_hash_spec};
use crate::material::table_valid;
use crate::particle::{drained, id_after, refused, tick_buried, flight_cell, flight_pool, lemma_advance_flight_pool, lemma_flight_pool_ok, particle_tick, ParticleRec};
use crate::projectile::{flown_all, live_only, spells_known, ProjectileRec};
use crate::rules::counts_kept;
use crate::scheduler::{full_phases, lemma_full_phases_dims, tick_phases};
use crate::world::{in_disk, lemma_grows_rects, nd_view, op_ok, painted, SpawnRequest};
use crate::cell::Cell as GridCell;
use crate::explode::{circle_spec, explode_rays};

verus! {

/// How the grid step chooses the chunks it scans and where each scan starts.
#[derive(Clone, Copy, PartialEq, Eq, Structural, Debug)]
pub enum ScanMode {
    /// Every chunk, from its full rectangle.
    Full,
    /// Only awake chunks (dirty or written), from their full rectangle.
    ChunkSleep,
    /// Only awake chunks, from their dirty and written rectangles.
    LiveRect,
}

/// The initial configuration of a simulation. `threads` only changes how
/// fast a tick runs (the grid step is sequential). `scan` chooses the chunks
/// a tick scans: a tick whose chunks all start with the full scan rectangle,
/// as the first one does, gives the same grid in every mode
/// (`lemma_scan_modes_agree_when_all_full`), and one whose chunks all start
/// awake gives the `Full` grid under `ChunkSleep` (`lemma_awake_tick_is_full`).
/// Later ticks can differ: a cell whose stamp equals the tick's (last
/// written 256 ticks earlier) is skipped as already moved, and when nothing
/// is written near it its chunk can fall asleep under the sleeping modes
/// while `Full` still moves it a tick later.
#[derive(Clone, Copy, Debug)]
pub struct InitConfig {
    pub width_chunks: usize,
    pub height_chunks: usize,
    pub seed: u64,
    pub threads: usize,
    pub scan: ScanMode,
}


/// Stamp of setup writes: differs from tick 0's stamp, so setup content can
/// move from tick 0 on.
pub const SETUP_STAMP: u8 = 255;

/// What an operation needs so that a simulation can apply it: the world's
/// own conditions for painting, emitters inside the flight range with a
/// known material, explosions within range.
pub open spec fn op_fits(w: World, t: Seq<MaterialDef>, op: Op, idx: int) -> bool {
    match op {
        Op::Emit { material, x, y, jitter, .. } => {
            &&& idx <= 0xFFFF
            &&& jitter.0 <= MAX_EMIT_JITTER_RAW
            &&& (material as int) < t.len()
            &&& flight_cell(x.0)
            &&& flight_cell(y.0)
        },
        Op::Explode { x, y, r, power } => explode_in_range(x, y, r) && power <= MAX_EXPLODE_POWER,
        _ => op_ok(w, t, op, idx),
    }
}

/// Grid `g` of size `w x h` with every in-grid cell satisfying `region`
/// painted with `material`.
pub open spec fn paint_grid(
    g: spec_fn(int, int) -> GridCell,
    w: int,
    h: int,
    t: Seq<MaterialDef>,
    material: u8,
    stamp: u8,
    region: spec_fn(int, int) -> bool,
) -> spec_fn(int, int) -> GridCell {
    |a: int, b: int| if 0 <= a < w && 0 <= b < h && region(a, b) { painted(t, material, stamp, a) } else { g(a, b) }
}

/// What operation `op`, the `idx`-th of its list, does to grid `g` of size
/// `w x h`: the grid after it and the spawn requests it queues.
pub open spec fn op_effect(
    g: spec_fn(int, int) -> GridCell,
    w: int,
    h: int,
    t: Seq<MaterialDef>,
    op: Op,
    stamp: u8,
    fseed: u32,
    idx: int,
) -> (spec_fn(int, int) -> GridCell, Seq<SpawnRequest>) {
    match op {
        Op::Brush { material, x, y, r } => (paint_grid(g, w, h, t, material, stamp, |a: int, b: int| in_disk(a - x, b - y, r as int)), Seq::empty()),
        Op::Fill { material, x0, y0, x1, y1 } => (
            paint_grid(g, w, h, t, material, stamp, |a: int, b: int| x0 <= a <= x1 && y0 <= b <= y1),
            Seq::empty(),
        ),
        Op::Emit { material, x, y, vx, vy, count, jitter } => (
            g,
            Seq::new(count as nat, |i: int| emitted(material, x, y, vx, vy, jitter, stamp, fseed, idx, i as u32)),
        ),
        Op::Explode { x, y, r, power } => if power == 0 {
            (g, Seq::empty())
        } else {
            let res = explode_rays(g, w, h, t, circle_spec(r), 0, x, y, r, power, stamp, fseed, idx as u32);
            (res.0, res.1)
        },
    }
}

/// What the operations `ops[i..]` do in order: the final grid and the spawn
/// requests queued, in order.
pub open spec fn ops_effect(
    g: spec_fn(int, int) -> GridCell,
    w: int,
    h: int,
    t: Seq<MaterialDef>,
    ops: Seq<Op>,
    stamp: u8,
    fseed: u32,
    i: int,
) -> (spec_fn(int, int) -> GridCell, Seq<SpawnRequest>)
    decreases ops.len() - i,
{
    if i < 0 || i >= ops.len() {
        (g, Seq::empty())
    } else {
        let e = op_effect(g, w, h, t, ops[i], stamp, fseed, i);
        let rest = ops_effect(e.0, w, h, t, ops, stamp, fseed, i + 1);
        (rest.0, e.1 + rest.1)
    }
}

/// The simulation: the grid, the material and reaction tables, the particle
/// pool and its spawn queue, and the entity tables.
pub struct Sim {
    world: World,
    table: MaterialTable,
    reactions: ReactionTable,
    scan: ScanMode,
    particles: Particles,
    spawn_queue: Vec<SpawnRequest>,
    creature_table: CreatureTable,
    spell_table: SpellTable,
    creatures: Creatures,
    projectiles: Projectiles,
}

impl Sim {
    /// The grid.
    pub closed spec fn world_view(&self) -> World {
        self.world
    }

    /// The material table.
    pub closed spec fn table_view(&self) -> Seq<MaterialDef> {
        self.table@
    }

    /// The particle pool.
    pub closed spec fn particles_view(&self) -> Seq<ParticleRec> {
        self.particles@
    }

    /// Spawn requests waiting for the next particle phase.
    pub closed spec fn queue_view(&self) -> Seq<SpawnRequest> {
        self.spawn_queue@
    }

    /// Spawns refused at capacity so far.
    pub closed spec fn rejected_view(&self) -> u64 {
        self.particles.rejected_spec()
    }

    /// Landings with no air cell so far.
    pub closed spec fn buried_view(&self) -> u64 {
        self.particles.buried_spec()
    }

    /// The projectile pool.
    pub closed spec fn projectiles_view(&self) -> Projectiles {
        self.projectiles
    }

    /// The creature templates.
    pub closed spec fn creature_table_view(&self) -> CreatureTable {
        self.creature_table
    }

    /// The spell table.
    pub closed spec fn spell_table_view(&self) -> SpellTable {
        self.spell_table
    }

    /// The creatures.
    pub closed spec fn creatures_view(&self) -> Creatures {
        self.creatures
    }

    /// How the grid step picks its chunks.
    pub closed spec fn scan_view(&self) -> ScanMode {
        self.scan
    }

    /// The particle pool's id counter.
    pub closed spec fn next_id_view(&self) -> u32 {
        self.particles.next_id_spec()
    }

    /// Consistency of the parts: a well-formed grid no larger than the
    /// flight range, holding known materials, with its rectangles inside
    /// their chunks and no queued splash; particles and queued spawns in
    /// flight range with known materials.
    pub closed spec fn wf(&self) -> bool {
        &&& self.world.wf()
        &&& self.world.rects_ok()
        &&& self.world.bufs_empty()
        &&& self.world.mats_valid(self.table@.len() as int)
        &&& self.world.w() <= MAX_FLIGHT_CELLS
        &&& self.world.h() <= MAX_FLIGHT_CELLS
        &&& table_valid(self.table@)
        &&& self.particles.wf()
        &&& flight_pool(self.particles@, self.table@.len() as int)
        &&& spawns_ok(self.spawn_queue@, self.table@.len() as int)
        &&& self.projectiles.wf()
        &&& spells_known(self.projectiles@, self.spell_table@.len() as int)
    }

    /// A simulation over a fresh all-air world. `threads` and `scan` do not
    /// change any result; the chunks are updated one after another.
    pub fn new(
        cfg: &InitConfig,
        table: MaterialTable,
        reactions: ReactionTable,
        creature_table: CreatureTable,
        spell_table: SpellTable,
    ) -> (r: Result<Sim, String>)
        requires
            1 <= cfg.width_chunks,
            1 <= cfg.height_chunks,
            cfg.width_chunks * 64 <= MAX_FLIGHT_CELLS,
            cfg.height_chunks * 64 <= MAX_FLIGHT_CELLS,
        ensures
            r is Ok,
            r is Ok ==> {
                let s = r->Ok_0;
                &&& s.wf()
                &&& s.world_view().width_chunks == cfg.width_chunks
                &&& s.world_view().height_chunks == cfg.height_chunks
                &&& s.world_view().seed == cfg.seed
                &&& s.world_view().tick == 0
                &&& s.scan_view() == cfg.scan
                &&& forall|x: int, y: int| #[trigger] s.world_view().inb(x, y) ==> s.world_view().at(x, y)@ == 0
                &&& s.table_view() == table@
                &&& s.particles_view().len() == 0
                &&& s.queue_view().len() == 0
                &&& s.rejected_view() == 0
                &&& s.buried_view() == 0
            },
    {
        let n = table.len();
        proof {
            assert(cfg.width_chunks * cfg.height_chunks <= 511 * 511) by (nonlinear_arith)
                requires
                    1 <= cfg.width_chunks <= 511,
                    1 <= cfg.height_chunks <= 511,
            ;
        }
        let world = World::new(cfg.width_chunks, cfg.height_chunks, cfg.seed);
        let sim = Sim {
            world,
            table,
            reactions,
            scan: cfg.scan,
            particles: Particles::new(),
            spawn_queue: Vec::new(),
            creature_table,
            spell_table,
            creatures: Creatures::new(),
            projectiles: Projectiles::new(),
        };
        proof {
            assert forall|a: int, b: int| #[trigger] sim.world.inb(a, b) implies (sim.world.at(a, b).mat() as int) < n by {
                crate::cell::lemma_cell_from_bits(sim.world.at(a, b)@);
                assert(sim.world.at(a, b)@ == 0);
                assert((0u32 & 0xff) as u8 == 0) by (bit_vector);
            }
            assert(sim.world.rects_ok()) by {
                assert forall|i: int| 0 <= i < sim.world.chunks@.len() implies {
                    &&& crate::world::rect_in_chunk((#[trigger] sim.world.chunks@[i]).next_dirty@)
                    &&& crate::world::rect_in_chunk((sim.world.chunks@[i].dirty.x0, sim.world.chunks@[i].dirty.y0, sim.world.chunks@[i].dirty.x1, sim.world.chunks@[i].dirty.y1))
                } by {
                    assert(sim.world.chunks@[i].dirty == crate::chunk::full_rect());
                }
            }
        }
        Ok(sim)
    }

    /// Queue a particle spawn request; it is drained, in queue order, at the
    /// start of the next particle phase.
    pub fn queue_spawn(&mut self, material: u8, x: Fx, y: Fx, vx: Fx, vy: Fx)
        requires
            old(self).wf(),
            (material as int) < old(self).table_view().len(),
            flight_cell(x.0),
            flight_cell(y.0),
        ensures
            final(self).wf(),
            final(self).queue_view() == old(self).queue_view().push(SpawnRequest { material, x, y, vx, vy }),
            final(self).world_view() == old(self).world_view(),
            final(self).particles_view() == old(self).particles_view(),
            final(self).table_view() == old(self).table_view(),
            final(self).rejected_view() == old(self).rejected_view(),
            final(self).buried_view() == old(self).buried_view(),
    {
        self.spawn_queue.push(SpawnRequest { material, x, y, vx, vy });
        proof {
            let q = self.spawn_queue@;
            assert forall|k: int| 0 <= k < q.len() implies {
                &&& ((#[trigger] q[k]).material as int) < self.table@.len()
                &&& flight_cell(q[k].x.0)
                &&& flight_cell(q[k].y.0)
            } by {
                if k < q.len() - 1 {
                    assert(q[k] == old(self).spawn_queue@[k]);
                }
            }
        }
    }

    /// Launch a projectile of spell `spell` with its life, digging energy,
    /// self-hit grace and bounces taken from the spell table; refused (and
    /// counted) when the pool is full.
    pub fn queue_projectile(&mut self, spell: u8, x: Fx, y: Fx, vx: Fx, vy: Fx, owner: u8) -> (r: bool)
        requires
            old(self).wf(),
            (spell as int) < old(self).spell_table_view()@.len(),
            old(self).projectiles_view().rejected_spec() < u64::MAX,
        ensures
            final(self).wf(),
            r == (old(self).projectiles_view()@.len() < MAX_PROJECTILES),
            ({
                let s = old(self).spell_table_view()@[spell as int];
                let rec = ProjectileRec {
                    x,
                    y,
                    vx,
                    vy,
                    spell,
                    life: s.life,
                    energy: s.dig_power,
                    owner,
                    grace: s.grace,
                    bounces: s.bounces,
                };
                r ==> final(self).projectiles_view()@ == old(self).projectiles_view()@.push(rec)
            }),
            r ==> final(self).projectiles_view().rejected_spec() == old(self).projectiles_view().rejected_spec(),
            !r ==> final(self).projectiles_view()@ == old(self).projectiles_view()@,
            !r ==> final(self).projectiles_view().rejected_spec() == old(self).projectiles_view().rejected_spec() + 1,
            final(self).world_view() == old(self).world_view(),
            final(self).particles_view() == old(self).particles_view(),
            final(self).queue_view() == old(self).queue_view(),
            final(self).table_view() == old(self).table_view(),
            final(self).rejected_view() == old(self).rejected_view(),
            final(self).buried_view() == old(self).buried_view(),
            final(self).spell_table_view() == old(self).spell_table_view(),
    {
        let s = self.spell_table.get(spell);
        let life = s.life;
        let dig = s.dig_power;
        let grace = s.grace;
        let bounces = s.bounces;
        self.projectiles.spawn(spell, x, y, vx, vy, life, dig, owner, grace, bounces)
    }

    /// The creatures, for writing.
    pub fn creatures_mut(&mut self) -> (r: &mut Creatures)
        ensures
            *r == old(self).creatures_view(),
            final(self).creatures_view() == *final(r),
            final(self).world_view() == old(self).world_view(),
            final(self).particles_view() == old(self).particles_view(),
            final(self).projectiles_view() == old(self).projectiles_view(),
            final(self).queue_view() == old(self).queue_view(),
            final(self).table_view() == old(self).table_view(),
            final(self).wf() == old(self).wf(),
    {
        &mut self.creatures
    }

    /// Apply operations in order, `stamp` marking the grid writes and the
    /// operation's index salting its draws; spawned particles are queued.
    fn apply_ops(&mut self, ops: &[Op], stamp: u8, fseed: u32)
        requires
            old(self).wf(),
            ops@.len() <= 0x1_0000,
            forall|i: int| 0 <= i < ops@.len() ==> op_fits(old(self).world, old(self).table@, #[trigger] ops@[i], i),
            old(self).world.vaporized_total + 0x8_0000_0000 * ops@.len() <= u64::MAX - 0x1_0000_0000_0000,
        ensures
            final(self).wf(),
            final(self).world.same_shape(old(self).world),
            final(self).spawn_queue@.len() <= old(self).spawn_queue@.len() + 0x8_0000_0000 * ops@.len(),
            final(self).table@ == old(self).table@,
            final(self).particles@ == old(self).particles@,
            final(self).particles.rejected_spec() == old(self).particles.rejected_spec(),
            final(self).particles.buried_spec() == old(self).particles.buried_spec(),
            final(self).particles.next_id_spec() == old(self).particles.next_id_spec(),
            final(self).projectiles == old(self).projectiles,
            final(self).spell_table == old(self).spell_table,
            final(self).scan == old(self).scan,
            final(self).world.same_scan(old(self).world),
            final(self).world.nd_grows(old(self).world),
            ops@.len() == 0 ==> *final(self) == *old(self),
            ({
                let w0 = old(self).world;
                let e = ops_effect(w0.grid(), w0.w(), w0.h(), old(self).table@, ops@, stamp, fseed, 0);
                &&& final(self).world.grid() == e.0
                &&& final(self).spawn_queue@ == old(self).spawn_queue@ + e.1
            }),
    {
        let ghost w0 = self.world;
        let ghost n = self.table@.len() as int;
        let ghost total = ops_effect(w0.grid(), w0.w(), w0.h(), self.table@, ops@, stamp, fseed, 0);
        let mut i: usize = 0;
        while i < ops.len()
            invariant
                self.wf(),
                n == self.table@.len(),
                self.table@ == old(self).table@,
                self.particles == old(self).particles,
                self.projectiles == old(self).projectiles,
                self.spell_table == old(self).spell_table,
                self.scan == old(self).scan,
                self.world.same_shape(w0),
                self.world.same_scan(w0),
                self.world.nd_grows(w0),
                w0 == old(self).world,
                i <= ops@.len(),
                ops@.len() <= 0x1_0000,
                forall|q: int| 0 <= q < ops@.len() ==> op_fits(w0, old(self).table@, #[trigger] ops@[q], q),
                w0.vaporized_total + 0x8_0000_0000 * ops@.len() <= u64::MAX - 0x1_0000_0000_0000,
                self.world.vaporized_total <= w0.vaporized_total + 0x8_0000_0000 * i,
                self.spawn_queue@.len() <= old(self).spawn_queue@.len() + 0x8_0000_0000 * i,
                i == 0 ==> *self == *old(self),
                total == ops_effect(w0.grid(), w0.w(), w0.h(), old(self).table@, ops@, stamp, fseed, 0),
                ops_effect(self.world.grid(), w0.w(), w0.h(), old(self).table@, ops@, stamp, fseed, i as int).0 == total.0,
                self.spawn_queue@ + ops_effect(self.world.grid(), w0.w(), w0.h(), old(self).table@, ops@, stamp, fseed, i as int).1
                    == old(self).spawn_queue@ + total.1,
            decreases ops@.len() - i,
        {
            let ghost wb = self.world;
            let ghost qb = self.spawn_queue@;
            let op = ops[i];
            proof {
                assert(op_fits(w0, self.table@, op, i as int));
                assert(self.world.vaporized_total <= u64::MAX - 0x1_0000_0000_0000) by (nonlinear_arith)
                    requires
                        self.world.vaporized_total <= w0.vaporized_total + 0x8_0000_0000 * i,
                        w0.vaporized_total + 0x8_0000_0000 * ops@.len() <= u64::MAX - 0x1_0000_0000_0000,
                        i < ops@.len(),
                ;
                match op {
                    Op::Brush { material, x, y, r } => {
                        assert forall|a: int, b: int| #[trigger] wb.inb(a, b) && crate::world::in_disk(a - x, b - y, r as int) implies (material as int) < n by {
                            assert(w0.inb(a, b));
                        }
                    },
                    Op::Fill { material, x0, y0, x1, y1 } => {
                        assert forall|a: int, b: int| #[trigger] wb.inb(a, b) && x0 <= a <= x1 && y0 <= b <= y1 implies (material as int) < n by {
                            assert(w0.inb(a, b));
                        }
                    },
                    _ => {},
                }
                assert(op_ok(wb, self.table@, op, i as int));
            }
            self.world.apply_op(&self.table, &op, stamp, fseed, i, &mut self.spawn_queue);
            proof {
                let e = op_effect(wb.grid(), w0.w(), w0.h(), self.table@, op, stamp, fseed, i as int);
                assert(ops@[i as int] == op);
                assert(self.world.grid() =~= e.0);
                if let Op::Emit { material, x, y, vx, vy, count, jitter } = op {
                    let q = self.spawn_queue@;
                    assert forall|k: int| qb.len() <= k < q.len() implies q[k] == (qb + e.1)[k] by {
                        let j = k - qb.len();
                        assert(q[qb.len() + j] == emitted(material, x, y, vx, vy, jitter, stamp, fseed, i as int, j as u32));
                    }
                    assert forall|k: int| 0 <= k < qb.len() implies q[k] == (qb + e.1)[k] by {
                        assert(q.subrange(0, qb.len() as int)[k] == qb[k]);
                    }
                }
                assert(self.spawn_queue@ =~= qb + e.1);
                let rest = ops_effect(e.0, w0.w(), w0.h(), self.table@, ops@, stamp, fseed, i as int + 1);
                assert(ops_effect(wb.grid(), w0.w(), w0.h(), self.table@, ops@, stamp, fseed, i as int) == (rest.0, e.1 + rest.1));
                assert(self.spawn_queue@ + rest.1 =~= qb + (e.1 + rest.1));
            }
            proof {
                match op {
                    Op::Emit { material, x, y, vx, vy, count, jitter } => {
                        let q = self.spawn_queue@;
                        assert forall|k: int| 0 <= k < q.len() implies {
                            &&& ((#[trigger] q[k]).material as int) < n
                            &&& flight_cell(q[k].x.0)
                            &&& flight_cell(q[k].y.0)
                        } by {
                            if k < qb.len() {
                                assert(q.subrange(0, qb.len() as int)[k] == qb[k]);
                            } else {
                                let j = k - qb.len();
                                assert(q[qb.len() + j] == emitted(material, x, y, vx, vy, jitter, stamp, fseed, i as int, j as u32));
                            }
                        }
                        assert(0x1_0000 <= 0x8_0000_0000int);
                    },
                    Op::Explode { x, y, r, power } => {
                        if power > 0 {
                            lemma_explode_spawns_ok(wb, self.table@, x, y, r, power, stamp, fseed, i as u32);
                            lemma_grows_rects(self.world, wb);
                            let q = self.spawn_queue@;
                            let res = crate::explode::explode_rays(wb.grid(), wb.w(), wb.h(), self.table@, crate::explode::circle_spec(r), 0, x, y, r, power, stamp, fseed, i as u32);
                            assert forall|k: int| 0 <= k < q.len() implies {
                                &&& ((#[trigger] q[k]).material as int) < n
                                &&& flight_cell(q[k].x.0)
                                &&& flight_cell(q[k].y.0)
                            } by {
                                if k < qb.len() {
                                    assert(q[k] == qb[k]);
                                } else {
                                    assert(q[k] == res.1[k - qb.len()]);
                                }
                            }
                            assert forall|c: int| 0 <= c < self.world.chunks@.len() implies (#[trigger] self.world.chunks@[c]).spawn_buf@.len() == 0 by {
                                assert(self.world.chunks@[c].spawn_buf@ == wb.chunks@[c].spawn_buf@);
                            }
                        }
                    },
                    _ => {
                        lemma_grows_rects(self.world, wb);
                        assert forall|c: int| 0 <= c < self.world.chunks@.len() implies (#[trigger] self.world.chunks@[c]).spawn_buf@.len() == 0 by {
                            assert(self.world.chunks@[c].spawn_buf@ == wb.chunks@[c].spawn_buf@);
                        }
                    },
                }
                assert(self.world.vaporized_total <= w0.vaporized_total + 0x8_0000_0000 * (i + 1)) by (nonlinear_arith)
                    requires
                        self.world.vaporized_total < wb.vaporized_total + 0x8_0000_0000,
                        wb.vaporized_total <= w0.vaporized_total + 0x8_0000_0000 * i,
                ;
                let q0 = old(self).spawn_queue@.len();
                assert(self.spawn_queue@.len() <= q0 + 0x8_0000_0000 * (i + 1)) by (nonlinear_arith)
                    requires
                        self.spawn_queue@.len() < qb.len() + 0x8_0000_0000,
                        qb.len() <= q0 + 0x8_0000_0000 * i,
                ;
            }
            i = i + 1;
        }
    }

    /// Scenario setup, before the first tick: the operations are applied
    /// like a tick's, with the setup stamp and tick 0's draws; their spawns
    /// are drained by the first `step`.
    pub fn apply_setup(&mut self, ops: &[Op])
        requires
            old(self).wf(),
            old(self).world_view().tick == 0,
            ops@.len() <= 0x1_0000,
            forall|i: int| 0 <= i < ops@.len() ==> op_fits(old(self).world_view(), old(self).table_view(), #[trigger] ops@[i], i),
            old(self).world_view().vaporized_total + 0x8_0000_0000 * ops@.len() <= u64::MAX - 0x1_0000_0000_0000,
        ensures
            final(self).wf(),
            final(self).world_view().same_shape(old(self).world_view()),
            final(self).table_view() == old(self).table_view(),
            final(self).particles_view() == old(self).particles_view(),
            final(self).queue_view().len() <= old(self).queue_view().len() + 0x8_0000_0000 * ops@.len(),
            final(self).rejected_view() == old(self).rejected_view(),
            final(self).buried_view() == old(self).buried_view(),
            ({
                let w0 = old(self).world_view();
                let e = ops_effect(w0.grid(), w0.w(), w0.h(), old(self).table_view(), ops@, SETUP_STAMP,
                    rng::frame_seed_spec(w0.seed, w0.tick), 0);
                &&& final(self).world_view().grid() == e.0
                &&& final(self).queue_view() == old(self).queue_view() + e.1
            }),
            final(self).projectiles_view() == old(self).projectiles_view(),
            final(self).spell_table_view() == old(self).spell_table_view(),
            final(self).scan_view() == old(self).scan_view(),
    {
        let fseed = rng::frame_seed(self.world.seed, self.world.tick);
        self.apply_ops(ops, SETUP_STAMP, fseed);
    }

    /// One tick: the operations in order, the projectile phase, the grid's
    /// four phases, then the particle phase (queued spawns drained in queue
    /// order, integration, landing). `inputs` are the players' intents of
    /// this tick, read by the creature layer, which holds no creatures here.
    pub fn step(&mut self, ops: &[Op], inputs: &[InputFrame])
        requires
            old(self).wf(),
            old(self).world_view().tick < u64::MAX,
            ops@.len() <= 0x1_0000,
            forall|i: int| 0 <= i < ops@.len() ==> op_fits(old(self).world_view(), old(self).table_view(), #[trigger] ops@[i], i),
            old(self).world_view().vaporized_total + 0x8_0000_0000 * ops@.len() <= u64::MAX - 0x1_0000_0000_0000,
            old(self).rejected_view() + old(self).queue_view().len() + 0x8_0000_0000 * ops@.len() < u64::MAX,
            old(self).buried_view() <= u64::MAX - MAX_PARTICLES,
        ensures
            final(self).wf(),
            final(self).world_view().tick == old(self).world_view().tick + 1,
            final(self).world_view().width_chunks == old(self).world_view().width_chunks,
            final(self).world_view().height_chunks == old(self).world_view().height_chunks,
            final(self).world_view().seed == old(self).world_view().seed,
            final(self).table_view() == old(self).table_view(),
            final(self).queue_view().len() == 0,
            ({
                let w0 = old(self).world_view();
                let e = ops_effect(w0.grid(), w0.w(), w0.h(), old(self).table_view(), ops@, (w0.tick % 256) as u8,
                    rng::frame_seed_spec(w0.seed, w0.tick), 0);
                final(self).projectiles_view()@ == live_only(
                    flown_all(old(self).projectiles_view()@, old(self).spell_table_view()@, e.0, w0.w(), w0.h(), old(self).table_view()),
                )
            }),
            final(self).spell_table_view() == old(self).spell_table_view(),
            final(self).projectiles_view().rejected_spec() == old(self).projectiles_view().rejected_spec(),
            ({
                let w0 = old(self).world_view();
                let e = ops_effect(w0.grid(), w0.w(), w0.h(), old(self).table_view(), ops@, (w0.tick % 256) as u8,
                    rng::frame_seed_spec(w0.seed, w0.tick), 0);
                let q = old(self).queue_view() + e.1;
                let k = refused(old(self).particles_view(), q);
                &&& final(self).rejected_view() == old(self).rejected_view() + k
                &&& final(self).next_id_view() == id_after(old(self).next_id_view(), q.len() - k)
            }),
            ops@.len() == 0 && old(self).particles_view().len() == 0 && old(self).queue_view().len() == 0 ==> {
                &&& counts_kept(final(self).world_view(), old(self).world_view())
                &&& final(self).particles_view().len() == 0
                &&& old(self).scan_view() == ScanMode::Full ==> final(self).world_view().grid() == full_phases(
                    old(self).table_view(),
                    old(self).world_view().tick,
                    rng::frame_seed_spec(old(self).world_view().seed, old(self).world_view().tick),
                    old(self).world_view(),
                    old(self).world_view().grid(),
                    0,
                )
            },
            final(self).scan_view() == old(self).scan_view(),
            ops@.len() == 0 ==> {
                let w0 = old(self).world_view();
                let stamp = (w0.tick % 256) as u8;
                let fseed = rng::frame_seed_spec(w0.seed, w0.tick);
                let g1 = tick_phases(old(self).table_view(), w0.tick, fseed, old(self).scan_view(), w0, w0.grid(), nd_view(w0), 0).0;
                let r = particle_tick(
                    g1,
                    w0.w(),
                    w0.h(),
                    old(self).table_view(),
                    drained(old(self).particles_view(), old(self).queue_view()),
                    stamp,
                );
                &&& final(self).world_view().grid() == r.0
                &&& final(self).particles_view() == r.1
            },
            ({
                let w0 = old(self).world_view();
                let stamp = (w0.tick % 256) as u8;
                let fseed = rng::frame_seed_spec(w0.seed, w0.tick);
                let e = ops_effect(w0.grid(), w0.w(), w0.h(), old(self).table_view(), ops@, stamp, fseed, 0);
                exists|w1: World|
                    #![trigger tick_phases(old(self).table_view(), w0.tick, fseed, old(self).scan_view(), w1, w1.grid(), nd_view(w1), 0)]
                    {
                        &&& w1.wf()
                        &&& w1.same_shape(w0)
                        &&& w1.same_scan(w0)
                        &&& w1.nd_grows(w0)
                        &&& w1.grid() == e.0
                        &&& final(self).world_view().grid() == particle_tick(
                            tick_phases(old(self).table_view(), w0.tick, fseed, old(self).scan_view(), w1, w1.grid(), nd_view(w1), 0).0,
                            w0.w(),
                            w0.h(),
                            old(self).table_view(),
                            drained(old(self).particles_view(), old(self).queue_view() + e.1),
                            stamp,
                        ).0
                        &&& final(self).particles_view() == particle_tick(
                            tick_phases(old(self).table_view(), w0.tick, fseed, old(self).scan_view(), w1, w1.grid(), nd_view(w1), 0).0,
                            w0.w(),
                            w0.h(),
                            old(self).table_view(),
                            drained(old(self).particles_view(), old(self).queue_view() + e.1),
                            stamp,
                        ).1
                        &&& final(self).buried_view() == old(self).buried_view() + tick_buried(
                            tick_phases(old(self).table_view(), w0.tick, fseed, old(self).scan_view(), w1, w1.grid(), nd_view(w1), 0).0,
                            w0.w(),
                            w0.h(),
                            old(self).table_view(),
                            drained(old(self).particles_view(), old(self).queue_view() + e.1),
                            stamp,
                        )
                    }
            }),
            old(self).scan_view() == ScanMode::Full ==> {
                let w0 = old(self).world_view();
                let stamp = (w0.tick % 256) as u8;
                let fseed = rng::frame_seed_spec(w0.seed, w0.tick);
                let e = ops_effect(w0.grid(), w0.w(), w0.h(), old(self).table_view(), ops@, stamp, fseed, 0);
                let g1 = full_phases(old(self).table_view(), w0.tick, fseed, w0, e.0, 0);
                let r = particle_tick(
                    g1,
                    w0.w(),
                    w0.h(),
                    old(self).table_view(),
                    drained(old(self).particles_view(), old(self).queue_view() + e.1),
                    stamp,
                );
                &&& final(self).world_view().grid() == r.0
                &&& final(self).particles_view() == r.1
            },
    {
        let _ = inputs;
        let _ = self.table.len();
        let tick = self.world.tick;
        let stamp: u8 = (tick % 256) as u8;
        let fseed = rng::frame_seed(self.world.seed, tick);
        self.apply_ops(ops, stamp, fseed);
        self.projectiles.advance(&self.world, &self.table, &self.spell_table);
        let ghost n = self.table@.len() as int;
        let ghost w1 = self.world;
        scheduler::step(&mut self.world, &self.table, &self.reactions, self.scan, &mut self.spawn_queue);
        proof {
            lemma_full_phases_dims(self.table@, tick, fseed, w1, old(self).world, w1.grid(), 0);
        }
        let ghost w2 = self.world;
        let ghost s2 = *self;
        let nq = self.spawn_queue.len();
        let mut q: usize = 0;
        while q < nq
            invariant
                nq == self.spawn_queue@.len(),
                q <= nq,
                n == self.table@.len(),
                self.particles.wf(),
                flight_pool(self.particles@, n),
                spawns_ok(self.spawn_queue@, n),
                self.particles.rejected_spec() == old(self).particles.rejected_spec() + refused(s2.particles@, s2.spawn_queue@.subrange(0, q as int)),
                refused(s2.particles@, s2.spawn_queue@.subrange(0, q as int)) <= q,
                self.particles.next_id_spec() == id_after(old(self).particles.next_id_spec(), q - refused(s2.particles@, s2.spawn_queue@.subrange(0, q as int))),
                s2.particles.rejected_spec() == old(self).particles.rejected_spec(),
                s2.particles.next_id_spec() == old(self).particles.next_id_spec(),
                old(self).particles.rejected_spec() + nq < u64::MAX,
                self.particles.buried_spec() == old(self).particles.buried_spec(),
                self.world == w2,
                self.table == s2.table,
                q == 0 ==> self.particles == s2.particles,
                self.particles@ == drained(s2.particles@, s2.spawn_queue@.subrange(0, q as int)),
                self.spawn_queue == s2.spawn_queue,
                self.projectiles == s2.projectiles,
                self.spell_table == s2.spell_table,
                self.scan == s2.scan,
                s2.projectiles.wf(),
                spells_known(s2.projectiles@, s2.spell_table@.len() as int),
                table_valid(self.table@),
                self.table@ == old(self).table@,
                w2.wf(),
                w2.rects_ok(),
                w2.bufs_empty(),
                w2.mats_valid(n),
                w2.w() <= MAX_FLIGHT_CELLS,
                w2.h() <= MAX_FLIGHT_CELLS,
            decreases nq - q,
        {
            let req = self.spawn_queue[q];
            let ghost pb = self.particles@;
            let ok = self.particles.spawn(req.material, req.x, req.y, req.vx, req.vy);
            proof {
                assert(s2.spawn_queue@.subrange(0, q as int + 1).drop_last() =~= s2.spawn_queue@.subrange(0, q as int));
                let k0 = refused(s2.particles@, s2.spawn_queue@.subrange(0, q as int));
                vstd::arithmetic::div_mod::lemma_add_mod_noop(old(self).particles.next_id_spec() as int + (q - k0), 1, 0x1_0000_0000);
                if ok {
                    let ps = self.particles@;
                    assert forall|k: int| 0 <= k < ps.len() implies crate::particle::in_flight(#[trigger] ps[k]) && (ps[k].material as int) < n by {
                        if k < pb.len() {
                            assert(ps[k] == pb[k]);
                        }
                    }
                }
            }
            q = q + 1;
        }
        let ghost pd = self.particles@;
        proof {
            assert(s2.spawn_queue@.subrange(0, nq as int) =~= s2.spawn_queue@);
        }
        self.spawn_queue = Vec::new();
        if self.particles.len() > 0 {
            let ghost wa = self.world;
            let ghost pa = self.particles@;
            proof {
                lemma_flight_pool_ok(pa, n);
            }
            particle::advance(&mut self.particles, &mut self.world, &self.table, stamp);
            proof {
                lemma_advance_flight_pool(wa, pa, n);
                lemma_grows_rects(self.world, wa);
                assert forall|c: int| 0 <= c < self.world.chunks@.len() implies (#[trigger] self.world.chunks@[c]).spawn_buf@.len() == 0 by {
                    assert(self.world.chunks@[c].spawn_buf@ == wa.chunks@[c].spawn_buf@);
                }
                let outs = crate::particle::outcomes_spec(wa, pa);
                assert(outs =~= Seq::new(pa.len(), |i: int| crate::particle::integrate_grid(wa.grid(), wa.w(), wa.h(), pa[i])));
                assert(self.world.grid() =~= particle_tick(wa.grid(), wa.w(), wa.h(), self.table@, pa, stamp).0);
            }
        } else {
            proof {
                reveal(crate::particle::commit_fold);
                let e = particle_tick(w2.grid(), w2.w(), w2.h(), self.table@, pd, stamp);
                assert(e.1 =~= Seq::<ParticleRec>::empty());
            }
        }
        proof {
            let w0 = old(self).world;
            let tp = tick_phases(self.table@, w0.tick, fseed, self.scan, w1, w1.grid(), nd_view(w1), 0);
            assert(self.particles.buried_spec() == old(self).particles.buried_spec() + tick_buried(tp.0, w0.w(), w0.h(), self.table@, pd, stamp));
            assert(self.world.grid() == particle_tick(tp.0, w0.w(), w0.h(), self.table@, pd, stamp).0);
            assert(self.particles@ == particle_tick(tp.0, w0.w(), w0.h(), self.table@, pd, stamp).1);
        }
    }

    /// The particle pool.
    pub fn particles(&self) -> (r: &Particles)
        ensures
            r@ == self.particles_view(),
            self.wf() ==> r.wf(),
    {
        &self.particles
    }

    /// The projectile pool.
    pub fn projectiles(&self) -> (r: &Projectiles)
        ensures
            *r == self.projectiles_view(),
    {
        &self.projectiles
    }

    /// The grid.
    pub fn world(&self) -> (r: &World)
        ensures
            *r == self.world_view(),
    {
        &self.world
    }

    /// The material table.
    pub fn table(&self) -> (r: &MaterialTable)
        ensures
            r@ == self.table_view(),
    {
        &self.table
    }

    /// The creature templates.
    pub fn creature_table(&self) -> (r: &CreatureTable)
        ensures
            *r == self.creature_table_view(),
    {
        &self.creature_table
    }

    /// The spell table.
    pub fn spell_table(&self) -> (r: &SpellTable)
        ensures
            *r == self.spell_table_view(),
    {
        &self.spell_table
    }

    /// The creatures.
    pub fn creatures(&self) -> (r: &Creatures)
        ensures
            *r == self.creatures_view(),
    {
        &self.creatures
    }

    /// Number of spawn requests waiting for the next particle phase.
    pub fn queued(&self) -> (r: usize)
        ensures
            r == self.queue_view().len(),
    {
        self.spawn_queue.len()
    }

    /// The current tick.
    pub fn tick(&self) -> (r: u64)
        ensures
            r == self.world_view().tick,
    {
        self.world.tick
    }

    /// The grid hash root.
    pub fn grid_hash(&self) -> (r: u64)
        requires
            self.wf(),
        ensures
            r == state_hash_spec(self.world_view()),
    {
        hash::state_hash(&self.world)
    }

    /// What [`Sim::entity_hash`] returns.
    pub open spec fn entity_hash_view(&self) -> u64 {
        crate::hash::xxh3_64_spec(
            crate::hash::u64_le(0) + crate::hash::u64_le(
                if self.projectiles_view()@.len() == 0 {
                    0u64
                } else {
                    crate::hash::xxh3_64_spec(
                        crate::projectile::projectiles_bytes(self.projectiles_view()@) + crate::hash::u64_le(
                            self.projectiles_view()@.len() as u64,
                        ),
                    )
                },
            ),
        )
    }

    /// The entity layer's hash: the creature hash then the projectile hash,
    /// each as little-endian bytes, hashed together.
    pub fn entity_hash(&self) -> (r: u64)
        requires
            self.wf(),
        ensures
            r == self.entity_hash_view(),
    {
        let c = self.creatures.hash_into();
        let p = self.projectiles.hash_into();
        let mut bytes: Vec<u8> = Vec::new();
        hash::push_u64_le(&mut bytes, c);
        hash::push_u64_le(&mut bytes, p);
        proof {
            assert(bytes@ =~= crate::hash::u64_le(0) + crate::hash::u64_le(p));
        }
        hash::xxh3_64_bytes(bytes.as_slice())
    }

    /// What [`Sim::state_hash`] returns.
    pub open spec fn state_hash_view(&self) -> u64 {
        combine_spec(
            state_hash_spec(self.world_view()),
            crate::hash::xxh3_64_spec(
                crate::particle::particles_bytes(self.particles_view()) + crate::hash::u32_le(self.next_id_view())
                    + crate::hash::u64_le(self.particles_view().len() as u64),
            ),
        )
    }

    /// The state hash: the grid root combined with the particle layer's hash
    /// by the two-input `combine`. The entity layer (creatures and
    /// projectiles) is hashed apart, by [`Sim::entity_hash`], so that this
    /// stream stays the grid-and-particle fold that `combine` is documented
    /// as; a comparison of two simulations compares both.
    pub fn state_hash(&self) -> (r: u64)
        requires
            self.wf(),
        ensures
            r == self.state_hash_view(),
    {
        let g = hash::state_hash(&self.world);
        let p = self.particles.hash_into();
        hash::combine(g, p)
    }
}

} // verus!
