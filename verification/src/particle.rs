//! The particle pool: free-flying particles stored column-wise. Index order is
//! id order: `spawn` appends, removal compacts keeping order.

use vstd::prelude::*;

use crate::cell::{cell_from_bits, fx_to_vel, lemma_cell_from_bits, lemma_cell_view_injective, Cell};
use crate::dda::{lemma_trace_clear, lemma_trace_land, lemma_walk_start, trace, trace_grid, walk_start, no_wrap, Trace};
use crate::fixed::{wrap_i32, Fx};
use crate::hash::{i32_le, push_u32_le, push_u64_le, u32_le, u64_le, xxh3_64_spec};
use crate::material::{Category, MaterialDef, MaterialTable, MAT_AIR};
use crate::world::{painted, World};

verus! {

/// Capacity of the particle pool.
pub const MAX_PARTICLES: usize = 65536;

/// Raw gravity per tick (0.25 cells per tick squared).
pub const GRAVITY_RAW: i32 = 0x0000_4000;

/// Raw per-axis speed limit (16 cells per tick).
pub const MAX_SPEED_RAW: i32 = 0x0010_0000;

/// Gravity per tick, 0.25 cells per tick squared.
pub fn gravity() -> (r: Fx)
    ensures
        r.0 == GRAVITY_RAW,
{
    Fx(GRAVITY_RAW)
}

/// Per-axis speed limit, 16 cells per tick.
pub fn max_speed() -> (r: Fx)
    ensures
        r.0 == MAX_SPEED_RAW,
{
    Fx(MAX_SPEED_RAW)
}

/// `v` clamped to `[-MAX_SPEED, MAX_SPEED]` (raw).
pub open spec fn clamp_raw(v: int) -> int {
    if v > MAX_SPEED_RAW {
        MAX_SPEED_RAW as int
    } else if v < -MAX_SPEED_RAW {
        -MAX_SPEED_RAW
    } else {
        v
    }
}

/// Clamp one velocity component to `[-MAX_SPEED, MAX_SPEED]`.
pub fn clamp_speed(v: Fx) -> (r: Fx)
    ensures
        r.0 == clamp_raw(v.0 as int),
        -MAX_SPEED_RAW <= r.0 <= MAX_SPEED_RAW,
{
    if v.0 > MAX_SPEED_RAW {
        Fx(MAX_SPEED_RAW)
    } else if v.0 < -MAX_SPEED_RAW {
        Fx(-MAX_SPEED_RAW)
    } else {
        v
    }
}

/// One particle as a value.
#[derive(Clone, Copy, Debug)]
pub struct ParticleRec {
    pub x: Fx,
    pub y: Fx,
    pub vx: Fx,
    pub vy: Fx,
    pub material: u8,
}

/// The particle pool, stored column-wise; index order is id order.
#[derive(Debug)]
pub struct Particles {
    x: Vec<Fx>,
    y: Vec<Fx>,
    vx: Vec<Fx>,
    vy: Vec<Fx>,
    material: Vec<u8>,
    next_id: u32,
    rejected_total: u64,
    buried_total: u64,
}

impl View for Particles {
    type V = Seq<ParticleRec>;

    closed spec fn view(&self) -> Seq<ParticleRec> {
        Seq::new(
            self.x@.len(),
            |i: int|
                ParticleRec {
                    x: self.x@[i],
                    y: self.y@[i],
                    vx: self.vx@[i],
                    vy: self.vy@[i],
                    material: self.material@[i],
                },
        )
    }
}

/// The particles of `s` whose `keep` flag is set, in order.
pub open spec fn filter_kept(s: Seq<ParticleRec>, keep: Seq<bool>) -> Seq<ParticleRec>
    decreases s.len(),
{
    if s.len() == 0 || keep.len() == 0 {
        Seq::empty()
    } else {
        filter_kept(s.drop_last(), keep.drop_last()) + if keep.last() {
            seq![s.last()]
        } else {
            Seq::empty()
        }
    }
}

/// Bytes hashed for a sequence of particles.
pub open spec fn particles_bytes(s: Seq<ParticleRec>) -> Seq<u8>
    decreases s.len(),
{
    if s.len() == 0 {
        Seq::empty()
    } else {
        let p = s.last();
        particles_bytes(s.drop_last()) + i32_le(p.x.0) + i32_le(p.y.0) + i32_le(p.vx.0) + i32_le(p.vy.0) + seq![
            p.material,
        ]
    }
}

impl Particles {
    /// The columns have one common length, at most the capacity.
    pub closed spec fn wf(&self) -> bool {
        &&& self.y@.len() == self.x@.len()
        &&& self.vx@.len() == self.x@.len()
        &&& self.vy@.len() == self.x@.len()
        &&& self.material@.len() == self.x@.len()
        &&& self.x@.len() <= MAX_PARTICLES
    }

    /// Particles spawned so far (wrapping), part of the hash.
    pub closed spec fn next_id_spec(&self) -> u32 {
        self.next_id
    }

    /// Spawns refused at capacity (diagnostic).
    pub closed spec fn rejected_spec(&self) -> u64 {
        self.rejected_total
    }

    /// Landings with no air cell to settle in (diagnostic).
    pub closed spec fn buried_spec(&self) -> u64 {
        self.buried_total
    }

    pub fn new() -> (r: Particles)
        ensures
            r.wf(),
            r@.len() == 0,
            r.next_id_spec() == 0,
            r.rejected_spec() == 0,
            r.buried_spec() == 0,
    {
        Particles {
            x: Vec::new(),
            y: Vec::new(),
            vx: Vec::new(),
            vy: Vec::new(),
            material: Vec::new(),
            next_id: 0,
            rejected_total: 0,
            buried_total: 0,
        }
    }

    pub fn len(&self) -> (r: usize)
        requires
            self.wf(),
        ensures
            r == self@.len(),
            r <= MAX_PARTICLES,
    {
        self.x.len()
    }

    pub fn is_empty(&self) -> (r: bool)
        requires
            self.wf(),
        ensures
            r == (self@.len() == 0),
    {
        self.x.len() == 0
    }

    pub fn x(&self, i: usize) -> (r: Fx)
        requires
            self.wf(),
            i < self@.len(),
        ensures
            r == self@[i as int].x,
    {
        self.x[i]
    }

    pub fn y(&self, i: usize) -> (r: Fx)
        requires
            self.wf(),
            i < self@.len(),
        ensures
            r == self@[i as int].y,
    {
        self.y[i]
    }

    pub fn vx(&self, i: usize) -> (r: Fx)
        requires
            self.wf(),
            i < self@.len(),
        ensures
            r == self@[i as int].vx,
    {
        self.vx[i]
    }

    pub fn vy(&self, i: usize) -> (r: Fx)
        requires
            self.wf(),
            i < self@.len(),
        ensures
            r == self@[i as int].vy,
    {
        self.vy[i]
    }

    pub fn material(&self, i: usize) -> (r: u8)
        requires
            self.wf(),
            i < self@.len(),
        ensures
            r == self@[i as int].material,
    {
        self.material[i]
    }

    /// Spawns refused at capacity (diagnostic, not hashed).
    pub fn rejected_total(&self) -> (r: u64)
        ensures
            r == self.rejected_spec(),
    {
        self.rejected_total
    }

    /// Landings that found no air to settle in (diagnostic, not hashed).
    pub fn buried_total(&self) -> (r: u64)
        ensures
            r == self.buried_spec(),
    {
        self.buried_total
    }

    /// Append a particle; at capacity the spawn is refused and counted.
    pub fn spawn(&mut self, material: u8, x: Fx, y: Fx, vx: Fx, vy: Fx) -> (r: bool)
        requires
            old(self).wf(),
            old(self).rejected_spec() < u64::MAX,
        ensures
            r == (old(self)@.len() < MAX_PARTICLES),
            r ==> final(self)@ == old(self)@.push(ParticleRec { x, y, vx, vy, material }),
            r ==> final(self).next_id_spec() == (if old(self).next_id_spec() == u32::MAX { 0 } else { old(self).next_id_spec() + 1 }),
            r ==> final(self).rejected_spec() == old(self).rejected_spec(),
            !r ==> final(self)@ == old(self)@ && final(self).next_id_spec() == old(self).next_id_spec(),
            !r ==> final(self).rejected_spec() == old(self).rejected_spec() + 1,
            final(self).wf(),
            final(self).buried_spec() == old(self).buried_spec(),
    {
        if self.x.len() >= MAX_PARTICLES {
            self.rejected_total = self.rejected_total + 1;
            return false;
        }
        let ghost v0 = self@;
        self.x.push(x);
        self.y.push(y);
        self.vx.push(vx);
        self.vy.push(vy);
        self.material.push(material);
        self.next_id = self.next_id.wrapping_add(1);
        proof {
            assert(self@ =~= v0.push(ParticleRec { x, y, vx, vy, material }));
        }
        true
    }

    /// Keep the particles whose flag is set, in order.
    pub fn compact(&mut self, keep: &[bool])
        requires
            old(self).wf(),
            keep@.len() == old(self)@.len(),
        ensures
            final(self).wf(),
            final(self)@ == filter_kept(old(self)@, keep@),
            final(self).next_id_spec() == old(self).next_id_spec(),
            final(self).rejected_spec() == old(self).rejected_spec(),
            final(self).buried_spec() == old(self).buried_spec(),
    {
        let ghost v0 = self@;
        let n = self.x.len();
        let mut w: usize = 0;
        let mut r: usize = 0;
        while r < n
            invariant
                n == v0.len(),
                keep@.len() == n,
                w <= r <= n,
                self.x@.len() == n && self.y@.len() == n && self.vx@.len() == n && self.vy@.len() == n
                    && self.material@.len() == n,
                self.next_id == old(self).next_id,
                self.rejected_total == old(self).rejected_total,
                self.buried_total == old(self).buried_total,
                self@.subrange(0, w as int) == filter_kept(v0.subrange(0, r as int), keep@.subrange(0, r as int)),
                forall|j: int| r <= j < n ==> #[trigger] self@[j] == v0[j],
                filter_kept(v0.subrange(0, r as int), keep@.subrange(0, r as int)).len() == w,
            decreases n - r,
        {
            proof {
                assert(v0.subrange(0, r as int + 1).drop_last() =~= v0.subrange(0, r as int));
                assert(keep@.subrange(0, r as int + 1).drop_last() =~= keep@.subrange(0, r as int));
                assert(self@[r as int] == v0[r as int]);
            }
            let ghost before = self@;
            if keep[r] {
                if w != r {
                    let (a, b, c, d, e) = (self.x[r], self.y[r], self.vx[r], self.vy[r], self.material[r]);
                    self.x.set(w, a);
                    self.y.set(w, b);
                    self.vx.set(w, c);
                    self.vy.set(w, d);
                    self.material.set(w, e);
                }
                proof {
                    assert(self@.subrange(0, w as int + 1) =~= filter_kept(v0.subrange(0, r as int + 1), keep@.subrange(0, r as int + 1)));
                    assert forall|j: int| r + 1 <= j < n implies #[trigger] self@[j] == v0[j] by {
                        assert(self@[j] == before[j]);
                    }
                }
                w += 1;
            } else {
                proof {
                    assert(filter_kept(v0.subrange(0, r as int + 1), keep@.subrange(0, r as int + 1)) =~= filter_kept(v0.subrange(0, r as int), keep@.subrange(0, r as int)));
                }
            }
            r += 1;
        }
        self.x.truncate(w);
        self.y.truncate(w);
        self.vx.truncate(w);
        self.vy.truncate(w);
        self.material.truncate(w);
        proof {
            assert(v0.subrange(0, n as int) =~= v0);
            assert(keep@.subrange(0, n as int) =~= keep@);
            assert(self@ =~= filter_kept(v0, keep@));
        }
    }

    /// Overwrite position and velocity of particle `i`.
    fn set_state(&mut self, i: usize, x: Fx, y: Fx, vx: Fx, vy: Fx)
        requires
            old(self).wf(),
            i < old(self)@.len(),
        ensures
            final(self).wf(),
            final(self)@ == old(self)@.update(i as int, ParticleRec { x, y, vx, vy, material: old(self)@[i as int].material }),
            final(self).next_id_spec() == old(self).next_id_spec(),
            final(self).rejected_spec() == old(self).rejected_spec(),
            final(self).buried_spec() == old(self).buried_spec(),
    {
        let ghost v0 = self@;
        self.x.set(i, x);
        self.y.set(i, y);
        self.vx.set(i, vx);
        self.vy.set(i, vy);
        proof {
            assert(self@ =~= v0.update(i as int, ParticleRec { x, y, vx, vy, material: v0[i as int].material }));
        }
    }

    fn mark_buried(&mut self)
        requires
            old(self).wf(),
            old(self).buried_spec() < u64::MAX,
        ensures
            final(self).wf(),
            final(self)@ == old(self)@,
            final(self).next_id_spec() == old(self).next_id_spec(),
            final(self).rejected_spec() == old(self).rejected_spec(),
            final(self).buried_spec() == old(self).buried_spec() + 1,
    {
        self.buried_total = self.buried_total + 1;
    }

    /// Hash of the particle layer: every particle's position, velocity and
    /// material in id order, then the spawn counter and the count.
    pub fn hash_into(&self) -> (r: u64)
        requires
            self.wf(),
        ensures
            r == xxh3_64_spec(particles_bytes(self@) + u32_le(self.next_id_spec()) + u64_le(self@.len() as u64)),
    {
        let mut bytes: Vec<u8> = Vec::new();
        let mut i: usize = 0;
        while i < self.x.len()
            invariant
                i <= self@.len(),
                self.y@.len() == self.x@.len() && self.vx@.len() == self.x@.len() && self.vy@.len() == self.x@.len()
                    && self.material@.len() == self.x@.len(),
                bytes@ == particles_bytes(self@.subrange(0, i as int)),
            decreases self@.len() - i,
        {
            push_u32_le(&mut bytes, self.x[i].0 as u32);
            push_u32_le(&mut bytes, self.y[i].0 as u32);
            push_u32_le(&mut bytes, self.vx[i].0 as u32);
            push_u32_le(&mut bytes, self.vy[i].0 as u32);
            bytes.push(self.material[i]);
            proof {
                assert(self@.subrange(0, i as int + 1).drop_last() =~= self@.subrange(0, i as int));
                assert(bytes@ =~= particles_bytes(self@.subrange(0, i as int + 1)));
            }
            i += 1;
        }
        proof {
            assert(self@.subrange(0, self@.len() as int) =~= self@);
        }
        push_u32_le(&mut bytes, self.next_id);
        push_u64_le(&mut bytes, self.x.len() as u64);
        crate::hash::xxh3_64_bytes(bytes.as_slice())
    }
}

impl Clone for Particles {
    fn clone(&self) -> (r: Particles)
        ensures
            self.wf() ==> r.wf(),
            r@ == self@,
            r.next_id_spec() == self.next_id_spec(),
            r.rejected_spec() == self.rejected_spec(),
            r.buried_spec() == self.buried_spec(),
    {
        let r = Particles {
            x: self.x.clone(),
            y: self.y.clone(),
            vx: self.vx.clone(),
            vy: self.vy.clone(),
            material: self.material.clone(),
            next_id: self.next_id,
            rejected_total: self.rejected_total,
            buried_total: self.buried_total,
        };
        proof {
            assert(r@ =~= self@);
        }
        r
    }
}

impl Default for Particles {
    fn default() -> (r: Particles)
        ensures
            r.wf(),
            r@.len() == 0,
            r.next_id_spec() == 0,
            r.rejected_spec() == 0,
            r.buried_spec() == 0,
    {
        Particles::new()
    }
}

/// How one particle's tick ends.
#[derive(Clone, Copy, Debug, PartialEq, Eq)]
pub enum Outcome {
    /// Blocked: settle at or near cell `(cx, cy)`; `pos` is the unblocked end
    /// position, from which the impact speed is taken.
    Land { cx: i32, cy: i32, pos: (Fx, Fx) },
    /// Still flying, at `pos` with velocity `vel`.
    Fly { pos: (Fx, Fx), vel: (Fx, Fx) },
    /// Left the world.
    Gone,
}

/// Raw positions far enough from the `i32` limits for one tick of flight.
pub open spec fn pos_ok(v: i32) -> bool {
    -0x7FE0_0000 <= v <= 0x7FE0_0000
}

/// Velocity after gravity and the speed limit.
pub open spec fn flight_vel(p: ParticleRec) -> (Fx, Fx) {
    (Fx(clamp_raw(p.vx.0 as int) as i32), Fx(clamp_raw(wrap_i32(p.vy.0 + GRAVITY_RAW) as int) as i32))
}

/// One particle's integration over the grid snapshot `world`.
pub open spec fn integrate_spec(world: World, p: ParticleRec) -> Outcome {
    integrate_grid(world.grid(), world.w(), world.h(), p)
}

/// One particle's integration over grid `g` of size `w x h`.
pub open spec fn integrate_grid(g: spec_fn(int, int) -> Cell, w: int, h: int, p: ParticleRec) -> Outcome {
    let vel = flight_vel(p);
    match trace_grid(g, w, h, (p.x, p.y), vel) {
        Trace::Gone => Outcome::Gone,
        Trace::Clear { end_pos } => Outcome::Fly { pos: end_pos, vel },
        Trace::Blocked { land_cell } => Outcome::Land {
            cx: land_cell.0,
            cy: land_cell.1,
            pos: (Fx(wrap_i32(p.x.0 + vel.0.0)), Fx(wrap_i32(p.y.0 + vel.1.0))),
        },
    }
}

pub fn apply_gravity_and_clamp(vx: Fx, vy: Fx) -> (r: (Fx, Fx))
    ensures
        r.0.0 == clamp_raw(vx.0 as int),
        r.1.0 == clamp_raw(wrap_i32(vy.0 + GRAVITY_RAW) as int),
{
    (clamp_speed(vx), clamp_speed(vy + gravity()))
}

/// Integrate one particle over a read-only snapshot of the grid: gravity,
/// speed limit, then the traversal; a block lands at the last air cell.
pub fn integrate(p: ParticleRec, world: &World) -> (r: Outcome)
    requires
        world.wf(),
        pos_ok(p.x.0),
        pos_ok(p.y.0),
    ensures
        r == integrate_spec(*world, p),
{
    let (vx, vy) = apply_gravity_and_clamp(p.vx, p.vy);
    match trace((p.x, p.y), (vx, vy), world) {
        Trace::Gone => Outcome::Gone,
        Trace::Clear { end_pos } => Outcome::Fly { pos: end_pos, vel: (vx, vy) },
        Trace::Blocked { land_cell } => Outcome::Land { cx: land_cell.0, cy: land_cell.1, pos: (p.x + vx, p.y + vy) },
    }
}

/// The landing cell of an integration lies at the start cell or inside the world.
pub proof fn lemma_land_cell(world: World, p: ParticleRec)
    requires
        pos_ok(p.x.0),
        pos_ok(p.y.0),
    ensures
        integrate_spec(world, p) matches Outcome::Land { cx, cy, .. } ==> (cx == p.x.0 / 65536 && cy == p.y.0
            / 65536) || world.inb(cx as int, cy as int),
{
    let vel = flight_vel(p);
    let w = walk_start((p.x, p.y), vel);
    lemma_trace_land(
        world.grid(),
        world.w(),
        world.h(),
        w,
        ((p.x.0 / 65536) as i32, (p.y.0 / 65536) as i32),
        (Fx((p.x.0 + vel.0.0) as i32), Fx((p.y.0 + vel.1.0) as i32)),
    );
}

/// Whether `(a, b)` is an air cell of grid `g` of size `w x h`.
pub open spec fn air_at(g: spec_fn(int, int) -> Cell, w: int, h: int, a: int, b: int) -> bool {
    0 <= a < w && 0 <= b < h && g(a, b).mat() == MAT_AIR
}

/// The first air cell of column `cx` from row `y` upward.
pub open spec fn scan_up(g: spec_fn(int, int) -> Cell, w: int, h: int, cx: int, y: int) -> Option<(i32, i32)>
    decreases if y >= 0 { y + 1 } else { 0 },
{
    if !(0 <= cx < w && 0 <= y < h) {
        None
    } else if g(cx, y).mat() == MAT_AIR {
        Some((cx as i32, y as i32))
    } else {
        scan_up(g, w, h, cx, y - 1)
    }
}

/// Where a particle blocked at `(cx, cy)` settles: that cell if it is air,
/// else the first air cell among up, left, right, up-left, up-right, else
/// the first air cell further up the column; `None` if there is none.
pub open spec fn resolve_spec(g: spec_fn(int, int) -> Cell, w: int, h: int, cx: int, cy: int) -> Option<(i32, i32)> {
    if air_at(g, w, h, cx, cy) {
        Some((cx as i32, cy as i32))
    } else if air_at(g, w, h, cx, cy - 1) {
        Some((cx as i32, (cy - 1) as i32))
    } else if air_at(g, w, h, cx - 1, cy) {
        Some(((cx - 1) as i32, cy as i32))
    } else if air_at(g, w, h, cx + 1, cy) {
        Some(((cx + 1) as i32, cy as i32))
    } else if air_at(g, w, h, cx - 1, cy - 1) {
        Some(((cx - 1) as i32, (cy - 1) as i32))
    } else if air_at(g, w, h, cx + 1, cy - 1) {
        Some(((cx + 1) as i32, (cy - 1) as i32))
    } else {
        scan_up(g, w, h, cx, cy - 2)
    }
}

/// Resolve where a blocked particle settles (see [`resolve_spec`]).
pub fn resolve_landing(world: &World, cx: i32, cy: i32) -> (r: Option<(i32, i32)>)
    requires
        world.wf(),
        i32::MIN + 2 <= cx <= i32::MAX - 1,
        i32::MIN + 2 <= cy <= i32::MAX - 1,
    ensures
        r == resolve_spec(world.grid(), world.w(), world.h(), cx as int, cy as int),
        r matches Some(c) ==> world.inb(c.0 as int, c.1 as int) && world.at(c.0 as int, c.1 as int).mat() == MAT_AIR,
{
    let ghost (g, w, h) = (world.grid(), world.w(), world.h());
    proof {
        crate::world::lemma_wall_mat();
    }
    if world.cell(cx, cy).material() == MAT_AIR {
        return Some((cx, cy));
    }
    let order: [(i32, i32); 5] = [(0, -1), (-1, 0), (1, 0), (-1, -1), (1, -1)];
    let mut k: usize = 0;
    while k < 5
        invariant
            world.wf(),
            i32::MIN + 2 <= cx <= i32::MAX - 1,
            i32::MIN + 2 <= cy <= i32::MAX - 1,
            g == world.grid(),
            w == world.w(),
            h == world.h(),
            order@ == seq![(0i32, -1i32), (-1i32, 0i32), (1i32, 0i32), (-1i32, -1i32), (1i32, -1i32)],
            k <= 5,
            !air_at(g, w, h, cx as int, cy as int),
            forall|j: int| 0 <= j < k ==> !air_at(g, w, h, cx + order@[j].0, cy + order@[j].1),
        decreases 5 - k,
    {
        let (dx, dy) = order[k];
        let (nx, ny) = (cx + dx, cy + dy);
        if world.in_bounds(nx, ny) && world.cell(nx, ny).material() == MAT_AIR {
            proof {
                assert(forall|j: int| 0 <= j < k ==> !air_at(g, w, h, cx + order@[j].0, cy + order@[j].1));
            }
            return Some((nx, ny));
        }
        k += 1;
    }
    proof {
        assert(!air_at(g, w, h, cx as int, cy - 1) && !air_at(g, w, h, cx - 1, cy as int) && !air_at(g, w, h, cx + 1, cy as int)
            && !air_at(g, w, h, cx - 1, cy - 1) && !air_at(g, w, h, cx + 1, cy - 1)) by {
            assert(order@[0] == (0i32, -1i32));
            assert(order@[1] == (-1i32, 0i32));
            assert(order@[2] == (1i32, 0i32));
            assert(order@[3] == (-1i32, -1i32));
            assert(order@[4] == (1i32, -1i32));
        }
    }
    let mut y = cy - 2;
    while world.in_bounds(cx, y)
        invariant
            world.wf(),
            g == world.grid(),
            w == world.w(),
            h == world.h(),
            i32::MIN <= y,
            scan_up(g, w, h, cx as int, y as int) == resolve_spec(g, w, h, cx as int, cy as int),
        decreases y + 1,
    {
        if world.cell(cx, y).material() == MAT_AIR {
            return Some((cx, y));
        }
        y -= 1;
    }
    None
}

/// Speed field of an impact that moved the particle `d` (raw) downward this tick.
pub open spec fn impact_vel(d: i32) -> u8 {
    (if d / 16384 < 0 { 0 } else if d / 16384 > 16 { 16 } else { d / 16384 }) as u8
}

/// The cell stored where a particle of material `m` settles at column `lx`
/// with impact speed field `v`: the shared write path, then (for non-gases
/// with a nonzero impact) the speed field.
pub open spec fn landed_cell(t: Seq<MaterialDef>, m: u8, stamp: u8, lx: int, v: u8) -> Cell {
    let c = painted(t, m, stamp, lx);
    if v != 0 && t[m as int].category != Category::Gas {
        cell_from_bits((c@ & !0x3e_0000u32) | (((v as u32) << 17u32) & 0x3e_0000u32))
    } else {
        c
    }
}

/// Grid `g` with cell `(a0, b0)` replaced by `c`.
pub open spec fn put(g: spec_fn(int, int) -> Cell, a0: int, b0: int, c: Cell) -> spec_fn(int, int) -> Cell {
    |a: int, b: int| if a == a0 && b == b0 { c } else { g(a, b) }
}

/// Commit of outcomes `i..` in id order over grid `g`: the final grid and the
/// number of landings that found no air cell.
#[verifier::opaque]
pub open spec fn commit_fold(
    g: spec_fn(int, int) -> Cell,
    w: int,
    h: int,
    t: Seq<MaterialDef>,
    ps: Seq<ParticleRec>,
    outs: Seq<Outcome>,
    i: int,
    stamp: u8,
) -> (spec_fn(int, int) -> Cell, nat)
    decreases outs.len() - i,
{
    if i < 0 || i >= outs.len() {
        (g, 0)
    } else {
        match outs[i] {
            Outcome::Land { cx, cy, pos } => match resolve_spec(g, w, h, cx as int, cy as int) {
                Some(l) => {
                    let v = impact_vel(wrap_i32(pos.1.0 - ps[i].y.0));
                    commit_fold(put(g, l.0 as int, l.1 as int, landed_cell(t, ps[i].material, stamp, l.0 as int, v)), w, h, t, ps, outs, i + 1, stamp)
                },
                None => {
                    let r = commit_fold(g, w, h, t, ps, outs, i + 1, stamp);
                    (r.0, r.1 + 1)
                },
            },
            _ => commit_fold(g, w, h, t, ps, outs, i + 1, stamp),
        }
    }
}

/// The particle after its outcome: flying ones take their new state.
pub open spec fn after_outcome(p: ParticleRec, o: Outcome) -> ParticleRec {
    match o {
        Outcome::Fly { pos, vel } => ParticleRec { x: pos.0, y: pos.1, vx: vel.0, vy: vel.1, material: p.material },
        _ => p,
    }
}

/// Landing cells that `resolve_landing` accepts.
pub open spec fn outcome_ok(o: Outcome) -> bool {
    o matches Outcome::Land { cx, cy, .. } ==> i32::MIN + 2 <= cx <= i32::MAX - 1 && i32::MIN + 2 <= cy <= i32::MAX - 1
}

/// Apply the outcomes in id order: flying particles take their new state,
/// landing ones are written into the grid (or counted as buried), and the
/// returned flags keep exactly the flying ones.
pub fn commit(
    particles: &mut Particles,
    world: &mut World,
    table: &MaterialTable,
    stamp: u8,
    outcomes: &Vec<Outcome>,
) -> (keep: Vec<bool>)
    requires
        old(particles).wf(),
        outcomes@.len() == old(particles)@.len(),
        old(world).wf(),
        old(world).mats_valid(table@.len() as int),
        forall|i: int| 0 <= i < old(particles)@.len() ==> (#[trigger] old(particles)@[i].material as int) < table@.len(),
        forall|i: int| 0 <= i < outcomes@.len() ==> outcome_ok(#[trigger] outcomes@[i]),
        old(particles).buried_spec() + old(particles)@.len() <= u64::MAX,
    ensures
        final(particles).wf(),
        keep@ == Seq::new(outcomes@.len(), |i: int| outcomes@[i] is Fly),
        final(particles)@ == Seq::new(old(particles)@.len(), |i: int| after_outcome(old(particles)@[i], outcomes@[i])),
        final(particles).next_id_spec() == old(particles).next_id_spec(),
        final(particles).rejected_spec() == old(particles).rejected_spec(),
        ({
            let w0 = *old(world);
            let res = commit_fold(w0.grid(), w0.w(), w0.h(), table@, old(particles)@, outcomes@, 0, stamp);
            &&& final(world).wf()
            &&& final(world).same_shape(w0)
            &&& final(world).same_scan(w0)
            &&& final(world).nd_grows(w0)
            &&& final(world).vaporized_total == w0.vaporized_total
            &&& forall|a: int, b: int| #[trigger] final(world).at(a, b) == (res.0)(a, b)
            &&& final(particles).buried_spec() == old(particles).buried_spec() + res.1
        }),
        final(world).mats_valid(table@.len() as int),
{
    let ghost w0 = *world;
    let ghost p0 = particles@;
    let ghost b0 = particles.buried_spec();
    let ghost t = table@;
    let ghost outs = outcomes@;
    let ghost full = commit_fold(w0.grid(), w0.w(), w0.h(), t, p0, outs, 0, stamp);
    let ghost mut g = w0.grid();
    let ghost mut bb: nat = 0;
    let n = outcomes.len();
    let mut keep: Vec<bool> = Vec::new();
    proof {
        crate::world::lemma_grows_refl(w0);
    }
    let mut i: usize = 0;
    while i < n
        invariant
            n == outs.len(),
            outs == outcomes@,
            p0.len() == n,
            t == table@,
            i <= n,
            w0.wf(),
            forall|j: int| 0 <= j < n ==> (#[trigger] p0[j].material as int) < t.len(),
            forall|j: int| 0 <= j < n ==> outcome_ok(#[trigger] outs[j]),
            b0 + n <= u64::MAX,
            particles.wf(),
            particles@.len() == n,
            forall|j: int| 0 <= j < i ==> #[trigger] particles@[j] == after_outcome(p0[j], outs[j]),
            forall|j: int| i <= j < n ==> #[trigger] particles@[j] == p0[j],
            particles.next_id_spec() == old(particles).next_id_spec(),
            particles.rejected_spec() == old(particles).rejected_spec(),
            particles.buried_spec() == b0 + bb,
            bb <= i,
            keep@ == Seq::new(i as nat, |j: int| outs[j] is Fly),
            full == commit_fold(w0.grid(), w0.w(), w0.h(), t, p0, outs, 0, stamp),
            ({
                let rest = commit_fold(g, w0.w(), w0.h(), t, p0, outs, i as int, stamp);
                &&& full.0 == rest.0
                &&& full.1 == bb + rest.1
            }),
            world.wf(),
            world.same_shape(w0),
            world.same_scan(w0),
            world.nd_grows(w0),
            world.vaporized_total == w0.vaporized_total,
            world.mats_valid(t.len() as int),
            forall|a: int, b: int| #[trigger] world.at(a, b) == g(a, b),
        decreases n - i,
    {
        let o = outcomes[i];
        let ghost rest = commit_fold(g, w0.w(), w0.h(), t, p0, outs, i as int, stamp);
        proof {
            assert(world.grid() =~= g) by {
                assert forall|a: int, b: int| #[trigger] world.grid()(a, b) == g(a, b) by {}
            }
            assert(outcome_ok(outs[i as int]));
        }
        match o {
            Outcome::Gone => {
                keep.push(false);
                proof {
                    reveal(commit_fold);
                }
            },
            Outcome::Fly { pos, vel } => {
                particles.set_state(i, pos.0, pos.1, vel.0, vel.1);
                keep.push(true);
                proof {
                    reveal(commit_fold);
                }
            },
            Outcome::Land { cx, cy, pos } => {
                keep.push(false);
                match resolve_landing(world, cx, cy) {
                    Some((lx, ly)) => {
                        let m = particles.material(i);
                        let ghost wb = *world;
                        world.set_cell_stamped(table, lx, ly, m, stamp);
                        let impact_vy = pos.1 - particles.y(i);
                        let v = fx_to_vel(impact_vy);
                        let ghost wc = *world;
                        proof {
                            crate::world::lemma_marked_grows(wc, wb, lx as int, ly as int);
                            crate::world::lemma_grows_trans(wc, wb, w0);
                            crate::world::lemma_stamped_mat(crate::world::is_flowing(t[m as int].category), m, stamp, lx as int);
                        }
                        if v != 0 && table.category(m) != Category::Gas {
                            world.set_cell_vel(lx, ly, v);
                        }
                        proof {
                            let lc = landed_cell(t, m, stamp, lx as int, v);
                            let g2 = put(g, lx as int, ly as int, lc);
                            assert(v == impact_vel(wrap_i32(pos.1.0 - p0[i as int].y.0)));
                            assert forall|a: int, b: int| #[trigger] world.at(a, b) == g2(a, b) by {
                                if a == lx && b == ly {
                                    if v != 0 && t[m as int].category != Category::Gas {
                                        assert(wc.at(a, b) == painted(t, m, stamp, a));
                                    }
                                } else {
                                    assert(world.at(a, b) == wc.at(a, b));
                                }
                            }
                            assert forall|a: int, b: int| #[trigger] world.inb(a, b) implies (world.at(a, b).mat() as int) < t.len() by {
                                assert(wb.inb(a, b));
                                if a == lx && b == ly {
                                    if v != 0 && t[m as int].category != Category::Gas {
                                        let c = painted(t, m, stamp, a);
                                        let nb = (c@ & !0x3e_0000u32) | (((v as u32) << 17u32) & 0x3e_0000u32);
                                        lemma_cell_from_bits(nb);
                                        let cv = c@;
                                        assert(((nb & 0xff) as u8) == ((cv & 0xff) as u8)) by (bit_vector)
                                            requires nb == (cv & !0x3e_0000u32) | (((v as u32) << 17u32) & 0x3e_0000u32);
                                    }
                                }
                            }
                            assert forall|cx2: int, cy2: int| 0 <= cx2 < world.width_chunks && 0 <= cy2 < world.height_chunks implies {
                                let nn = (#[trigger] world.chunk_at(cx2, cy2)).next_dirty@;
                                let oo = w0.chunk_at(cx2, cy2).next_dirty@;
                                &&& nn.0 <= oo.0 && nn.1 <= oo.1 && nn.2 >= oo.2 && nn.3 >= oo.3
                                &&& crate::world::rect_in_chunk(oo) ==> crate::world::rect_in_chunk(nn)
                            } by {
                                crate::world::lemma_chunk_index_bound(world.width_chunks as int, world.height_chunks as int, cx2, cy2);
                                assert(world.chunk_at(cx2, cy2).next_dirty@ == wc.chunk_at(cx2, cy2).next_dirty@);
                            }
                            reveal(commit_fold);
                            g = g2;
                        }
                    },
                    None => {
                        particles.mark_buried();
                        proof {
                            reveal(commit_fold);
                            bb = bb + 1;
                        }
                    },
                }
            },
        }
        proof {
            assert(keep@ =~= Seq::new(i as nat + 1, |j: int| outs[j] is Fly));
        }
        i += 1;
    }
    proof {
        reveal(commit_fold);
        assert(particles@ =~= Seq::new(p0.len(), |j: int| after_outcome(p0[j], outs[j])));
    }
    keep
}

/// Every particle sits at a position that one tick of flight cannot wrap,
/// and holds a material of the table.
pub open spec fn pool_ok(ps: Seq<ParticleRec>, n_materials: int) -> bool {
    forall|i: int| 0 <= i < ps.len() ==> {
        &&& pos_ok((#[trigger] ps[i]).x.0)
        &&& pos_ok(ps[i].y.0)
        &&& (ps[i].material as int) < n_materials
    }
}

/// The outcomes of one tick: every particle integrated over the same grid snapshot.
pub open spec fn outcomes_spec(world: World, ps: Seq<ParticleRec>) -> Seq<Outcome> {
    Seq::new(ps.len(), |i: int| integrate_spec(world, ps[i]))
}

/// One particle tick over grid `g` of size `w x h`: the grid after the
/// commit and the particles still flying, in order.
pub open spec fn particle_tick(
    g: spec_fn(int, int) -> Cell,
    w: int,
    h: int,
    t: Seq<MaterialDef>,
    ps: Seq<ParticleRec>,
    stamp: u8,
) -> (spec_fn(int, int) -> Cell, Seq<ParticleRec>) {
    let outs = Seq::new(ps.len(), |i: int| integrate_grid(g, w, h, ps[i]));
    let res = commit_fold(g, w, h, t, ps, outs, 0, stamp);
    (
        res.0,
        filter_kept(Seq::new(ps.len(), |i: int| after_outcome(ps[i], outs[i])), Seq::new(ps.len(), |i: int| outs[i] is Fly)),
    )
}

/// The pool after spawning the requests `q` in order, each refused once the
/// pool is full.
pub open spec fn drained(ps: Seq<ParticleRec>, q: Seq<crate::world::SpawnRequest>) -> Seq<ParticleRec>
    decreases q.len(),
{
    if q.len() == 0 {
        ps
    } else {
        let d = drained(ps, q.drop_last());
        let r = q.last();
        if d.len() < MAX_PARTICLES {
            d.push(ParticleRec { x: r.x, y: r.y, vx: r.vx, vy: r.vy, material: r.material })
        } else {
            d
        }
    }
}

/// How many of the requests `q` a pool holding `ps` refuses when they are
/// spawned in order (see [`drained`]).
pub open spec fn refused(ps: Seq<ParticleRec>, q: Seq<crate::world::SpawnRequest>) -> nat
    decreases q.len(),
{
    if q.len() == 0 {
        0
    } else {
        refused(ps, q.drop_last()) + if drained(ps, q.drop_last()).len() < MAX_PARTICLES { 0nat } else { 1nat }
    }
}

/// The particle id counter after `k` spawns from `n` (wrapping).
pub open spec fn id_after(n: u32, k: int) -> u32 {
    ((n as int + k) % 0x1_0000_0000) as u32
}

/// The landings of one particle tick over grid `g` that find no air cell.
pub open spec fn tick_buried(
    g: spec_fn(int, int) -> Cell,
    w: int,
    h: int,
    t: Seq<MaterialDef>,
    ps: Seq<ParticleRec>,
    stamp: u8,
) -> nat {
    commit_fold(g, w, h, t, ps, Seq::new(ps.len(), |i: int| integrate_grid(g, w, h, ps[i])), 0, stamp).1
}

/// One particle tick: every particle is integrated over the grid as it is
/// now (a pure function of that snapshot), then the outcomes are committed in
/// id order and the landed and departed particles removed, order kept.
pub fn advance(particles: &mut Particles, world: &mut World, table: &MaterialTable, stamp: u8)
    requires
        old(particles).wf(),
        pool_ok(old(particles)@, table@.len() as int),
        old(particles).buried_spec() + old(particles)@.len() <= u64::MAX,
        old(world).wf(),
        old(world).mats_valid(table@.len() as int),
    ensures
        final(particles).wf(),
        ({
            let w0 = *old(world);
            let ps = old(particles)@;
            let outs = outcomes_spec(w0, ps);
            let res = commit_fold(w0.grid(), w0.w(), w0.h(), table@, ps, outs, 0, stamp);
            &&& final(particles)@ == filter_kept(
                Seq::new(ps.len(), |i: int| after_outcome(ps[i], outs[i])),
                Seq::new(ps.len(), |i: int| outs[i] is Fly),
            )
            &&& final(particles).buried_spec() == old(particles).buried_spec() + res.1
            &&& final(world).wf()
            &&& final(world).same_shape(w0)
            &&& final(world).same_scan(w0)
            &&& final(world).nd_grows(w0)
            &&& final(world).vaporized_total == w0.vaporized_total
            &&& forall|a: int, b: int| #[trigger] final(world).at(a, b) == (res.0)(a, b)
        }),
        final(particles).next_id_spec() == old(particles).next_id_spec(),
        final(particles).rejected_spec() == old(particles).rejected_spec(),
        final(world).mats_valid(table@.len() as int),
{
    let ghost w0 = *world;
    let ghost ps = particles@;
    let n = particles.len();
    let mut outcomes: Vec<Outcome> = Vec::new();
    let mut i: usize = 0;
    while i < n
        invariant
            n == ps.len(),
            particles@ == ps,
            particles.wf(),
            pool_ok(ps, table@.len() as int),
            world.wf(),
            *world == w0,
            i <= n,
            outcomes@ == Seq::new(i as nat, |j: int| integrate_spec(w0, ps[j])),
            forall|j: int| 0 <= j < i ==> outcome_ok(#[trigger] outcomes@[j]),
        decreases n - i,
    {
        let p = ParticleRec {
            x: particles.x(i),
            y: particles.y(i),
            vx: particles.vx(i),
            vy: particles.vy(i),
            material: particles.material(i),
        };
        proof {
            assert(p == ps[i as int]);
            lemma_land_cell(w0, p);
        }
        let o = integrate(p, world);
        outcomes.push(o);
        proof {
            assert(outcomes@ =~= Seq::new(i as nat + 1, |j: int| integrate_spec(w0, ps[j])));
        }
        i += 1;
    }
    proof {
        assert(outcomes@ =~= outcomes_spec(w0, ps));
    }
    if n == 0 {
        proof {
            crate::world::lemma_grows_refl(w0);
            reveal(commit_fold);
            assert(particles@ =~= filter_kept(
                Seq::new(ps.len(), |i: int| after_outcome(ps[i], outcomes@[i])),
                Seq::new(ps.len(), |i: int| outcomes@[i] is Fly),
            ));
        }
        return;
    }
    let keep = commit(particles, world, table, stamp, &outcomes);
    particles.compact(keep.as_slice());
}


/// Largest cell coordinate (either sign) from which a particle can fly one more tick.
pub const MAX_FLIGHT_CELL: i32 = 32735;

/// A raw coordinate whose cell lies within `MAX_FLIGHT_CELL`.
pub open spec fn flight_cell(v: i32) -> bool {
    -MAX_FLIGHT_CELL <= v / 65536 <= MAX_FLIGHT_CELL
}

/// The particle's cell lies within `MAX_FLIGHT_CELL` on both axes.
pub open spec fn in_flight(p: ParticleRec) -> bool {
    flight_cell(p.x.0) && flight_cell(p.y.0)
}

/// Every particle is in flight range and of a material below `n`.
pub open spec fn flight_pool(ps: Seq<ParticleRec>, n: int) -> bool {
    forall|i: int| 0 <= i < ps.len() ==> in_flight(#[trigger] ps[i]) && (ps[i].material as int) < n
}

/// A flight-range pool is one `advance` accepts.
pub proof fn lemma_flight_pool_ok(ps: Seq<ParticleRec>, n: int)
    requires
        flight_pool(ps, n),
    ensures
        pool_ok(ps, n),
{
    assert forall|i: int| 0 <= i < ps.len() implies {
        &&& pos_ok((#[trigger] ps[i]).x.0)
        &&& pos_ok(ps[i].y.0)
        &&& (ps[i].material as int) < n
    } by {
        assert(in_flight(ps[i]));
    }
}

/// What `filter_kept` keeps comes from the kept entries.
proof fn lemma_filter_kept_from(s: Seq<ParticleRec>, keep: Seq<bool>, q: int)
    requires
        s.len() == keep.len(),
        0 <= q < filter_kept(s, keep).len(),
    ensures
        exists|i: int| 0 <= i < s.len() && keep[i] && s[i] == #[trigger] filter_kept(s, keep)[q],
    decreases s.len(),
{
    let p = filter_kept(s.drop_last(), keep.drop_last());
    if q < p.len() {
        lemma_filter_kept_from(s.drop_last(), keep.drop_last(), q);
        let i = choose|i: int| 0 <= i < s.drop_last().len() && keep.drop_last()[i] && s.drop_last()[i] == p[q];
        assert(s[i] == s.drop_last()[i]);
        assert(filter_kept(s, keep)[q] == p[q]);
    } else {
        assert(filter_kept(s, keep)[q] == s.last());
        assert(keep[s.len() - 1]);
    }
}

/// A particle that keeps flying over a world no larger than
/// `MAX_FLIGHT_CELL + 1` cells per side stays in flight range.
pub proof fn lemma_fly_in_flight(w0: World, p: ParticleRec)
    requires
        w0.wf(),
        w0.w() <= MAX_FLIGHT_CELL + 1,
        w0.h() <= MAX_FLIGHT_CELL + 1,
        in_flight(p),
        integrate_spec(w0, p) is Fly,
    ensures
        in_flight(after_outcome(p, integrate_spec(w0, p))),
{
    let vel = flight_vel(p);
    let pos = (p.x, p.y);
    assert(no_wrap(pos, vel));
    lemma_walk_start(pos, vel);
    let end = (Fx((pos.0.0 + vel.0.0) as i32), Fx((pos.1.0 + vel.1.0) as i32));
    lemma_trace_clear(w0.grid(), w0.w(), w0.h(), walk_start(pos, vel), ((pos.0.0 / 65536) as i32, (pos.1.0 / 65536) as i32), end);
}

/// After a particle tick over a world no larger than `MAX_FLIGHT_CELL + 1`
/// cells per side, a flight-range pool is still one.
pub proof fn lemma_advance_flight_pool(w0: World, ps: Seq<ParticleRec>, n: int)
    requires
        w0.wf(),
        w0.w() <= MAX_FLIGHT_CELL + 1,
        w0.h() <= MAX_FLIGHT_CELL + 1,
        flight_pool(ps, n),
    ensures
        flight_pool(
            filter_kept(
                Seq::new(ps.len(), |i: int| after_outcome(ps[i], outcomes_spec(w0, ps)[i])),
                Seq::new(ps.len(), |i: int| outcomes_spec(w0, ps)[i] is Fly),
            ),
            n,
        ),
{
    let outs = outcomes_spec(w0, ps);
    let s = Seq::new(ps.len(), |i: int| after_outcome(ps[i], outs[i]));
    let keep = Seq::new(ps.len(), |i: int| outs[i] is Fly);
    let f = filter_kept(s, keep);
    assert forall|q: int| 0 <= q < f.len() implies in_flight(#[trigger] f[q]) && (f[q].material as int) < n by {
        lemma_filter_kept_from(s, keep, q);
        let i = choose|i: int| 0 <= i < s.len() && keep[i] && s[i] == f[q];
        assert(in_flight(ps[i]));
        lemma_fly_in_flight(w0, ps[i]);
    }
}

/// Law of particle flight: a particle that flies on this tick has its old
/// vertical speed plus gravity and its old horizontal speed, each held to
/// `[-MAX_SPEED, MAX_SPEED]`, and ends at its old position plus that speed.
pub proof fn lemma_particle_flight_law(g: spec_fn(int, int) -> Cell, w: int, h: int, p: ParticleRec)
    requires
        pos_ok(p.x.0),
        pos_ok(p.y.0),
    ensures
        integrate_grid(g, w, h, p) matches Outcome::Fly { pos, vel } ==> {
            let vy = wrap_i32(p.vy.0 + GRAVITY_RAW);
            let vx = p.vx.0 as int;
            &&& -MAX_SPEED_RAW <= vel.1.0 <= MAX_SPEED_RAW
            &&& -MAX_SPEED_RAW <= vel.0.0 <= MAX_SPEED_RAW
            &&& (-MAX_SPEED_RAW <= vy <= MAX_SPEED_RAW ==> vel.1.0 == vy)
            &&& (vy > MAX_SPEED_RAW ==> vel.1.0 == MAX_SPEED_RAW)
            &&& (vy < -MAX_SPEED_RAW ==> vel.1.0 == -MAX_SPEED_RAW)
            &&& (-MAX_SPEED_RAW <= vx <= MAX_SPEED_RAW ==> vel.0.0 == vx)
            &&& (vx > MAX_SPEED_RAW ==> vel.0.0 == MAX_SPEED_RAW)
            &&& (vx < -MAX_SPEED_RAW ==> vel.0.0 == -MAX_SPEED_RAW)
            &&& pos.0.0 == p.x.0 + vel.0.0
            &&& pos.1.0 == p.y.0 + vel.1.0
        },
{
    let vel = flight_vel(p);
    let pos = (p.x, p.y);
    assert(no_wrap(pos, vel));
    lemma_walk_start(pos, vel);
    let end = (Fx((pos.0.0 + vel.0.0) as i32), Fx((pos.1.0 + vel.1.0) as i32));
    lemma_trace_clear(g, w, h, walk_start(pos, vel), ((pos.0.0 / 65536) as i32, (pos.1.0 / 65536) as i32), end);
}

} // verus!
