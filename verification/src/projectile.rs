//! Projectiles: spell bodies in flight, stored column-wise; index order is id
//! order. A projectile with zero life left is dead and removed by compaction.

use vstd::prelude::*;

use crate::cell::Cell;
use crate::dda::{in_grid, no_wrap, walk_cells, walk_path, CellWalk};
use crate::fixed::{wrap_i32, Fx};
use crate::hash::{i32_le, push_u16_le, push_u32_le, push_u64_le, u16_le, u32_le, u64_le, xxh3_64_bytes, xxh3_64_spec};
use crate::material::{is_solid, solid_spec, MaterialDef, MaterialTable};
use crate::spell::{SpellDef, SpellTable};
use crate::world::World;

verus! {

/// Capacity of the projectile pool.
pub const MAX_PROJECTILES: usize = 4096;

/// One projectile as a value.
#[derive(Clone, Copy, Debug)]
pub struct ProjectileRec {
    pub x: Fx,
    pub y: Fx,
    pub vx: Fx,
    pub vy: Fx,
    pub spell: u8,
    pub life: u16,
    pub energy: u32,
    pub owner: u8,
    pub grace: u8,
    pub bounces: u8,
}

#[derive(Debug)]
pub struct Projectiles {
    x: Vec<Fx>,
    y: Vec<Fx>,
    vx: Vec<Fx>,
    vy: Vec<Fx>,
    spell: Vec<u8>,
    life: Vec<u16>,
    energy: Vec<u32>,
    owner: Vec<u8>,
    grace: Vec<u8>,
    bounces: Vec<u8>,
    rejected_total: u64,
}

impl View for Projectiles {
    type V = Seq<ProjectileRec>;

    closed spec fn view(&self) -> Seq<ProjectileRec> {
        Seq::new(
            self.x@.len(),
            |i: int|
                ProjectileRec {
                    x: self.x@[i],
                    y: self.y@[i],
                    vx: self.vx@[i],
                    vy: self.vy@[i],
                    spell: self.spell@[i],
                    life: self.life@[i],
                    energy: self.energy@[i],
                    owner: self.owner@[i],
                    grace: self.grace@[i],
                    bounces: self.bounces@[i],
                },
        )
    }
}

/// The live projectiles of `s` (life above zero), in order.
pub open spec fn live_only(s: Seq<ProjectileRec>) -> Seq<ProjectileRec>
    decreases s.len(),
{
    if s.len() == 0 {
        Seq::empty()
    } else {
        live_only(s.drop_last()) + if s.last().life > 0 {
            seq![s.last()]
        } else {
            Seq::empty()
        }
    }
}

/// Bytes hashed for a sequence of projectiles.
pub open spec fn projectiles_bytes(s: Seq<ProjectileRec>) -> Seq<u8>
    decreases s.len(),
{
    if s.len() == 0 {
        Seq::empty()
    } else {
        let p = s.last();
        projectiles_bytes(s.drop_last()) + i32_le(p.x.0) + i32_le(p.y.0) + i32_le(p.vx.0) + i32_le(p.vy.0)
            + seq![p.spell] + u16_le(p.life) + u32_le(p.energy) + seq![p.owner] + seq![p.grace] + seq![p.bounces]
    }
}


/// Every cell of `path` lies inside grid `g` of size `w x h` and is not hard.
pub open spec fn path_clear(g: spec_fn(int, int) -> Cell, w: int, h: int, t: Seq<MaterialDef>, path: Seq<(i32, i32)>) -> bool {
    forall|k: int|
        0 <= k < path.len() ==> in_grid(w, h, (#[trigger] path[k]).0 as int, path[k].1 as int) && !solid_spec(
            g(path[k].0 as int, path[k].1 as int),
            t,
            true,
        )
}

/// The vertical velocity after the spell's gravity.
pub open spec fn pulled_vy(p: ProjectileRec, spells: Seq<SpellDef>) -> Fx {
    Fx(wrap_i32(p.vy.0 + spells[p.spell as int].gravity.0))
}

/// Whether the projectile's flight this tick meets nothing: its displacement
/// stays in the coordinate range and every cell it enters, from its cell to
/// the end cell, is inside the world and not hard.
pub open spec fn flight_clear(p: ProjectileRec, spells: Seq<SpellDef>, g: spec_fn(int, int) -> Cell, w: int, h: int, t: Seq<MaterialDef>) -> bool {
    let vel = (p.vx, pulled_vy(p, spells));
    no_wrap((p.x, p.y), vel) && path_clear(g, w, h, t, walk_path((p.x, p.y), vel))
}

/// One projectile after one tick: gravity, then either the whole move with
/// one unit of life spent, or death (life zero) on the first cell outside
/// the world or hard; the self-hit grace counts down either way.
pub open spec fn flown(p: ProjectileRec, spells: Seq<SpellDef>, g: spec_fn(int, int) -> Cell, w: int, h: int, t: Seq<MaterialDef>) -> ProjectileRec {
    let vy = pulled_vy(p, spells);
    let grace = if p.grace > 0 { (p.grace - 1) as u8 } else { 0u8 };
    if flight_clear(p, spells, g, w, h, t) {
        ProjectileRec {
            x: Fx(wrap_i32(p.x.0 + p.vx.0)),
            y: Fx(wrap_i32(p.y.0 + vy.0)),
            vy,
            life: if p.life > 0 { (p.life - 1) as u16 } else { 0u16 },
            grace,
            ..p
        }
    } else {
        ProjectileRec { vy, life: 0, grace, ..p }
    }
}

/// Every projectile of `s` after one tick, in order.
pub open spec fn flown_all(
    s: Seq<ProjectileRec>,
    spells: Seq<SpellDef>,
    g: spec_fn(int, int) -> Cell,
    w: int,
    h: int,
    t: Seq<MaterialDef>,
) -> Seq<ProjectileRec> {
    Seq::new(s.len(), |i: int| flown(s[i], spells, g, w, h, t))
}

/// Every projectile names a spell of the table.
pub open spec fn spells_known(s: Seq<ProjectileRec>, n: int) -> bool {
    forall|i: int| 0 <= i < s.len() ==> ((#[trigger] s[i]).spell as int) < n
}

/// The live projectiles are some of the projectiles.
pub proof fn lemma_live_only_from(s: Seq<ProjectileRec>)
    ensures
        live_only(s).len() <= s.len(),
        forall|i: int| 0 <= i < live_only(s).len() ==> s.contains(#[trigger] live_only(s)[i]),
    decreases s.len(),
{
    if s.len() > 0 {
        let d = s.drop_last();
        lemma_live_only_from(d);
        let l = live_only(s);
        assert forall|i: int| 0 <= i < l.len() implies s.contains(#[trigger] l[i]) by {
            if i < live_only(d).len() {
                assert(l[i] == live_only(d)[i]);
                let j = choose|j: int| 0 <= j < d.len() && d[j] == live_only(d)[i];
                assert(s[j] == d[j]);
            } else {
                assert(l[i] == s.last());
                assert(s[s.len() - 1] == s.last());
            }
        }
    }
}

/// Whether the cells `walk` still visits are all inside the world and not hard.
fn walk_clear(world: &World, table: &MaterialTable, walk: CellWalk) -> (r: bool)
    requires
        world.wf(),
        world.mats_valid(table@.len() as int),
        walk.inv(),
    ensures
        r == path_clear(world.grid(), world.w(), world.h(), table@, walk_cells(walk)),
{
    let ghost start = walk;
    let mut w = walk;
    let ghost mut seen: Seq<(i32, i32)> = Seq::empty();
    loop
        invariant
            world.wf(),
            world.mats_valid(table@.len() as int),
            w.inv(),
            start == walk,
            seen + walk_cells(w) == walk_cells(start),
            path_clear(world.grid(), world.w(), world.h(), table@, seen),
        decreases w.measure(),
    {
        let ghost before = w;
        proof {
            if !w.done() {
                crate::dda::lemma_advance(w);
            }
        }
        match w.next() {
            None => {
                proof {
                    assert(seen =~= walk_cells(start));
                }
                return true;
            },
            Some((gx, gy)) => {
                let ok = world.in_bounds(gx, gy) && {
                    let c = world.cell(gx, gy);
                    !is_solid(c, table, true)
                };
                proof {
                    assert(walk_cells(start) =~= (seen + seq![(gx, gy)]) + walk_cells(w));
                    assert(walk_cells(start)[seen.len() as int] == (gx, gy));
                }
                if !ok {
                    proof {
                        let k = seen.len() as int;
                        assert(!(in_grid(world.w(), world.h(), walk_cells(start)[k].0 as int, walk_cells(start)[k].1 as int) && !solid_spec(
                            world.grid()(walk_cells(start)[k].0 as int, walk_cells(start)[k].1 as int),
                            table@,
                            true,
                        )));
                    }
                    return false;
                }
                proof {
                    let ns = seen + seq![(gx, gy)];
                    assert forall|k: int| 0 <= k < ns.len() implies in_grid(world.w(), world.h(), (#[trigger] ns[k]).0 as int, ns[k].1 as int)
                        && !solid_spec(world.grid()(ns[k].0 as int, ns[k].1 as int), table@, true) by {
                        if k < seen.len() {
                            assert(ns[k] == seen[k]);
                        }
                    }
                    seen = ns;
                }
            },
        }
    }
}

impl Projectiles {
    /// The columns have one common length, at most the capacity.
    pub closed spec fn wf(&self) -> bool {
        let n = self.x@.len();
        &&& self.y@.len() == n && self.vx@.len() == n && self.vy@.len() == n && self.spell@.len() == n
        &&& self.life@.len() == n && self.energy@.len() == n && self.owner@.len() == n
        &&& self.grace@.len() == n && self.bounces@.len() == n
        &&& n <= MAX_PROJECTILES
    }

    /// Spawns refused at capacity (diagnostic).
    pub closed spec fn rejected_spec(&self) -> u64 {
        self.rejected_total
    }

    pub fn new() -> (r: Projectiles)
        ensures
            r.wf(),
            r@.len() == 0,
            r.rejected_spec() == 0,
    {
        Projectiles {
            x: Vec::new(),
            y: Vec::new(),
            vx: Vec::new(),
            vy: Vec::new(),
            spell: Vec::new(),
            life: Vec::new(),
            energy: Vec::new(),
            owner: Vec::new(),
            grace: Vec::new(),
            bounces: Vec::new(),
            rejected_total: 0,
        }
    }

    pub fn len(&self) -> (r: usize)
        requires
            self.wf(),
        ensures
            r == self@.len(),
    {
        self.x.len()
    }

    pub fn is_empty(&self) -> (r: bool)
        requires
            self.wf(),
        ensures
            r == (self@.len() == 0),
    {
        self.x.len() == 0
    }

    pub fn x(&self, i: usize) -> (r: Fx)
        requires
            self.wf(),
            i < self@.len(),
        ensures
            r == self@[i as int].x,
    {
        self.x[i]
    }

    pub fn y(&self, i: usize) -> (r: Fx)
        requires
            self.wf(),
            i < self@.len(),
        ensures
            r == self@[i as int].y,
    {
        self.y[i]
    }

    pub fn vx(&self, i: usize) -> (r: Fx)
        requires
            self.wf(),
            i < self@.len(),
        ensures
            r == self@[i as int].vx,
    {
        self.vx[i]
    }

    pub fn vy(&self, i: usize) -> (r: Fx)
        requires
            self.wf(),
            i < self@.len(),
        ensures
            r == self@[i as int].vy,
    {
        self.vy[i]
    }

    pub fn spell(&self, i: usize) -> (r: u8)
        requires
            self.wf(),
            i < self@.len(),
        ensures
            r == self@[i as int].spell,
    {
        self.spell[i]
    }

    pub fn life(&self, i: usize) -> (r: u16)
        requires
            self.wf(),
            i < self@.len(),
        ensures
            r == self@[i as int].life,
    {
        self.life[i]
    }

    pub fn energy(&self, i: usize) -> (r: u32)
        requires
            self.wf(),
            i < self@.len(),
        ensures
            r == self@[i as int].energy,
    {
        self.energy[i]
    }

    pub fn owner(&self, i: usize) -> (r: u8)
        requires
            self.wf(),
            i < self@.len(),
        ensures
            r == self@[i as int].owner,
    {
        self.owner[i]
    }

    pub fn bounces(&self, i: usize) -> (r: u8)
        requires
            self.wf(),
            i < self@.len(),
        ensures
            r == self@[i as int].bounces,
    {
        self.bounces[i]
    }

    /// Spawns refused at capacity (diagnostic, not hashed).
    pub fn rejected_total(&self) -> (r: u64)
        ensures
            r == self.rejected_spec(),
    {
        self.rejected_total
    }

    /// Append a projectile; at capacity the spawn is refused and counted.
    pub fn spawn(
        &mut self,
        spell: u8,
        x: Fx,
        y: Fx,
        vx: Fx,
        vy: Fx,
        life: u16,
        energy: u32,
        owner: u8,
        grace: u8,
        bounces: u8,
    ) -> (r: bool)
        requires
            old(self).wf(),
            old(self).rejected_spec() < u64::MAX,
        ensures
            final(self).wf(),
            r == (old(self)@.len() < MAX_PROJECTILES),
            r ==> final(self)@ == old(self)@.push(
                ProjectileRec { x, y, vx, vy, spell, life, energy, owner, grace, bounces },
            ) && final(self).rejected_spec() == old(self).rejected_spec(),
            !r ==> final(self)@ == old(self)@ && final(self).rejected_spec() == old(self).rejected_spec() + 1,
    {
        if self.x.len() >= MAX_PROJECTILES {
            self.rejected_total = self.rejected_total + 1;
            return false;
        }
        let ghost v0 = self@;
        self.x.push(x);
        self.y.push(y);
        self.vx.push(vx);
        self.vy.push(vy);
        self.spell.push(spell);
        self.life.push(life);
        self.energy.push(energy);
        self.owner.push(owner);
        self.grace.push(grace);
        self.bounces.push(bounces);
        proof {
            assert(self@ =~= v0.push(ProjectileRec { x, y, vx, vy, spell, life, energy, owner, grace, bounces }));
        }
        true
    }

    /// The projectile phase of a tick, in id order: each projectile takes
    /// its spell's gravity, walks the cells toward its end position, and
    /// either moves the whole way (one unit of life spent) or dies on the
    /// first cell outside the world or hard (a bolt that hits a wall only
    /// disappears); the dead are then removed, keeping the order of the rest.
    pub fn advance(&mut self, world: &World, table: &MaterialTable, spells: &SpellTable)
        requires
            old(self).wf(),
            world.wf(),
            world.mats_valid(table@.len() as int),
            spells_known(old(self)@, spells@.len() as int),
        ensures
            final(self).wf(),
            final(self)@ == live_only(flown_all(old(self)@, spells@, world.grid(), world.w(), world.h(), table@)),
            exists|idx: Seq<int>| flew_from(old(self)@, final(self)@, spells@, idx),
            final(self).rejected_spec() == old(self).rejected_spec(),
            spells_known(final(self)@, spells@.len() as int),
    {
        let ghost v0 = self@;
        let ghost target = flown_all(v0, spells@, world.grid(), world.w(), world.h(), table@);
        let n = self.x.len();
        let mut i: usize = 0;
        while i < n
            invariant
                self.wf(),
                world.wf(),
                world.mats_valid(table@.len() as int),
                n == v0.len(),
                n == self@.len(),
                i <= n,
                spells_known(v0, spells@.len() as int),
                target == flown_all(v0, spells@, world.grid(), world.w(), world.h(), table@),
                self.rejected_total == old(self).rejected_total,
                forall|j: int| 0 <= j < i ==> #[trigger] self@[j] == target[j],
                forall|j: int| i <= j < n ==> #[trigger] self@[j] == v0[j],
            decreases n - i,
        {
            let ghost before = self@;
            proof {
                assert(self@[i as int] == v0[i as int]);
                assert((v0[i as int].spell as int) < spells@.len());
            }
            let s = spells.get(self.spell[i]);
            let vy = self.vy[i] + s.gravity;
            let (x, y, vx) = (self.x[i], self.y[i], self.vx[i]);
            let ex: i64 = x.0 as i64 + vx.0 as i64;
            let ey: i64 = y.0 as i64 + vy.0 as i64;
            let fits = i32::MIN as i64 <= ex && ex <= i32::MAX as i64 && i32::MIN as i64 <= ey && ey <= i32::MAX as i64;
            let alive = fits && walk_clear(world, table, CellWalk::new((x, y), (vx, vy)));
            self.vy.set(i, vy);
            if alive {
                self.x.set(i, x + vx);
                self.y.set(i, y + vy);
                let l = self.life[i];
                self.life.set(i, if l > 0 { l - 1 } else { 0 });
            } else {
                self.life.set(i, 0);
            }
            let g = self.grace[i];
            self.grace.set(i, if g > 0 { g - 1 } else { 0 });
            proof {
                assert(alive == flight_clear(v0[i as int], spells@, world.grid(), world.w(), world.h(), table@));
                assert(self@[i as int] == target[i as int]);
                assert forall|j: int| 0 <= j < n && j != i implies #[trigger] self@[j] == before[j] by {}
            }
            i = i + 1;
        }
        proof {
            assert(self@ =~= target);
        }
        self.compact();
        proof {
            lemma_advance_flight_law(v0, spells@, world.grid(), world.w(), world.h(), table@);
            lemma_live_only_from(target);
            let l = self@;
            assert forall|k: int| 0 <= k < l.len() implies ((#[trigger] l[k]).spell as int) < spells@.len() by {
                let j = choose|j: int| 0 <= j < target.len() && target[j] == l[k];
                assert(target[j].spell == v0[j].spell);
            }
        }
    }

    /// Remove the dead projectiles (life zero), keeping the order of the rest.
    pub fn compact(&mut self)
        requires
            old(self).wf(),
        ensures
            final(self).wf(),
            final(self)@ == live_only(old(self)@),
            final(self).rejected_spec() == old(self).rejected_spec(),
    {
        let ghost v0 = self@;
        let n = self.life.len();
        let mut w: usize = 0;
        let mut r: usize = 0;
        while r < n
            invariant
                n == v0.len(),
                w <= r <= n,
                self.x@.len() == n && self.y@.len() == n && self.vx@.len() == n && self.vy@.len() == n
                    && self.spell@.len() == n && self.life@.len() == n && self.energy@.len() == n
                    && self.owner@.len() == n && self.grace@.len() == n && self.bounces@.len() == n,
                n <= MAX_PROJECTILES,
                self.rejected_total == old(self).rejected_total,
                self@.subrange(0, w as int) == live_only(v0.subrange(0, r as int)),
                live_only(v0.subrange(0, r as int)).len() == w,
                forall|j: int| r <= j < n ==> #[trigger] self@[j] == v0[j],
            decreases n - r,
        {
            proof {
                assert(v0.subrange(0, r as int + 1).drop_last() =~= v0.subrange(0, r as int));
                assert(self@[r as int] == v0[r as int]);
            }
            let ghost before = self@;
            if self.life[r] > 0 {
                if w != r {
                    let (a, b, c, d) = (self.x[r], self.y[r], self.vx[r], self.vy[r]);
                    let (e, f, g, h) = (self.spell[r], self.life[r], self.energy[r], self.owner[r]);
                    let (k, m) = (self.grace[r], self.bounces[r]);
                    self.x.set(w, a);
                    self.y.set(w, b);
                    self.vx.set(w, c);
                    self.vy.set(w, d);
                    self.spell.set(w, e);
                    self.life.set(w, f);
                    self.energy.set(w, g);
                    self.owner.set(w, h);
                    self.grace.set(w, k);
                    self.bounces.set(w, m);
                }
                proof {
                    assert(self@.subrange(0, w as int + 1) =~= live_only(v0.subrange(0, r as int + 1)));
                    assert forall|j: int| r + 1 <= j < n implies #[trigger] self@[j] == v0[j] by {
                        assert(self@[j] == before[j]);
                    }
                }
                w += 1;
            } else {
                proof {
                    assert(live_only(v0.subrange(0, r as int + 1)) =~= live_only(v0.subrange(0, r as int)));
                }
            }
            r += 1;
        }
        self.x.truncate(w);
        self.y.truncate(w);
        self.vx.truncate(w);
        self.vy.truncate(w);
        self.spell.truncate(w);
        self.life.truncate(w);
        self.energy.truncate(w);
        self.owner.truncate(w);
        self.grace.truncate(w);
        self.bounces.truncate(w);
        proof {
            assert(v0.subrange(0, n as int) =~= v0);
            assert(self@ =~= live_only(v0));
        }
    }

    /// Hash of the projectile layer: zero when empty (so that an empty layer
    /// leaves older state hashes unchanged), else every projectile's fields
    /// in id order followed by the count.
    pub fn hash_into(&self) -> (r: u64)
        requires
            self.wf(),
        ensures
            self@.len() == 0 ==> r == 0,
            self@.len() > 0 ==> r == xxh3_64_spec(projectiles_bytes(self@) + u64_le(self@.len() as u64)),
    {
        if self.x.len() == 0 {
            return 0;
        }
        let mut bytes: Vec<u8> = Vec::new();
        let mut i: usize = 0;
        while i < self.x.len()
            invariant
                self.wf(),
                i <= self@.len(),
                bytes@ == projectiles_bytes(self@.subrange(0, i as int)),
            decreases self@.len() - i,
        {
            push_u32_le(&mut bytes, self.x[i].0 as u32);
            push_u32_le(&mut bytes, self.y[i].0 as u32);
            push_u32_le(&mut bytes, self.vx[i].0 as u32);
            push_u32_le(&mut bytes, self.vy[i].0 as u32);
            bytes.push(self.spell[i]);
            push_u16_le(&mut bytes, self.life[i]);
            push_u32_le(&mut bytes, self.energy[i]);
            bytes.push(self.owner[i]);
            bytes.push(self.grace[i]);
            bytes.push(self.bounces[i]);
            proof {
                assert(self@.subrange(0, i as int + 1).drop_last() =~= self@.subrange(0, i as int));
                assert(bytes@ =~= projectiles_bytes(self@.subrange(0, i as int + 1)));
            }
            i += 1;
        }
        proof {
            assert(self@.subrange(0, self@.len() as int) =~= self@);
        }
        push_u64_le(&mut bytes, self.x.len() as u64);
        xxh3_64_bytes(bytes.as_slice())
    }
}

impl Default for Projectiles {
    fn default() -> (r: Projectiles)
        ensures
            r.wf(),
            r@.len() == 0,
            r.rejected_spec() == 0,
    {
        Projectiles::new()
    }
}

/// `q` is what projectile `p` became in a tick in which it flew on: the
/// spell's gravity added to its vertical speed, both speeds added to its
/// position, one unit of life spent and some left, the self-hit grace
/// counted down, the rest unchanged (all sums wrap as `i32`).
pub open spec fn flew_on(p: ProjectileRec, q: ProjectileRec, spells: Seq<SpellDef>) -> bool {
    &&& q.vy.0 == wrap_i32(p.vy.0 + spells[p.spell as int].gravity.0)
    &&& q.y.0 == wrap_i32(p.y.0 + q.vy.0)
    &&& q.x.0 == wrap_i32(p.x.0 + p.vx.0)
    &&& q.vx == p.vx
    &&& q.life > 0
    &&& q.life + 1 == p.life
    &&& q.grace == (if p.grace > 0 { p.grace - 1 } else { 0 })
    &&& q.spell == p.spell
    &&& q.energy == p.energy
    &&& q.owner == p.owner
    &&& q.bounces == p.bounces
}

/// `idx` picks, in increasing order, for each projectile of `r` the one of
/// `s` that it flew on from.
pub open spec fn flew_from(s: Seq<ProjectileRec>, r: Seq<ProjectileRec>, spells: Seq<SpellDef>, idx: Seq<int>) -> bool {
    &&& idx.len() == r.len()
    &&& forall|k: int| 0 <= k < idx.len() ==> 0 <= #[trigger] idx[k] < s.len()
    &&& forall|a: int, b: int| 0 <= a < b < idx.len() ==> #[trigger] idx[a] < #[trigger] idx[b]
    &&& forall|k: int| 0 <= k < r.len() ==> flew_on(s[idx[k]], #[trigger] r[k], spells)
}

/// Each live record of `f` is what the record of `s` at its place flew on to.
proof fn lemma_flew_from_live(s: Seq<ProjectileRec>, f: Seq<ProjectileRec>, spells: Seq<SpellDef>)
    requires
        f.len() == s.len(),
        forall|i: int| 0 <= i < f.len() && (#[trigger] f[i]).life > 0 ==> flew_on(s[i], f[i], spells),
    ensures
        exists|idx: Seq<int>| flew_from(s, live_only(f), spells, idx) && forall|k: int| 0 <= k < idx.len() ==> #[trigger] idx[k] < f.len(),
    decreases f.len(),
{
    if f.len() == 0 {
        assert(flew_from(s, live_only(f), spells, Seq::<int>::empty()));
    } else {
        let sd = s.drop_last();
        let fd = f.drop_last();
        assert forall|i: int| 0 <= i < fd.len() && (#[trigger] fd[i]).life > 0 implies flew_on(sd[i], fd[i], spells) by {
            assert(fd[i] == f[i]);
        }
        lemma_flew_from_live(sd, fd, spells);
        let idx0 = choose|idx: Seq<int>| flew_from(sd, live_only(fd), spells, idx) && forall|k: int| 0 <= k < idx.len() ==> #[trigger] idx[k] < fd.len();
        let n = f.len() - 1;
        let r = live_only(f);
        let r0 = live_only(fd);
        let idx = if f.last().life > 0 { idx0.push(n) } else { idx0 };
        assert(f[n] == f.last());
        assert forall|k: int| 0 <= k < r.len() implies flew_on(s[idx[k]], #[trigger] r[k], spells) by {
            if k < r0.len() {
                assert(r[k] == r0[k]);
                assert(idx[k] == idx0[k]);
                assert(s[idx[k]] == sd[idx0[k]]);
            } else {
                assert(r[k] == f.last());
                assert(idx[k] == n);
            }
        }
        assert(flew_from(s, r, spells, idx));
    }
}

/// Law of flight: after a tick, the projectiles left are, in their old
/// order, some of the projectiles before it, each moved on by one tick:
/// its vertical speed is the old one plus its spell's gravity, its height
/// the old height plus that new speed, its column the old column plus its
/// horizontal speed, with one unit of life spent.
pub proof fn lemma_advance_flight_law(
    s: Seq<ProjectileRec>,
    spells: Seq<SpellDef>,
    g: spec_fn(int, int) -> Cell,
    w: int,
    h: int,
    t: Seq<MaterialDef>,
)
    requires
        spells_known(s, spells.len() as int),
    ensures
        exists|idx: Seq<int>| flew_from(s, live_only(flown_all(s, spells, g, w, h, t)), spells, idx),
{
    let f = flown_all(s, spells, g, w, h, t);
    assert forall|i: int| 0 <= i < f.len() && (#[trigger] f[i]).life > 0 implies flew_on(s[i], f[i], spells) by {
        let p = s[i];
        assert(f[i] == flown(p, spells, g, w, h, t));
        assert(flight_clear(p, spells, g, w, h, t));
    }
    lemma_flew_from_live(s, f, spells);
}

} // verus!
