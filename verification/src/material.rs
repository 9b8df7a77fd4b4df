//! The material table: per-material constants, loaded and validated once.
//! Ids are declared explicitly; the table is indexed by id.

use vstd::prelude::*;

use crate::cell::Cell;

verus! {

/// The two ids the core depends on.
pub const MAT_AIR: u8 = 0;
pub const MAT_WALL: u8 = 1;

/// Upper bound of a liquid's per-tick sideways spread (cells).
pub const DISPERSION_MAX: u8 = 8;

#[derive(Clone, Copy, PartialEq, Eq, Structural, Debug)]
pub enum Category {
    Static,
    Powder,
    Liquid,
    Gas,
}

#[derive(Debug)]
pub struct MaterialDef {
    pub id: u8,
    pub name: String,
    pub category: Category,
    pub density: u16,
    pub color: (u8, u8, u8),
    /// Energy an explosion ray spends to destroy one cell of this material.
    pub hp: u32,
    /// Destruction threshold (kept for the data format; the ray uses `hp`).
    pub durability: u8,
    /// Near-centre vaporisation threshold, quantised to `0..=255` (255 = never).
    pub vaporize_threshold: u8,
    /// A liquid's per-tick sideways spread, in cells.
    pub dispersion: u8,
    /// Impact splash probability, quantised to `0..=255`.
    pub splash_chance: u8,
    /// Reaction tags (read by the loader only).
    pub tags: Vec<String>,
    pub ignition_temp: u8,
    pub fire_temp: u8,
    /// Initial fuel when lit; 0 = not flammable.
    pub fire_hp: u8,
    /// Initial lifetime at birth; 0 = none.
    pub lifetime: u8,
    /// Material the cell turns into when its counter runs out.
    pub decay_to: u8,
    pub requires_oxygen: bool,
    pub extinguisher: bool,
    /// Flame generation probability, quantised to `0..=255`.
    pub fire_chance: u8,
}

impl Clone for MaterialDef {
    fn clone(&self) -> (r: MaterialDef)
        ensures
            r.id == self.id,
            r.name@ == self.name@,
            r.category == self.category,
            r.density == self.density,
            r.color == self.color,
            r.hp == self.hp,
            r.durability == self.durability,
            r.vaporize_threshold == self.vaporize_threshold,
            r.dispersion == self.dispersion,
            r.splash_chance == self.splash_chance,
            r.tags@.len() == self.tags@.len(),
            r.ignition_temp == self.ignition_temp,
            r.fire_temp == self.fire_temp,
            r.fire_hp == self.fire_hp,
            r.lifetime == self.lifetime,
            r.decay_to == self.decay_to,
            r.requires_oxygen == self.requires_oxygen,
            r.extinguisher == self.extinguisher,
            r.fire_chance == self.fire_chance,
    {
        let (cr, cg, cb) = self.color;
        MaterialDef {
            id: self.id,
            name: self.name.clone(),
            category: self.category,
            density: self.density,
            color: (cr, cg, cb),
            hp: self.hp,
            durability: self.durability,
            vaporize_threshold: self.vaporize_threshold,
            dispersion: self.dispersion,
            splash_chance: self.splash_chance,
            tags: self.tags.clone(),
            ignition_temp: self.ignition_temp,
            fire_temp: self.fire_temp,
            fire_hp: self.fire_hp,
            lifetime: self.lifetime,
            decay_to: self.decay_to,
            requires_oxygen: self.requires_oxygen,
            extinguisher: self.extinguisher,
            fire_chance: self.fire_chance,
        }
    }
}

/// The name of the air material.
pub open spec fn air_name() -> Seq<char> {
    seq!['a', 'i', 'r']
}

/// The name of the wall material.
pub open spec fn wall_name() -> Seq<char> {
    seq!['w', 'a', 'l', 'l']
}

impl MaterialDef {
    /// The defaults of every field but the four identity parameters.
    pub fn base(id: u8, name: &str, category: Category, density: u16) -> (r: MaterialDef)
        ensures
            r.id == id,
            r.name@ == name@,
            r.category == category,
            r.density == density,
            r.color == (0u8, 0u8, 0u8),
            r.hp == 1,
            r.durability == 0,
            r.vaporize_threshold == 255,
            r.dispersion == 1,
            r.splash_chance == 0,
            r.tags@.len() == 0,
            r.ignition_temp == 100,
            r.fire_temp == 10,
            r.fire_hp == 0,
            r.lifetime == 0,
            r.decay_to == MAT_AIR,
            r.requires_oxygen,
            !r.extinguisher,
            r.fire_chance == 0,
    {
        MaterialDef {
            id,
            name: name.to_owned(),
            category,
            density,
            color: (0, 0, 0),
            hp: 1,
            durability: 0,
            vaporize_threshold: 255,
            dispersion: 1,
            splash_chance: 0,
            tags: Vec::new(),
            ignition_temp: 100,
            fire_temp: 10,
            fire_hp: 0,
            lifetime: 0,
            decay_to: MAT_AIR,
            requires_oxygen: true,
            extinguisher: false,
            fire_chance: 0,
        }
    }
}

/// The ids of `defs` are exactly `0..defs.len()`, each once.
pub open spec fn ids_are_permutation(defs: Seq<MaterialDef>) -> bool {
    &&& forall|j: int| 0 <= j < defs.len() ==> (#[trigger] defs[j].id) < defs.len()
    &&& forall|j: int, k: int|
        0 <= j < k < defs.len() ==> #[trigger] defs[j].id != #[trigger] defs[k].id
}

/// Some definition of `defs` has id `i`.
pub open spec fn has_id(defs: Seq<MaterialDef>, i: int) -> bool {
    exists|a: int| 0 <= a < defs.len() && defs[a].id == i
}

/// Validity of a table already ordered by id.
pub open spec fn table_valid(defs: Seq<MaterialDef>) -> bool {
    &&& defs.len() >= 2
    &&& defs.len() <= 256
    &&& forall|i: int| 0 <= i < defs.len() ==> (#[trigger] defs[i]).id == i
    &&& defs[0].name@ == air_name() && defs[0].category == Category::Static
    &&& defs[1].name@ == wall_name() && defs[1].category == Category::Static
    &&& forall|i: int| 0 <= i < defs.len() ==> !((#[trigger] defs[i]).fire_hp > 0 && defs[i].lifetime > 0)
    &&& forall|i: int| 0 <= i < defs.len() ==> ((#[trigger] defs[i]).decay_to as int) < defs.len()
}

/// The definitions of `defs` ordered by id, when the ids are a permutation.
pub open spec fn ordered_by_id(defs: Seq<MaterialDef>, out: Seq<MaterialDef>) -> bool {
    &&& out.len() == defs.len()
    &&& forall|i: int| 0 <= i < out.len() ==> (#[trigger] out[i]).id == i && defs.contains(out[i])
}

/// Whether the definitions, ordered by id, make a valid table.
pub open spec fn defs_acceptable(defs: Seq<MaterialDef>) -> bool {
    &&& ids_are_permutation(defs)
    &&& defs.len() >= 2
    &&& forall|j: int| 0 <= j < defs.len() && (#[trigger] defs[j]).id == MAT_AIR ==> defs[j].name@
        == air_name() && defs[j].category == Category::Static
    &&& forall|j: int| 0 <= j < defs.len() && (#[trigger] defs[j]).id == MAT_WALL ==> defs[j].name@
        == wall_name() && defs[j].category == Category::Static
    &&& forall|j: int| 0 <= j < defs.len() ==> !((#[trigger] defs[j]).fire_hp > 0 && defs[j].lifetime > 0)
    &&& forall|j: int| 0 <= j < defs.len() ==> ((#[trigger] defs[j]).decay_to as int) < defs.len()
}

#[derive(Debug)]
pub struct MaterialTable {
    defs: Vec<MaterialDef>,
}

impl Clone for MaterialTable {
    fn clone(&self) -> (r: MaterialTable)
        ensures
            r@.len() == self@.len(),
            forall|i: int| 0 <= i < self@.len() ==> #[trigger] r@[i].id == self@[i].id && r@[i].name@
                == self@[i].name@ && r@[i].category == self@[i].category && r@[i].density
                == self@[i].density && r@[i].hp == self@[i].hp && r@[i].vaporize_threshold
                == self@[i].vaporize_threshold && r@[i].dispersion == self@[i].dispersion
                && r@[i].decay_to == self@[i].decay_to,
    {
        proof { use_type_invariant(self); }
        let mut defs: Vec<MaterialDef> = Vec::new();
        let mut i: usize = 0;
        while i < self.defs.len()
            invariant
                i <= self.defs@.len(),
                table_valid(self.defs@),
                defs@.len() == i,
                forall|k: int| 0 <= k < i ==> {
                    let (a, b) = (#[trigger] defs@[k], self.defs@[k]);
                    &&& a.id == b.id && a.name@ == b.name@ && a.category == b.category
                    &&& a.density == b.density && a.hp == b.hp && a.fire_hp == b.fire_hp
                    &&& a.lifetime == b.lifetime && a.decay_to == b.decay_to
                    &&& a.vaporize_threshold == b.vaporize_threshold && a.dispersion == b.dispersion
                },
            decreases self.defs@.len() - i,
        {
            defs.push(self.defs[i].clone());
            i += 1;
        }
        MaterialTable { defs }
    }
}

impl View for MaterialTable {
    type V = Seq<MaterialDef>;

    closed spec fn view(&self) -> Seq<MaterialDef> {
        self.defs@
    }
}

impl MaterialTable {
    #[verifier::type_invariant]
    closed spec fn inv(self) -> bool {
        table_valid(self.defs@)
    }

    /// Number of materials (as a spec value).
    pub open spec fn n(&self) -> nat {
        self@.len()
    }

    /// Category of material `id`.
    pub open spec fn cat(&self, id: u8) -> Category {
        self@[id as int].category
    }

    /// Build a table from definitions in any order. Accepted iff the ids are
    /// exactly `0..n` (each once), id 0 is the Static "air", id 1 the Static
    /// "wall", no material declares both `fire_hp` and `lifetime`, and every
    /// `decay_to` is a valid id. The table lists the definitions ordered by id.
    pub fn new(defs: Vec<MaterialDef>) -> (r: Result<MaterialTable, String>)
        ensures
            r.is_ok() <==> defs_acceptable(defs@),
            r matches Ok(t) ==> ordered_by_id(defs@, t@),
    {
        let n = defs.len();
        let ghost orig = defs@;
        // Ids must be a permutation of 0..n.
        let mut seen: Vec<bool> = Vec::new();
        let mut k: usize = 0;
        while k < n
            invariant
                k <= n,
                n == defs.len(),
                seen@.len() == k,
                forall|i: int| 0 <= i < k ==> !seen@[i],
            decreases n - k,
        {
            seen.push(false);
            k += 1;
        }
        let mut j: usize = 0;
        while j < n
            invariant
                j <= n,
                n == defs.len(),
                defs@ == orig,
                seen@.len() == n,
                forall|a: int| 0 <= a < j ==> (#[trigger] orig[a].id) < n,
                forall|a: int, b: int| 0 <= a < b < j ==> #[trigger] orig[a].id != #[trigger] orig[b].id,
                forall|i: int|
                    0 <= i < n ==> (#[trigger] seen@[i] <==> exists|a: int| 0 <= a < j && orig[a].id == i),
            decreases n - j,
        {
            let id = defs[j].id;
            if (id as usize) >= n || seen[id as usize] {
                proof {
                    if (id as usize) < n {
                        let a = choose|a: int| 0 <= a < j && orig[a].id == id;
                        assert(orig[a].id == orig[j as int].id);
                    }
                }
                return Err("material ids must run from 0 without gaps or repeats".to_owned());
            }
            seen.set(id as usize, true);
            j += 1;
        }
        if n < 2 {
            return Err("the table must hold air (id 0) and wall (id 1)".to_owned());
        }
        // Order by id: move each definition into the slot of its id.
        let mut slots: Vec<Option<MaterialDef>> = Vec::new();
        let mut k2: usize = 0;
        while k2 < n
            invariant
                k2 <= n,
                slots@.len() == k2,
                forall|i: int| 0 <= i < k2 ==> slots@[i].is_none(),
            decreases n - k2,
        {
            slots.push(None);
            k2 += 1;
        }
        proof { lemma_ids_surjective(orig); }
        let mut src = defs;
        proof {
            assert(src@ =~= orig.take(n as int));
            assert forall|i: int| 0 <= i < n implies (slots@[i].is_none() <==> #[trigger] has_id(src@, i)) by {
                assert(has_id(orig, i));
            }
        }
        while src.len() > 0
            invariant
                ids_are_permutation(orig),
                orig.len() == n,
                src@.len() <= n,
                slots@.len() == n,
                src@ == orig.take(src@.len() as int),
                forall|i: int|
                    0 <= i < n ==> (#[trigger] slots@[i] matches Some(d) ==> d.id == i && orig.contains(d)),
                forall|i: int| 0 <= i < n ==> (slots@[i].is_none() <==> #[trigger] has_id(src@, i)),
            decreases src@.len(),
        {
            let ghost len0 = src@.len();
            let ghost before = src@;
            let d = src.pop().unwrap();
            proof {
                assert(before == orig.take(len0 as int));
                assert(before.last() == orig[len0 - 1]);
                assert(d == orig[len0 - 1]);
                assert(src@ =~= orig.take(len0 - 1));
            }
            let id = d.id as usize;
            proof {
                assert(orig.contains(d)) by {
                    assert(orig[len0 - 1] == d);
                }
                assert forall|i: int| 0 <= i < n implies (slots@[i].is_none() && i != id <==> #[trigger] has_id(src@, i)) by {
                    if slots@[i].is_none() && i != id {
                        assert(has_id(before, i));
                        let a = choose|a: int| 0 <= a < len0 && before[a].id == i;
                        assert(a != len0 - 1);
                        assert(src@[a] == before[a]);
                    }
                    if has_id(src@, i) {
                        let a = choose|a: int| 0 <= a < src@.len() && src@[a].id == i;
                        assert(src@[a] == orig[a]);
                        assert(orig[a].id != orig[len0 - 1].id);
                        assert(before[a] == orig[a]);
                        assert(has_id(before, i));
                    }
                }
            }
            slots.set(id, Some(d));
        }
        proof {
            assert forall|i: int| 0 <= i < n implies slots@[i].is_some() by {
                assert(!has_id(src@, i));
            }
        }
        let mut out: Vec<MaterialDef> = Vec::new();
        let mut slots2 = slots;
        let ghost full = slots2@;
        let mut m: usize = 0;
        while m < n
            invariant
                m <= n,
                full.len() == n,
                slots2@.len() == n,
                out@.len() == m,
                forall|i: int| m <= i < n ==> slots2@[i] == full[i],
                forall|i: int| 0 <= i < n ==> ((#[trigger] full[i]) matches Some(d) && d.id == i && orig.contains(d)),
                forall|i: int| 0 <= i < m ==> full[i] == Some(#[trigger] out@[i]),
            decreases n - m,
        {
            let mut tmp: Option<MaterialDef> = None;
            let slot = slots2.set_and_swap(m, &mut tmp);
            proof { assert(tmp == full[m as int]); }
            out.push(tmp.unwrap());
            m += 1;
        }
        let ghost outv = out@;
        proof {
            assert(ordered_by_id(orig, outv));
        }
        // Sentinels.
        let air = "air".to_owned();
        let wall = "wall".to_owned();
        proof {
            reveal_strlit("air");
            reveal_strlit("wall");
            assert(air@ =~= air_name());
            assert(wall@ =~= wall_name());
        }
        if !(out[0].name == air) || !(out[0].category == Category::Static) {
            proof {
                assert(orig.contains(outv[0]));
                let j = choose|j: int| 0 <= j < orig.len() && orig[j] == outv[0];
                assert(orig[j].id == MAT_AIR);
            }
            return Err("id 0 must be the Static material 'air'".to_owned());
        }
        if !(out[1].name == wall) || !(out[1].category == Category::Static) {
            proof {
                assert(orig.contains(outv[1]));
                let j = choose|j: int| 0 <= j < orig.len() && orig[j] == outv[1];
                assert(orig[j].id == MAT_WALL);
            }
            return Err("id 1 must be the Static material 'wall'".to_owned());
        }
        let mut c: usize = 0;
        #[verifier::loop_isolation(false)]
        while c < n
            invariant
                c <= n,
                out@ == outv,
                outv.len() == n,
                ordered_by_id(orig, outv),
                forall|i: int| 0 <= i < c ==> !((#[trigger] outv[i]).fire_hp > 0 && outv[i].lifetime > 0),
                forall|i: int| 0 <= i < c ==> ((#[trigger] outv[i]).decay_to as int) < n,
            decreases n - c,
        {
            if out[c].fire_hp > 0 && out[c].lifetime > 0 {
                proof {
                    assert(orig.contains(outv[c as int]));
                    let j = choose|j: int| 0 <= j < orig.len() && orig[j] == outv[c as int];
                    assert(orig[j].fire_hp > 0 && orig[j].lifetime > 0);
                    assert(!defs_acceptable(orig));
                }
                return Err("a material declares both fire_hp and lifetime".to_owned());
            }
            if (out[c].decay_to as usize) >= n {
                proof {
                    assert(orig.contains(outv[c as int]));
                    let j = choose|j: int| 0 <= j < orig.len() && orig[j] == outv[c as int];
                    assert(orig[j].decay_to >= orig.len());
                    assert(!defs_acceptable(orig));
                }
                return Err("a material's decay_to is out of range".to_owned());
            }
            c += 1;
        }
        proof {
            lemma_ordered_acceptable(orig, outv);
        }
        Ok(MaterialTable { defs: out })
    }
}

/// Distinct ids in `0..n` taken by `n` definitions cover all of `0..n`.
proof fn lemma_ids_surjective(orig: Seq<MaterialDef>)
    requires
        ids_are_permutation(orig),
    ensures
        forall|i: int| 0 <= i < orig.len() ==> #[trigger] has_id(orig, i),
{
    let n = orig.len() as int;
    let ids = orig.map_values(|d: MaterialDef| d.id as int);
    assert(ids.no_duplicates()) by {
        assert forall|i: int, j: int| 0 <= i < ids.len() && 0 <= j < ids.len() && i != j implies ids[i] != ids[j] by {
            if i < j {
                assert(orig[i].id != orig[j].id);
            } else {
                assert(orig[j].id != orig[i].id);
            }
        }
    }
    ids.unique_seq_to_set();
    let range = vstd::set_lib::set_int_range(0, n);
    vstd::set_lib::lemma_int_range(0, n);
    assert(ids.to_set().subset_of(range)) by {
        assert forall|v: int| ids.to_set().contains(v) implies range.contains(v) by {
            let k = choose|k: int| 0 <= k < ids.len() && ids[k] == v;
            assert(orig[k].id < n);
        }
    }
    ids.lemma_cardinality_of_set();
    assert(ids.to_set().finite()) by {
        vstd::set_lib::lemma_set_subset_finite(range, ids.to_set());
    }
    vstd::set_lib::lemma_subset_equality(ids.to_set(), range);
    assert forall|i: int| 0 <= i < orig.len() implies #[trigger] has_id(orig, i) by {
        assert(range.contains(i));
        assert(ids.to_set().contains(i));
        let k = choose|k: int| 0 <= k < ids.len() && ids[k] == i;
        assert(orig[k].id == i);
    }
}

/// When the definitions are ordered by id and their ids are a permutation,
/// each input definition sits at the slot of its id.
proof fn lemma_ordered_slot(orig: Seq<MaterialDef>, outv: Seq<MaterialDef>, j: int)
    requires
        ordered_by_id(orig, outv),
        ids_are_permutation(orig),
        0 <= j < orig.len(),
    ensures
        outv[orig[j].id as int] == orig[j],
{
    let i = orig[j].id as int;
    assert(orig.contains(outv[i]));
    let k = choose|k: int| 0 <= k < orig.len() && orig[k] == outv[i];
    if k != j {
        if k < j {
            assert(orig[k].id != orig[j].id);
        } else {
            assert(orig[j].id != orig[k].id);
        }
    }
}

proof fn lemma_ordered_acceptable(orig: Seq<MaterialDef>, outv: Seq<MaterialDef>)
    requires
        ordered_by_id(orig, outv),
        ids_are_permutation(orig),
        outv.len() >= 2,
        outv[0].name@ == air_name() && outv[0].category == Category::Static,
        outv[1].name@ == wall_name() && outv[1].category == Category::Static,
        forall|i: int| 0 <= i < outv.len() ==> !((#[trigger] outv[i]).fire_hp > 0 && outv[i].lifetime > 0),
        forall|i: int| 0 <= i < outv.len() ==> ((#[trigger] outv[i]).decay_to as int) < outv.len(),
    ensures
        defs_acceptable(orig),
        table_valid(outv),
{
    assert forall|j: int| 0 <= j < orig.len() implies (#[trigger] orig[j]) == outv[orig[j].id as int] by {
        lemma_ordered_slot(orig, outv, j);
    }
    assert(outv.len() <= 256) by {
        if outv.len() > 256 {
            assert(outv[256].id == 256);
        }
    }
}

impl MaterialTable {
    pub fn id_by_name(&self, name: &str) -> (r: Option<u8>)
        ensures
            r matches Some(id) ==> (id as int) < self@.len() && self@[id as int].name@ == name@
                && forall|i: int| 0 <= i < id ==> (#[trigger] self@[i]).name@ != name@,
            r is None ==> forall|i: int| 0 <= i < self@.len() ==> (#[trigger] self@[i]).name@ != name@,
    {
        proof { use_type_invariant(self); }
        let key = name.to_owned();
        let mut i: usize = 0;
        while i < self.defs.len()
            invariant
                i <= self.defs@.len(),
                key@ == name@,
                table_valid(self.defs@),
                forall|k: int| 0 <= k < i ==> (#[trigger] self.defs@[k]).name@ != name@,
            decreases self.defs@.len() - i,
        {
            if self.defs[i].name == key {
                return Some(self.defs[i].id);
            }
            i += 1;
        }
        None
    }

    pub fn len(&self) -> (r: usize)
        ensures
            r == self@.len(),
            2 <= r <= 256,
            table_valid(self@),
    {
        proof { use_type_invariant(self); }
        self.defs.len()
    }

    /// Always false: a table holds at least air and wall.
    pub fn is_empty(&self) -> (r: bool)
        ensures
            r == (self@.len() == 0),
            !r,
    {
        proof { use_type_invariant(self); }
        self.defs.len() == 0
    }

    pub fn category(&self, id: u8) -> (r: Category)
        requires
            (id as int) < self@.len(),
        ensures
            r == self@[id as int].category,
    {
        self.defs[id as usize].category
    }

    pub fn is_static(&self, id: u8) -> (r: bool)
        requires
            (id as int) < self@.len(),
        ensures
            r == (self@[id as int].category == Category::Static),
    {
        self.category(id) == Category::Static
    }

    pub fn density(&self, id: u8) -> (r: u16)
        requires
            (id as int) < self@.len(),
        ensures
            r == self@[id as int].density,
    {
        self.defs[id as usize].density
    }

    pub fn color(&self, id: u8) -> (r: (u8, u8, u8))
        requires
            (id as int) < self@.len(),
        ensures
            r == self@[id as int].color,
    {
        self.defs[id as usize].color
    }

    /// Energy an explosion ray spends per cell of this material.
    pub fn hp(&self, id: u8) -> (r: u32)
        requires
            (id as int) < self@.len(),
        ensures
            r == self@[id as int].hp,
    {
        self.defs[id as usize].hp
    }

    pub fn durability(&self, id: u8) -> (r: u8)
        requires
            (id as int) < self@.len(),
        ensures
            r == self@[id as int].durability,
    {
        self.defs[id as usize].durability
    }

    pub fn vaporize_threshold(&self, id: u8) -> (r: u8)
        requires
            (id as int) < self@.len(),
        ensures
            r == self@[id as int].vaporize_threshold,
    {
        self.defs[id as usize].vaporize_threshold
    }

    /// The declared spread, unclamped.
    pub fn dispersion(&self, id: u8) -> (r: u8)
        requires
            (id as int) < self@.len(),
        ensures
            r == self@[id as int].dispersion,
    {
        self.defs[id as usize].dispersion
    }

    pub fn splash_chance(&self, id: u8) -> (r: u8)
        requires
            (id as int) < self@.len(),
        ensures
            r == self@[id as int].splash_chance,
    {
        self.defs[id as usize].splash_chance
    }

    pub fn tags_of(&self, id: u8) -> (r: &[String])
        requires
            (id as int) < self@.len(),
        ensures
            r@ == self@[id as int].tags@,
    {
        self.defs[id as usize].tags.as_slice()
    }

    pub fn ignition_temp(&self, id: u8) -> (r: u8)
        requires
            (id as int) < self@.len(),
        ensures
            r == self@[id as int].ignition_temp,
    {
        self.defs[id as usize].ignition_temp
    }

    pub fn fire_temp(&self, id: u8) -> (r: u8)
        requires
            (id as int) < self@.len(),
        ensures
            r == self@[id as int].fire_temp,
    {
        self.defs[id as usize].fire_temp
    }

    pub fn fire_hp(&self, id: u8) -> (r: u8)
        requires
            (id as int) < self@.len(),
        ensures
            r == self@[id as int].fire_hp,
    {
        self.defs[id as usize].fire_hp
    }

    pub fn lifetime(&self, id: u8) -> (r: u8)
        requires
            (id as int) < self@.len(),
        ensures
            r == self@[id as int].lifetime,
    {
        self.defs[id as usize].lifetime
    }

    pub fn decay_to(&self, id: u8) -> (r: u8)
        requires
            (id as int) < self@.len(),
        ensures
            r == self@[id as int].decay_to,
            (r as int) < self@.len(),
    {
        proof { use_type_invariant(self); }
        self.defs[id as usize].decay_to
    }

    pub fn requires_oxygen(&self, id: u8) -> (r: bool)
        requires
            (id as int) < self@.len(),
        ensures
            r == self@[id as int].requires_oxygen,
    {
        self.defs[id as usize].requires_oxygen
    }

    pub fn extinguisher(&self, id: u8) -> (r: bool)
        requires
            (id as int) < self@.len(),
        ensures
            r == self@[id as int].extinguisher,
    {
        self.defs[id as usize].extinguisher
    }

    pub fn fire_chance(&self, id: u8) -> (r: u8)
        requires
            (id as int) < self@.len(),
        ensures
            r == self@[id as int].fire_chance,
    {
        self.defs[id as usize].fire_chance
    }
}

/// A hard cell: not air, neither gas nor liquid, and, unless `include_bodies`,
/// not stamped by a rigid body.
pub open spec fn solid_spec(c: Cell, t: Seq<MaterialDef>, include_bodies: bool) -> bool {
    &&& c.mat() != MAT_AIR
    &&& t[c.mat() as int].category != Category::Gas
    &&& t[c.mat() as int].category != Category::Liquid
    &&& (include_bodies || !c.bdy())
}

/// Whether `cell` is hard (see `solid_spec`).
pub fn is_solid(cell: Cell, table: &MaterialTable, include_bodies: bool) -> (r: bool)
    requires
        (cell.mat() as int) < table@.len(),
    ensures
        r == solid_spec(cell, table@, include_bodies),
{
    let m = cell.material();
    if m == MAT_AIR {
        return false;
    }
    let c = table.category(m);
    if c == Category::Gas || c == Category::Liquid {
        return false;
    }
    include_bodies || !cell.is_body()
}

} // verus!
