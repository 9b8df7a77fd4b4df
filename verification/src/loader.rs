//! The load-time rules of the data files, once they are parsed: material
//! references resolved by name, declarations that contradict each other
//! refused, reaction entries checked and expanded into initiator-first
//! rules. Parsing the text and turning its decimals into integers is the
//! caller's part; a decimal that could not be turned arrives here as the
//! error its conversion gave.

use vstd::prelude::*;
use vstd::string::StrSliceExecFns;

use crate::material::{Category, MaterialDef, MaterialTable, DISPERSION_MAX, MAT_AIR};
use crate::emit::MAX_EMIT_JITTER_RAW;
use crate::fixed::Fx;
use crate::reaction::{entry_rules, push_entry_rules, ReactionRule};
use crate::world::Op;

verus! {

/// One material as the data file declares it.
pub struct MatInput {
    pub id: u8,
    pub name: String,
    pub category: Category,
    pub density: u16,
    pub color: (u8, u8, u8),
    pub hp: u32,
    pub durability: u8,
    /// Sideways spread of a liquid; a gas must not declare one.
    pub dispersion: Option<u8>,
    pub tags: Vec<String>,
    pub ignition_temp: u8,
    pub fire_temp: u8,
    pub fire_hp: u8,
    pub lifetime: u8,
    /// Name of the material it decays to (air when absent).
    pub decay_to: Option<String>,
    /// Name of the material its fire produces.
    pub flame_to: Option<String>,
    pub requires_oxygen: bool,
    pub extinguisher: bool,
    /// The decimal fields out of 255, or why a value could not be converted.
    pub vaporize_threshold: Result<u8, String>,
    pub splash_chance: Result<u8, String>,
    pub fire_chance: Result<u8, String>,
    pub rise_chance: Result<u8, String>,
}

/// Why a material declaration was refused.
#[derive(Debug)]
pub enum MatError {
    /// A gas declared a dispersion (gases always spread one cell).
    GasDispersion,
    /// A decimal field could not be converted; the conversion's message.
    Quantised(String),
    /// A fire chance without the material its fire produces.
    FireWithoutFlame,
    /// `flame_to` names no material of the file.
    UnknownFlameTo,
    /// `decay_to` names no material of the file.
    UnknownDecayTo,
    /// The dispersion lies outside `1..=DISPERSION_MAX`.
    Dispersion,
}

/// The id that name `n` resolves to: that of the last material of `ms`
/// called so.
pub open spec fn name_id(ms: Seq<MatInput>, n: Seq<char>) -> Option<u8>
    decreases ms.len(),
{
    if ms.len() == 0 {
        None
    } else if ms.last().name@ == n {
        Some(ms.last().id)
    } else {
        name_id(ms.drop_last(), n)
    }
}

/// The first rule material `m` of the file `ms` breaks, checked in this
/// order: a gas with a dispersion, the fire chance, the fire product, the
/// decay product, the vaporize threshold, the dispersion range, the splash
/// chance, the rise chance.
pub open spec fn mat_error(ms: Seq<MatInput>, m: MatInput) -> Option<MatError> {
    if m.category == Category::Gas && m.dispersion is Some {
        Some(MatError::GasDispersion)
    } else if m.fire_chance is Err {
        Some(MatError::Quantised(m.fire_chance->Err_0))
    } else if m.flame_to is None && m.fire_chance->Ok_0 > 0 {
        Some(MatError::FireWithoutFlame)
    } else if m.flame_to is Some && name_id(ms, m.flame_to->Some_0@) is None {
        Some(MatError::UnknownFlameTo)
    } else if m.decay_to is Some && name_id(ms, m.decay_to->Some_0@) is None {
        Some(MatError::UnknownDecayTo)
    } else if m.vaporize_threshold is Err {
        Some(MatError::Quantised(m.vaporize_threshold->Err_0))
    } else if !(1 <= (if m.dispersion is Some { m.dispersion->Some_0 } else { 1u8 }) <= DISPERSION_MAX) {
        Some(MatError::Dispersion)
    } else if m.splash_chance is Err {
        Some(MatError::Quantised(m.splash_chance->Err_0))
    } else if m.rise_chance is Err {
        Some(MatError::Quantised(m.rise_chance->Err_0))
    } else {
        None
    }
}

/// `d` is the definition of the accepted material `m` of the file `ms`:
/// every field carried over, the decimals converted, the dispersion 1 when
/// undeclared, the decay product resolved to its id (air when absent).
pub open spec fn def_of(ms: Seq<MatInput>, m: MatInput, d: MaterialDef) -> bool {
    &&& d.id == m.id
    &&& d.name@ == m.name@
    &&& d.category == m.category
    &&& d.density == m.density
    &&& d.color == m.color
    &&& d.hp == m.hp
    &&& d.durability == m.durability
    &&& d.vaporize_threshold == m.vaporize_threshold->Ok_0
    &&& d.dispersion == (if m.dispersion is Some { m.dispersion->Some_0 } else { 1u8 })
    &&& d.splash_chance == m.splash_chance->Ok_0
    &&& d.tags@ == m.tags@
    &&& d.ignition_temp == m.ignition_temp
    &&& d.fire_temp == m.fire_temp
    &&& d.fire_hp == m.fire_hp
    &&& d.lifetime == m.lifetime
    &&& d.decay_to == (if m.decay_to is Some { name_id(ms, m.decay_to->Some_0@)->Some_0 } else { MAT_AIR })
    &&& d.requires_oxygen == m.requires_oxygen
    &&& d.extinguisher == m.extinguisher
    &&& d.fire_chance == m.fire_chance->Ok_0
}

/// The id a name resolves to (see [`name_id`]).
fn lookup_name(ms: &Vec<MatInput>, n: &String) -> (r: Option<u8>)
    ensures
        r == name_id(ms@, n@),
{
    let mut k: usize = ms.len();
    proof {
        assert(ms@.subrange(0, k as int) =~= ms@);
    }
    while k > 0
        invariant
            k <= ms@.len(),
            name_id(ms@, n@) == name_id(ms@.subrange(0, k as int), n@),
        decreases k,
    {
        let ghost s = ms@.subrange(0, k as int);
        proof {
            assert(s.drop_last() =~= ms@.subrange(0, k - 1));
            assert(s.last() == ms@[k - 1]);
        }
        if ms[k - 1].name == *n {
            return Some(ms[k - 1].id);
        }
        k -= 1;
    }
    None
}

fn copy_quantised(r: &Result<u8, String>) -> (e: MatError)
    requires
        r is Err,
    ensures
        e == MatError::Quantised(r->Err_0),
{
    match r {
        Err(s) => MatError::Quantised(s.clone()),
        Ok(_) => MatError::Dispersion,
    }
}

/// Check material `m` of the file `ms` and build its definition.
fn build_one(ms: &Vec<MatInput>, m: &MatInput) -> (r: Result<MaterialDef, MatError>)
    ensures
        match r {
            Ok(d) => mat_error(ms@, *m) is None && def_of(ms@, *m, d),
            Err(e) => mat_error(ms@, *m) == Some(e),
        },
{
    if m.category == Category::Gas && m.dispersion.is_some() {
        return Err(MatError::GasDispersion);
    }
    let fire_chance = match &m.fire_chance {
        Ok(v) => *v,
        Err(_) => {
            return Err(copy_quantised(&m.fire_chance));
        },
    };
    match &m.flame_to {
        None => {
            if fire_chance > 0 {
                return Err(MatError::FireWithoutFlame);
            }
        },
        Some(name) => {
            if lookup_name(ms, name).is_none() {
                return Err(MatError::UnknownFlameTo);
            }
        },
    }
    let decay_to = match &m.decay_to {
        None => MAT_AIR,
        Some(name) => match lookup_name(ms, name) {
            Some(id) => id,
            None => {
                return Err(MatError::UnknownDecayTo);
            },
        },
    };
    let vaporize_threshold = match &m.vaporize_threshold {
        Ok(v) => *v,
        Err(_) => {
            return Err(copy_quantised(&m.vaporize_threshold));
        },
    };
    let dispersion = match m.dispersion {
        Some(d) => d,
        None => 1,
    };
    if dispersion < 1 || dispersion > DISPERSION_MAX {
        return Err(MatError::Dispersion);
    }
    let splash_chance = match &m.splash_chance {
        Ok(v) => *v,
        Err(_) => {
            return Err(copy_quantised(&m.splash_chance));
        },
    };
    if m.rise_chance.is_err() {
        return Err(copy_quantised(&m.rise_chance));
    }
    let mut d = MaterialDef::base(m.id, m.name.as_str(), m.category, m.density);
    d.color = m.color;
    d.hp = m.hp;
    d.durability = m.durability;
    d.vaporize_threshold = vaporize_threshold;
    d.dispersion = dispersion;
    d.splash_chance = splash_chance;
    d.tags = m.tags.clone();
    d.ignition_temp = m.ignition_temp;
    d.fire_temp = m.fire_temp;
    d.fire_hp = m.fire_hp;
    d.lifetime = m.lifetime;
    d.decay_to = decay_to;
    d.requires_oxygen = m.requires_oxygen;
    d.extinguisher = m.extinguisher;
    d.fire_chance = fire_chance;
    proof {
        assert(d.tags@ =~= m.tags@);
    }
    Ok(d)
}

/// The definitions of a material file, in file order; the first refused
/// material (its position and the rule it breaks, see [`mat_error`]) fails
/// the whole file.
pub fn build_material_defs(specs: &Vec<MatInput>) -> (r: Result<Vec<MaterialDef>, (usize, MatError)>)
    ensures
        r is Ok <==> forall|i: int| 0 <= i < specs@.len() ==> mat_error(specs@, #[trigger] specs@[i]) is None,
        r matches Err((i, e)) ==> {
            &&& (i as int) < specs@.len()
            &&& mat_error(specs@, specs@[i as int]) == Some(e)
            &&& forall|j: int| 0 <= j < i ==> mat_error(specs@, #[trigger] specs@[j]) is None
        },
        r matches Ok(v) ==> {
            &&& v@.len() == specs@.len()
            &&& forall|i: int| 0 <= i < v@.len() ==> def_of(specs@, specs@[i], #[trigger] v@[i])
        },
{
    let mut out: Vec<MaterialDef> = Vec::new();
    let mut i: usize = 0;
    while i < specs.len()
        invariant
            i <= specs@.len(),
            out@.len() == i,
            forall|j: int| 0 <= j < i ==> mat_error(specs@, #[trigger] specs@[j]) is None,
            forall|j: int| 0 <= j < i ==> def_of(specs@, specs@[j], #[trigger] out@[j]),
        decreases specs@.len() - i,
    {
        match build_one(specs, &specs[i]) {
            Ok(d) => {
                out.push(d);
            },
            Err(e) => {
                return Err((i, e));
            },
        }
        i += 1;
    }
    Ok(out)
}


/// One reaction entry as the data file declares it: two inputs (material
/// names or `[tag]`s), two output material names, and the probability out
/// of 255, or why it could not be converted.
pub struct ReactionInput {
    pub input: Vec<String>,
    pub output: Vec<String>,
    pub threshold: Result<u8, String>,
}

/// Why a reaction entry was refused.
#[derive(Debug)]
pub enum ReactError {
    /// Not exactly two inputs and two outputs.
    Arity,
    /// Output `index` is written as a tag.
    TagOutput { index: usize },
    /// Output `index` names no material.
    UnknownOutput { index: usize },
    /// The probability could not be converted; the conversion's message.
    Quantised(String),
    /// Input `side` names no material.
    UnknownInput { side: usize },
    /// The tag of input `side` has no member material.
    EmptyTag { side: usize },
    /// Both inputs are the same single material.
    SelfReaction,
}

/// A name of the form `[tag]`.
pub open spec fn is_tag_name(n: Seq<char>) -> bool {
    n.len() >= 2 && n[0] == '[' && n[n.len() - 1] == ']'
}

/// Whether material `d` carries tag `tag`.
pub open spec fn has_tag(d: MaterialDef, tag: Seq<char>) -> bool {
    exists|k: int| 0 <= k < d.tags@.len() && (#[trigger] d.tags@[k])@ == tag
}

/// The ids below `k` of the materials carrying `tag`, in increasing order.
pub open spec fn tag_members(t: Seq<MaterialDef>, tag: Seq<char>, k: int) -> Seq<u8>
    decreases k,
{
    if k <= 0 {
        seq![]
    } else if has_tag(t[k - 1], tag) {
        tag_members(t, tag, k - 1).push((k - 1) as u8)
    } else {
        tag_members(t, tag, k - 1)
    }
}

/// The first material of `t` called `n`.
pub open spec fn named(t: Seq<MaterialDef>, n: Seq<char>) -> Option<u8>
    decreases t.len(),
{
    if t.len() == 0 {
        None
    } else {
        match named(t.drop_last(), n) {
            Some(i) => Some(i),
            None => if t.last().name@ == n {
                Some((t.len() - 1) as u8)
            } else {
                None
            },
        }
    }
}

proof fn lemma_named(t: Seq<MaterialDef>, n: Seq<char>, r: Option<u8>)
    requires
        t.len() <= 256,
        r matches Some(id) ==> (id as int) < t.len() && t[id as int].name@ == n && forall|i: int| 0 <= i < id ==> (#[trigger] t[i]).name@ != n,
        r is None ==> forall|i: int| 0 <= i < t.len() ==> (#[trigger] t[i]).name@ != n,
    ensures
        named(t, n) == r,
    decreases t.len(),
{
    if t.len() > 0 {
        let d = t.drop_last();
        let rd = match r {
            Some(id) => if (id as int) < d.len() { Some(id) } else { None },
            None => None,
        };
        assert forall|i: int| 0 <= i < d.len() implies #[trigger] d[i] == t[i] by {}
        lemma_named(d, n, rd);
    }
}

/// What one input of a reaction expands to: a tag to its members (none
/// when it has no member), a name to its material.
pub open spec fn expand_input(t: Seq<MaterialDef>, n: Seq<char>) -> Option<Seq<u8>> {
    if is_tag_name(n) {
        let m = tag_members(t, n.subrange(1, n.len() - 1), t.len() as int);
        if m.len() == 0 {
            None
        } else {
            Some(m)
        }
    } else {
        match named(t, n) {
            Some(i) => Some(seq![i]),
            None => None,
        }
    }
}

/// The error of input `side`, when it expands to nothing.
pub open spec fn input_error(n: Seq<char>, side: usize) -> ReactError {
    if is_tag_name(n) {
        ReactError::EmptyTag { side }
    } else {
        ReactError::UnknownInput { side }
    }
}

/// The first rule reaction entry `e` breaks, checked in this order: two
/// inputs and two outputs, no tag among the outputs, outputs that name
/// materials, the probability, the first input, the second input, not one
/// material with itself.
pub open spec fn entry_error(t: Seq<MaterialDef>, e: ReactionInput) -> Option<ReactError> {
    let i = e.input@;
    let o = e.output@;
    if i.len() != 2 || o.len() != 2 {
        Some(ReactError::Arity)
    } else if o[0]@.len() >= 1 && o[0]@[0] == '[' {
        Some(ReactError::TagOutput { index: 0 })
    } else if o[1]@.len() >= 1 && o[1]@[0] == '[' {
        Some(ReactError::TagOutput { index: 1 })
    } else if named(t, o[0]@) is None {
        Some(ReactError::UnknownOutput { index: 0 })
    } else if named(t, o[1]@) is None {
        Some(ReactError::UnknownOutput { index: 1 })
    } else if e.threshold is Err {
        Some(ReactError::Quantised(e.threshold->Err_0))
    } else if expand_input(t, i[0]@) is None {
        Some(input_error(i[0]@, 0))
    } else if expand_input(t, i[1]@) is None {
        Some(input_error(i[1]@, 1))
    } else {
        let a = expand_input(t, i[0]@)->Some_0;
        let b = expand_input(t, i[1]@)->Some_0;
        if a.len() == 1 && b.len() == 1 && a[0] == b[0] {
            Some(ReactError::SelfReaction)
        } else {
            None
        }
    }
}

/// The rules of an accepted entry (see [`entry_rules`]).
pub open spec fn rules_of(t: Seq<MaterialDef>, e: ReactionInput) -> Seq<ReactionRule> {
    entry_rules(
        expand_input(t, e.input@[0]@)->Some_0,
        expand_input(t, e.input@[1]@)->Some_0,
        named(t, e.output@[0]@)->Some_0,
        named(t, e.output@[1]@)->Some_0,
        e.threshold->Ok_0,
    )
}

/// The rules of the entries `es`, one entry after another.
pub open spec fn all_rules(t: Seq<MaterialDef>, es: Seq<ReactionInput>) -> Seq<ReactionRule>
    decreases es.len(),
{
    if es.len() == 0 {
        seq![]
    } else {
        all_rules(t, es.drop_last()) + rules_of(t, es.last())
    }
}

/// The material called `n` (see [`named`]).
fn find_named(table: &MaterialTable, n: &String) -> (r: Option<u8>)
    ensures
        r == named(table@, n@),
{
    let r = table.id_by_name(n.as_str());
    let _ = table.len();
    proof {
        lemma_named(table@, n@, r);
    }
    r
}

/// Whether `tags` holds `tag`.
fn holds_tag(tags: &[String], tag: &String) -> (r: bool)
    ensures
        r == exists|k: int| 0 <= k < tags@.len() && (#[trigger] tags@[k])@ == tag@,
{
    let mut k: usize = 0;
    while k < tags.len()
        invariant
            k <= tags@.len(),
            forall|j: int| 0 <= j < k ==> (#[trigger] tags@[j])@ != tag@,
        decreases tags@.len() - k,
    {
        if tags[k] == *tag {
            return true;
        }
        k += 1;
    }
    false
}

/// Expand input `side` of a reaction (see [`expand_input`]).
fn expand_side(table: &MaterialTable, name: &String, side: usize) -> (r: Result<Vec<u8>, ReactError>)
    ensures
        match r {
            Ok(v) => expand_input(table@, name@) == Some(v@),
            Err(e) => expand_input(table@, name@) is None && e == input_error(name@, side),
        },
{
    let s = name.as_str();
    let n = s.unicode_len();
    if n >= 2 && s.get_char(0) == '[' && s.get_char(n - 1) == ']' {
        let tag = s.substring_char(1, n - 1).to_owned();
        let len = table.len();
        let mut members: Vec<u8> = Vec::new();
        let mut id: usize = 0;
        while id < len
            invariant
                len == table@.len(),
                len <= 256,
                id <= len,
                tag@ == name@.subrange(1, name@.len() - 1),
                members@ == tag_members(table@, tag@, id as int),
            decreases len - id,
        {
            let tags = table.tags_of(id as u8);
            if holds_tag(tags, &tag) {
                members.push(id as u8);
            }
            id += 1;
        }
        if members.len() == 0 {
            return Err(ReactError::EmptyTag { side });
        }
        Ok(members)
    } else {
        match find_named(table, name) {
            Some(i) => {
                let v = vec![i];
                proof {
                    assert(v@ =~= seq![i]);
                }
                Ok(v)
            },
            None => Err(ReactError::UnknownInput { side }),
        }
    }
}

/// Whether a name starts with `[`.
fn opens_bracket(n: &String) -> (r: bool)
    ensures
        r == (n@.len() >= 1 && n@[0] == '['),
{
    let s = n.as_str();
    s.unicode_len() >= 1 && s.get_char(0) == '['
}

/// Check one reaction entry and append its rules (see [`entry_error`] and
/// [`rules_of`]).
fn build_entry(table: &MaterialTable, e: &ReactionInput, rules: &mut Vec<ReactionRule>) -> (r: Result<(), ReactError>)
    ensures
        match r {
            Ok(()) => entry_error(table@, *e) is None && final(rules)@ == old(rules)@ + rules_of(table@, *e),
            Err(x) => entry_error(table@, *e) == Some(x),
        },
{
    if e.input.len() != 2 || e.output.len() != 2 {
        return Err(ReactError::Arity);
    }
    if opens_bracket(&e.output[0]) {
        return Err(ReactError::TagOutput { index: 0 });
    }
    if opens_bracket(&e.output[1]) {
        return Err(ReactError::TagOutput { index: 1 });
    }
    let out_a = match find_named(table, &e.output[0]) {
        Some(i) => i,
        None => {
            return Err(ReactError::UnknownOutput { index: 0 });
        },
    };
    let out_b = match find_named(table, &e.output[1]) {
        Some(i) => i,
        None => {
            return Err(ReactError::UnknownOutput { index: 1 });
        },
    };
    let threshold = match &e.threshold {
        Ok(v) => *v,
        Err(m) => {
            return Err(ReactError::Quantised(m.clone()));
        },
    };
    let side_a = match expand_side(table, &e.input[0], 0) {
        Ok(v) => v,
        Err(x) => {
            return Err(x);
        },
    };
    let side_b = match expand_side(table, &e.input[1], 1) {
        Ok(v) => v,
        Err(x) => {
            return Err(x);
        },
    };
    match push_entry_rules(side_a.as_slice(), side_b.as_slice(), out_a, out_b, threshold, rules) {
        Ok(()) => Ok(()),
        Err(_) => Err(ReactError::SelfReaction),
    }
}

/// The reaction rules of a reaction file, entry by entry; the first refused
/// entry (its position and the rule it breaks, see [`entry_error`]) fails
/// the whole file.
pub fn build_reaction_rules(table: &MaterialTable, entries: &Vec<ReactionInput>) -> (r: Result<Vec<ReactionRule>, (usize, ReactError)>)
    ensures
        r is Ok <==> forall|i: int| 0 <= i < entries@.len() ==> entry_error(table@, #[trigger] entries@[i]) is None,
        r matches Err((i, e)) ==> {
            &&& (i as int) < entries@.len()
            &&& entry_error(table@, entries@[i as int]) == Some(e)
            &&& forall|j: int| 0 <= j < i ==> entry_error(table@, #[trigger] entries@[j]) is None
        },
        r matches Ok(v) ==> v@ == all_rules(table@, entries@),
{
    let mut rules: Vec<ReactionRule> = Vec::new();
    let mut i: usize = 0;
    while i < entries.len()
        invariant
            i <= entries@.len(),
            forall|j: int| 0 <= j < i ==> entry_error(table@, #[trigger] entries@[j]) is None,
            rules@ == all_rules(table@, entries@.subrange(0, i as int)),
        decreases entries@.len() - i,
    {
        proof {
            assert(entries@.subrange(0, i as int + 1).drop_last() =~= entries@.subrange(0, i as int));
            assert(entries@.subrange(0, i as int + 1).last() == entries@[i as int]);
        }
        match build_entry(table, &entries[i], &mut rules) {
            Ok(()) => {},
            Err(x) => {
                return Err((i, x));
            },
        }
        i += 1;
    }
    proof {
        assert(entries@.subrange(0, entries@.len() as int) =~= entries@);
    }
    Ok(rules)
}


/// One scenario operation as the file declares it, materials by name and
/// the emitter's decimals already converted (or why one could not be).
pub enum OpInput {
    Brush { material: String, x: i32, y: i32, r: i32 },
    Fill { material: String, x0: i32, y0: i32, x1: i32, y1: i32 },
    Emit {
        material: String,
        x: Result<Fx, String>,
        y: Result<Fx, String>,
        vx: Result<Fx, String>,
        vy: Result<Fx, String>,
        count: u16,
        jitter: Result<Fx, String>,
    },
    Explode { x: i32, y: i32, r: i32, power: u32 },
}

/// Why a scenario operation was refused.
#[derive(Debug)]
pub enum OpError {
    /// The operation names no material of the table.
    UnknownMaterial,
    /// A decimal could not be converted; the conversion's message.
    Quantised(String),
    /// The emitter's jitter is above `MAX_EMIT_JITTER_RAW`.
    EmitJitter,
    /// The explosion's centre has a coordinate of magnitude 32768 or more.
    ExplodeCentre,
    /// The explosion's radius lies outside `1..=32767`.
    ExplodeRadius,
    /// The explosion's power lies outside `1..=i32::MAX`.
    ExplodePower,
}

/// The first rule operation `o` breaks, in this order: for an emitter the
/// jitter's conversion, its bound, the material, then `x`, `y`, `vx`, `vy`;
/// for an explosion the centre, the radius, the power; for painting the
/// material.
pub open spec fn op_error(t: Seq<MaterialDef>, o: OpInput) -> Option<OpError> {
    match o {
        OpInput::Brush { material, .. } => if named(t, material@) is None { Some(OpError::UnknownMaterial) } else { None },
        OpInput::Fill { material, .. } => if named(t, material@) is None { Some(OpError::UnknownMaterial) } else { None },
        OpInput::Emit { material, x, y, vx, vy, jitter, .. } => {
            if jitter is Err {
                Some(OpError::Quantised(jitter->Err_0))
            } else if jitter->Ok_0.0 > MAX_EMIT_JITTER_RAW {
                Some(OpError::EmitJitter)
            } else if named(t, material@) is None {
                Some(OpError::UnknownMaterial)
            } else if x is Err {
                Some(OpError::Quantised(x->Err_0))
            } else if y is Err {
                Some(OpError::Quantised(y->Err_0))
            } else if vx is Err {
                Some(OpError::Quantised(vx->Err_0))
            } else if vy is Err {
                Some(OpError::Quantised(vy->Err_0))
            } else {
                None
            }
        },
        OpInput::Explode { x, y, r, power } => {
            if !(-32768 < x < 32768 && -32768 < y < 32768) {
                Some(OpError::ExplodeCentre)
            } else if !(1 <= r <= 32767) {
                Some(OpError::ExplodeRadius)
            } else if !(1 <= power <= 0x7FFF_FFFF) {
                Some(OpError::ExplodePower)
            } else {
                None
            }
        },
    }
}

/// The operation an accepted `o` resolves to: names to ids, decimals to
/// their conversions, integers unchanged.
pub open spec fn op_of(t: Seq<MaterialDef>, o: OpInput) -> Op {
    match o {
        OpInput::Brush { material, x, y, r } => Op::Brush { material: named(t, material@)->Some_0, x, y, r },
        OpInput::Fill { material, x0, y0, x1, y1 } => Op::Fill { material: named(t, material@)->Some_0, x0, y0, x1, y1 },
        OpInput::Emit { material, x, y, vx, vy, count, jitter } => Op::Emit {
            material: named(t, material@)->Some_0,
            x: x->Ok_0,
            y: y->Ok_0,
            vx: vx->Ok_0,
            vy: vy->Ok_0,
            count,
            jitter: jitter->Ok_0,
        },
        OpInput::Explode { x, y, r, power } => Op::Explode { x, y, r, power },
    }
}

fn copy_fx_error(r: &Result<Fx, String>) -> (e: OpError)
    requires
        r is Err,
    ensures
        e == OpError::Quantised(r->Err_0),
{
    match r {
        Err(s) => OpError::Quantised(s.clone()),
        Ok(_) => OpError::EmitJitter,
    }
}

fn fx_of(r: &Result<Fx, String>) -> (v: Result<Fx, OpError>)
    ensures
        match v {
            Ok(f) => r is Ok && f == r->Ok_0,
            Err(e) => r is Err && e == OpError::Quantised(r->Err_0),
        },
{
    match r {
        Ok(f) => Ok(*f),
        Err(_) => Err(copy_fx_error(r)),
    }
}

/// Check a scenario operation and resolve it (see [`op_error`], [`op_of`]).
pub fn resolve_op(table: &MaterialTable, o: &OpInput) -> (r: Result<Op, OpError>)
    ensures
        match r {
            Ok(op) => op_error(table@, *o) is None && op == op_of(table@, *o),
            Err(e) => op_error(table@, *o) == Some(e),
        },
{
    match o {
        OpInput::Brush { material, x, y, r } => match find_named(table, material) {
            Some(m) => Ok(Op::Brush { material: m, x: *x, y: *y, r: *r }),
            None => Err(OpError::UnknownMaterial),
        },
        OpInput::Fill { material, x0, y0, x1, y1 } => match find_named(table, material) {
            Some(m) => Ok(Op::Fill { material: m, x0: *x0, y0: *y0, x1: *x1, y1: *y1 }),
            None => Err(OpError::UnknownMaterial),
        },
        OpInput::Emit { material, x, y, vx, vy, count, jitter } => {
            let j = fx_of(jitter)?;
            if j.0 > MAX_EMIT_JITTER_RAW {
                return Err(OpError::EmitJitter);
            }
            let m = match find_named(table, material) {
                Some(m) => m,
                None => {
                    return Err(OpError::UnknownMaterial);
                },
            };
            let fx = fx_of(x)?;
            let fy = fx_of(y)?;
            let fvx = fx_of(vx)?;
            let fvy = fx_of(vy)?;
            Ok(Op::Emit { material: m, x: fx, y: fy, vx: fvx, vy: fvy, count: *count, jitter: j })
        },
        OpInput::Explode { x, y, r, power } => {
            if !(-32768 < *x && *x < 32768 && -32768 < *y && *y < 32768) {
                return Err(OpError::ExplodeCentre);
            }
            if *r < 1 || *r > 32767 {
                return Err(OpError::ExplodeRadius);
            }
            if *power < 1 || *power > 0x7FFF_FFFF {
                return Err(OpError::ExplodePower);
            }
            Ok(Op::Explode { x: *x, y: *y, r: *r, power: *power })
        },
    }
}

} // verus!
