//! Spells: definitions and the table they are looked up in by id.

use vstd::prelude::*;

use crate::fixed::Fx;

verus! {

/// What a spell does on impact.
#[derive(Clone, Copy, Debug, PartialEq, Eq)]
pub enum SpellKind {
    /// A bolt: damage in thousandths and knockback.
    Bolt { damage_milli: i32, knockback: Fx },
}

#[derive(Clone, Debug)]
pub struct SpellDef {
    pub name: String,
    pub kind: SpellKind,
    pub speed: Fx,
    pub life: u16,
    pub gravity: Fx,
    pub grace: u8,
    pub dig_power: u32,
    pub air_friction: Fx,
    pub bounces: u8,
}

impl SpellDef {
    /// A bolt with no gravity, no digging, no bounces and no air friction
    /// (friction factor 1).
    pub fn test_bolt(name: &str, damage_milli: i32, knockback: Fx, speed: Fx, life: u16, grace: u8) -> (r: SpellDef)
        ensures
            r.name@ == name@,
            r.kind == (SpellKind::Bolt { damage_milli, knockback }),
            r.speed == speed,
            r.life == life,
            r.gravity.0 == 0,
            r.grace == grace,
            r.dig_power == 0,
            r.air_friction.0 == 65536,
            r.bounces == 0,
    {
        SpellDef {
            name: name.to_string(),
            kind: SpellKind::Bolt { damage_milli, knockback },
            speed,
            life,
            gravity: Fx::zero(),
            grace,
            dig_power: 0,
            air_friction: Fx::from_int(1),
            bounces: 0,
        }
    }
}

/// Spell definitions, indexed by id.
#[derive(Clone, Debug)]
pub struct SpellTable {
    defs: Vec<SpellDef>,
}

impl View for SpellTable {
    type V = Seq<SpellDef>;

    closed spec fn view(&self) -> Seq<SpellDef> {
        self.defs@
    }
}

impl SpellTable {
    pub fn empty() -> (r: SpellTable)
        ensures
            r@.len() == 0,
    {
        SpellTable { defs: Vec::new() }
    }

    pub fn from_defs(defs: Vec<SpellDef>) -> (r: SpellTable)
        ensures
            r@ == defs@,
    {
        SpellTable { defs }
    }

    pub fn get(&self, id: u8) -> (r: &SpellDef)
        requires
            (id as int) < self@.len(),
        ensures
            *r == self@[id as int],
    {
        &self.defs[id as usize]
    }
}

impl Default for SpellTable {
    fn default() -> (r: SpellTable)
        ensures
            r@.len() == 0,
    {
        SpellTable::empty()
    }
}

} // verus!
