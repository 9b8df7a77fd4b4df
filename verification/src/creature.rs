//! Creatures: the template table and the live set. Neither holds anything
//! yet; the live set hashes to zero so that it adds nothing to the state hash.

use vstd::prelude::*;

verus! {

/// Creature templates.
#[derive(Clone, Debug)]
pub struct CreatureTable {}

impl CreatureTable {
    /// The table with no templates.
    pub fn empty() -> (r: CreatureTable) {
        CreatureTable {}
    }
}

impl Default for CreatureTable {
    fn default() -> (r: CreatureTable) {
        CreatureTable {}
    }
}

/// The live creatures.
#[derive(Clone, Debug)]
pub struct Creatures {}

impl Creatures {
    /// The empty live set.
    pub fn new() -> (r: Creatures) {
        Creatures {}
    }

    /// Hash of the creature layer: zero while there are no creatures.
    pub fn hash_into(&self) -> (r: u64)
        ensures
            r == 0,
    {
        0
    }
}

impl Default for Creatures {
    fn default() -> (r: Creatures) {
        Creatures {}
    }
}

} // verus!
