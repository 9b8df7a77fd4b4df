//! What a scenario run is configured with: the data tables, the hash-stream
//! sampling and the fingerprints of the loaded data.

use vstd::prelude::*;

use crate::creature::CreatureTable;
use crate::material::MaterialTable;
use crate::reaction::ReactionTable;
use crate::spell::SpellTable;
use crate::{ScanMode, Sim};

verus! {

/// The data tables a run is built from.
pub struct Tables<'a> {
    pub materials: &'a MaterialTable,
    pub reactions: &'a ReactionTable,
    pub creatures: &'a CreatureTable,
    pub spells: &'a SpellTable,
}

/// Default sampling interval of the hash stream, in ticks (the format of the
/// golden files depends on it).
pub const HASH_EVERY: u64 = 256;

/// How the hash stream is sampled. The default is the golden-file format;
/// the fields depart from it only for forensic runs.
#[derive(Clone, Copy, Debug)]
pub struct HashStream {
    /// Sample the grid root alone instead of the full state hash.
    pub grid_only: bool,
    /// Sampling interval in ticks.
    pub every: u64,
}

impl Default for HashStream {
    fn default() -> (r: HashStream)
        ensures
            !r.grid_only,
            r.every == HASH_EVERY,
    {
        HashStream { grid_only: false, every: HASH_EVERY }
    }
}

/// Fingerprints of the loaded data tables (compared in the handshake).
#[derive(Clone, Copy, Debug)]
pub struct Fingerprints {
    pub materials: u64,
    pub reactions: u64,
    pub creatures: u64,
    pub spells: u64,
}


/// Whether the hash stream samples after `done` ticks: every `every` ticks.
pub fn sampled_after(every: u64, done: u64) -> (r: bool)
    requires
        every > 0,
    ensures
        r == (done % every == 0),
{
    done % every == 0
}

/// The hash the stream samples: the grid root alone when `grid_only`, else
/// the state hash.
pub fn stream_hash(sim: &Sim, hs: HashStream) -> (r: u64)
    requires
        sim.wf(),
    ensures
        r == if hs.grid_only { crate::hash::state_hash_spec(sim.world_view()) } else { sim.state_hash_view() },
{
    if hs.grid_only {
        sim.grid_hash()
    } else {
        sim.state_hash()
    }
}

/// The six synchronisation configurations: one thread and `n` threads under
/// each of `Full`, `ChunkSleep` and `LiveRect`, in that order.
pub fn synctest_configs(n: usize) -> (r: Vec<(usize, ScanMode)>)
    ensures
        r@ == seq![
            (1usize, ScanMode::Full),
            (n, ScanMode::Full),
            (1usize, ScanMode::ChunkSleep),
            (n, ScanMode::ChunkSleep),
            (1usize, ScanMode::LiveRect),
            (n, ScanMode::LiveRect),
        ],
{
    let mut r: Vec<(usize, ScanMode)> = Vec::new();
    r.push((1, ScanMode::Full));
    r.push((n, ScanMode::Full));
    r.push((1, ScanMode::ChunkSleep));
    r.push((n, ScanMode::ChunkSleep));
    r.push((1, ScanMode::LiveRect));
    r.push((n, ScanMode::LiveRect));
    proof {
        assert(r@ =~= seq![
            (1usize, ScanMode::Full),
            (n, ScanMode::Full),
            (1usize, ScanMode::ChunkSleep),
            (n, ScanMode::ChunkSleep),
            (1usize, ScanMode::LiveRect),
            (n, ScanMode::LiveRect),
        ]);
    }
    r
}

/// Two simulations agree: same state hash and same entity hash.
pub open spec fn sims_agree(a: Sim, b: Sim) -> bool {
    a.state_hash_view() == b.state_hash_view() && a.entity_hash_view() == b.entity_hash_view()
}

/// The first simulation after the first that disagrees with the first (see
/// [`sims_agree`]); `None` when they all agree.
pub fn first_divergent(sims: &Vec<Sim>) -> (r: Option<usize>)
    requires
        sims@.len() > 0,
        forall|i: int| 0 <= i < sims@.len() ==> (#[trigger] sims@[i]).wf(),
    ensures
        match r {
            Some(i) => {
                &&& 1 <= i < sims@.len()
                &&& !sims_agree(sims@[0], sims@[i as int])
                &&& forall|j: int| 1 <= j < i ==> sims_agree(sims@[0], #[trigger] sims@[j])
            },
            None => forall|j: int| 1 <= j < sims@.len() ==> sims_agree(sims@[0], #[trigger] sims@[j]),
        },
{
    let h0 = sims[0].state_hash();
    let e0 = sims[0].entity_hash();
    let mut i: usize = 1;
    while i < sims.len()
        invariant
            1 <= i <= sims@.len(),
            forall|k: int| 0 <= k < sims@.len() ==> (#[trigger] sims@[k]).wf(),
            h0 == sims@[0].state_hash_view(),
            e0 == sims@[0].entity_hash_view(),
            forall|j: int| 1 <= j < i ==> sims_agree(sims@[0], #[trigger] sims@[j]),
        decreases sims@.len() - i,
    {
        if sims[i].state_hash() != h0 || sims[i].entity_hash() != e0 {
            return Some(i);
        }
        i += 1;
    }
    None
}

} // verus!
