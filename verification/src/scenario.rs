//! Scenarios: a world, a seed, setup operations and a script of scheduled
//! operations, plus the fingerprint that two peers compare before running
//! one together. Reading and parsing the scenario file happens outside the
//! library; what the loader computes from the parsed values lives here.

use vstd::prelude::*;

use crate::hash::{combine, combine_spec, push_u32_le, u32_le, xxh3_64_bytes, xxh3_64_spec};
use crate::material::DISPERSION_MAX;
use crate::world::Op;

verus! {

/// When a scripted operation runs.
#[derive(Clone, Copy, Debug, PartialEq, Eq, Structural)]
pub enum ScheduleKind {
    /// Exactly at this tick.
    At(u64),
    /// Every `step` ticks from `from` (inclusive) to `until` (exclusive).
    Every { from: u64, until: u64, step: u64 },
}

/// A loaded scenario.
pub struct Scenario {
    pub name: String,
    /// `(width_chunks, height_chunks)`.
    pub world: (usize, usize),
    pub seed: u64,
    pub ticks: u64,
    pub setup: Vec<Op>,
    pub script: Vec<(ScheduleKind, Op)>,
    /// Fingerprint of the scenario file's content and of its parsed emitters.
    pub fingerprint: u64,
}

/// Whether a schedule fires at `tick`.
pub open spec fn due(k: ScheduleKind, tick: u64) -> bool {
    match k {
        ScheduleKind::At(t) => t == tick,
        ScheduleKind::Every { from, until, step } => from <= tick && tick < until && (tick - from) % (step as int) == 0,
    }
}

/// The operations of `script` that fire at `tick`, in script order.
pub open spec fn ops_due(script: Seq<(ScheduleKind, Op)>, tick: u64) -> Seq<Op>
    decreases script.len(),
{
    if script.len() == 0 {
        seq![]
    } else {
        ops_due(script.drop_last(), tick) + if due(script.last().0, tick) {
            seq![script.last().1]
        } else {
            seq![]
        }
    }
}

/// Every periodic schedule has a positive period.
pub open spec fn steps_positive(script: Seq<(ScheduleKind, Op)>) -> bool {
    forall|i: int| 0 <= i < script.len() ==> match #[trigger] script[i].0 {
        ScheduleKind::Every { step, .. } => step > 0,
        _ => true,
    }
}

impl Scenario {
    /// The operations of this tick, in script order.
    pub fn ops_for_tick(&self, tick: u64) -> (r: Vec<Op>)
        requires
            steps_positive(self.script@),
        ensures
            r@ == ops_due(self.script@, tick),
    {
        let mut out: Vec<Op> = Vec::new();
        let mut i: usize = 0;
        while i < self.script.len()
            invariant
                i <= self.script@.len(),
                steps_positive(self.script@),
                out@ == ops_due(self.script@.subrange(0, i as int), tick),
            decreases self.script@.len() - i,
        {
            let (k, op) = self.script[i];
            let fire = match k {
                ScheduleKind::At(t) => t == tick,
                ScheduleKind::Every { from, until, step } => tick >= from && tick < until && (tick - from) % step == 0,
            };
            if fire {
                out.push(op);
            }
            proof {
                let s = self.script@.subrange(0, i as int + 1);
                assert(s.drop_last() =~= self.script@.subrange(0, i as int));
                assert(s.last() == self.script@[i as int]);
                assert(out@ =~= ops_due(s, tick));
            }
            i = i + 1;
        }
        proof {
            assert(self.script@.subrange(0, self.script@.len() as int) =~= self.script@);
        }
        out
    }
}

/// The bytes with every carriage return (13) removed.
pub open spec fn strip_cr(s: Seq<u8>) -> Seq<u8>
    decreases s.len(),
{
    if s.len() == 0 {
        seq![]
    } else {
        strip_cr(s.drop_last()) + if s.last() == 13 {
            seq![]
        } else {
            seq![s.last()]
        }
    }
}

/// Normalise file bytes before fingerprinting: drop every `\r`, so that a
/// file with CRLF line ends fingerprints like the same file with LF ends
/// (and LF content is left as it is).
pub fn normalize_for_fingerprint(bytes: &[u8]) -> (r: Vec<u8>)
    ensures
        r@ == strip_cr(bytes@),
{
    let mut out: Vec<u8> = Vec::new();
    let mut i: usize = 0;
    while i < bytes.len()
        invariant
            i <= bytes@.len(),
            out@ == strip_cr(bytes@.subrange(0, i as int)),
        decreases bytes@.len() - i,
    {
        let b = bytes[i];
        if b != 13 {
            out.push(b);
        }
        proof {
            let s = bytes@.subrange(0, i as int + 1);
            assert(s.drop_last() =~= bytes@.subrange(0, i as int));
            assert(out@ =~= strip_cr(s));
        }
        i = i + 1;
    }
    proof {
        assert(bytes@.subrange(0, bytes@.len() as int) =~= bytes@);
    }
    out
}

/// Without carriage returns the bytes are left as they are.
pub proof fn lemma_strip_cr_identity_without_cr(s: Seq<u8>)
    requires
        forall|i: int| 0 <= i < s.len() ==> s[i] != 13,
    ensures
        strip_cr(s) == s,
    decreases s.len(),
{
    if s.len() > 0 {
        lemma_strip_cr_identity_without_cr(s.drop_last());
        assert(s.drop_last().push(s.last()) =~= s);
    }
}

/// Stripping twice is stripping once.
pub proof fn lemma_strip_cr_idempotent(s: Seq<u8>)
    ensures
        strip_cr(strip_cr(s)) == strip_cr(s),
{
    lemma_strip_cr_no_cr(s);
    lemma_strip_cr_identity_without_cr(strip_cr(s));
}

proof fn lemma_strip_cr_no_cr(s: Seq<u8>)
    ensures
        forall|i: int| 0 <= i < strip_cr(s).len() ==> strip_cr(s)[i] != 13,
    decreases s.len(),
{
    if s.len() > 0 {
        lemma_strip_cr_no_cr(s.drop_last());
        let p = strip_cr(s.drop_last());
        let t = strip_cr(s);
        assert forall|i: int| 0 <= i < t.len() implies t[i] != 13 by {
            if i < p.len() {
                assert(t[i] == p[i]);
            }
        }
    }
}

/// Check a liquid's declared sideways spread: `Ok(d)` exactly when
/// `1 <= d <= DISPERSION_MAX` (0 is meaningless, more would let a write
/// leave the write window).
pub fn validate_dispersion(d: u8) -> (r: Result<u8, String>)
    ensures
        r is Ok <==> 1 <= d <= DISPERSION_MAX,
        r is Ok ==> r->Ok_0 == d,
{
    if d < 1 || d > DISPERSION_MAX {
        return Err("dispersion out of range [1, DISPERSION_MAX]".to_string());
    }
    Ok(d)
}

/// The fixed-point fields of the emitters among `ops`, in order: for each
/// `Emit`, the raw `x`, `y`, `vx`, `vy` and `jitter` as little-endian bytes.
pub open spec fn emit_fx_bytes(ops: Seq<Op>) -> Seq<u8>
    decreases ops.len(),
{
    if ops.len() == 0 {
        seq![]
    } else {
        emit_fx_bytes(ops.drop_last()) + match ops.last() {
            Op::Emit { x, y, vx, vy, jitter, .. } => u32_le(x.0 as u32) + u32_le(y.0 as u32) + u32_le(vx.0 as u32)
                + u32_le(vy.0 as u32) + u32_le(jitter.0 as u32),
            _ => seq![],
        }
    }
}

/// Hash of the parsed emitter values of `ops` (so that two peers whose
/// parsers turned the same text into different fixed-point values do not
/// agree on a fingerprint).
pub fn fold_fx_fields(ops: &[Op]) -> (r: u64)
    ensures
        r == xxh3_64_spec(emit_fx_bytes(ops@)),
{
    let mut bytes: Vec<u8> = Vec::new();
    let mut i: usize = 0;
    while i < ops.len()
        invariant
            i <= ops@.len(),
            bytes@ == emit_fx_bytes(ops@.subrange(0, i as int)),
        decreases ops@.len() - i,
    {
        let ghost before = bytes@;
        match ops[i] {
            Op::Emit { x, y, vx, vy, jitter, .. } => {
                push_u32_le(&mut bytes, x.0 as u32);
                push_u32_le(&mut bytes, y.0 as u32);
                push_u32_le(&mut bytes, vx.0 as u32);
                push_u32_le(&mut bytes, vy.0 as u32);
                push_u32_le(&mut bytes, jitter.0 as u32);
            },
            _ => {},
        }
        proof {
            let s = ops@.subrange(0, i as int + 1);
            assert(s.drop_last() =~= ops@.subrange(0, i as int));
            assert(s.last() == ops@[i as int]);
            assert(bytes@ =~= emit_fx_bytes(s));
        }
        i = i + 1;
    }
    proof {
        assert(ops@.subrange(0, ops@.len() as int) =~= ops@);
    }
    xxh3_64_bytes(bytes.as_slice())
}

/// The operations of a scenario in fingerprint order: setup first, then
/// the script, each in declaration order.
pub open spec fn scenario_ops(setup: Seq<Op>, script: Seq<(ScheduleKind, Op)>) -> Seq<Op> {
    setup + script.map_values(|e: (ScheduleKind, Op)| e.1)
}

/// A scenario's fingerprint: the hash of its normalised file bytes combined
/// with the hash of its parsed emitter values.
pub open spec fn scenario_fingerprint_spec(source: Seq<u8>, setup: Seq<Op>, script: Seq<(ScheduleKind, Op)>) -> u64 {
    combine_spec(xxh3_64_spec(strip_cr(source)), xxh3_64_spec(emit_fx_bytes(scenario_ops(setup, script))))
}

/// Fingerprint of a scenario from its file bytes and its parsed operations.
pub fn scenario_fingerprint(source: &[u8], setup: &[Op], script: &[(ScheduleKind, Op)]) -> (r: u64)
    ensures
        r == scenario_fingerprint_spec(source@, setup@, script@),
{
    let norm = normalize_for_fingerprint(source);
    let source_fp = xxh3_64_bytes(norm.as_slice());
    let mut all: Vec<Op> = Vec::new();
    let mut i: usize = 0;
    while i < setup.len()
        invariant
            i <= setup@.len(),
            all@ == setup@.subrange(0, i as int),
        decreases setup@.len() - i,
    {
        all.push(setup[i]);
        proof {
            assert(all@ =~= setup@.subrange(0, i as int + 1));
        }
        i = i + 1;
    }
    let mut j: usize = 0;
    while j < script.len()
        invariant
            i == setup@.len(),
            j <= script@.len(),
            all@ == setup@ + script@.subrange(0, j as int).map_values(|e: (ScheduleKind, Op)| e.1),
        decreases script@.len() - j,
    {
        let (_, op) = script[j];
        all.push(op);
        proof {
            assert(all@ =~= setup@ + script@.subrange(0, j as int + 1).map_values(|e: (ScheduleKind, Op)| e.1));
        }
        j = j + 1;
    }
    proof {
        assert(setup@.subrange(0, setup@.len() as int) =~= setup@);
        assert(script@.subrange(0, script@.len() as int) =~= script@);
        assert(all@ =~= scenario_ops(setup@, script@));
    }
    let fx_fp = fold_fx_fields(all.as_slice());
    combine(source_fp, fx_fp)
}

} // verus!
