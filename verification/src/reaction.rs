//! The reaction table: a dense `n x n` index over the reactions, stored
//! contiguously per material pair in load order. Entries arrive normalized
//! (ids resolved, initiator first: `a < b`); the table only indexes them.

use vstd::prelude::*;

use crate::material::{Category, MaterialTable};

verus! {

/// One normalized reaction: `a < b`; several reactions of one pair are
/// tried in load order.
#[derive(Clone, Copy, Debug, PartialEq, Eq)]
pub struct ReactionRule {
    pub a: u8,
    pub b: u8,
    /// Product on the initiator's (`a`) side.
    pub out_a: u8,
    /// Product on the neighbour's (`b`) side.
    pub out_b: u8,
    /// Probability threshold out of 255 (0 = never, 255 = always).
    pub threshold: u8,
}

/// The reactions of `s` for the pair `(a, b)`, in order.
pub open spec fn pair_rules(s: Seq<ReactionRule>, a: u8, b: u8) -> Seq<ReactionRule>
    decreases s.len(),
{
    if s.len() == 0 {
        Seq::empty()
    } else {
        pair_rules(s.drop_last(), a, b) + if s.last().a == a && s.last().b == b {
            seq![s.last()]
        } else {
            Seq::empty()
        }
    }
}

/// Pair-key order: by initiator, then by neighbour.
pub open spec fn key_le(x: ReactionRule, y: ReactionRule) -> bool {
    x.a < y.a || (x.a == y.a && x.b <= y.b)
}

pub open spec fn sorted_by_key(s: Seq<ReactionRule>) -> bool {
    forall|i: int, j: int| 0 <= i < j < s.len() ==> key_le(s[i], s[j])
}

/// The reactions of a concatenation are those of each part.
pub proof fn lemma_pair_rules_add(s1: Seq<ReactionRule>, s2: Seq<ReactionRule>, a: u8, b: u8)
    ensures
        pair_rules(s1 + s2, a, b) == pair_rules(s1, a, b) + pair_rules(s2, a, b),
    decreases s2.len(),
{
    if s2.len() == 0 {
        assert(s1 + s2 =~= s1);
        assert(pair_rules(s1, a, b) + pair_rules(s2, a, b) =~= pair_rules(s1, a, b));
    } else {
        lemma_pair_rules_add(s1, s2.drop_last(), a, b);
        assert((s1 + s2).drop_last() =~= s1 + s2.drop_last());
        assert(pair_rules(s1 + s2, a, b) =~= pair_rules(s1, a, b) + pair_rules(s2, a, b));
    }
}

/// Without any reaction of the pair, the pair's list is empty; with only
/// reactions of the pair, it is everything.
pub proof fn lemma_pair_rules_all_or_none(s: Seq<ReactionRule>, a: u8, b: u8)
    ensures
        (forall|i: int| 0 <= i < s.len() ==> !(s[i].a == a && s[i].b == b)) ==> pair_rules(s, a, b) == Seq::<
            ReactionRule,
        >::empty(),
        (forall|i: int| 0 <= i < s.len() ==> s[i].a == a && s[i].b == b) ==> pair_rules(s, a, b) == s,
    decreases s.len(),
{
    if s.len() > 0 {
        lemma_pair_rules_all_or_none(s.drop_last(), a, b);
        if forall|i: int| 0 <= i < s.len() ==> s[i].a == a && s[i].b == b {
            assert(forall|i: int| 0 <= i < s.drop_last().len() ==> s.drop_last()[i].a == a && s.drop_last()[i].b == b);
            assert(pair_rules(s, a, b) =~= s);
        }
        if forall|i: int| 0 <= i < s.len() ==> !(s[i].a == a && s[i].b == b) {
            assert(forall|i: int| 0 <= i < s.drop_last().len() ==> !(s.drop_last()[i].a == a && s.drop_last()[i].b == b));
            assert(pair_rules(s, a, b) =~= Seq::<ReactionRule>::empty());
        }
    }
}

/// Stable sort by pair key: the pairs' lists keep their load order.
fn sort_rules(rules: &Vec<ReactionRule>) -> (out: Vec<ReactionRule>)
    ensures
        out@.len() == rules@.len(),
        sorted_by_key(out@),
        forall|a: u8, b: u8| #[trigger] pair_rules(out@, a, b) == pair_rules(rules@, a, b),
        forall|i: int| 0 <= i < out@.len() ==> rules@.contains(#[trigger] out@[i]),
{
    let mut out: Vec<ReactionRule> = Vec::new();
    let mut i: usize = 0;
    while i < rules.len()
        invariant
            i <= rules@.len(),
            out@.len() == i,
            sorted_by_key(out@),
            forall|a: u8, b: u8| #[trigger] pair_rules(out@, a, b) == pair_rules(rules@.subrange(0, i as int), a, b),
            forall|k: int| 0 <= k < out@.len() ==> rules@.contains(#[trigger] out@[k]),
        decreases rules@.len() - i,
    {
        let r = rules[i];
        let mut p: usize = out.len();
        while p > 0 && !(out[p - 1].a < r.a || (out[p - 1].a == r.a && out[p - 1].b <= r.b))
            invariant
                p <= out@.len(),
                sorted_by_key(out@),
                forall|k: int| p <= k < out@.len() ==> !key_le(#[trigger] out@[k], r),
            decreases p,
        {
            p -= 1;
        }
        let ghost o = out@;
        proof {
            // everything before p is at most r's key
            assert forall|k: int| 0 <= k < p implies key_le(#[trigger] o[k], r) by {
                if p > 0 {
                    assert(key_le(o[p - 1], r));
                    if k < p - 1 {
                        assert(key_le(o[k], o[p - 1]));
                    }
                }
            }
        }
        out.insert(p, r);
        proof {
            let pre = o.subrange(0, p as int);
            let post = o.subrange(p as int, o.len() as int);
            assert(o =~= pre + post);
            assert(out@ =~= pre + seq![r] + post);
            assert(rules@.subrange(0, i as int + 1) =~= rules@.subrange(0, i as int) + seq![r]);
            assert forall|a: u8, b: u8| #[trigger] pair_rules(out@, a, b) == pair_rules(rules@.subrange(0, i as int + 1), a, b) by {
                lemma_pair_rules_add(pre + seq![r], post, a, b);
                lemma_pair_rules_add(pre, seq![r], a, b);
                lemma_pair_rules_add(pre, post, a, b);
                lemma_pair_rules_add(rules@.subrange(0, i as int), seq![r], a, b);
                assert(seq![r].drop_last() =~= Seq::<ReactionRule>::empty());
                let pr = pair_rules(seq![r], a, b);
                assert(seq![r].drop_last() =~= Seq::<ReactionRule>::empty());
                assert(seq![r].last() == r);
                assert(pair_rules(Seq::<ReactionRule>::empty(), a, b) =~= Seq::<ReactionRule>::empty());
                assert(pair_rules(seq![r], a, b) == pair_rules(seq![r].drop_last(), a, b) + if r.a == a && r.b == b {
                    seq![r]
                } else {
                    Seq::empty()
                });
                if r.a == a && r.b == b {
                    assert(pr =~= seq![r]);
                    assert forall|k: int| 0 <= k < post.len() implies !(post[k].a == a && post[k].b == b) by {
                        assert(!key_le(o[p + k], r));
                    }
                    lemma_pair_rules_all_or_none(post, a, b);
                    assert(pair_rules(post, a, b) =~= Seq::<ReactionRule>::empty());
                    assert(pair_rules(o, a, b) =~= pair_rules(pre, a, b));
                    assert(pair_rules(out@, a, b) =~= pair_rules(pre, a, b) + pr);
                } else {
                    assert(pr =~= Seq::<ReactionRule>::empty());
                    assert(pair_rules(out@, a, b) =~= pair_rules(o, a, b));
                    assert(pair_rules(rules@.subrange(0, i as int + 1), a, b) =~= pair_rules(rules@.subrange(0, i as int), a, b));
                }
            }
            assert forall|x: int, y: int| 0 <= x < y < out@.len() implies key_le(out@[x], out@[y]) by {
                if x < p && y == p {
                } else if x == p && y > p {
                    assert(!key_le(o[y - 1], r));
                } else if x < p && y > p {
                    assert(key_le(o[x], r));
                    assert(!key_le(o[y - 1], r));
                } else if y < p {
                    assert(key_le(o[x], o[y]));
                } else {
                    assert(key_le(o[x - 1], o[y - 1]));
                }
            }
            assert forall|k: int| 0 <= k < out@.len() implies rules@.contains(#[trigger] out@[k]) by {
                if k < p {
                    assert(out@[k] == o[k]);
                } else if k == p {
                    assert(rules@[i as int] == r);
                } else {
                    assert(out@[k] == o[k - 1]);
                }
            }
        }
        i += 1;
    }
    proof {
        assert(rules@.subrange(0, rules@.len() as int) =~= rules@);
    }
    out
}

/// The reaction table.
pub struct ReactionTable {
    n: usize,
    /// `n x n` index `[a * n + b]`: 0 = no reaction, else 1 + start offset.
    index: Vec<u16>,
    /// Reactions ordered by pair key, load order kept within a pair.
    rules: Vec<ReactionRule>,
    /// Per material: whether it initiates some reaction.
    initiates: Vec<bool>,
    /// Per material: whether cell evaluation must visit it (`!static || initiates`).
    needs_eval: Vec<bool>,
    /// The reactions as they were loaded.
    loaded: Ghost<Seq<ReactionRule>>,
}

/// Whether some reaction of `s` has initiator `m`.
pub open spec fn initiates_spec(s: Seq<ReactionRule>, m: int) -> bool {
    exists|i: int| 0 <= i < s.len() && s[i].a == m
}

/// Index of the first reaction of the pair `(a, b)` in `s` (when there is one).
pub open spec fn first_of(s: Seq<ReactionRule>, a: u8, b: u8, j: int) -> bool {
    0 <= j < s.len() && s[j].a == a && s[j].b == b && forall|k: int| 0 <= k < j ==> !(#[trigger] s[k].a == a && s[k].b == b)
}

/// An element-for-element copy of `v`.
fn copy_vec<T: Copy>(v: &Vec<T>) -> (r: Vec<T>)
    ensures
        r@ == v@,
{
    let mut out: Vec<T> = Vec::new();
    let mut i: usize = 0;
    while i < v.len()
        invariant
            i <= v@.len(),
            out@ == v@.subrange(0, i as int),
        decreases v@.len() - i,
    {
        out.push(v[i]);
        i = i + 1;
        proof {
            assert(out@ =~= v@.subrange(0, i as int));
        }
    }
    proof {
        assert(out@ =~= v@);
    }
    out
}

impl Clone for ReactionTable {
    /// A copy of the table: same materials, same index, same reactions.
    fn clone(&self) -> (r: ReactionTable)
        ensures
            r.n_spec() == self.n_spec(),
            r.loaded_spec() == self.loaded_spec(),
            forall|m: int| 0 <= m < self.n_spec() ==> r.initiates_at(m) == self.initiates_at(m)
                && r.needs_eval_at(m) == self.needs_eval_at(m),
    {
        proof { use_type_invariant(self); }
        ReactionTable {
            n: self.n,
            index: copy_vec(&self.index),
            rules: copy_vec(&self.rules),
            initiates: copy_vec(&self.initiates),
            needs_eval: copy_vec(&self.needs_eval),
            loaded: Ghost(self.loaded@),
        }
    }
}

impl ReactionTable {
    #[verifier::type_invariant]
    closed spec fn inv(self) -> bool {
        let n = self.n as int;
        &&& 2 <= n <= 255
        &&& self.index@.len() == n * n
        &&& self.initiates@.len() == n
        &&& self.needs_eval@.len() == n
        &&& self.rules@.len() < 0xFFFF
        &&& sorted_by_key(self.rules@)
        &&& forall|a: u8, b: u8| #[trigger] pair_rules(self.rules@, a, b) == pair_rules(self.loaded@, a, b)
        &&& forall|i: int| 0 <= i < self.rules@.len() ==> (#[trigger] self.rules@[i]).a < self.rules@[i].b
            && (self.rules@[i].b as int) < n
        &&& forall|a: u8, b: u8|
            (a as int) < n && (b as int) < n ==> {
                let v = #[trigger] self.index@[a * n + b];
                &&& v == 0 ==> forall|k: int| 0 <= k < self.rules@.len() ==> !(#[trigger] self.rules@[k].a == a && self.rules@[k].b == b)
                &&& v != 0 ==> first_of(self.rules@, a, b, v - 1)
            }
        &&& forall|m: int| 0 <= m < n ==> #[trigger] self.initiates@[m] == initiates_spec(self.rules@, m)
    }

    /// Number of materials.
    pub closed spec fn n_spec(&self) -> nat {
        self.n as nat
    }

    /// The reactions as loaded.
    pub closed spec fn loaded_spec(&self) -> Seq<ReactionRule> {
        self.loaded@
    }

    /// Whether material `m` initiates some reaction.
    pub closed spec fn initiates_at(&self, m: int) -> bool {
        self.initiates@[m]
    }

    /// Whether cell evaluation visits material `m`.
    pub closed spec fn needs_eval_at(&self, m: int) -> bool {
        self.needs_eval@[m]
    }

    /// Build from normalized reactions. Refused when the material count is
    /// too large for a 16-bit dense index (256), when a reaction names an id
    /// outside the table or is not normalized (`a < b`), or when there are
    /// 65535 or more reactions.
    pub fn new(table: &MaterialTable, rules: Vec<ReactionRule>) -> (r: Result<ReactionTable, String>)
        ensures
            r is Ok <==> {
                &&& table@.len() * table@.len() <= 0xFFFF
                &&& forall|i: int| 0 <= i < rules@.len() ==> {
                    let x = #[trigger] rules@[i];
                    &&& (x.a as int) < table@.len() && (x.b as int) < table@.len()
                    &&& (x.out_a as int) < table@.len() && (x.out_b as int) < table@.len()
                    &&& x.a < x.b
                }
                &&& rules@.len() < 0xFFFF
            },
            r matches Ok(t) ==> {
                &&& t.n_spec() == table@.len()
                &&& t.loaded_spec() == rules@
                &&& forall|m: int| 0 <= m < table@.len() ==> #[trigger] t.initiates_at(m) == initiates_spec(rules@, m)
                &&& forall|m: int| 0 <= m < table@.len() ==> #[trigger] t.needs_eval_at(m) == (table@[m].category
                    != Category::Static || initiates_spec(rules@, m))
            },
    {
        let n = table.len();
        proof {
            assert(n * n <= 65536) by (nonlinear_arith)
                requires n <= 256;
        }
        if n * n > 0xFFFF {
            return Err("too many materials for the dense reaction index".to_owned());
        }
        let mut i: usize = 0;
        while i < rules.len()
            invariant
                n == table@.len(),
                n * n <= 0xFFFF,
                i <= rules@.len(),
                forall|k: int| 0 <= k < i ==> {
                    let x = #[trigger] rules@[k];
                    &&& (x.a as int) < n && (x.b as int) < n
                    &&& (x.out_a as int) < n && (x.out_b as int) < n
                    &&& x.a < x.b
                },
            decreases rules@.len() - i,
        {
            let x = rules[i];
            if (x.a as usize) >= n || (x.b as usize) >= n || (x.out_a as usize) >= n || (x.out_b as usize) >= n {
                return Err("a reaction names a material id outside the table".to_owned());
            }
            if x.a >= x.b {
                return Err("a reaction must be normalized with a < b".to_owned());
            }
            i += 1;
        }
        if rules.len() >= 0xFFFF {
            return Err("too many reactions for the 16-bit index".to_owned());
        }
        let sorted = sort_rules(&rules);
        proof {
            assert(n <= 255) by (nonlinear_arith)
                requires n * n <= 0xFFFF, n >= 2;
        }
        let mut index: Vec<u16> = Vec::new();
        let mut k: usize = 0;
        while k < n * n
            invariant
                n * n <= 0xFFFF,
                k <= n * n,
                index@.len() == k,
                forall|j: int| 0 <= j < k ==> #[trigger] index@[j] == 0,
            decreases n * n - k,
        {
            index.push(0);
            k += 1;
        }
        let mut initiates: Vec<bool> = Vec::new();
        let mut m: usize = 0;
        while m < n
            invariant
                m <= n,
                initiates@.len() == m,
                forall|j: int| 0 <= j < m ==> !#[trigger] initiates@[j],
            decreases n - m,
        {
            initiates.push(false);
            m += 1;
        }
        proof {
            assert forall|a: u8, b: u8| (a as int) < n && (b as int) < n implies #[trigger] index@[a * n + b] == 0 by {
                lemma_index_bound(n as int, a as int, b as int);
            }
            assert forall|q: int| 0 <= q < sorted@.len() implies (#[trigger] sorted@[q]).a < sorted@[q].b && (sorted@[q].b as int) < n by {
                assert(rules@.contains(sorted@[q]));
                let w = choose|w: int| 0 <= w < rules@.len() && rules@[w] == sorted@[q];
                assert(rules@[w] == sorted@[q]);
            }
        }
        let mut j: usize = 0;
        while j < sorted.len()
            invariant
                2 <= n <= 255,
                n * n <= 0xFFFF,
                n == table@.len(),
                j <= sorted@.len(),
                sorted@.len() == rules@.len(),
                rules@.len() < 0xFFFF,
                index@.len() == n * n,
                initiates@.len() == n,
                forall|q: int| 0 <= q < sorted@.len() ==> (#[trigger] sorted@[q]).a < sorted@[q].b && (sorted@[q].b as int) < n,
                forall|a: u8, b: u8|
                    (a as int) < n && (b as int) < n ==> {
                        let v = #[trigger] index@[a * n + b];
                        &&& v == 0 ==> forall|q: int| 0 <= q < j ==> !(#[trigger] sorted@[q].a == a && sorted@[q].b == b)
                        &&& v != 0 ==> first_of(sorted@, a, b, v - 1) && v - 1 < j
                    },
                forall|mm: int| 0 <= mm < n ==> #[trigger] initiates@[mm] == exists|q: int| 0 <= q < j && sorted@[q].a == mm,
            decreases sorted@.len() - j,
        {
            let x = sorted[j];
            proof {
                lemma_index_bound(n as int, x.a as int, x.b as int);
            }
            let slot = (x.a as usize) * n + (x.b as usize);
            let ghost idx0 = index@;
            let ghost ini0 = initiates@;
            if index[slot] == 0 {
                index.set(slot, (j + 1) as u16);
            }
            initiates.set(x.a as usize, true);
            proof {
                assert forall|a: u8, b: u8| (a as int) < n && (b as int) < n implies {
                    let v = #[trigger] index@[a * n + b];
                    &&& v == 0 ==> forall|q: int| 0 <= q < j + 1 ==> !(#[trigger] sorted@[q].a == a && sorted@[q].b == b)
                    &&& v != 0 ==> first_of(sorted@, a, b, v - 1) && v - 1 < j + 1
                } by {
                    lemma_index_bound(n as int, a as int, b as int);
                    if a * n + b == slot as int {
                        crate::world::lemma_unique_decomp(a as int, b as int, x.a as int, x.b as int, n as int);
                    } else {
                        assert(index@[a * n + b] == idx0[a * n + b]);
                    }
                }
                assert forall|mm: int| 0 <= mm < n implies #[trigger] initiates@[mm] == exists|q: int| 0 <= q < j + 1 && sorted@[q].a == mm by {
                    if mm == x.a {
                        assert(sorted@[j as int].a == mm);
                    } else {
                        assert(initiates@[mm] == ini0[mm]);
                        if exists|q: int| 0 <= q < j + 1 && sorted@[q].a == mm {
                            let q = choose|q: int| 0 <= q < j + 1 && sorted@[q].a == mm;
                            assert(q != j);
                        }
                    }
                }
            }
            j += 1;
        }
        let mut needs_eval: Vec<bool> = Vec::new();
        let mut m2: usize = 0;
        while m2 < n
            invariant
                m2 <= n,
                n <= 255,
                n == table@.len(),
                initiates@.len() == n,
                needs_eval@.len() == m2,
                forall|q: int| 0 <= q < m2 ==> #[trigger] needs_eval@[q] == (table@[q].category != Category::Static
                    || initiates@[q]),
            decreases n - m2,
        {
            needs_eval.push(!table.is_static(m2 as u8) || initiates[m2]);
            m2 += 1;
        }
        proof {
            assert forall|mm: int| 0 <= mm < n implies #[trigger] initiates@[mm] == initiates_spec(rules@, mm) by {
                if initiates@[mm] {
                    let q = choose|q: int| 0 <= q < sorted@.len() && sorted@[q].a == mm;
                    assert(rules@.contains(sorted@[q]));
                    let w = choose|w: int| 0 <= w < rules@.len() && rules@[w] == sorted@[q];
                    assert(rules@[w].a == mm);
                }
                if initiates_spec(rules@, mm) {
                    let w = choose|w: int| 0 <= w < rules@.len() && rules@[w].a == mm;
                    let x = rules@[w];
                    lemma_pair_rules_member(rules@, x.a, x.b, w);
                    assert(pair_rules(sorted@, x.a, x.b) == pair_rules(rules@, x.a, x.b));
                    lemma_pair_nonempty_has(sorted@, x.a, x.b);
                    let q = choose|q: int| 0 <= q < sorted@.len() && sorted@[q].a == x.a && sorted@[q].b == x.b;
                    assert(sorted@[q].a == mm);
                }
            }
        }
        Ok(ReactionTable { n, index, rules: sorted, initiates, needs_eval, loaded: Ghost(rules@) })
    }

    /// A table with no reactions (for a table of at most 255 materials).
    pub fn empty(table: &MaterialTable) -> (r: ReactionTable)
        requires
            table@.len() <= 255,
        ensures
            r.n_spec() == table@.len(),
            r.loaded_spec() == Seq::<ReactionRule>::empty(),
            forall|m: int| 0 <= m < table@.len() ==> !#[trigger] r.initiates_at(m),
            forall|m: int| 0 <= m < table@.len() ==> #[trigger] r.needs_eval_at(m) == (table@[m].category
                != Category::Static),
    {
        let n = table.len();
        proof {
            assert(n * n <= 0xFFFF) by (nonlinear_arith)
                requires n <= 255;
        }
        let rules: Vec<ReactionRule> = Vec::new();
        let r = ReactionTable::new(table, rules);
        proof {
            assert(r is Ok);
        }
        r.unwrap()
    }

    /// The reactions of the pair `(a, b)` (initiator first), in load order;
    /// empty when the pair has none.
    pub fn get(&self, a: u8, b: u8) -> (r: Vec<ReactionRule>)
        requires
            a < b,
            (b as int) < self.n_spec(),
        ensures
            r@ == pair_rules(self.loaded_spec(), a, b),
    {
        proof { use_type_invariant(self); }
        let n = self.n;
        proof {
            lemma_index_bound(n as int, a as int, b as int);
            assert(n * n <= 65025) by (nonlinear_arith)
                requires n <= 255;
        }
        let off = self.index[(a as usize) * n + (b as usize)];
        let mut out: Vec<ReactionRule> = Vec::new();
        if off == 0 {
            proof {
                lemma_pair_rules_all_or_none(self.rules@, a, b);
                assert(out@ =~= pair_rules(self.rules@, a, b));
            }
            return out;
        }
        let start = (off - 1) as usize;
        let mut end = start;
        let mut more = end < self.rules.len() && self.rules[end].a == a && self.rules[end].b == b;
        while more
            invariant
                start <= end <= self.rules@.len(),
                self.rules@.len() < 0xFFFF,
                first_of(self.rules@, a, b, start as int),
                out@ == self.rules@.subrange(start as int, end as int),
                forall|k: int| start <= k < end ==> (#[trigger] self.rules@[k]).a == a && self.rules@[k].b == b,
                more == (end < self.rules@.len() && self.rules@[end as int].a == a && self.rules@[end as int].b == b),
            decreases self.rules@.len() - end,
        {
            proof {
                assert(end < self.rules@.len());
                assert(self.rules@[end as int].a == a && self.rules@[end as int].b == b);
            }
            out.push(self.rules[end]);
            proof {
                assert(out@ =~= self.rules@.subrange(start as int, end as int + 1));
            }
            end += 1;
            more = end < self.rules.len() && self.rules[end].a == a && self.rules[end].b == b;
        }
        proof {
            let s = self.rules@;
            let pre = s.subrange(0, start as int);
            let mid = s.subrange(start as int, end as int);
            let post = s.subrange(end as int, s.len() as int);
            assert(s =~= pre + mid + post);
            lemma_pair_rules_add(pre + mid, post, a, b);
            lemma_pair_rules_add(pre, mid, a, b);
            lemma_pair_rules_all_or_none(pre, a, b);
            lemma_pair_rules_all_or_none(mid, a, b);
            assert forall|k: int| 0 <= k < post.len() implies !(post[k].a == a && post[k].b == b) by {
                // the key of s[end] exceeds (a, b), and so do all after it
                assert(!(s[end as int].a == a && s[end as int].b == b));
                assert(key_le(s[start as int], s[end as int]));
                if k > 0 {
                    assert(key_le(s[end as int], s[end + k]));
                }
            }
            lemma_pair_rules_all_or_none(post, a, b);
            assert(pair_rules(s, a, b) =~= mid);
        }
        out
    }

    /// Whether material `a` initiates some reaction.
    pub fn initiates(&self, a: u8) -> (r: bool)
        requires
            (a as int) < self.n_spec(),
        ensures
            r == self.initiates_at(a as int),
            r == initiates_spec(self.loaded_spec(), a as int),
    {
        proof {
            use_type_invariant(self);
            lemma_initiates_pairs(self.rules@, self.loaded@, a as int);
        }
        self.initiates[a as usize]
    }

    /// Whether cell evaluation must visit material `m`.
    pub fn needs_eval(&self, m: u8) -> (r: bool)
        requires
            (m as int) < self.n_spec(),
        ensures
            r == self.needs_eval_at(m as int),
    {
        proof { use_type_invariant(self); }
        self.needs_eval[m as usize]
    }
}

/// Dense index bounds: `a * n + b < n * n` for `a, b < n`.
pub proof fn lemma_index_bound(n: int, a: int, b: int)
    requires
        0 <= a < n,
        0 <= b < n,
    ensures
        0 <= a * n + b < n * n,
{
    assert(0 <= a * n + b < n * n) by (nonlinear_arith)
        requires
            0 <= a < n,
            0 <= b < n,
    ;
}

/// An element of `s` belongs to the list of its pair.
pub proof fn lemma_pair_rules_member(s: Seq<ReactionRule>, a: u8, b: u8, w: int)
    requires
        0 <= w < s.len(),
        s[w].a == a && s[w].b == b,
    ensures
        pair_rules(s, a, b).len() > 0,
    decreases s.len(),
{
    if w < s.len() - 1 {
        lemma_pair_rules_member(s.drop_last(), a, b, w);
    }
}

/// Two reaction lists with the same per-pair lists have the same initiators.
pub proof fn lemma_initiates_pairs(s1: Seq<ReactionRule>, s2: Seq<ReactionRule>, m: int)
    requires
        forall|a: u8, b: u8| #[trigger] pair_rules(s1, a, b) == pair_rules(s2, a, b),
    ensures
        initiates_spec(s1, m) == initiates_spec(s2, m),
{
    if initiates_spec(s1, m) {
        let w = choose|w: int| 0 <= w < s1.len() && s1[w].a == m;
        lemma_pair_rules_member(s1, s1[w].a, s1[w].b, w);
        lemma_pair_nonempty_has(s2, s1[w].a, s1[w].b);
    }
    if initiates_spec(s2, m) {
        let w = choose|w: int| 0 <= w < s2.len() && s2[w].a == m;
        lemma_pair_rules_member(s2, s2[w].a, s2[w].b, w);
        lemma_pair_nonempty_has(s1, s2[w].a, s2[w].b);
    }
}

/// A non-empty pair list comes from some element of that pair.
pub proof fn lemma_pair_nonempty_has(s: Seq<ReactionRule>, a: u8, b: u8)
    requires
        pair_rules(s, a, b).len() > 0,
    ensures
        exists|w: int| 0 <= w < s.len() && s[w].a == a && s[w].b == b,
    decreases s.len(),
{
    if s.len() > 0 {
        if s.last().a == a && s.last().b == b {
            assert(s[s.len() - 1].a == a);
        } else {
            assert(pair_rules(s, a, b) =~= pair_rules(s.drop_last(), a, b));
            lemma_pair_nonempty_has(s.drop_last(), a, b);
            let w = choose|w: int| 0 <= w < s.drop_last().len() && s.drop_last()[w].a == a && s.drop_last()[w].b == b;
            assert(s[w] == s.drop_last()[w]);
        }
    }
}


/// The rule for materials `a` and `b` reacting into `out_a` and `out_b`,
/// turned so that the smaller id initiates.
pub open spec fn normalized(a: u8, b: u8, out_a: u8, out_b: u8, threshold: u8) -> ReactionRule {
    if a < b {
        ReactionRule { a, b, out_a, out_b, threshold }
    } else {
        ReactionRule { a: b, b: a, out_a: out_b, out_b: out_a, threshold }
    }
}

/// The rules of one reaction entry for initiator `a` against every id of
/// `side_b` in order, a material never reacting with itself.
pub open spec fn row_rules(a: u8, side_b: Seq<u8>, out_a: u8, out_b: u8, threshold: u8) -> Seq<ReactionRule>
    decreases side_b.len(),
{
    if side_b.len() == 0 {
        seq![]
    } else {
        row_rules(a, side_b.drop_last(), out_a, out_b, threshold) + if a == side_b.last() {
            seq![]
        } else {
            seq![normalized(a, side_b.last(), out_a, out_b, threshold)]
        }
    }
}

/// The rules of one reaction entry: `side_a` outer, `side_b` inner, in order.
pub open spec fn entry_rules(side_a: Seq<u8>, side_b: Seq<u8>, out_a: u8, out_b: u8, threshold: u8) -> Seq<ReactionRule>
    decreases side_a.len(),
{
    if side_a.len() == 0 {
        seq![]
    } else {
        entry_rules(side_a.drop_last(), side_b, out_a, out_b, threshold) + row_rules(side_a.last(), side_b, out_a, out_b, threshold)
    }
}

/// Append the rules of one reaction entry whose two inputs expanded to the
/// ids `side_a` and `side_b`: every pair of distinct ids, normalized so that
/// the smaller id initiates. A material reacting with itself (both inputs
/// the same single material) is refused.
pub fn push_entry_rules(side_a: &[u8], side_b: &[u8], out_a: u8, out_b: u8, threshold: u8, rules: &mut Vec<ReactionRule>) -> (r: Result<(), String>)
    ensures
        r is Err <==> side_a@.len() == 1 && side_b@.len() == 1 && side_a@[0] == side_b@[0],
        r is Err ==> final(rules)@ == old(rules)@,
        r is Ok ==> final(rules)@ == old(rules)@ + entry_rules(side_a@, side_b@, out_a, out_b, threshold),
{
    if side_a.len() == 1 && side_b.len() == 1 && side_a[0] == side_b[0] {
        return Err("a material cannot react with itself".to_string());
    }
    let ghost r0 = rules@;
    let mut i: usize = 0;
    while i < side_a.len()
        invariant
            i <= side_a@.len(),
            rules@ == r0 + entry_rules(side_a@.subrange(0, i as int), side_b@, out_a, out_b, threshold),
        decreases side_a@.len() - i,
    {
        let a = side_a[i];
        let ghost r1 = rules@;
        let mut j: usize = 0;
        while j < side_b.len()
            invariant
                j <= side_b@.len(),
                rules@ == r1 + row_rules(a, side_b@.subrange(0, j as int), out_a, out_b, threshold),
            decreases side_b@.len() - j,
        {
            let b = side_b[j];
            if a != b {
                if a < b {
                    rules.push(ReactionRule { a, b, out_a, out_b, threshold });
                } else {
                    rules.push(ReactionRule { a: b, b: a, out_a: out_b, out_b: out_a, threshold });
                }
            }
            proof {
                let sb = side_b@.subrange(0, j as int + 1);
                assert(sb.drop_last() =~= side_b@.subrange(0, j as int));
                assert(sb.last() == b);
                assert(rules@ =~= r1 + row_rules(a, sb, out_a, out_b, threshold));
            }
            j = j + 1;
        }
        proof {
            assert(side_b@.subrange(0, side_b@.len() as int) =~= side_b@);
            let sa = side_a@.subrange(0, i as int + 1);
            assert(sa.drop_last() =~= side_a@.subrange(0, i as int));
            assert(sa.last() == a);
            assert(rules@ =~= r0 + entry_rules(sa, side_b@, out_a, out_b, threshold));
        }
        i = i + 1;
    }
    proof {
        assert(side_a@.subrange(0, side_a@.len() as int) =~= side_a@);
    }
    Ok(())
}


/// Every rule of an entry has the smaller id as initiator, and pairs
/// a material only with other materials.
pub proof fn lemma_entry_rules_initiator_first(side_a: Seq<u8>, side_b: Seq<u8>, out_a: u8, out_b: u8, threshold: u8)
    ensures
        forall|k: int| 0 <= k < entry_rules(side_a, side_b, out_a, out_b, threshold).len()
            ==> (#[trigger] entry_rules(side_a, side_b, out_a, out_b, threshold)[k]).a < entry_rules(side_a, side_b, out_a, out_b, threshold)[k].b,
    decreases side_a.len(),
{
    if side_a.len() > 0 {
        lemma_entry_rules_initiator_first(side_a.drop_last(), side_b, out_a, out_b, threshold);
        lemma_row_rules_initiator_first(side_a.last(), side_b, out_a, out_b, threshold);
        let p = entry_rules(side_a.drop_last(), side_b, out_a, out_b, threshold);
        let q = row_rules(side_a.last(), side_b, out_a, out_b, threshold);
        let e = entry_rules(side_a, side_b, out_a, out_b, threshold);
        assert forall|k: int| 0 <= k < e.len() implies (#[trigger] e[k]).a < e[k].b by {
            if k < p.len() {
                assert(e[k] == p[k]);
            } else {
                assert(e[k] == q[k - p.len()]);
            }
        }
    }
}

proof fn lemma_row_rules_initiator_first(a: u8, side_b: Seq<u8>, out_a: u8, out_b: u8, threshold: u8)
    ensures
        forall|k: int| 0 <= k < row_rules(a, side_b, out_a, out_b, threshold).len()
            ==> (#[trigger] row_rules(a, side_b, out_a, out_b, threshold)[k]).a < row_rules(a, side_b, out_a, out_b, threshold)[k].b,
    decreases side_b.len(),
{
    if side_b.len() > 0 {
        lemma_row_rules_initiator_first(a, side_b.drop_last(), out_a, out_b, threshold);
        let p = row_rules(a, side_b.drop_last(), out_a, out_b, threshold);
        let e = row_rules(a, side_b, out_a, out_b, threshold);
        assert forall|k: int| 0 <= k < e.len() implies (#[trigger] e[k]).a < e[k].b by {
            if k < p.len() {
                assert(e[k] == p[k]);
            }
        }
    }
}

} // verus!
