//! Reductions of a set-cover instance that keep its optimum: benign states
//! whose support another state's support contains are merged into it.

pub mod dominance;
pub mod predicate_merge;
pub mod weight_sums;
pub mod state_weight_sums;

pub use self::dominance::remove_dominated_predicates_fast;
pub use self::predicate_merge::merge_predicates;

use vstd::prelude::*;
use std::collections::HashMap;
use crate::data_types::general_data_types::{StateIdType, BitSetWrapper, bitset_index_ok, WaveFormSource, strictly_increasing};
use crate::constants;
use std::collections::HashSet;
use crate::set_cover_instance::{SetCoverBEXSample, SetCoverInstance, SetCoverCEXTrace, SetCoverBEXTrace,
    SetCoverPredicate, SetCoverCEXSample, UnweightedBEXSample, is_forest, root_of, find_rep, reaches_root, root_after,
    u64_keys, usize_keys, lemma_root_of, lemma_root_of_root, lemma_forest_root, lemma_root_iff, lemma_step};
use vstd::std_specs::iter::IteratorSpec;
use self::state_weight_sums::{sum_over_states, lemma_sum_states_empty, lemma_sum_states_insert, lemma_sum_states_disjoint_union, lemma_bex_total_is_sum};

verus! {

broadcast use vstd::std_specs::hash::group_hash_axioms;

// ----------------------------------------------------------------------------
// Weight totals
// ----------------------------------------------------------------------------

/// The summing step of `bex_total`.
pub open spec fn add_weight(m: Map<u64, SetCoverBEXSample>) -> spec_fn(int, u64) -> int {
    |acc: int, k: u64| acc + m[k].weight
}

/// The total weight of the benign samples of a map.
pub open spec fn bex_total(m: Map<u64, SetCoverBEXSample>) -> int {
    m.dom().fold(0int, add_weight(m))
}

/// The weights of the samples under the keys of `ks`, summed.
pub open spec fn keys_total(m: Map<u64, SetCoverBEXSample>, ks: Seq<u64>) -> int
    decreases ks.len(),
{
    if ks.len() == 0 { 0 } else { keys_total(m, ks.drop_last()) + m[ks.last()].weight }
}

proof fn lemma_add_weight_commutative(m: Map<u64, SetCoverBEXSample>)
    ensures
        vstd::set::fold::is_fun_commutative(add_weight(m)),
{
    assert forall|a1: u64, a2: u64, b: int| #[trigger] add_weight(m)(add_weight(m)(b, a1), a2) == add_weight(m)(add_weight(m)(b, a2), a1) by {
    }
}

/// Folds that add the same weights over a set agree.
proof fn lemma_fold_agree(s: Set<u64>, m1: Map<u64, SetCoverBEXSample>, m2: Map<u64, SetCoverBEXSample>)
    requires
        s.finite(),
        forall|k: u64| #[trigger] s.contains(k) ==> m1[k].weight == m2[k].weight,
    ensures
        s.fold(0int, add_weight(m1)) == s.fold(0int, add_weight(m2)),
    decreases s.len(),
{
    if s.len() == 0 {
        assert(s =~= Set::<u64>::empty());
        vstd::set::fold::lemma_fold_empty(0int, add_weight(m1));
        vstd::set::fold::lemma_fold_empty(0int, add_weight(m2));
    } else {
        let x = s.choose();
        let r = s.remove(x);
        lemma_fold_agree(r, m1, m2);
        lemma_add_weight_commutative(m1);
        lemma_add_weight_commutative(m2);
        vstd::set::fold::lemma_fold_insert(r, 0int, add_weight(m1), x);
        vstd::set::fold::lemma_fold_insert(r, 0int, add_weight(m2), x);
        assert(r.insert(x) =~= s);
    }
}

/// The total is the total without one key plus that key's weight.
proof fn lemma_bex_total_remove(b: Map<u64, SetCoverBEXSample>, k: u64)
    requires
        b.dom().finite(),
        b.contains_key(k),
    ensures
        bex_total(b) == b.dom().remove(k).fold(0int, add_weight(b)) + b[k].weight,
{
    lemma_add_weight_commutative(b);
    vstd::set::fold::lemma_fold_insert(b.dom().remove(k), 0int, add_weight(b), k);
    assert(b.dom().remove(k).insert(k) =~= b.dom());
}

/// Moving the weight of `s` onto `m` and dropping `s` keeps the total.
pub proof fn lemma_bex_total_merge_step(b: Map<u64, SetCoverBEXSample>, s: u64, m: u64, v: SetCoverBEXSample)
    requires
        b.dom().finite(),
        b.contains_key(s),
        b.contains_key(m),
        s != m,
        v.weight == b[m].weight + b[s].weight,
    ensures
        bex_total(b.remove(s).insert(m, v)) == bex_total(b),
{
    let b2 = b.remove(s).insert(m, v);
    let d0 = b.dom().remove(s).remove(m);
    lemma_bex_total_remove(b, s);
    let bs = b.dom().remove(s);
    lemma_add_weight_commutative(b);
    vstd::set::fold::lemma_fold_insert(d0, 0int, add_weight(b), m);
    assert(d0.insert(m) =~= bs);
    lemma_bex_total_remove(b2, m);
    assert(b2.dom().remove(m) =~= d0);
    lemma_fold_agree(d0, b, b2);
}

/// Summing over the keys in any order, each once, gives the total.
proof fn lemma_keys_total(m: Map<u64, SetCoverBEXSample>, ks: Seq<u64>)
    requires
        ks.no_duplicates(),
    ensures
        keys_total(m, ks) == ks.to_set().fold(0int, add_weight(m)),
    decreases ks.len(),
{
    if ks.len() == 0 {
        assert(ks.to_set() =~= Set::<u64>::empty());
        vstd::set::fold::lemma_fold_empty(0int, add_weight(m));
    } else {
        let init = ks.drop_last();
        assert(init.no_duplicates()) by {
            assert forall|i: int, j: int| 0 <= i < init.len() && 0 <= j < init.len() && i != j implies init[i] != init[j] by {
                assert(init[i] == ks[i] && init[j] == ks[j]);
            }
        }
        lemma_keys_total(m, init);
        assert(ks =~= init.push(ks.last()));
        init.lemma_push_to_set_commute(ks.last());
        assert(!init.to_set().contains(ks.last())) by {
            if init.to_set().contains(ks.last()) {
                let i = choose|i: int| 0 <= i < init.len() && init[i] == ks.last();
                assert(ks[i] == ks[ks.len() - 1]);
            }
        }
        lemma_add_weight_commutative(m);
        vstd::seq_lib::seq_to_set_is_finite(init);
        vstd::set::fold::lemma_fold_insert(init.to_set(), 0int, add_weight(m), ks.last());
    }
}

proof fn lemma_keys_total_prefix(m: Map<u64, SetCoverBEXSample>, ks: Seq<u64>, i: int)
    requires
        0 <= i <= ks.len(),
    ensures
        0 <= keys_total(m, ks.take(i)) <= keys_total(m, ks),
    decreases ks.len(),
{
    if i < ks.len() {
        assert(ks.drop_last().take(i) =~= ks.take(i));
        lemma_keys_total_prefix(m, ks.drop_last(), i);
    } else {
        assert(ks.take(i) =~= ks);
        if ks.len() > 0 {
            lemma_keys_total_prefix(m, ks.drop_last(), ks.len() - 1);
            assert(ks.drop_last().take(ks.len() - 1) =~= ks.drop_last());
        }
    }
}

/// The weights at the representatives among the first `n` slots, summed.
pub open spec fn root_weight_total(parent: Seq<u64>, weight: Seq<u64>, n: int) -> int
    decreases n,
{
    if n <= 0 {
        0
    } else {
        root_weight_total(parent, weight, n - 1) + if parent[n - 1] == (n - 1) as u64 { weight[n - 1] as int } else { 0 }
    }
}

proof fn lemma_root_weight_le(parent: Seq<u64>, weight: Seq<u64>, n: int, a: int)
    requires
        0 <= a < n,
        parent[a] == a as u64,
    ensures
        0 <= weight[a] <= root_weight_total(parent, weight, n),
    decreases n,
{
    lemma_root_weight_nonneg(parent, weight, n - 1);
    if a < n - 1 {
        lemma_root_weight_le(parent, weight, n - 1, a);
    }
}

proof fn lemma_root_weight_nonneg(parent: Seq<u64>, weight: Seq<u64>, n: int)
    ensures
        0 <= root_weight_total(parent, weight, n),
    decreases n,
{
    if n > 0 {
        lemma_root_weight_nonneg(parent, weight, n - 1);
    }
}

proof fn lemma_two_root_weights(parent: Seq<u64>, weight: Seq<u64>, n: int, a: int, b: int)
    requires
        0 <= a < n,
        0 <= b < n,
        a != b,
        parent[a] == a as u64,
        parent[b] == b as u64,
    ensures
        weight[a] + weight[b] <= root_weight_total(parent, weight, n),
    decreases n,
{
    if a == n - 1 {
        lemma_root_weight_le(parent, weight, n - 1, b);
    } else if b == n - 1 {
        lemma_root_weight_le(parent, weight, n - 1, a);
    } else {
        lemma_two_root_weights(parent, weight, n - 1, a, b);
    }
}

/// Totals agree where the same slots are representatives with the same weights.
proof fn lemma_root_weight_same(p1: Seq<u64>, w1: Seq<u64>, p2: Seq<u64>, w2: Seq<u64>, n: int)
    requires
        forall|i: int| 0 <= i < n ==> (p1[i] == i as u64) == (p2[i] == i as u64),
        forall|i: int| 0 <= i < n && p1[i] == i as u64 ==> w1[i] == w2[i],
    ensures
        root_weight_total(p1, w1, n) == root_weight_total(p2, w2, n),
    decreases n,
{
    if n > 0 {
        lemma_root_weight_same(p1, w1, p2, w2, n - 1);
    }
}

/// Attaching representative `b` under representative `a` and adding its
/// weight to `a`'s keeps the total.
proof fn lemma_union_total(parent: Seq<u64>, weight: Seq<u64>, a: int, b: int, n: int)
    requires
        0 <= a < parent.len(),
        0 <= b < parent.len(),
        parent.len() == weight.len(),
        a != b,
        parent[a] == a as u64,
        parent[b] == b as u64,
        weight[a] + weight[b] <= u64::MAX,
        0 <= n <= parent.len(),
        parent.len() <= u64::MAX,
    ensures
        root_weight_total(parent.update(b, a as u64), weight.update(a, (weight[a] + weight[b]) as u64), n)
            == root_weight_total(parent, weight, n) + (if a < n { weight[b] as int } else { 0 })
                - (if b < n { weight[b] as int } else { 0 }),
    decreases n,
{
    if n > 0 {
        lemma_union_total(parent, weight, a, b, n - 1);
        let p2 = parent.update(b, a as u64);
        let w2 = weight.update(a, (weight[a] + weight[b]) as u64);
        let i = n - 1;
        if i == a {
            assert(p2[i] == i as u64);
            assert(w2[i] == weight[a] + weight[b]);
        } else if i == b {
            assert(p2[i] == a as u64);
            assert(p2[i] != i as u64);
        } else {
            assert(p2[i] == parent[i]);
            assert(w2[i] == weight[i]);
        }
    }
}

/// The number of representatives among the first `n` slots.
pub open spec fn root_count(parent: Seq<u64>, n: int) -> int
    decreases n,
{
    if n <= 0 { 0 } else { root_count(parent, n - 1) + if parent[n - 1] == (n - 1) as u64 { 1int } else { 0 } }
}

proof fn lemma_root_count_nonneg(parent: Seq<u64>, n: int)
    ensures
        0 <= root_count(parent, n),
    decreases n,
{
    if n > 0 {
        lemma_root_count_nonneg(parent, n - 1);
    }
}

proof fn lemma_root_count_same(p1: Seq<u64>, p2: Seq<u64>, n: int)
    requires
        forall|i: int| 0 <= i < n ==> (p1[i] == i as u64) == (p2[i] == i as u64),
    ensures
        root_count(p1, n) == root_count(p2, n),
    decreases n,
{
    if n > 0 {
        lemma_root_count_same(p1, p2, n - 1);
    }
}

proof fn lemma_union_count(parent: Seq<u64>, a: int, b: int, n: int)
    requires
        0 <= a < parent.len(),
        0 <= b < parent.len(),
        a != b,
        parent[b] == b as u64,
        0 <= n <= parent.len(),
        parent.len() <= u64::MAX,
    ensures
        root_count(parent.update(b, a as u64), n) == root_count(parent, n) - (if b < n { 1int } else { 0 }),
    decreases n,
{
    if n > 0 {
        lemma_union_count(parent, a, b, n - 1);
        let i = n - 1;
        if i == b {
            assert(parent.update(b, a as u64)[i] != i as u64);
        } else {
            assert(parent.update(b, a as u64)[i] == parent[i]);
        }
    }
}

/// Keys totals agree where the weights under the keys agree.
proof fn lemma_keys_total_same(m1: Map<u64, SetCoverBEXSample>, m2: Map<u64, SetCoverBEXSample>, ks: Seq<u64>)
    requires
        forall|i: int| 0 <= i < ks.len() ==> #[trigger] m1[ks[i]].weight == m2[ks[i]].weight,
    ensures
        keys_total(m1, ks) == keys_total(m2, ks),
    decreases ks.len(),
{
    if ks.len() > 0 {
        assert forall|i: int| 0 <= i < ks.drop_last().len() implies #[trigger] m1[ks.drop_last()[i]].weight == m2[ks.drop_last()[i]].weight by {
            assert(ks.drop_last()[i] == ks[i]);
        }
        lemma_keys_total_same(m1, m2, ks.drop_last());
        assert(m1[ks[ks.len() - 1]].weight == m2[ks[ks.len() - 1]].weight);
    }
}

/// Classes of benign states under merging: each state has a slot, each slot a
/// parent slot; a representative slot holds the weight and the
/// must-not-cover flag of its whole class.
pub struct UnionFind {
    ids: Vec<u64>,
    slot_of: HashMap<u64, usize>,
    parent: Vec<u64>,
    weight: Vec<u64>,
    must_not_cover: Vec<bool>,
}

impl UnionFind {
    pub closed spec fn wf(&self) -> bool {
        let n = self.ids@.len();
        &&& self.parent@.len() == n
        &&& self.weight@.len() == n
        &&& self.must_not_cover@.len() == n
        &&& n <= usize::MAX
        &&& self.ids@.no_duplicates()
        &&& self.slot_of@.dom() == self.ids@.to_set()
        &&& forall|i: int| 0 <= i < n ==> #[trigger] self.slot_of@[self.ids@[i]] == i
        &&& is_forest(self.parent@)
        &&& root_weight_total(self.parent@, self.weight@, n as int) <= u64::MAX
    }

    /// The states of the classes.
    pub closed spec fn members(&self) -> Set<u64> {
        self.slot_of@.dom()
    }

    closed spec fn root_slot(&self, s: u64) -> u64 {
        root_of(self.parent@, self.slot_of@[s] as u64)
    }

    /// The representative of the class of `s`.
    pub closed spec fn rep(&self, s: u64) -> u64 {
        self.ids@[self.root_slot(s) as int]
    }

    /// The weight of the class of `s`.
    pub closed spec fn class_weight(&self, s: u64) -> u64 {
        self.weight@[self.root_slot(s) as int]
    }

    /// The must-not-cover flag of the class of `s`.
    pub closed spec fn class_must(&self, s: u64) -> bool {
        self.must_not_cover@[self.root_slot(s) as int]
    }

    /// The number of classes.
    pub closed spec fn classes(&self) -> int {
        root_count(self.parent@, self.ids@.len() as int)
    }

    /// The weights of all classes, summed.
    pub closed spec fn total(&self) -> int {
        root_weight_total(self.parent@, self.weight@, self.ids@.len() as int)
    }

    proof fn lemma_slot(&self, s: u64)
        requires
            self.wf(),
            self.members().contains(s),
        ensures
            0 <= self.slot_of@[s] < self.ids@.len(),
            self.ids@[self.slot_of@[s] as int] == s,
    {
        assert(self.ids@.to_set().contains(s));
        let i = choose|i: int| 0 <= i < self.ids@.len() && self.ids@[i] == s;
        assert(self.slot_of@[self.ids@[i]] == i);
    }

    /// The representative is a member, is its own representative, and shares
    /// the class's weight and flag.
    pub proof fn lemma_rep(&self, s: u64)
        requires
            self.wf(),
            self.members().contains(s),
        ensures
            self.members().contains(self.rep(s)),
            self.rep(self.rep(s)) == self.rep(s),
            self.class_weight(self.rep(s)) == self.class_weight(s),
            self.class_must(self.rep(s)) == self.class_must(s),
    {
        self.lemma_slot(s);
        let r = self.root_slot(s);
        lemma_forest_root(self.parent@, self.slot_of@[s] as u64);
        assert(self.ids@.to_set().contains(self.ids@[r as int]));
        assert(self.slot_of@[self.ids@[r as int]] == r);
        lemma_root_of_root(self.parent@, r);
    }

    /// One class of weight `weight` and flag `must_not_cover` for each benign sample.
    pub fn new(bex: &HashMap<StateIdType, SetCoverBEXSample>) -> (r: Self)
        requires
            bex_total(bex@) <= u64::MAX,
        ensures
            r.wf(),
            r.members() == bex@.dom(),
            forall|s: u64| #[trigger] bex@.contains_key(s) ==> r.rep(s) == s && r.class_weight(s) == bex@[s].weight
                && r.class_must(s) == bex@[s].must_not_cover,
            r.total() == bex_total(bex@),
    {
        let keys = u64_keys(bex);
        let n = keys.len();
        proof {
            lemma_keys_total(bex@, keys@);
        }
        let mut ids: Vec<u64> = Vec::new();
        let mut slot_of: HashMap<u64, usize> = HashMap::new();
        let mut parent: Vec<u64> = Vec::new();
        let mut weight: Vec<u64> = Vec::new();
        let mut must: Vec<bool> = Vec::new();
        for i in 0..n
            invariant
                n == keys@.len(),
                keys@.to_set() == bex@.dom(),
                keys@.no_duplicates(),
                keys_total(bex@, keys@) == bex_total(bex@),
                bex_total(bex@) <= u64::MAX,
                ids@ == keys@.take(i as int),
                parent@.len() == i && weight@.len() == i && must@.len() == i,
                slot_of@.dom() == keys@.take(i as int).to_set(),
                forall|j: int| 0 <= j < i ==> #[trigger] slot_of@[keys@[j]] == j,
                forall|j: int| 0 <= j < i ==> #[trigger] parent@[j] == j as u64,
                forall|j: int| 0 <= j < i ==> #[trigger] weight@[j] == bex@[keys@[j]].weight,
                forall|j: int| 0 <= j < i ==> #[trigger] must@[j] == bex@[keys@[j]].must_not_cover,
                root_weight_total(parent@, weight@, i as int) == keys_total(bex@, keys@.take(i as int)),
        {
            let k = keys[i];
            assert(keys@.to_set().contains(k));
            let sample = bex.get(&k).unwrap();
            let ghost p0 = parent@;
            let ghost w0 = weight@;
            ids.push(k);
            slot_of.insert(k, i);
            parent.push(i as u64);
            weight.push(sample.weight);
            must.push(sample.must_not_cover);
            proof {
                assert(keys@.take(i + 1) =~= keys@.take(i as int).push(k));
                keys@.take(i as int).lemma_push_to_set_commute(k);
                assert(slot_of@.dom() =~= keys@.take(i + 1).to_set());
                lemma_root_weight_same(p0, w0, parent@, weight@, i as int);
                assert(keys@.take(i + 1).drop_last() =~= keys@.take(i as int));
                lemma_keys_total_prefix(bex@, keys@, i + 1);
                assert forall|j: int| 0 <= j < i + 1 implies #[trigger] slot_of@[keys@[j]] == j by {
                    if j < i {
                        assert(keys@[j] != k);
                    }
                }
            }
        }
        assert(keys@.take(n as int) =~= keys@);
        let r = UnionFind { ids, slot_of, parent, weight, must_not_cover: must };
        assert(r.ids@ =~= keys@);
        assert(r.slot_of@.dom() =~= r.ids@.to_set());
        proof {
            assert forall|x: u64| (x as int) < r.parent@.len() implies #[trigger] crate::set_cover_instance::has_root(r.parent@, x) by {
                assert(reaches_root(r.parent@, x, 0));
            }
            assert forall|s: u64| #[trigger] bex@.contains_key(s) implies r.rep(s) == s && r.class_weight(s) == bex@[s].weight
                && r.class_must(s) == bex@[s].must_not_cover by {
                assert(keys@.to_set().contains(s));
                let j = choose|j: int| 0 <= j < n && keys@[j] == s;
                assert(r.slot_of@[s] == j);
                lemma_root_of_root(r.parent@, j as u64);
            }
        }
        r
    }

    /// The representative of `x`, found without changing anything.
    pub fn find_non_mut(&self, x: StateIdType) -> (r: StateIdType)
        requires
            self.wf(),
            self.members().contains(x),
        ensures
            r == self.rep(x),
    {
        proof { self.lemma_slot(x); }
        let start = *self.slot_of.get(&x).unwrap();
        let mut y: u64 = start as u64;
        let ghost s0: u64 = y;
        let len = self.parent.len();
        proof { lemma_forest_root(self.parent@, y); }
        let ghost mut f: nat = choose|f: nat| reaches_root(self.parent@, s0, f);
        proof { lemma_root_of(self.parent@, y, f); }
        while self.parent[y as usize] != y
            invariant
                self.wf(),
                len == self.parent@.len(),
                (y as int) < len,
                reaches_root(self.parent@, y, f),
                s0 == start as u64,
                root_after(self.parent@, y, f) == root_of(self.parent@, s0),
            decreases f,
        {
            proof {
                lemma_step(self.parent@, y, f);
                f = (f - 1) as nat;
            }
            y = self.parent[y as usize];
        }
        proof { lemma_root_of_root(self.parent@, y); }
        self.ids[y as usize]
    }

    /// The representative of `x`; the way to it is shortened, which changes
    /// no class.
    pub fn find(&mut self, x: StateIdType) -> (r: StateIdType)
        requires
            old(self).wf(),
            old(self).members().contains(x),
        ensures
            final(self).wf(),
            r == old(self).rep(x),
            final(self).members() == old(self).members(),
            final(self).total() == old(self).total(),
            final(self).classes() == old(self).classes(),
            forall|s: u64| #[trigger] old(self).members().contains(s) ==> final(self).rep(s) == old(self).rep(s)
                && final(self).class_weight(s) == old(self).class_weight(s)
                && final(self).class_must(s) == old(self).class_must(s),
    {
        proof { self.lemma_slot(x); }
        let slot = *self.slot_of.get(&x).unwrap();
        let plen = self.parent.len();
        let ghost p0 = self.parent@;
        let root = find_rep(&mut self.parent, slot as u64);
        proof {
            lemma_forest_root(p0, slot as u64);
            assert forall|i: int| 0 <= i < p0.len() implies (p0[i] == i as u64) == (#[trigger] self.parent@[i] == i as u64) by {
                lemma_root_iff(p0, i as u64);
                lemma_root_iff(self.parent@, i as u64);
                assert(root_of(self.parent@, i as u64) == root_of(p0, i as u64));
            }
            lemma_root_weight_same(p0, self.weight@, self.parent@, self.weight@, p0.len() as int);
            lemma_root_count_same(p0, self.parent@, p0.len() as int);
            assert forall|s: u64| #[trigger] old(self).members().contains(s) implies self.rep(s) == old(self).rep(s)
                && self.class_weight(s) == old(self).class_weight(s)
                && self.class_must(s) == old(self).class_must(s) by {
                old(self).lemma_slot(s);
                assert(root_of(self.parent@, self.slot_of@[s] as u64) == root_of(p0, self.slot_of@[s] as u64));
            }
        }
        self.ids[root as usize]
    }

    /// Attaches the class of `dominated` under the representative of
    /// `dominator`, which takes over its weight and must-not-cover flag;
    /// nothing changes where both are in one class already.
    pub fn union(&mut self, dominator: StateIdType, dominated: StateIdType)
        requires
            old(self).wf(),
            old(self).members().contains(dominator),
            old(self).members().contains(dominated),
        ensures
            final(self).wf(),
            final(self).members() == old(self).members(),
            final(self).total() == old(self).total(),
            final(self).classes() == old(self).classes()
                - if old(self).rep(dominator) != old(self).rep(dominated) { 1int } else { 0 },
            forall|s: u64| #[trigger] old(self).members().contains(s) ==> (old(self).class_must(s) ==> final(self).class_must(s)),
            forall|s: u64| #[trigger] old(self).members().contains(s) ==> {
                let joined = old(self).rep(dominator) != old(self).rep(dominated);
                let moved = joined && (old(self).rep(s) == old(self).rep(dominated) || old(self).rep(s) == old(self).rep(dominator));
                &&& final(self).rep(s) == if joined && old(self).rep(s) == old(self).rep(dominated) {
                        old(self).rep(dominator)
                    } else {
                        old(self).rep(s)
                    }
                &&& final(self).class_weight(s) == if moved {
                        (old(self).class_weight(dominator) + old(self).class_weight(dominated)) as u64
                    } else {
                        old(self).class_weight(s)
                    }
                &&& final(self).class_must(s) == if moved {
                        old(self).class_must(dominator) || old(self).class_must(dominated)
                    } else {
                        old(self).class_must(s)
                    }
            },
    {
        let ghost before = *self;
        let root1 = self.find(dominator);
        let root2 = self.find(dominated);
        if root1 == root2 {
            return;
        }
        proof {
            old(self).lemma_rep(dominator);
            old(self).lemma_rep(dominated);
            self.lemma_slot(root1);
            self.lemma_slot(root2);
        }
        let a = *self.slot_of.get(&root1).unwrap();
        let b = *self.slot_of.get(&root2).unwrap();
        let ghost mid = *self;
        proof {
            lemma_forest_root(mid.parent@, mid.slot_of@[dominator] as u64);
            lemma_forest_root(mid.parent@, mid.slot_of@[dominated] as u64);
            assert(mid.root_slot(root1) == mid.root_slot(dominator));
            assert(a as u64 == mid.root_slot(dominator));
            assert(b as u64 == mid.root_slot(dominated));
            lemma_two_root_weights(mid.parent@, mid.weight@, mid.ids@.len() as int, a as int, b as int);
            crate::set_cover_instance::lemma_link(mid.parent@, b as u64, a as u64);
            lemma_union_total(mid.parent@, mid.weight@, a as int, b as int, mid.ids@.len() as int);
            lemma_union_count(mid.parent@, a as int, b as int, mid.ids@.len() as int);
        }
        self.parent.set(b, a as u64);
        let w = self.weight[a] + self.weight[b];
        self.weight.set(a, w);
        let m = self.must_not_cover[a] || self.must_not_cover[b];
        self.must_not_cover.set(a, m);
        proof {
            assert forall|s: u64| #[trigger] old(self).members().contains(s) implies {
                let joined = old(self).rep(dominator) != old(self).rep(dominated);
                let moved = joined && (old(self).rep(s) == old(self).rep(dominated) || old(self).rep(s) == old(self).rep(dominator));
                &&& self.rep(s) == if joined && old(self).rep(s) == old(self).rep(dominated) {
                        old(self).rep(dominator)
                    } else {
                        old(self).rep(s)
                    }
                &&& self.class_weight(s) == if moved {
                        (old(self).class_weight(dominator) + old(self).class_weight(dominated)) as u64
                    } else {
                        old(self).class_weight(s)
                    }
                &&& self.class_must(s) == if moved {
                        old(self).class_must(dominator) || old(self).class_must(dominated)
                    } else {
                        old(self).class_must(s)
                    }
            } by {
                mid.lemma_slot(s);
                lemma_forest_root(mid.parent@, mid.slot_of@[s] as u64);
                let rs = mid.root_slot(s);
                assert(mid.rep(s) == old(self).rep(s));
                if rs == b as u64 {
                    assert(mid.ids@[b as int] == root2);
                } else if rs == a as u64 {
                    assert(mid.ids@[a as int] == root1);
                } else {
                    assert(mid.ids@[rs as int] != root1 && mid.ids@[rs as int] != root2) by {
                        assert(mid.slot_of@[mid.ids@[rs as int]] == rs);
                    }
                }
            }
            assert forall|s: u64| #[trigger] old(self).members().contains(s) implies (old(self).class_must(s) ==> self.class_must(s)) by {
                mid.lemma_slot(s);
                lemma_forest_root(mid.parent@, mid.slot_of@[s] as u64);
                let rs = mid.root_slot(s);
                assert(mid.class_must(s) == old(self).class_must(s));
                if rs == b as u64 {
                    assert(mid.ids@[b as int] == root2);
                } else if rs == a as u64 {
                    assert(mid.ids@[a as int] == root1);
                } else {
                    assert(mid.ids@[rs as int] != root1 && mid.ids@[rs as int] != root2) by {
                        assert(mid.slot_of@[mid.ids@[rs as int]] == rs);
                    }
                }
            }
        }
    }

    /// The weight and the must-not-cover flag kept at the slot of `s`: those
    /// of its class where `s` is a representative.
    pub fn node(&self, s: StateIdType) -> (r: (u64, bool))
        requires
            self.wf(),
            self.members().contains(s),
        ensures
            self.rep(s) == s ==> r.0 == self.class_weight(s) && r.1 == self.class_must(s),
    {
        proof {
            self.lemma_slot(s);
            lemma_forest_root(self.parent@, self.slot_of@[s] as u64);
            let r = self.root_slot(s);
            if self.rep(s) == s {
                assert(self.slot_of@[self.ids@[r as int]] == r);
            }
        }
        let i = *self.slot_of.get(&s).unwrap();
        (self.weight[i], self.must_not_cover[i])
    }

    pub proof fn lemma_members_finite(&self)
        requires
            self.wf(),
        ensures
            self.members().finite(),
    {
        vstd::seq_lib::seq_to_set_is_finite(self.ids@);
    }

    pub proof fn lemma_classes_nonneg(&self)
        ensures
            0 <= self.classes(),
    {
        lemma_root_count_nonneg(self.parent@, self.ids@.len() as int);
    }

    /// One benign sample per class, under its representative, with the
    /// class's weight and flag.
    pub fn into_bex(self, inst: &SetCoverInstance) -> (r: HashMap<StateIdType, SetCoverBEXSample>)
        requires
            self.wf(),
            forall|s: u64| #[trigger] self.members().contains(s) ==> inst.bex_samples@.contains_key(s),
        ensures
            forall|x: u64| #[trigger] r@.contains_key(x) <==> self.members().contains(x) && self.rep(x) == x,
            forall|x: u64| #[trigger] r@.contains_key(x) ==> {
                &&& r@[x].state_id == inst.bex_samples@[x].state_id
                &&& r@[x].from_path@ == inst.bex_samples@[x].from_path@
                &&& r@[x].weight == self.class_weight(x)
                &&& r@[x].must_not_cover == self.class_must(x)
            },
            bex_total(r@) == self.total(),
    {
        let mut r: HashMap<u64, SetCoverBEXSample> = HashMap::new();
        let n = self.ids.len();
        let ghost mut ks: Seq<u64> = Seq::empty();
        for i in 0..n
            invariant
                self.wf(),
                n == self.ids@.len(),
                forall|s: u64| #[trigger] self.members().contains(s) ==> inst.bex_samples@.contains_key(s),
                ks.no_duplicates(),
                ks.to_set() == r@.dom(),
                forall|x: u64| #[trigger] r@.contains_key(x) <==> exists|j: int| 0 <= j < i && self.ids@[j] == x && self.parent@[j] == j as u64,
                forall|j: int| 0 <= j < i && #[trigger] self.parent@[j] == j as u64 ==> {
                    let x = self.ids@[j];
                    &&& r@[x].state_id == inst.bex_samples@[x].state_id
                    &&& r@[x].from_path@ == inst.bex_samples@[x].from_path@
                    &&& r@[x].weight == self.weight@[j]
                    &&& r@[x].must_not_cover == self.must_not_cover@[j]
                },
                keys_total(r@, ks) == root_weight_total(self.parent@, self.weight@, i as int),
        {
            if self.parent[i] == i as u64 {
                let x = self.ids[i];
                proof {
                    assert(self.ids@.to_set().contains(x));
                    assert(self.members().contains(x));
                    assert(!r@.contains_key(x)) by {
                        if r@.contains_key(x) {
                            let j = choose|j: int| 0 <= j < i && self.ids@[j] == x && self.parent@[j] == j as u64;
                            assert(self.slot_of@[self.ids@[j]] == j);
                            assert(self.slot_of@[self.ids@[i as int]] == i);
                        }
                    }
                }
                let sample = inst.bex_samples.get(&x).unwrap();
                let merged = SetCoverBEXSample {
                    state_id: sample.state_id,
                    weight: self.weight[i],
                    from_path: sample.from_path.clone(),
                    must_not_cover: self.must_not_cover[i],
                };
                let ghost r0 = r@;
                let ghost mv = merged;
                assert(mv.from_path@ == inst.bex_samples@[x].from_path@);
                assert(mv.state_id == inst.bex_samples@[x].state_id);
                r.insert(x, merged);
                assert(r@[x] == mv);
                proof {
                    lemma_keys_total_same(r0, r@, ks);
                    assert(ks.push(x).drop_last() =~= ks);
                    ks = ks.push(x);
                    assert(ks.no_duplicates()) by {
                        assert(!ks.drop_last().contains(x)) by {
                            if ks.drop_last().contains(x) {
                                assert(ks.drop_last().to_set().contains(x));
                            }
                        }
                    }
                    ks.drop_last().lemma_push_to_set_commute(x);
                    assert(ks.to_set() =~= r@.dom());
                    assert forall|y: u64| #[trigger] r@.contains_key(y) <==> exists|j: int| 0 <= j < i + 1 && self.ids@[j] == y && self.parent@[j] == j as u64 by {
                        if y == x {
                            assert(self.ids@[i as int] == x);
                        }
                    }
                    assert forall|j: int| 0 <= j < i + 1 && #[trigger] self.parent@[j] == j as u64 implies {
                        let y = self.ids@[j];
                        &&& r@[y].state_id == inst.bex_samples@[y].state_id
                        &&& r@[y].from_path@ == inst.bex_samples@[y].from_path@
                        &&& r@[y].weight == self.weight@[j]
                        &&& r@[y].must_not_cover == self.must_not_cover@[j]
                    } by {
                        if j < i {
                            assert(self.slot_of@[self.ids@[j]] == j);
                            assert(self.slot_of@[self.ids@[i as int]] == i);
                            assert(self.ids@[j] != x);
                            assert(r@[self.ids@[j]] == r0[self.ids@[j]]);
                        } else {
                            assert(j == i);
                            assert(self.ids@[j] == x);
                        }
                    }
                }
            } else {
                proof {
                    assert forall|y: u64| #[trigger] r@.contains_key(y) <==> exists|j: int| 0 <= j < i + 1 && self.ids@[j] == y && self.parent@[j] == j as u64 by {
                        if exists|j: int| 0 <= j < i + 1 && self.ids@[j] == y && self.parent@[j] == j as u64 {
                            let j = choose|j: int| 0 <= j < i + 1 && self.ids@[j] == y && self.parent@[j] == j as u64;
                            assert(j != i);
                        }
                    }
                }
            }
        }
        proof {
            lemma_keys_total(r@, ks);
            assert forall|x: u64| #[trigger] r@.contains_key(x) <==> self.members().contains(x) && self.rep(x) == x by {
                if r@.contains_key(x) {
                    let j = choose|j: int| 0 <= j < n && self.ids@[j] == x && self.parent@[j] == j as u64;
                    assert(self.slot_of@[self.ids@[j]] == j);
                    assert(self.ids@.to_set().contains(x));
                    lemma_root_of_root(self.parent@, j as u64);
                }
                if self.members().contains(x) && self.rep(x) == x {
                    self.lemma_slot(x);
                    let j = self.slot_of@[x] as int;
                    lemma_forest_root(self.parent@, j as u64);
                    let rs = self.root_slot(x);
                    assert(self.slot_of@[self.ids@[rs as int]] == rs);
                    assert(rs == j as u64);
                }
            }
            assert forall|x: u64| #[trigger] r@.contains_key(x) implies {
                &&& r@[x].state_id == inst.bex_samples@[x].state_id
                &&& r@[x].from_path@ == inst.bex_samples@[x].from_path@
                &&& r@[x].weight == self.class_weight(x)
                &&& r@[x].must_not_cover == self.class_must(x)
            } by {
                let j = choose|j: int| 0 <= j < n && self.ids@[j] == x && self.parent@[j] == j as u64;
                assert(self.slot_of@[self.ids@[j]] == j);
                lemma_root_of_root(self.parent@, j as u64);
            }
        }
        r
    }
}

// ----------------------------------------------------------------------------
// Pruning benign states by support dominance
// ----------------------------------------------------------------------------

/// The elements of a set, each once.
pub(crate) fn set_elems(set: &HashSet<u64>) -> (r: Vec<u64>)
    ensures
        r@.to_set() == set@,
        r@.no_duplicates(),
{
    let mut r: Vec<u64> = Vec::new();
    for k in it: set.iter()
        invariant
            r@ == it.seq().take(it.index()).unref(),
    {
        r.push(*k);
        assert(r@ =~= it.seq().take(it.index() + 1).unref());
    }
    assert(r@ =~= vstd::std_specs::hash::spec_hash_keys_iter(set).remaining().unref());
    r
}

/// The ids of the predicates of `preds` under the keys `ks` that cover state `x`.
pub open spec fn ids_covering(preds: Map<usize, SetCoverPredicate>, ks: Set<usize>, x: u32) -> Set<u32> {
    Set::new(|id: u32| exists|k: usize| #[trigger] ks.contains(k) && preds.contains_key(k) && preds[k].id as u32 == id
        && preds[k].covered_states@.contains(x))
}

/// Some predicate of `preds` under the keys `ks` covers state `x`.
pub open spec fn covered_among(preds: Map<usize, SetCoverPredicate>, ks: Set<usize>, x: u32) -> bool {
    exists|k: usize| #[trigger] ks.contains(k) && preds.contains_key(k) && preds[k].covered_states@.contains(x)
}

proof fn lemma_among_insert(preds: Map<usize, SetCoverPredicate>, ks: Set<usize>, kk: usize, x: u32)
    requires
        preds.contains_key(kk),
    ensures
        covered_among(preds, ks.insert(kk), x) == (covered_among(preds, ks, x) || preds[kk].covered_states@.contains(x)),
        ids_covering(preds, ks.insert(kk), x) == ids_covering(preds, ks, x).union(
            if preds[kk].covered_states@.contains(x) { set![preds[kk].id as u32] } else { Set::<u32>::empty() }),
{
    let lhs = ids_covering(preds, ks.insert(kk), x);
    let rhs = ids_covering(preds, ks, x).union(
        if preds[kk].covered_states@.contains(x) { set![preds[kk].id as u32] } else { Set::<u32>::empty() });
    assert forall|id: u32| lhs.contains(id) implies rhs.contains(id) by {
        let k = choose|k: usize| #[trigger] ks.insert(kk).contains(k) && preds.contains_key(k) && preds[k].id as u32 == id
            && preds[k].covered_states@.contains(x);
        if k != kk {
            assert(ks.contains(k));
        }
    }
    assert forall|id: u32| rhs.contains(id) implies lhs.contains(id) by {
        if ids_covering(preds, ks, x).contains(id) {
            let k = choose|k: usize| #[trigger] ks.contains(k) && preds.contains_key(k) && preds[k].id as u32 == id
                && preds[k].covered_states@.contains(x);
            assert(ks.insert(kk).contains(k));
        } else {
            assert(ks.insert(kk).contains(kk));
        }
    }
    assert(lhs =~= rhs);
    if covered_among(preds, ks.insert(kk), x) {
        let k = choose|k: usize| #[trigger] ks.insert(kk).contains(k) && preds.contains_key(k) && preds[k].covered_states@.contains(x);
        if k != kk {
            assert(ks.contains(k));
        }
    }
    if covered_among(preds, ks, x) {
        let k = choose|k: usize| #[trigger] ks.contains(k) && preds.contains_key(k) && preds[k].covered_states@.contains(x);
        assert(ks.insert(kk).contains(k));
    }
    if preds[kk].covered_states@.contains(x) {
        assert(ks.insert(kk).contains(kk));
    }
}

/// `covers` holds, for every state that some predicate covers, the ids of
/// the predicates covering it: one entry per such state.
pub open spec fn covers_of(inst: &SetCoverInstance, covers: Seq<BitSetWrapper>) -> bool {
    exists|xs: Seq<u32>| {
        &&& xs.len() == covers.len()
        &&& xs.no_duplicates()
        &&& forall|x: u32| #[trigger] xs.contains(x) <==> covered_among(inst.predicates@, inst.predicates@.dom(), x)
        &&& forall|i: int| 0 <= i < covers.len() ==> (#[trigger] covers[i])@ == ids_covering(inst.predicates@, inst.predicates@.dom(), xs[i])
    }
}

/// No state that a predicate covers is told apart from `s2` but not from
/// `s1`: each such state's covering predicates either all lie in `s2`, or
/// not all in `s1`.
pub open spec fn no_cex_state_apart(inst: &SetCoverInstance, s1: Set<u32>, s2: Set<u32>) -> bool {
    forall|x: u32| #[trigger] covered_among(inst.predicates@, inst.predicates@.dom(), x) ==>
        ids_covering(inst.predicates@, inst.predicates@.dom(), x).subset_of(s2)
        || !ids_covering(inst.predicates@, inst.predicates@.dom(), x).subset_of(s1)
}

proof fn lemma_covers_views(inst: &SetCoverInstance, covers: Seq<BitSetWrapper>, s1: Set<u32>, s2: Set<u32>)
    requires
        covers_of(inst, covers),
    ensures
        cex_compatible_views(s1, s2, covers) == no_cex_state_apart(inst, s1, s2),
{
    let xs = choose|xs: Seq<u32>| {
        &&& xs.len() == covers.len()
        &&& xs.no_duplicates()
        &&& forall|x: u32| #[trigger] xs.contains(x) <==> covered_among(inst.predicates@, inst.predicates@.dom(), x)
        &&& forall|i: int| 0 <= i < covers.len() ==> (#[trigger] covers[i])@ == ids_covering(inst.predicates@, inst.predicates@.dom(), xs[i])
    };
    if cex_compatible_views(s1, s2, covers) {
        assert forall|x: u32| #[trigger] covered_among(inst.predicates@, inst.predicates@.dom(), x) implies
            ids_covering(inst.predicates@, inst.predicates@.dom(), x).subset_of(s2)
            || !ids_covering(inst.predicates@, inst.predicates@.dom(), x).subset_of(s1) by {
            assert(xs.contains(x));
            let k = choose|k: int| 0 <= k < xs.len() && xs[k] == x;
            assert(covers[k]@ == ids_covering(inst.predicates@, inst.predicates@.dom(), xs[k]));
        }
    }
    if no_cex_state_apart(inst, s1, s2) {
        assert forall|k: int| 0 <= k < covers.len() implies (#[trigger] covers[k])@.subset_of(s2) || !covers[k]@.subset_of(s1) by {
            assert(xs.contains(xs[k]));
            assert(covered_among(inst.predicates@, inst.predicates@.dom(), xs[k]));
        }
    }
}

/// In the result, kept state `y` may take in kept state `x`: `y`'s support
/// contains `x`'s; a flagged state goes only into a flagged one; an unflagged
/// one goes into a flagged one, or (unless `must_cover_only`) into an
/// unflagged one at least as heavy that no counterexample state tells apart.
pub open spec fn allowed_merge(
    inst: &SetCoverInstance,
    b_support: &HashMap<StateIdType, BitSetWrapper>,
    kept: Map<u64, SetCoverBEXSample>,
    must_cover_only: bool,
    x: u64,
    y: u64,
) -> bool {
    &&& b_support@[x]@.subset_of(b_support@[y]@)
    &&& x != y
    &&& !(kept[x].must_not_cover && !kept[y].must_not_cover)
    &&& (kept[y].must_not_cover || (!must_cover_only && kept[y].weight >= kept[x].weight
        && no_cex_state_apart(inst, b_support@[y]@, b_support@[x]@)))
}

/// For every state that some predicate covers, the ids of the predicates
/// covering it: one entry per such state, in no particular order.
fn predicate_covers(inst: &SetCoverInstance) -> (r: Vec<BitSetWrapper>)
    requires
        forall|k: usize| #[trigger] inst.predicates@.contains_key(k) ==> bitset_index_ok(inst.predicates@[k].id as u32),
    ensures
        covers_of(inst, r@),
{
    let ghost preds = inst.predicates@;
    let mut covers: HashMap<u64, BitSetWrapper> = HashMap::new();
    let keys = usize_keys(&inst.predicates);
    let n = keys.len();
    for i in 0..n
        invariant
            n == keys@.len(),
            keys@.to_set() == inst.predicates@.dom(),
            preds == inst.predicates@,
            forall|k: usize| #[trigger] inst.predicates@.contains_key(k) ==> bitset_index_ok(inst.predicates@[k].id as u32),
            forall|x: u64| #[trigger] covers@.contains_key(x) <==> (x <= u32::MAX
                && covered_among(preds, keys@.take(i as int).to_set(), x as u32)),
            forall|x: u64| #[trigger] covers@.contains_key(x) ==> covers@[x]@ == ids_covering(preds, keys@.take(i as int).to_set(), x as u32),
    {
        let ghost ks = keys@.take(i as int).to_set();
        let kk = keys[i];
        assert(keys@.to_set().contains(kk));
        let p = inst.predicates.get(&kk).unwrap();
        let states = p.covered_states.collect();
        let m = states.len();
        for j in 0..m
            invariant
                m == states@.len(),
                states@.to_set() == p.covered_states@,
                strictly_increasing(states@),
                bitset_index_ok(p.id as u32),
                forall|x: u64| #[trigger] covers@.contains_key(x) <==> (x <= u32::MAX
                    && (covered_among(preds, ks, x as u32) || states@.take(j as int).contains(x as u32))),
                forall|x: u64| #[trigger] covers@.contains_key(x) ==> covers@[x]@ == ids_covering(preds, ks, x as u32).union(
                    if states@.take(j as int).contains(x as u32) { set![p.id as u32] } else { Set::<u32>::empty() }),
        {
            let sid = states[j] as u64;
            let ghost y = states@[j as int];
            proof {
                assert(sid as u32 == y);
                assert(!states@.take(j as int).contains(y)) by {
                    if states@.take(j as int).contains(y) {
                        let l = choose|l: int| 0 <= l < j && states@.take(j as int)[l] == y;
                        assert(states@[l] < states@[j as int]);
                    }
                }
                assert(states@.take(j + 1) =~= states@.take(j as int).push(y));
            }
            let ghost c0 = covers@;
            let mut entry = match covers.remove(&sid) {
                Some(b) => b,
                None => BitSetWrapper::new(),
            };
            proof {
                if !c0.contains_key(sid) {
                    assert(ids_covering(preds, ks, y) =~= Set::<u32>::empty()) by {
                        assert forall|id: u32| !ids_covering(preds, ks, y).contains(id) by {
                            if ids_covering(preds, ks, y).contains(id) {
                                let k = choose|k: usize| #[trigger] ks.contains(k) && preds.contains_key(k) && preds[k].id as u32 == id
                                    && preds[k].covered_states@.contains(y);
                                assert(covered_among(preds, ks, y));
                            }
                        }
                    }
                }
            }
            entry.insert(p.id as u32);
            covers.insert(sid, entry);
            proof {
                assert forall|x: u64| #[trigger] covers@.contains_key(x) <==> (x <= u32::MAX
                    && (covered_among(preds, ks, x as u32) || states@.take(j + 1).contains(x as u32))) by {
                    if x != sid && x <= u32::MAX {
                        assert((x as u32) != y);
                        assert(states@.take(j + 1).contains(x as u32) == states@.take(j as int).contains(x as u32));
                    }
                    if x == sid {
                        assert(states@.take(j + 1)[j as int] == y);
                    }
                }
                assert forall|x: u64| #[trigger] covers@.contains_key(x) implies covers@[x]@ == ids_covering(preds, ks, x as u32).union(
                    if states@.take(j + 1).contains(x as u32) { set![p.id as u32] } else { Set::<u32>::empty() }) by {
                    if x != sid {
                        assert(c0.contains_key(x));
                        assert((x as u32) != y);
                        assert(states@.take(j + 1).contains(x as u32) == states@.take(j as int).contains(x as u32));
                    } else {
                        assert(states@.take(j + 1)[j as int] == y);
                        assert(covers@[x]@ =~= ids_covering(preds, ks, x as u32).union(set![p.id as u32]));
                    }
                }
            }
        }
        proof {
            assert(states@.take(m as int) =~= states@);
            assert(keys@.take(i + 1) =~= keys@.take(i as int).push(kk));
            keys@.take(i as int).lemma_push_to_set_commute(kk);
            assert(keys@.take(i + 1).to_set() == ks.insert(kk));
            assert forall|x: u64| #[trigger] covers@.contains_key(x) <==> (x <= u32::MAX
                && covered_among(preds, keys@.take(i + 1).to_set(), x as u32)) by {
                lemma_among_insert(preds, ks, kk, x as u32);
                assert(states@.contains(x as u32) == p.covered_states@.contains(x as u32));
            }
            assert forall|x: u64| #[trigger] covers@.contains_key(x) implies
                covers@[x]@ == ids_covering(preds, keys@.take(i + 1).to_set(), x as u32) by {
                lemma_among_insert(preds, ks, kk, x as u32);
                assert(states@.contains(x as u32) == p.covered_states@.contains(x as u32));
            }
        }
    }
    proof {
        assert(keys@.take(n as int) =~= keys@);
    }
    let cover_keys = u64_keys(&covers);
    let ghost c0 = covers@;
    let ghost ck = cover_keys@;
    let mut r: Vec<BitSetWrapper> = Vec::new();
    let cn = cover_keys.len();
    for i in 0..cn
        invariant
            cn == cover_keys@.len(),
            ck == cover_keys@,
            ck.no_duplicates(),
            r@.len() == i,
            forall|l: int| i <= l < cn ==> covers@.contains_key(#[trigger] ck[l]) && covers@[ck[l]] == c0[ck[l]],
            forall|l: int| 0 <= l < i ==> (#[trigger] r@[l])@ == c0[ck[l]]@,
    {
        let ghost cv = covers@;
        match covers.remove(&cover_keys[i]) {
            Some(b) => r.push(b),
            None => {},
        }
        proof {
            assert forall|l: int| i + 1 <= l < cn implies covers@.contains_key(#[trigger] ck[l]) && covers@[ck[l]] == c0[ck[l]] by {
                assert(ck[l] != ck[i as int]);
            }
        }
    }
    proof {
        let xs = ck.map_values(|k: u64| k as u32);
        assert forall|l: int| 0 <= l < ck.len() implies c0.contains_key(#[trigger] ck[l]) by {
            assert(ck.to_set().contains(ck[l]));
        }
        assert(xs.no_duplicates()) by {
            assert forall|a: int, b: int| 0 <= a < xs.len() && 0 <= b < xs.len() && a != b implies xs[a] != xs[b] by {
                assert(c0.contains_key(ck[a]) && c0.contains_key(ck[b]));
            }
        }
        assert forall|x: u32| #[trigger] xs.contains(x) <==> covered_among(preds, preds.dom(), x) by {
            if xs.contains(x) {
                let l = choose|l: int| 0 <= l < xs.len() && xs[l] == x;
                assert(c0.contains_key(ck[l]));
            }
            if covered_among(preds, preds.dom(), x) {
                assert(c0.contains_key(x as u64));
                assert(ck.to_set().contains(x as u64));
                let l = choose|l: int| 0 <= l < ck.len() && ck[l] == x as u64;
                assert(xs[l] == x);
            }
        }
        assert forall|i: int| 0 <= i < r@.len() implies (#[trigger] r@[i])@ == ids_covering(preds, preds.dom(), xs[i]) by {
            assert(c0.contains_key(ck[i]));
        }
        assert(covers_of(inst, r@));
    }
    r
}

/// Merging `s2` into `s1` is safe for the counterexample states: none that a
/// predicate outside the support of `s2` covers is covered only by predicates
/// of the support of `s1`.
fn cex_compatible(supp1: &BitSetWrapper, supp2: &BitSetWrapper, covers: &Vec<BitSetWrapper>) -> (r: bool)
    ensures
        r == cex_compatible_views(supp1@, supp2@, covers@),
{
    let n = covers.len();
    for i in 0..n
        invariant
            n == covers@.len(),
            forall|k: int| 0 <= k < i ==> (#[trigger] covers@[k])@.subset_of(supp2@) || !covers@[k]@.subset_of(supp1@),
    {
        let cov = &covers[i];
        let sep_from_s2 = !cov.is_subset(supp2);
        if sep_from_s2 && cov.is_subset(supp1) {
            return false;
        }
    }
    true
}

/// No cover set of `covers` that `supp2` does not contain lies within `supp1`.
pub open spec fn cex_compatible_views(supp1: Set<u32>, supp2: Set<u32>, covers: Seq<BitSetWrapper>) -> bool {
    forall|k: int| 0 <= k < covers.len() ==> (#[trigger] covers[k])@.subset_of(supp2) || !covers[k]@.subset_of(supp1)
}

/// The benign states, with the supports, weights and flags they start with.
pub open spec fn prune_ready(inst: &SetCoverInstance, b_support: &HashMap<StateIdType, BitSetWrapper>) -> bool {
    &&& bex_total(inst.bex_samples@) <= u64::MAX
    &&& b_support@.dom() == inst.bex_samples@.dom()
    &&& forall|k: usize| #[trigger] inst.predicates@.contains_key(k) ==> bitset_index_ok(inst.predicates@[k].id as u32)
}

/// What merging classes of benign states keeps true: every support lies in
/// that of its representative; a representative keeps its own flag, which
/// every flagged member shares; with `must_cover_only`, only flagged
/// representatives absorb others.
pub open spec fn prune_inv(
    uf: &UnionFind,
    inst: &SetCoverInstance,
    b_support: &HashMap<StateIdType, BitSetWrapper>,
    must_cover_only: bool,
) -> bool {
    let bex = inst.bex_samples@;
    &&& uf.wf()
    &&& uf.members() == bex.dom()
    &&& uf.total() == bex_total(bex)
    &&& forall|s: u64| #[trigger] bex.contains_key(s) ==> {
        &&& b_support@[s]@.subset_of(b_support@[uf.rep(s)]@)
        &&& uf.class_must(s) == bex[uf.rep(s)].must_not_cover
        &&& (bex[s].must_not_cover ==> uf.class_must(s))
        &&& (must_cover_only && uf.rep(s) != s ==> bex[uf.rep(s)].must_not_cover)
    }
}

/// State `b1` can take in the class of `b2`: its support contains that of
/// `b2`; a flagged class only goes into a flagged one; an unflagged target
/// must be at least as heavy, allowed by `must_cover_only`, and keep the
/// counterexample states apart; and the target representative's support
/// contains that of `b2`'s representative.
pub open spec fn merge_target_ok(
    uf: &UnionFind,
    b_support: &HashMap<StateIdType, BitSetWrapper>,
    covers: Seq<BitSetWrapper>,
    must_cover_only: bool,
    b2: u64,
    b1: u64,
) -> bool {
    let must1 = uf.class_must(b1);
    let must2 = uf.class_must(b2);
    &&& b_support@[b2]@.subset_of(b_support@[b1]@)
    &&& b1 != b2
    &&& !(must2 && !must1)
    &&& (must1 || (!must_cover_only && uf.class_weight(b1) >= uf.class_weight(b2)))
    &&& b_support@[uf.rep(b2)]@.subset_of(b_support@[uf.rep(b1)]@)
    &&& (must1 || cex_compatible_views(b_support@[uf.rep(b1)]@, b_support@[uf.rep(b2)]@, covers))
}

/// A pair to merge for `b2`: the representative of the first state of
/// `states` that can take in `b2`'s class (see `merge_target_ok`), and the
/// representative of `b2`; `None` where `b2` has an empty support or no
/// state can.
fn merge_candidate(
    uf: &UnionFind,
    b2: StateIdType,
    states: &Vec<u64>,
    inst: &SetCoverInstance,
    b_support: &HashMap<StateIdType, BitSetWrapper>,
    covers: &Vec<BitSetWrapper>,
    must_cover_only: bool,
) -> (r: Option<(StateIdType, StateIdType)>)
    requires
        prune_ready(inst, b_support),
        prune_inv(uf, inst, b_support, must_cover_only),
        inst.bex_samples@.contains_key(b2),
        states@.to_set() == inst.bex_samples@.dom(),
    ensures
        r matches Some((a, b)) ==> {
            &&& inst.bex_samples@.contains_key(a)
            &&& inst.bex_samples@.contains_key(b)
            &&& (must_cover_only ==> uf.class_must(a))
        },
        match r {
            Some((a, b)) => {
                &&& b_support@[b2]@.len() > 0
                &&& b == uf.rep(b2)
                &&& exists|k: int| 0 <= k < states@.len() && a == uf.rep(states@[k])
                    && #[trigger] merge_target_ok(uf, b_support, covers@, must_cover_only, b2, states@[k])
                    && forall|j: int| 0 <= j < k ==> !merge_target_ok(uf, b_support, covers@, must_cover_only, b2, #[trigger] states@[j])
            },
            None => b_support@[b2]@.len() == 0
                || forall|k: int| 0 <= k < states@.len() ==> !merge_target_ok(uf, b_support, covers@, must_cover_only, b2, #[trigger] states@[k]),
        },
{
    let supp2 = b_support.get(&b2).unwrap();
    let root2 = uf.find_non_mut(b2);
    proof { uf.lemma_rep(b2); }
    let (w2, must2) = uf.node(root2);
    if supp2.len() == 0 {
        return None;
    }
    let n = states.len();
    let mut i: usize = 0;
    while i < n
        invariant
            n == states@.len(),
            i <= n,
            states@.to_set() == inst.bex_samples@.dom(),
            prune_ready(inst, b_support),
            prune_inv(uf, inst, b_support, must_cover_only),
            inst.bex_samples@.contains_key(b2),
            inst.bex_samples@.contains_key(root2),
            root2 == uf.rep(b2),
            w2 == uf.class_weight(b2),
            must2 == uf.class_must(b2),
            *supp2 == b_support@[b2],
            supp2@.len() > 0,
            forall|j: int| 0 <= j < i ==> !merge_target_ok(uf, b_support, covers@, must_cover_only, b2, #[trigger] states@[j]),
        decreases n - i,
    {
        let b1 = states[i];
        let ghost k = i as int;
        i = i + 1;
        assert(states@.to_set().contains(b1));
        let supp_b1 = b_support.get(&b1).unwrap();
        if !supp2.is_subset(supp_b1) || b1 == b2 {
            continue;
        }
        let root1 = uf.find_non_mut(b1);
        proof { uf.lemma_rep(b1); }
        let (w1, must1) = uf.node(root1);
        if must2 && !must1 {
            continue;
        }
        let min_weight_w1 = if must1 {
            0
        } else {
            if must_cover_only {
                continue;
            }
            if constants::SOLVE_STATES_INSTEAD_OF_TRACES {
                w2
            } else if constants::HEURISTIC_MERGE_STATES_OPTIMIZATION {
                w2 * 10
            } else {
                w2
            }
        };
        if !must1 && w1 < min_weight_w1 {
            continue;
        }
        let supp_root1 = b_support.get(&root1).unwrap();
        let supp_root2 = b_support.get(&root2).unwrap();
        if supp_root2.is_subset(supp_root1) {
            if must1 {
                assert(merge_target_ok(uf, b_support, covers@, must_cover_only, b2, states@[k]));
                return Some((root1, root2));
            }
            if must_cover_only {
                continue;
            }
            if !cex_compatible(supp_root1, supp_root2, covers) {
                continue;
            }
            assert(merge_target_ok(uf, b_support, covers@, must_cover_only, b2, states@[k]));
            return Some((root1, root2));
        }
    }
    None
}

/// Every pair joins benign states, and with `must_cover_only` its first
/// state's class is flagged.
pub open spec fn pairs_ok(pairs: Seq<(u64, u64)>, bex: Map<u64, SetCoverBEXSample>, uf: UnionFind, must_cover_only: bool) -> bool {
    forall|k: int| #![trigger pairs[k]] 0 <= k < pairs.len() ==> {
        &&& bex.contains_key(pairs[k].0)
        &&& bex.contains_key(pairs[k].1)
        &&& (must_cover_only ==> uf.class_must(pairs[k].0))
    }
}

proof fn lemma_pairs_ok_kept(
    pairs: Seq<(u64, u64)>,
    bex: Map<u64, SetCoverBEXSample>,
    u_old: UnionFind,
    u_new: UnionFind,
    must_cover_only: bool,
)
    requires
        pairs_ok(pairs, bex, u_old, must_cover_only),
        u_old.members() == bex.dom(),
        forall|s: u64| #[trigger] u_old.members().contains(s) ==> (u_old.class_must(s) ==> u_new.class_must(s)),
    ensures
        pairs_ok(pairs, bex, u_new, must_cover_only),
{
    assert forall|k: int| #![trigger pairs[k]] 0 <= k < pairs.len() implies {
        &&& bex.contains_key(pairs[k].0)
        &&& bex.contains_key(pairs[k].1)
        &&& (must_cover_only ==> u_new.class_must(pairs[k].0))
    } by {
        assert(bex.contains_key(pairs[k].0));
        assert(u_old.members().contains(pairs[k].0));
    }
}

/// The weight of each benign state, as an integer.
pub open spec fn bex_weight_fn(bex: Map<u64, SetCoverBEXSample>) -> spec_fn(u64) -> int {
    |s: u64| bex[s].weight as int
}

/// The benign states whose representative is `y`.
pub open spec fn uf_class(uf: &UnionFind, bex: Map<u64, SetCoverBEXSample>, y: u64) -> Set<u64> {
    bex.dom().filter(|s: u64| uf.rep(s) == y)
}

/// Each class weighs what its benign states weigh together.
pub open spec fn class_sums_ok(uf: &UnionFind, bex: Map<u64, SetCoverBEXSample>) -> bool {
    forall|s: u64| #[trigger] bex.contains_key(s) ==> uf.class_weight(s) == sum_over_states(uf_class(uf, bex, uf.rep(s)), bex_weight_fn(bex))
}

proof fn lemma_sum_states_nonneg(s: Set<u64>, f: spec_fn(u64) -> int)
    requires
        s.finite(),
        forall|u: u64| #[trigger] s.contains(u) ==> f(u) >= 0,
    ensures
        sum_over_states(s, f) >= 0,
    decreases s.len(),
{
    if s.len() == 0 {
        assert(s =~= Set::<u64>::empty());
        lemma_sum_states_empty(f);
    } else {
        let x = s.choose();
        lemma_sum_states_nonneg(s.remove(x), f);
        lemma_sum_states_insert(s.remove(x), f, x);
        assert(s.remove(x).insert(x) =~= s);
    }
}

proof fn lemma_class_sums_start(uf: &UnionFind, bex: Map<u64, SetCoverBEXSample>)
    requires
        uf.wf(),
        uf.members() == bex.dom(),
        forall|s: u64| #[trigger] bex.contains_key(s) ==> uf.rep(s) == s && uf.class_weight(s) == bex[s].weight,
    ensures
        class_sums_ok(uf, bex),
{
    assert forall|s: u64| #[trigger] bex.contains_key(s) implies uf.class_weight(s)
        == sum_over_states(uf_class(uf, bex, uf.rep(s)), bex_weight_fn(bex)) by {
        assert(uf_class(uf, bex, s) =~= Set::<u64>::empty().insert(s));
        lemma_sum_states_empty(bex_weight_fn(bex));
        lemma_sum_states_insert(Set::<u64>::empty(), bex_weight_fn(bex), s);
    }
}

proof fn lemma_class_sums_same(u0: &UnionFind, u1: &UnionFind, bex: Map<u64, SetCoverBEXSample>)
    requires
        class_sums_ok(u0, bex),
        forall|s: u64| #[trigger] bex.contains_key(s) ==> u1.rep(s) == u0.rep(s) && u1.class_weight(s) == u0.class_weight(s),
    ensures
        class_sums_ok(u1, bex),
{
    assert forall|s: u64| #[trigger] bex.contains_key(s) implies u1.class_weight(s)
        == sum_over_states(uf_class(u1, bex, u1.rep(s)), bex_weight_fn(bex)) by {
        assert(uf_class(u1, bex, u1.rep(s)) =~= uf_class(u0, bex, u0.rep(s)));
    }
}

proof fn lemma_class_sums_union(u0: &UnionFind, u1: &UnionFind, bex: Map<u64, SetCoverBEXSample>, r1: u64, r2: u64)
    requires
        class_sums_ok(u0, bex),
        u0.wf(),
        u0.members() == bex.dom(),
        bex_total(bex) <= u64::MAX,
        bex.contains_key(r1),
        bex.contains_key(r2),
        u0.rep(r1) == r1,
        u0.rep(r2) == r2,
        r1 != r2,
        forall|s: u64| #[trigger] bex.contains_key(s) ==> {
            let moved = u0.rep(s) == r2 || u0.rep(s) == r1;
            &&& u1.rep(s) == if u0.rep(s) == r2 { r1 } else { u0.rep(s) }
            &&& u1.class_weight(s) == if moved { (u0.class_weight(r1) + u0.class_weight(r2)) as u64 } else { u0.class_weight(s) }
        },
    ensures
        class_sums_ok(u1, bex),
{
    let f = bex_weight_fn(bex);
    u0.lemma_members_finite();
    let a = uf_class(u0, bex, r1);
    let b = uf_class(u0, bex, r2);
    let ab = uf_class(u1, bex, r1);
    assert(ab =~= a.union(b));
    assert(a.disjoint(b));
    lemma_sum_states_disjoint_union(a, b, f);
    // The joined class weighs no more than all benign states.
    let rest = bex.dom().difference(ab);
    assert(bex.dom() =~= ab.union(rest));
    lemma_sum_states_disjoint_union(ab, rest, f);
    lemma_sum_states_nonneg(rest, f);
    lemma_bex_total_is_sum(bex);
    assert(f =~= |x: u64| bex[x].weight as int);
    assert forall|s: u64| #[trigger] bex.contains_key(s) implies u1.class_weight(s)
        == sum_over_states(uf_class(u1, bex, u1.rep(s)), f) by {
        if u0.rep(s) == r2 || u0.rep(s) == r1 {
            assert(u1.rep(s) == r1);
        } else {
            assert(uf_class(u1, bex, u1.rep(s)) =~= uf_class(u0, bex, u0.rep(s)));
        }
    }
}

/// The pair is that of the representatives of a benign state and of the
/// benign state whose class it can take in.
pub open spec fn pair_justified(
    uf: &UnionFind,
    b_support: &HashMap<StateIdType, BitSetWrapper>,
    covers: Seq<BitSetWrapper>,
    must_cover_only: bool,
    bex: Map<u64, SetCoverBEXSample>,
    pair: (u64, u64),
) -> bool {
    exists|b1: u64, b2: u64| #[trigger] merge_target_ok(uf, b_support, covers, must_cover_only, b2, b1)
        && bex.contains_key(b1) && bex.contains_key(b2) && pair.0 == uf.rep(b1) && pair.1 == uf.rep(b2)
}

/// Where some benign state can take in the class of `b2`, a pair for `b2`
/// was found: one such state's representative with `b2`'s.
pub open spec fn round_found(
    uf: &UnionFind,
    b_support: &HashMap<StateIdType, BitSetWrapper>,
    covers: Seq<BitSetWrapper>,
    must_cover_only: bool,
    bex: Map<u64, SetCoverBEXSample>,
    pairs: Seq<(u64, u64)>,
    b2: u64,
) -> bool {
    (bex.contains_key(b2) && b_support@[b2]@.len() > 0
        && exists|b1: u64| bex.contains_key(b1) && #[trigger] merge_target_ok(uf, b_support, covers, must_cover_only, b2, b1))
    ==> exists|kp: int, b1: u64| #![trigger pairs[kp], merge_target_ok(uf, b_support, covers, must_cover_only, b2, b1)]
        0 <= kp < pairs.len() && bex.contains_key(b1) && merge_target_ok(uf, b_support, covers, must_cover_only, b2, b1)
        && pairs[kp] == (uf.rep(b1), uf.rep(b2))
}

/// No merge is left, but where a class member with the same support as the
/// representative is found first: wherever a benign state can take in the
/// class of a representative `x` of non-empty support, `x`'s class holds
/// another state with `x`'s support.
pub open spec fn uf_fixpoint(
    uf: &UnionFind,
    b_support: &HashMap<StateIdType, BitSetWrapper>,
    covers: Seq<BitSetWrapper>,
    must_cover_only: bool,
    bex: Map<u64, SetCoverBEXSample>,
) -> bool {
    forall|x: u64, y: u64| bex.contains_key(x) && bex.contains_key(y) && uf.rep(x) == x && b_support@[x]@.len() > 0
        && #[trigger] merge_target_ok(uf, b_support, covers, must_cover_only, x, y)
        ==> exists|b: u64| #[trigger] bex.contains_key(b) && b != x && uf.rep(b) == x && b_support@[b]@ == b_support@[x]@
}

proof fn lemma_round_found_grows(
    uf: &UnionFind,
    b_support: &HashMap<StateIdType, BitSetWrapper>,
    covers: Seq<BitSetWrapper>,
    must_cover_only: bool,
    bex: Map<u64, SetCoverBEXSample>,
    p0: Seq<(u64, u64)>,
    p1: Seq<(u64, u64)>,
    b2: u64,
)
    requires
        round_found(uf, b_support, covers, must_cover_only, bex, p0, b2),
        p0.len() <= p1.len(),
        forall|kp: int| 0 <= kp < p0.len() ==> p1[kp] == p0[kp],
    ensures
        round_found(uf, b_support, covers, must_cover_only, bex, p1, b2),
{
    if bex.contains_key(b2) && b_support@[b2]@.len() > 0
        && exists|b1: u64| bex.contains_key(b1) && #[trigger] merge_target_ok(uf, b_support, covers, must_cover_only, b2, b1) {
        let (kp, b1) = choose|kp: int, b1: u64| #![trigger p0[kp], merge_target_ok(uf, b_support, covers, must_cover_only, b2, b1)]
            0 <= kp < p0.len() && bex.contains_key(b1) && merge_target_ok(uf, b_support, covers, must_cover_only, b2, b1)
            && p0[kp] == (uf.rep(b1), uf.rep(b2));
        assert(p1[kp] == p0[kp]);
    }
}

proof fn lemma_round_fixpoint(
    u_round: &UnionFind,
    uf: &UnionFind,
    inst: &SetCoverInstance,
    b_support: &HashMap<StateIdType, BitSetWrapper>,
    covers: Seq<BitSetWrapper>,
    must_cover_only: bool,
    bex: Map<u64, SetCoverBEXSample>,
    cur0: Set<u64>,
    active: Seq<u64>,
    pairs: Seq<(u64, u64)>,
)
    requires
        bex == inst.bex_samples@,
        prune_inv(u_round, inst, b_support, must_cover_only),
        forall|s: u64| #[trigger] bex.contains_key(s) ==> cur0.contains(u_round.rep(s)),
        active.to_set() == cur0,
        forall|j: int| 0 <= j < active.len() ==> #[trigger] round_found(u_round, b_support, covers, must_cover_only, bex, pairs, active[j]),
        forall|j: int| 0 <= j < pairs.len() ==> (#[trigger] pairs[j]).0 == pairs[j].1,
        forall|s: u64| #[trigger] bex.contains_key(s) ==> uf.rep(s) == u_round.rep(s)
            && uf.class_weight(s) == u_round.class_weight(s) && uf.class_must(s) == u_round.class_must(s),
    ensures
        uf_fixpoint(uf, b_support, covers, must_cover_only, bex),
{
    assert forall|x: u64, y: u64| bex.contains_key(x) && bex.contains_key(y) && uf.rep(x) == x && b_support@[x]@.len() > 0
        && #[trigger] merge_target_ok(uf, b_support, covers, must_cover_only, x, y)
        implies exists|b: u64| #[trigger] bex.contains_key(b) && b != x && uf.rep(b) == x && b_support@[b]@ == b_support@[x]@ by {
        u_round.lemma_rep(x);
        u_round.lemma_rep(y);
        assert(merge_target_ok(u_round, b_support, covers, must_cover_only, x, y));
        assert(cur0.contains(x));
        let j = choose|j: int| 0 <= j < active.len() && active[j] == x;
        assert(round_found(u_round, b_support, covers, must_cover_only, bex, pairs, active[j]));
        let (kp, b1) = choose|kp: int, b1: u64| #![trigger pairs[kp], merge_target_ok(u_round, b_support, covers, must_cover_only, x, b1)]
            0 <= kp < pairs.len() && bex.contains_key(b1) && merge_target_ok(u_round, b_support, covers, must_cover_only, x, b1)
            && pairs[kp] == (u_round.rep(b1), u_round.rep(x));
        assert(pairs[kp].0 == pairs[kp].1);
        assert(u_round.rep(b1) == x);
        assert(b_support@[b1]@.subset_of(b_support@[u_round.rep(b1)]@));
        assert(b_support@[b1]@ =~= b_support@[x]@);
        assert(uf.rep(b1) == x);
    }
}

/// Merges benign states into states whose predicate support contains theirs,
/// round after round until no merge is left: a flagged state only into a
/// flagged one; an unflagged one only into a flagged one, or (unless
/// `must_cover_only`) into an unflagged one at least as heavy whose merge no
/// counterexample state tells apart. Returns one sample per class under its
/// representative, with the class's summed weight, and each state's
/// representative.
pub fn prune_b_states_unionfind_multiround(
    inst: &SetCoverInstance,
    b_support: &HashMap<StateIdType, BitSetWrapper>,
    must_cover_only: bool,
) -> (r: (HashMap<StateIdType, SetCoverBEXSample>, HashMap<StateIdType, StateIdType>))
    requires
        prune_ready(inst, b_support),
    ensures
        ({
            let (kept, old_to_new) = r;
            let bex = inst.bex_samples@;
            &&& old_to_new@.dom() == bex.dom()
            &&& forall|x: u64| #[trigger] kept@.contains_key(x) ==> bex.contains_key(x) && old_to_new@[x] == x
            &&& forall|x: u64| #[trigger] kept@.contains_key(x) ==> {
                &&& kept@[x].state_id == bex[x].state_id
                &&& kept@[x].from_path@ == bex[x].from_path@
                &&& kept@[x].must_not_cover == bex[x].must_not_cover
            }
            &&& forall|s: u64| #[trigger] bex.contains_key(s) ==> {
                &&& kept@.contains_key(old_to_new@[s])
                &&& b_support@[s]@.subset_of(b_support@[old_to_new@[s]]@)
                &&& (bex[s].must_not_cover ==> kept@[old_to_new@[s]].must_not_cover)
                &&& (must_cover_only && old_to_new@[s] != s ==> bex[old_to_new@[s]].must_not_cover)
            }
            &&& bex_total(kept@) == bex_total(bex)
            &&& forall|y: u64| #[trigger] kept@.contains_key(y) ==> kept@[y].weight as int
                == sum_over_states(bex.dom().filter(|s: u64| old_to_new@[s] == y), bex_weight_fn(bex))
            &&& forall|x: u64, y: u64| kept@.contains_key(x) && kept@.contains_key(y) && b_support@[x]@.len() > 0
                && #[trigger] allowed_merge(inst, b_support, kept@, must_cover_only, x, y)
                ==> exists|b: u64| #[trigger] bex.contains_key(b) && b != x && old_to_new@[b] == x && b_support@[b]@ == b_support@[x]@
        }),
{
    let covers = predicate_covers(inst);
    let ghost bex = inst.bex_samples@;
    let mut uf = UnionFind::new(&inst.bex_samples);
    let states = u64_keys(&inst.bex_samples);
    let mut current: HashSet<u64> = HashSet::new();
    let sn = states.len();
    for i in 0..sn
        invariant
            sn == states@.len(),
            current@ == states@.take(i as int).to_set(),
    {
        proof {
            assert(states@.take(i + 1) =~= states@.take(i as int).push(states@[i as int]));
            states@.take(i as int).lemma_push_to_set_commute(states@[i as int]);
        }
        current.insert(states[i]);
    }
    proof {
        assert(states@.take(sn as int) =~= states@);
        uf.lemma_classes_nonneg();
        lemma_class_sums_start(&uf, bex);
        assert forall|s: u64| #[trigger] inst.bex_samples@.contains_key(s) implies {
            &&& b_support@[s]@.subset_of(b_support@[uf.rep(s)]@)
            &&& uf.class_must(s) == inst.bex_samples@[uf.rep(s)].must_not_cover
            &&& (inst.bex_samples@[s].must_not_cover ==> uf.class_must(s))
            &&& (must_cover_only && uf.rep(s) != s ==> inst.bex_samples@[uf.rep(s)].must_not_cover)
        } by {
        }
    }
    let mut changed = true;
    while changed
        invariant
            prune_ready(inst, b_support),
            prune_inv(&uf, inst, b_support, must_cover_only),
            states@.to_set() == inst.bex_samples@.dom(),
            bex == inst.bex_samples@,
            0 <= uf.classes(),
            class_sums_ok(&uf, bex),
            forall|s: u64| #[trigger] bex.contains_key(s) ==> current@.contains(uf.rep(s)),
            !changed ==> uf_fixpoint(&uf, b_support, covers@, must_cover_only, bex),
        decreases uf.classes() + if changed { 1int } else { 0 },
    {
        let ghost classes_before = uf.classes();
        let ghost u_round = uf;
        let ghost cur0 = current@;
        let active = set_elems(&current);
        let mut pairs: Vec<(u64, u64)> = Vec::new();
        let an = active.len();
        for i in 0..an
            invariant
                an == active@.len(),
                active@.to_set() == cur0,
                uf == u_round,
                prune_ready(inst, b_support),
                prune_inv(&uf, inst, b_support, must_cover_only),
                states@.to_set() == inst.bex_samples@.dom(),
                bex == inst.bex_samples@,
                pairs_ok(pairs@, inst.bex_samples@, uf, must_cover_only),
                forall|kp: int| 0 <= kp < pairs@.len() ==> pair_justified(&uf, b_support, covers@, must_cover_only, bex, #[trigger] pairs@[kp]),
                forall|j: int| 0 <= j < i ==> #[trigger] round_found(&uf, b_support, covers@, must_cover_only, bex, pairs@, active@[j]),
        {
            let b2 = active[i];
            let ghost p_before = pairs@;
            if inst.bex_samples.contains_key(&b2) {
                let found = merge_candidate(&uf, b2, &states, inst, b_support, &covers, must_cover_only);
                match found {
                    Some(pair) => {
                        let ghost p0 = pairs@;
                        pairs.push(pair);
                        proof {
                            assert(pairs_ok(pairs@, inst.bex_samples@, uf, must_cover_only)) by {
                                assert forall|k: int| #![trigger pairs@[k]] 0 <= k < pairs@.len() implies {
                                    &&& inst.bex_samples@.contains_key(pairs@[k].0)
                                    &&& inst.bex_samples@.contains_key(pairs@[k].1)
                                    &&& (must_cover_only ==> uf.class_must(pairs@[k].0))
                                } by {
                                    if k < p0.len() {
                                        assert(pairs@[k] == p0[k]);
                                    } else {
                                        assert(pairs@[k] == pair);
                                    }
                                }
                            }
                            let kk = choose|kk: int| 0 <= kk < states@.len() && pair.0 == uf.rep(states@[kk])
                                && #[trigger] merge_target_ok(&uf, b_support, covers@, must_cover_only, b2, states@[kk])
                                && forall|j: int| 0 <= j < kk ==> !merge_target_ok(&uf, b_support, covers@, must_cover_only, b2, #[trigger] states@[j]);
                            let b1 = states@[kk];
                            assert(states@.to_set().contains(b1));
                            assert(merge_target_ok(&uf, b_support, covers@, must_cover_only, b2, b1));
                            assert(pair_justified(&uf, b_support, covers@, must_cover_only, bex, pair));
                            assert forall|kp: int| 0 <= kp < pairs@.len() implies
                                pair_justified(&uf, b_support, covers@, must_cover_only, bex, #[trigger] pairs@[kp]) by {
                                if kp < p0.len() {
                                    assert(pairs@[kp] == p0[kp]);
                                }
                            }
                            assert(pairs@[p0.len() as int] == pair);
                            assert(round_found(&uf, b_support, covers@, must_cover_only, bex, pairs@, b2));
                        }
                    },
                    None => {
                        proof {
                            assert(round_found(&uf, b_support, covers@, must_cover_only, bex, pairs@, b2)) by {
                                if b_support@[b2]@.len() > 0 {
                                    assert forall|b1: u64| bex.contains_key(b1)
                                        implies !merge_target_ok(&uf, b_support, covers@, must_cover_only, b2, b1) by {
                                        assert(states@.to_set().contains(b1));
                                        let kk = choose|kk: int| 0 <= kk < states@.len() && states@[kk] == b1;
                                        assert(!merge_target_ok(&uf, b_support, covers@, must_cover_only, b2, states@[kk]));
                                    }
                                }
                            }
                        }
                    },
                }
            }
            proof {
                assert forall|j: int| 0 <= j < i + 1 implies #[trigger] round_found(&uf, b_support, covers@, must_cover_only, bex, pairs@, active@[j]) by {
                    if j < i {
                        lemma_round_found_grows(&uf, b_support, covers@, must_cover_only, bex, p_before, pairs@, active@[j]);
                    }
                }
            }
        }
        let mut merges: usize = 0;
        let pn = pairs.len();
        let mut k: usize = 0;
        while k < pn
            invariant
                k <= pn,
                prune_ready(inst, b_support),
                prune_inv(&uf, inst, b_support, must_cover_only),
                prune_inv(&u_round, inst, b_support, must_cover_only),
                states@.to_set() == inst.bex_samples@.dom(),
                bex == inst.bex_samples@,
                pn == pairs@.len(),
                pairs_ok(pairs@, inst.bex_samples@, uf, must_cover_only),
                merges <= k,
                uf.classes() == classes_before - merges,
                class_sums_ok(&uf, bex),
                forall|s: u64| #[trigger] bex.contains_key(s) ==> current@.contains(uf.rep(s)),
                forall|kp: int| 0 <= kp < pairs@.len() ==> pair_justified(&u_round, b_support, covers@, must_cover_only, bex, #[trigger] pairs@[kp]),
                merges == 0 ==> forall|s: u64| #[trigger] bex.contains_key(s) ==> uf.rep(s) == u_round.rep(s)
                    && uf.class_weight(s) == u_round.class_weight(s) && uf.class_must(s) == u_round.class_must(s),
                merges == 0 ==> forall|j: int| 0 <= j < k ==> (#[trigger] pairs@[j]).0 == pairs@[j].1,
            decreases pn - k,
        {
            let (b1, b2) = pairs[k];
            let ghost kk = k as int;
            k = k + 1;
            let ghost u0 = uf;
            let r1 = uf.find(b1);
            let ghost u_mid = uf;
            let r2 = uf.find(b2);
            proof {
                assert forall|s: u64| #[trigger] u0.members().contains(s) implies (u0.class_must(s) ==> u_mid.class_must(s)) by {
                }
                lemma_pairs_ok_kept(pairs@, inst.bex_samples@, u0, u_mid, must_cover_only);
                assert forall|s: u64| #[trigger] u_mid.members().contains(s) implies (u_mid.class_must(s) ==> uf.class_must(s)) by {
                }
                lemma_pairs_ok_kept(pairs@, inst.bex_samples@, u_mid, uf, must_cover_only);
                assert(prune_inv(&uf, inst, b_support, must_cover_only)) by {
                    assert forall|s: u64| #[trigger] inst.bex_samples@.contains_key(s) implies {
                        &&& b_support@[s]@.subset_of(b_support@[uf.rep(s)]@)
                        &&& uf.class_must(s) == inst.bex_samples@[uf.rep(s)].must_not_cover
                        &&& (inst.bex_samples@[s].must_not_cover ==> uf.class_must(s))
                        &&& (must_cover_only && uf.rep(s) != s ==> inst.bex_samples@[uf.rep(s)].must_not_cover)
                    } by {
                        assert(u0.members().contains(s));
                        assert(u_mid.members().contains(s));
                    }
                }
                lemma_class_sums_same(&u0, &u_mid, bex);
                lemma_class_sums_same(&u_mid, &uf, bex);
                assert forall|s: u64| #[trigger] bex.contains_key(s) implies current@.contains(uf.rep(s)) by {
                    assert(u0.members().contains(s));
                    assert(u_mid.members().contains(s));
                }
            }
            proof {
                if merges == 0 {
                    let pr = pairs@[kk];
                    assert(pair_justified(&u_round, b_support, covers@, must_cover_only, bex, pr));
                    let (c1, c2) = choose|c1: u64, c2: u64| #[trigger] merge_target_ok(&u_round, b_support, covers@, must_cover_only, c2, c1)
                        && bex.contains_key(c1) && bex.contains_key(c2) && pr.0 == u_round.rep(c1) && pr.1 == u_round.rep(c2);
                    u_round.lemma_rep(c1);
                    u_round.lemma_rep(c2);
                    assert(r1 == pr.0);
                    assert(r2 == pr.1);
                }
            }
            if r1 == r2 {
                continue;
            }
            proof {
                u0.lemma_rep(b1);
                u0.lemma_rep(b2);
                uf.lemma_rep(b1);
                uf.lemma_rep(b2);
            }
            let (w1, m1) = uf.node(r1);
            let (w2, m2) = uf.node(r2);
            proof {
                if merges == 0 {
                    let pr = pairs@[kk];
                    let (c1, c2) = choose|c1: u64, c2: u64| #[trigger] merge_target_ok(&u_round, b_support, covers@, must_cover_only, c2, c1)
                        && bex.contains_key(c1) && bex.contains_key(c2) && pr.0 == u_round.rep(c1) && pr.1 == u_round.rep(c2);
                    u_round.lemma_rep(c1);
                    u_round.lemma_rep(c2);
                    assert(r1 == u_round.rep(c1) && r2 == u_round.rep(c2));
                    assert(m1 == u_round.class_must(c1) && m2 == u_round.class_must(c2));
                    assert(w1 == u_round.class_weight(c1) && w2 == u_round.class_weight(c2));
                }
            }
            if m2 && !m1 {
                continue;
            }
            if !m1 && w1 < w2 {
                continue;
            }
            let supp_r1 = b_support.get(&r1).unwrap();
            let supp_r2 = b_support.get(&r2).unwrap();
            if !supp_r2.is_subset(supp_r1) {
                continue;
            }
            let do_merge = if m1 { true } else { cex_compatible(supp_r1, supp_r2, &covers) };
            if !do_merge {
                continue;
            }
            let ghost u1 = uf;
            uf.union(r1, r2);
            proof {
                u1.lemma_rep(r1);
                u1.lemma_rep(r2);
                u1.lemma_rep(b1);
                u1.lemma_rep(b2);
                assert forall|s: u64| #[trigger] inst.bex_samples@.contains_key(s) implies {
                    &&& b_support@[s]@.subset_of(b_support@[uf.rep(s)]@)
                    &&& uf.class_must(s) == inst.bex_samples@[uf.rep(s)].must_not_cover
                    &&& (inst.bex_samples@[s].must_not_cover ==> uf.class_must(s))
                    &&& (must_cover_only && uf.rep(s) != s ==> inst.bex_samples@[uf.rep(s)].must_not_cover)
                } by {
                    u1.lemma_rep(s);
                }
                lemma_pairs_ok_kept(pairs@, inst.bex_samples@, u1, uf, must_cover_only);
                lemma_class_sums_union(&u1, &uf, bex, r1, r2);
            }
            merges = merges + 1;
            current.remove(&b2);
            proof {
                assert forall|s: u64| #[trigger] bex.contains_key(s) implies current@.contains(uf.rep(s)) by {
                    u1.lemma_rep(s);
                    uf.lemma_rep(s);
                    assert(u1.members().contains(s));
                    if uf.rep(s) == b2 {
                        assert(uf.members().contains(b2));
                        uf.lemma_rep(b2);
                        u1.lemma_rep(b2);
                        assert(false);
                    }
                }
            }
        }
        if merges == 0 {
            changed = false;
            proof {
                lemma_round_fixpoint(&u_round, &uf, inst, b_support, covers@, must_cover_only, bex, cur0, active@, pairs@);
            }
        }
        proof { uf.lemma_classes_nonneg(); }
    }
    let mut old_to_new: HashMap<u64, u64> = HashMap::new();
    for i in 0..sn
        invariant
            sn == states@.len(),
            prune_inv(&uf, inst, b_support, must_cover_only),
            states@.to_set() == inst.bex_samples@.dom(),
            old_to_new@.dom() == states@.take(i as int).to_set(),
            forall|s: u64| #[trigger] old_to_new@.contains_key(s) ==> old_to_new@[s] == uf.rep(s),
    {
        let s = states[i];
        assert(states@.to_set().contains(s));
        let rs = uf.find_non_mut(s);
        old_to_new.insert(s, rs);
        proof {
            assert(states@.take(i + 1) =~= states@.take(i as int).push(s));
            states@.take(i as int).lemma_push_to_set_commute(s);
        }
        assert(old_to_new@.dom() =~= states@.take(i + 1).to_set());
    }
    assert(states@.take(sn as int) =~= states@);
    let ghost uf_final = uf;
    let kept = uf.into_bex(inst);
    proof {
        assert forall|s: u64| #[trigger] inst.bex_samples@.contains_key(s) implies {
            &&& kept@.contains_key(old_to_new@[s])
            &&& b_support@[s]@.subset_of(b_support@[old_to_new@[s]]@)
            &&& (inst.bex_samples@[s].must_not_cover ==> kept@[old_to_new@[s]].must_not_cover)
            &&& (must_cover_only && old_to_new@[s] != s ==> inst.bex_samples@[old_to_new@[s]].must_not_cover)
        } by {
            assert(old_to_new@.contains_key(s));
            assert(uf_final.members().contains(s));
            uf_final.lemma_rep(s);
            let x = uf_final.rep(s);
            assert(old_to_new@[s] == x);
            assert(kept@.contains_key(x));
            assert(kept@[x].must_not_cover == uf_final.class_must(x));
        }
        assert forall|x: u64| #[trigger] kept@.contains_key(x) implies inst.bex_samples@.contains_key(x) && old_to_new@[x] == x by {
            assert(old_to_new@.contains_key(x));
        }
        assert forall|x: u64| #[trigger] kept@.contains_key(x) implies {
            &&& kept@[x].state_id == inst.bex_samples@[x].state_id
            &&& kept@[x].from_path@ == inst.bex_samples@[x].from_path@
            &&& kept@[x].must_not_cover == inst.bex_samples@[x].must_not_cover
        } by {
        }
        assert forall|y: u64| #[trigger] kept@.contains_key(y) implies kept@[y].weight as int
            == sum_over_states(bex.dom().filter(|s: u64| old_to_new@[s] == y), bex_weight_fn(bex)) by {
            assert(bex.contains_key(y));
            uf_final.lemma_rep(y);
            assert(bex.dom().filter(|s: u64| old_to_new@[s] == y) =~= uf_class(&uf_final, bex, uf_final.rep(y)));
        }
        assert forall|x: u64, y: u64| kept@.contains_key(x) && kept@.contains_key(y) && b_support@[x]@.len() > 0
            && #[trigger] allowed_merge(inst, b_support, kept@, must_cover_only, x, y)
            implies exists|b: u64| #[trigger] bex.contains_key(b) && b != x && old_to_new@[b] == x && b_support@[b]@ == b_support@[x]@ by {
            lemma_covers_views(inst, covers@, b_support@[y]@, b_support@[x]@);
            assert(merge_target_ok(&uf_final, b_support, covers@, must_cover_only, x, y));
            let b = choose|b: u64| #[trigger] bex.contains_key(b) && b != x && uf_final.rep(b) == x && b_support@[b]@ == b_support@[x]@;
            assert(old_to_new@.contains_key(b));
        }
    }
    (kept, old_to_new)
}

// ----------------------------------------------------------------------------
// Classifying and dropping states
// ----------------------------------------------------------------------------

/// The states of the counterexample traces.
pub open spec fn cex_state_set(traces: Map<usize, SetCoverCEXTrace>) -> Set<u64> {
    Set::new(|s: u64| exists|t: usize| traces.contains_key(t) && #[trigger] traces[t].states@.contains_key(s))
}

/// The states of the traces under the keys of `ts`.
pub open spec fn states_of_traces(traces: Map<usize, SetCoverCEXTrace>, ts: Seq<usize>) -> Set<u64>
    decreases ts.len(),
{
    if ts.len() == 0 {
        Set::empty()
    } else {
        states_of_traces(traces, ts.drop_last()).union(traces[ts.last()].states@.dom())
    }
}

proof fn lemma_states_of_traces(traces: Map<usize, SetCoverCEXTrace>, ts: Seq<usize>, s: u64)
    ensures
        states_of_traces(traces, ts).contains(s)
            <==> exists|k: int| 0 <= k < ts.len() && #[trigger] traces[ts[k]].states@.contains_key(s),
    decreases ts.len(),
{
    if ts.len() > 0 {
        lemma_states_of_traces(traces, ts.drop_last(), s);
        if states_of_traces(traces, ts.drop_last()).contains(s) {
            let k = choose|k: int| 0 <= k < ts.drop_last().len() && #[trigger] traces[ts.drop_last()[k]].states@.contains_key(s);
            assert(ts[k] == ts.drop_last()[k]);
        }
        if exists|k: int| 0 <= k < ts.len() && #[trigger] traces[ts[k]].states@.contains_key(s) {
            let k = choose|k: int| 0 <= k < ts.len() && #[trigger] traces[ts[k]].states@.contains_key(s);
            if k < ts.len() - 1 {
                assert(ts.drop_last()[k] == ts[k]);
            }
        }
    }
}

/// The states of all counterexample traces.
pub(crate) fn collect_cex_states(inst: &SetCoverInstance) -> (r: HashSet<u64>)
    ensures
        r@ == cex_state_set(inst.cex_traces@),
{
    let keys = usize_keys(&inst.cex_traces);
    let n = keys.len();
    let mut r: HashSet<u64> = HashSet::new();
    for i in 0..n
        invariant
            n == keys@.len(),
            keys@.to_set() == inst.cex_traces@.dom(),
            r@ == states_of_traces(inst.cex_traces@, keys@.take(i as int)),
    {
        assert(keys@.to_set().contains(keys@[i as int]));
        let t = inst.cex_traces.get(&keys[i]).unwrap();
        let sids = u64_keys(&t.states);
        let m = sids.len();
        let ghost before = r@;
        for j in 0..m
            invariant
                m == sids@.len(),
                r@ == before.union(sids@.take(j as int).to_set()),
        {
            r.insert(sids[j]);
            proof {
                assert(sids@.take(j + 1) =~= sids@.take(j as int).push(sids@[j as int]));
                sids@.take(j as int).lemma_push_to_set_commute(sids@[j as int]);
            }
            assert(r@ =~= before.union(sids@.take(j + 1).to_set()));
        }
        assert(sids@.take(m as int) =~= sids@);
        assert(keys@.take(i + 1).drop_last() =~= keys@.take(i as int));
        assert(r@ =~= states_of_traces(inst.cex_traces@, keys@.take(i + 1)));
    }
    assert(keys@.take(n as int) =~= keys@);
    proof {
        assert forall|s: u64| r@.contains(s) <==> cex_state_set(inst.cex_traces@).contains(s) by {
            lemma_states_of_traces(inst.cex_traces@, keys@, s);
            if r@.contains(s) {
                let k = choose|k: int| 0 <= k < keys@.len() && #[trigger] inst.cex_traces@[keys@[k]].states@.contains_key(s);
                assert(keys@.to_set().contains(keys@[k]));
            }
            if cex_state_set(inst.cex_traces@).contains(s) {
                let t = choose|t: usize| inst.cex_traces@.contains_key(t) && #[trigger] inst.cex_traces@[t].states@.contains_key(s);
                assert(keys@.to_set().contains(t));
                let k = choose|k: int| 0 <= k < keys@.len() && keys@[k] == t;
                assert(inst.cex_traces@[keys@[k]].states@.contains_key(s));
            }
        }
        assert(r@ =~= cex_state_set(inst.cex_traces@));
    }
    r
}

/// The states only in counterexample traces, only benign, and in both.
pub fn classify_states(inst: &SetCoverInstance) -> (r: (HashSet<StateIdType>, HashSet<StateIdType>, HashSet<StateIdType>))
    ensures
        r.0@ == cex_state_set(inst.cex_traces@).difference(inst.bex_samples@.dom()),
        r.1@ == inst.bex_samples@.dom().difference(cex_state_set(inst.cex_traces@)),
        r.2@ == cex_state_set(inst.cex_traces@).intersect(inst.bex_samples@.dom()),
{
    let cex = collect_cex_states(inst);
    let bex_keys = u64_keys(&inst.bex_samples);
    let cex_list = set_elems(&cex);
    let mut cex_only: HashSet<u64> = HashSet::new();
    let mut overlapping: HashSet<u64> = HashSet::new();
    let n = cex_list.len();
    for i in 0..n
        invariant
            n == cex_list@.len(),
            cex_list@.to_set() == cex@,
            cex_only@ == cex_list@.take(i as int).to_set().difference(inst.bex_samples@.dom()),
            overlapping@ == cex_list@.take(i as int).to_set().intersect(inst.bex_samples@.dom()),
    {
        let s = cex_list[i];
        if inst.bex_samples.contains_key(&s) {
            overlapping.insert(s);
        } else {
            cex_only.insert(s);
        }
        proof {
            assert(cex_list@.take(i + 1) =~= cex_list@.take(i as int).push(s));
            cex_list@.take(i as int).lemma_push_to_set_commute(s);
        }
        assert(cex_only@ =~= cex_list@.take(i + 1).to_set().difference(inst.bex_samples@.dom()));
        assert(overlapping@ =~= cex_list@.take(i + 1).to_set().intersect(inst.bex_samples@.dom()));
    }
    assert(cex_list@.take(n as int) =~= cex_list@);
    let mut bex_only: HashSet<u64> = HashSet::new();
    let m = bex_keys.len();
    for i in 0..m
        invariant
            m == bex_keys@.len(),
            bex_keys@.to_set() == inst.bex_samples@.dom(),
            bex_only@ == bex_keys@.take(i as int).to_set().difference(cex@),
    {
        let s = bex_keys[i];
        if !cex.contains(&s) {
            bex_only.insert(s);
        }
        proof {
            assert(bex_keys@.take(i + 1) =~= bex_keys@.take(i as int).push(s));
            bex_keys@.take(i as int).lemma_push_to_set_commute(s);
        }
        assert(bex_only@ =~= bex_keys@.take(i + 1).to_set().difference(cex@));
    }
    assert(bex_keys@.take(m as int) =~= bex_keys@);
    (cex_only, bex_only, overlapping)
}

/// The members of `bits` whose state is not in `drop`.
fn bits_without(bits: &BitSetWrapper, drop: &HashSet<u64>) -> (r: BitSetWrapper)
    ensures
        r@ == bits@.filter(|x: u32| !drop@.contains(x as u64)),
{
    let old_states = bits.collect();
    let mut r = BitSetWrapper::new();
    let n = old_states.len();
    for i in 0..n
        invariant
            n == old_states@.len(),
            old_states@.to_set() == bits@,
            forall|x: u32| #[trigger] bits@.contains(x) ==> bitset_index_ok(x),
            r@ == old_states@.take(i as int).to_set().filter(|x: u32| !drop@.contains(x as u64)),
    {
        let sid = old_states[i];
        assert(old_states@.to_set().contains(sid));
        if !drop.contains(&(sid as u64)) {
            r.insert(sid);
        }
        proof {
            assert(old_states@.take(i + 1) =~= old_states@.take(i as int).push(sid));
            old_states@.take(i as int).lemma_push_to_set_commute(sid);
        }
        assert(r@ =~= old_states@.take(i + 1).to_set().filter(|x: u32| !drop@.contains(x as u64)));
    }
    assert(old_states@.take(n as int) =~= old_states@);
    r
}

/// No predicate covers the given states any more.
pub fn remove_states_from_predicates(inst: &mut SetCoverInstance, states_to_remove: &HashSet<StateIdType>)
    ensures
        final(inst).predicates@.dom() == old(inst).predicates@.dom(),
        forall|k: usize| #[trigger] old(inst).predicates@.contains_key(k) ==> {
            &&& final(inst).predicates@[k].covered_states@
                == old(inst).predicates@[k].covered_states@.filter(|x: u32| !states_to_remove@.contains(x as u64))
            &&& final(inst).predicates@[k].id == old(inst).predicates@[k].id
            &&& final(inst).predicates@[k].predicate == old(inst).predicates@[k].predicate
        },
        final(inst).bex_samples == old(inst).bex_samples,
        final(inst).cex_traces == old(inst).cex_traces,
        final(inst).bex_traces == old(inst).bex_traces,
        final(inst).all_states == old(inst).all_states,
        final(inst).formula_score_weights == old(inst).formula_score_weights,
{
    let ghost preds_before = inst.predicates@;
    let keys = usize_keys(&inst.predicates);
    let n = keys.len();
    for j in 0..n
        invariant
            n == keys@.len(),
            keys@.to_set() == preds_before.dom(),
            keys@.no_duplicates(),
            preds_before == old(inst).predicates@,
            inst.predicates@.dom() == preds_before.dom(),
            forall|k: usize| #[trigger] preds_before.contains_key(k) ==> if keys@.take(j as int).contains(k) {
                &&& inst.predicates@[k].covered_states@
                    == preds_before[k].covered_states@.filter(|x: u32| !states_to_remove@.contains(x as u64))
                &&& inst.predicates@[k].id == preds_before[k].id
                &&& inst.predicates@[k].predicate == preds_before[k].predicate
            } else {
                inst.predicates@[k] == preds_before[k]
            },
            inst.bex_samples == old(inst).bex_samples,
            inst.cex_traces == old(inst).cex_traces,
            inst.bex_traces == old(inst).bex_traces,
            inst.all_states == old(inst).all_states,
            inst.formula_score_weights == old(inst).formula_score_weights,
    {
        let k = keys[j];
        proof {
            assert(keys@.to_set().contains(k));
            assert(!keys@.take(j as int).contains(k));
            assert(keys@.take(j + 1) =~= keys@.take(j as int).push(k));
        }
        let ghost cur = inst.predicates@;
        let mut p = inst.predicates.remove(&k).unwrap();
        p.covered_states = bits_without(&p.covered_states, states_to_remove);
        inst.predicates.insert(k, p);
        assert(inst.predicates@.dom() =~= preds_before.dom());
        proof {
            assert forall|k2: usize| #[trigger] preds_before.contains_key(k2) implies if keys@.take(j + 1).contains(k2) {
                &&& inst.predicates@[k2].covered_states@
                    == preds_before[k2].covered_states@.filter(|x: u32| !states_to_remove@.contains(x as u64))
                &&& inst.predicates@[k2].id == preds_before[k2].id
                &&& inst.predicates@[k2].predicate == preds_before[k2].predicate
            } else {
                inst.predicates@[k2] == preds_before[k2]
            } by {
                if k2 == k {
                    assert(keys@.take(j + 1)[j as int] == k);
                } else {
                    assert(inst.predicates@[k2] == cur[k2]);
                    assert(keys@.take(j + 1).contains(k2) == keys@.take(j as int).contains(k2));
                }
            }
        }
    }
    proof {
        assert forall|k: usize| #[trigger] preds_before.contains_key(k) implies keys@.take(n as int).contains(k) by {
            assert(keys@.take(n as int) =~= keys@);
            assert(keys@.to_set().contains(k));
        }
    }
}

/// Keeps the states that a benign sample or a counterexample trace uses:
/// predicates cover no others, and they form the set of all states.
pub fn remove_unused_states(inst: &mut SetCoverInstance)
    ensures
        final(inst).all_states@ == old(inst).bex_samples@.dom().union(cex_state_set(old(inst).cex_traces@)),
        final(inst).predicates@.dom() == old(inst).predicates@.dom(),
        forall|k: usize| #[trigger] old(inst).predicates@.contains_key(k) ==> {
            &&& final(inst).predicates@[k].covered_states@ == old(inst).predicates@[k].covered_states@.filter(
                |x: u32| old(inst).bex_samples@.dom().union(cex_state_set(old(inst).cex_traces@)).contains(x as u64))
            &&& final(inst).predicates@[k].id == old(inst).predicates@[k].id
            &&& final(inst).predicates@[k].predicate == old(inst).predicates@[k].predicate
        },
        final(inst).bex_samples == old(inst).bex_samples,
        final(inst).cex_traces == old(inst).cex_traces,
        final(inst).bex_traces == old(inst).bex_traces,
        final(inst).formula_score_weights == old(inst).formula_score_weights,
{
    let ghost used_spec = inst.bex_samples@.dom().union(cex_state_set(inst.cex_traces@));
    let mut used = collect_cex_states(inst);
    let bex_keys = u64_keys(&inst.bex_samples);
    let ghost cex = used@;
    let m = bex_keys.len();
    for i in 0..m
        invariant
            m == bex_keys@.len(),
            used@ == cex.union(bex_keys@.take(i as int).to_set()),
    {
        used.insert(bex_keys[i]);
        proof {
            assert(bex_keys@.take(i + 1) =~= bex_keys@.take(i as int).push(bex_keys@[i as int]));
            bex_keys@.take(i as int).lemma_push_to_set_commute(bex_keys@[i as int]);
        }
        assert(used@ =~= cex.union(bex_keys@.take(i + 1).to_set()));
    }
    assert(bex_keys@.take(m as int) =~= bex_keys@);
    assert(used@ =~= used_spec);
    let ghost before = *inst;
    let drop = complement_in(&used, inst);
    remove_states_from_predicates(inst, &drop);
    proof {
        assert forall|k: usize| #[trigger] before.predicates@.contains_key(k) implies
            inst.predicates@[k].covered_states@ == before.predicates@[k].covered_states@.filter(|x: u32| used_spec.contains(x as u64)) by {
            assert(inst.predicates@[k].covered_states@ =~= before.predicates@[k].covered_states@.filter(|x: u32| used_spec.contains(x as u64)));
        }
    }
    inst.all_states = used;
}

/// The states that predicates cover and `keep` lacks.
fn complement_in(keep: &HashSet<u64>, inst: &SetCoverInstance) -> (r: HashSet<u64>)
    ensures
        forall|k: usize, x: u32| inst.predicates@.contains_key(k) && #[trigger] inst.predicates@[k].covered_states@.contains(x)
            ==> (r@.contains(x as u64) <==> !keep@.contains(x as u64)),
{
    let mut r: HashSet<u64> = HashSet::new();
    let keys = usize_keys(&inst.predicates);
    let n = keys.len();
    for j in 0..n
        invariant
            n == keys@.len(),
            keys@.to_set() == inst.predicates@.dom(),
            forall|x: u64| #[trigger] r@.contains(x) ==> !keep@.contains(x),
            forall|i: int, x: u32| 0 <= i < j && #[trigger] inst.predicates@[keys@[i]].covered_states@.contains(x)
                ==> (r@.contains(x as u64) || keep@.contains(x as u64)),
    {
        assert(keys@.to_set().contains(keys@[j as int]));
        let p = inst.predicates.get(&keys[j]).unwrap();
        let states = p.covered_states.collect();
        let m = states.len();
        let ghost r0 = r@;
        for i in 0..m
            invariant
                m == states@.len(),
                r0.subset_of(r@),
                forall|x: u64| #[trigger] r@.contains(x) ==> !keep@.contains(x),
                forall|t: int| 0 <= t < i ==> (r@.contains(#[trigger] states@[t] as u64) || keep@.contains(states@[t] as u64)),
        {
            let sid = states[i] as u64;
            if !keep.contains(&sid) {
                r.insert(sid);
            }
        }
        proof {
            assert forall|i: int, x: u32| 0 <= i < j + 1 && #[trigger] inst.predicates@[keys@[i]].covered_states@.contains(x)
                implies (r@.contains(x as u64) || keep@.contains(x as u64)) by {
                if i == j {
                    assert(states@.to_set().contains(x));
                    let t = choose|t: int| 0 <= t < states@.len() && states@[t] == x;
                    assert(r@.contains(states@[t] as u64) || keep@.contains(states@[t] as u64));
                } else {
                    assert(r0.contains(x as u64) ==> r@.contains(x as u64));
                }
            }
        }
    }
    proof {
        assert forall|k: usize, x: u32| inst.predicates@.contains_key(k) && #[trigger] inst.predicates@[k].covered_states@.contains(x)
            implies (r@.contains(x as u64) <==> !keep@.contains(x as u64)) by {
            assert(keys@.to_set().contains(k));
            let i = choose|i: int| 0 <= i < keys@.len() && keys@[i] == k;
            assert(inst.predicates@[keys@[i]].covered_states@.contains(x));
        }
    }
    r
}

/// Every predicate covers state `s`.
pub open spec fn covered_by_all(preds: Map<usize, crate::set_cover_instance::SetCoverPredicate>, s: u64) -> bool {
    &&& s <= u32::MAX
    &&& forall|p: usize| #[trigger] preds.contains_key(p) ==> preds[p].covered_states@.contains(s as u32)
}

/// The states of counterexample traces only that every predicate covers.
pub open spec fn universally_covered_states(inst: &SetCoverInstance) -> Set<u64> {
    cex_state_set(inst.cex_traces@).difference(inst.bex_samples@.dom()).filter(|s: u64| covered_by_all(inst.predicates@, s))
}

/// The trace holds a state of `rm`.
pub open spec fn trace_hits(t: SetCoverCEXTrace, rm: Set<u64>) -> bool {
    exists|s: u64| #[trigger] t.states@.contains_key(s) && rm.contains(s)
}

fn is_covered_by_all(inst: &SetCoverInstance, pkeys: &Vec<usize>, s: u64) -> (r: bool)
    requires
        pkeys@.to_set() == inst.predicates@.dom(),
    ensures
        r == covered_by_all(inst.predicates@, s),
{
    if s > 0xffff_ffffu64 {
        return false;
    }
    let x = s as u32;
    let n = pkeys.len();
    let mut i: usize = 0;
    while i < n
        invariant
            i <= n,
            n == pkeys@.len(),
            s <= u32::MAX,
            x == s as u32,
            pkeys@.to_set() == inst.predicates@.dom(),
            forall|k: int| 0 <= k < i ==> #[trigger] inst.predicates@[pkeys@[k]].covered_states@.contains(x),
        decreases n - i,
    {
        let pid = pkeys[i];
        assert(pkeys@.to_set().contains(pid));
        let p = inst.predicates.get(&pid).unwrap();
        if !p.covered_states.contains(&x) {
            return false;
        }
        i = i + 1;
    }
    proof {
        assert forall|p: usize| #[trigger] inst.predicates@.contains_key(p) implies inst.predicates@[p].covered_states@.contains(s as u32) by {
            assert(pkeys@.to_set().contains(p));
            let k = choose|k: int| 0 <= k < pkeys@.len() && pkeys@[k] == p;
            assert(inst.predicates@[pkeys@[k]].covered_states@.contains(x));
        }
    }
    true
}

fn trace_has_state_in(t: &SetCoverCEXTrace, rm: &HashSet<u64>) -> (r: bool)
    ensures
        r == trace_hits(*t, rm@),
{
    let ks = u64_keys(&t.states);
    let n = ks.len();
    let mut i: usize = 0;
    while i < n
        invariant
            i <= n,
            n == ks@.len(),
            ks@.to_set() == t.states@.dom(),
            forall|k: int| 0 <= k < i ==> !rm@.contains(#[trigger] ks@[k]),
        decreases n - i,
    {
        if rm.contains(&ks[i]) {
            assert(ks@.to_set().contains(ks@[i as int]));
            return true;
        }
        i = i + 1;
    }
    proof {
        if trace_hits(*t, rm@) {
            let s = choose|s: u64| #[trigger] t.states@.contains_key(s) && rm@.contains(s);
            assert(ks@.to_set().contains(s));
            let k = choose|k: int| 0 <= k < ks@.len() && ks@[k] == s;
            assert(!rm@.contains(ks@[k]));
        }
    }
    false
}

/// Removes the states of counterexample traces only that every predicate
/// covers: they leave the set of states and the predicates, and each
/// counterexample trace that holds one leaves too. Returns how many states
/// and how many traces left.
pub fn remove_already_covered_cex_states_and_empty_traces(inst: &mut SetCoverInstance) -> (r: (usize, usize))
    requires
        old(inst).predicates@.len() > 0,
    ensures
        ({
            let rm = universally_covered_states(old(inst));
            &&& final(inst).all_states@ == old(inst).all_states@.difference(rm)
            &&& final(inst).cex_traces@.dom() == old(inst).cex_traces@.dom().filter(|t: usize| !trace_hits(old(inst).cex_traces@[t], rm))
            &&& forall|t: usize| #[trigger] final(inst).cex_traces@.contains_key(t) ==> final(inst).cex_traces@[t] == old(inst).cex_traces@[t]
            &&& final(inst).predicates@.dom() == old(inst).predicates@.dom()
            &&& forall|k: usize| #[trigger] old(inst).predicates@.contains_key(k) ==> {
                &&& final(inst).predicates@[k].covered_states@ == old(inst).predicates@[k].covered_states@.filter(|x: u32| !rm.contains(x as u64))
                &&& final(inst).predicates@[k].id == old(inst).predicates@[k].id
                &&& final(inst).predicates@[k].predicate == old(inst).predicates@[k].predicate
            }
            &&& r.0 == old(inst).all_states@.len() - final(inst).all_states@.len()
            &&& r.1 == old(inst).cex_traces@.len() - final(inst).cex_traces@.len()
            &&& final(inst).bex_samples == old(inst).bex_samples
            &&& final(inst).bex_traces == old(inst).bex_traces
            &&& final(inst).formula_score_weights == old(inst).formula_score_weights
        }),
{
    let ghost start = *inst;
    let ghost rm_spec = universally_covered_states(&start);
    let (cex_only, _, _) = classify_states(inst);
    let pkeys = usize_keys(&inst.predicates);
    let cl = set_elems(&cex_only);
    let n = cl.len();
    let mut states_to_remove: HashSet<u64> = HashSet::new();
    for i in 0..n
        invariant
            n == cl@.len(),
            cl@.to_set() == cex_only@,
            pkeys@.to_set() == inst.predicates@.dom(),
            states_to_remove@ == cl@.take(i as int).to_set().filter(|s: u64| covered_by_all(inst.predicates@, s)),
    {
        let sid = cl[i];
        if is_covered_by_all(inst, &pkeys, sid) {
            states_to_remove.insert(sid);
        }
        proof {
            assert(cl@.take(i + 1) =~= cl@.take(i as int).push(sid));
            cl@.take(i as int).lemma_push_to_set_commute(sid);
        }
        assert(states_to_remove@ =~= cl@.take(i + 1).to_set().filter(|s: u64| covered_by_all(inst.predicates@, s)));
    }
    assert(cl@.take(n as int) =~= cl@);
    assert(states_to_remove@ =~= rm_spec);
    let len_before = inst.all_states.len();
    let al = set_elems(&inst.all_states);
    proof {
        vstd::seq_lib::seq_to_set_is_finite(al@);
    }
    let m = al.len();
    for i in 0..m
        invariant
            m == al@.len(),
            al@.to_set() == start.all_states@,
            states_to_remove@ == rm_spec,
            inst.all_states@ == start.all_states@.difference(al@.take(i as int).to_set().intersect(rm_spec)),
            inst.predicates == start.predicates,
            inst.cex_traces == start.cex_traces,
            inst.bex_samples == start.bex_samples,
            inst.bex_traces == start.bex_traces,
            inst.formula_score_weights == start.formula_score_weights,
    {
        let sid = al[i];
        if states_to_remove.contains(&sid) {
            inst.all_states.remove(&sid);
        }
        proof {
            assert(al@.take(i + 1) =~= al@.take(i as int).push(sid));
            al@.take(i as int).lemma_push_to_set_commute(sid);
        }
        assert(inst.all_states@ =~= start.all_states@.difference(al@.take(i + 1).to_set().intersect(rm_spec)));
    }
    assert(al@.take(m as int) =~= al@);
    assert(inst.all_states@ =~= start.all_states@.difference(rm_spec));
    let len_after = inst.all_states.len();
    proof {
        vstd::set_lib::lemma_len_subset(inst.all_states@, start.all_states@);
    }
    let removed_states = len_before - len_after;
    let tids = usize_keys(&inst.cex_traces);
    let tn = tids.len();
    let total_traces = inst.cex_traces.len();
    let mut removed_traces: usize = 0;
    for j in 0..tn
        invariant
            tn == tids@.len(),
            total_traces == start.cex_traces@.len(),
            tids@.to_set() == start.cex_traces@.dom(),
            tids@.no_duplicates(),
            states_to_remove@ == rm_spec,
            inst.cex_traces@.dom() == start.cex_traces@.dom().filter(|t: usize|
                !(tids@.take(j as int).contains(t) && trace_hits(start.cex_traces@[t], rm_spec))),
            forall|t: usize| #[trigger] inst.cex_traces@.contains_key(t) ==> inst.cex_traces@[t] == start.cex_traces@[t],
            removed_traces == start.cex_traces@.len() - inst.cex_traces@.len(),
            inst.all_states@ == start.all_states@.difference(rm_spec),
            inst.predicates == start.predicates,
            inst.bex_samples == start.bex_samples,
            inst.bex_traces == start.bex_traces,
            inst.formula_score_weights == start.formula_score_weights,
    {
        let tid = tids[j];
        assert(tids@.to_set().contains(tid));
        assert(!tids@.take(j as int).contains(tid)) by {
            if tids@.take(j as int).contains(tid) {
                let k = choose|k: int| 0 <= k < j && tids@.take(j as int)[k] == tid;
                assert(tids@[k] == tids@[j as int]);
            }
        }
        assert(inst.cex_traces@.contains_key(tid));
        let hit = trace_has_state_in(inst.cex_traces.get(&tid).unwrap(), &states_to_remove);
        assert(hit == trace_hits(start.cex_traces@[tid], rm_spec));
        if hit {
            proof {
                vstd::set_lib::lemma_len_subset(inst.cex_traces@.dom(), start.cex_traces@.dom());
                assert(inst.cex_traces@.len() >= 1) by {
                    assert(inst.cex_traces@.dom().contains(tid));
                }
            }
            inst.cex_traces.remove(&tid);
            removed_traces = removed_traces + 1;
        }
        let ghost s0 = tids@.take(j as int);
        let ghost s1 = tids@.take(j + 1);
        assert forall|t: usize| #[trigger] s1.contains(t) == (s0.contains(t) || t == tid) by {
            if s1.contains(t) {
                let k = choose|k: int| 0 <= k < s1.len() && s1[k] == t;
                if k < j {
                    assert(s0[k] == t);
                }
            }
            if s0.contains(t) {
                let k = choose|k: int| 0 <= k < s0.len() && s0[k] == t;
                assert(s1[k] == t);
            }
            if t == tid {
                assert(s1[j as int] == t);
            }
        }
        assert(inst.cex_traces@.dom() =~= start.cex_traces@.dom().filter(|t: usize|
            !(tids@.take(j + 1).contains(t) && trace_hits(start.cex_traces@[t], rm_spec))));
    }
    assert(tids@.take(tn as int) =~= tids@);
    assert(inst.cex_traces@.dom() =~= start.cex_traces@.dom().filter(|t: usize| !trace_hits(start.cex_traces@[t], rm_spec)));
    remove_states_from_predicates(inst, &states_to_remove);
    (removed_states, removed_traces)
}

/// The traces whose support is not empty; an error (the instance is
/// infeasible) where the required trace is not among them.
pub fn keep_nonempty_traces(
    inst: &SetCoverInstance,
    trace_support: &HashMap<usize, BitSetWrapper>,
    required_trace_id: usize,
) -> (r: Result<HashSet<usize>, String>)
    ensures
        r is Err <==> !(trace_support@.contains_key(required_trace_id) && trace_support@[required_trace_id]@.len() > 0),
        r is Ok ==> r->Ok_0@ == Set::new(|t: usize| trace_support@.contains_key(t) && trace_support@[t]@.len() > 0),
{
    let keys = usize_keys(trace_support);
    let n = keys.len();
    let mut kept: HashSet<usize> = HashSet::new();
    for i in 0..n
        invariant
            n == keys@.len(),
            keys@.to_set() == trace_support@.dom(),
            kept@ == keys@.take(i as int).to_set().filter(|t: usize| trace_support@[t]@.len() > 0),
    {
        let t = keys[i];
        assert(keys@.to_set().contains(t));
        let supp = trace_support.get(&t).unwrap();
        if supp.len() > 0 {
            kept.insert(t);
        }
        proof {
            assert(keys@.take(i + 1) =~= keys@.take(i as int).push(t));
            keys@.take(i as int).lemma_push_to_set_commute(t);
        }
        assert(kept@ =~= keys@.take(i + 1).to_set().filter(|t: usize| trace_support@[t]@.len() > 0));
    }
    assert(keys@.take(n as int) =~= keys@);
    assert(kept@ =~= Set::new(|t: usize| trace_support@.contains_key(t) && trace_support@[t]@.len() > 0));
    if !kept.contains(&required_trace_id) {
        return Err(String::from_str("required trace has empty support: instance infeasible"));
    }
    Ok(kept)
}

// ----------------------------------------------------------------------------
// Predicate indices and supports
// ----------------------------------------------------------------------------

/// The elements of `v` in increasing order.
fn sort_keys(v: &Vec<usize>) -> (r: Vec<usize>)
    requires
        v@.no_duplicates(),
    ensures
        r@.to_set() == v@.to_set(),
        r@.len() == v@.len(),
        forall|i: int, j: int| 0 <= i < j < r@.len() ==> r@[i] < r@[j],
{
    let mut r: Vec<usize> = Vec::new();
    let n = v.len();
    for i in 0..n
        invariant
            n == v@.len(),
            v@.no_duplicates(),
            r@.to_set() == v@.take(i as int).to_set(),
            r@.len() == i,
            forall|a: int, b: int| 0 <= a < b < r@.len() ==> r@[a] < r@[b],
    {
        let x = v[i];
        proof {
            assert(!v@.take(i as int).contains(x)) by {
                if v@.take(i as int).contains(x) {
                    let k = choose|k: int| 0 <= k < i && v@.take(i as int)[k] == x;
                    assert(v@[k] == v@[i as int]);
                }
            }
            assert(!r@.contains(x)) by {
                if r@.contains(x) {
                    assert(r@.to_set().contains(x));
                }
            }
        }
        let mut pos: usize = 0;
        while pos < r.len() && r[pos] < x
            invariant
                pos <= r@.len(),
                forall|a: int| 0 <= a < pos ==> r@[a] < x,
            decreases r@.len() - pos,
        {
            pos = pos + 1;
        }
        let ghost r0 = r@;
        r.insert(pos, x);
        proof {
            assert(r@ =~= r0.take(pos as int).push(x) + r0.skip(pos as int));
            assert forall|a: int, b: int| 0 <= a < b < r@.len() implies r@[a] < r@[b] by {
                if b < pos {
                } else if b == pos {
                } else if a < pos {
                    assert(r0[a] < x);
                    if pos < r0.len() {
                        assert(!(r0[pos as int] < x));
                        assert(r0[pos as int] != x);
                        if b - 1 > pos {
                            assert(r0[pos as int] < r0[b - 1]);
                        }
                    }
                } else if a == pos {
                    assert(!(r0[pos as int] < x));
                    assert(r0[pos as int] != x);
                    if b - 1 > pos {
                        assert(r0[pos as int] < r0[b - 1]);
                    }
                } else {
                }
            }
            assert(v@.take(i + 1) =~= v@.take(i as int).push(x));
            v@.take(i as int).lemma_push_to_set_commute(x);
            assert forall|y: usize| r@.to_set().contains(y) <==> r0.to_set().insert(x).contains(y) by {
                if y == x {
                    assert(r@[pos as int] == x);
                }
                if r@.to_set().contains(y) {
                    let k = choose|k: int| 0 <= k < r@.len() && r@[k] == y;
                    if k < pos {
                        assert(r0[k] == y);
                    } else if k > pos {
                        assert(r0[k - 1] == y);
                    }
                }
                if r0.to_set().contains(y) {
                    let k = choose|k: int| 0 <= k < r0.len() && r0[k] == y;
                    if k < pos {
                        assert(r@[k] == y);
                    } else {
                        assert(r@[k + 1] == y);
                    }
                }
            }
            assert(r@.to_set() =~= r0.to_set().insert(x));
        }
    }
    assert(v@.take(n as int) =~= v@);
    r
}

/// Numbers the predicate ids in increasing order: 0, 1, 2, ...
pub fn build_pred_index(predicates: &HashMap<usize, crate::set_cover_instance::SetCoverPredicate>) -> (r: HashMap<usize, u32>)
    requires
        predicates@.dom().len() <= u32::MAX + 1,
    ensures
        r@.dom() == predicates@.dom(),
        forall|p: usize| #[trigger] r@.contains_key(p) ==> r@[p] < predicates@.dom().len(),
        forall|p: usize, q: usize| r@.contains_key(p) && r@.contains_key(q) && p < q ==> #[trigger] r@[p] < #[trigger] r@[q],
{
    let keys = usize_keys(predicates);
    let sorted = sort_keys(&keys);
    proof {
        keys@.unique_seq_to_set();
    }
    let n = sorted.len();
    let mut r: HashMap<usize, u32> = HashMap::new();
    for i in 0..n
        invariant
            n == sorted@.len(),
            n == predicates@.dom().len(),
            n <= u32::MAX + 1,
            sorted@.to_set() == predicates@.dom(),
            forall|a: int, b: int| 0 <= a < b < sorted@.len() ==> sorted@[a] < sorted@[b],
            r@.dom() == sorted@.take(i as int).to_set(),
            forall|k: int| 0 <= k < i ==> #[trigger] r@[sorted@[k]] == k,
    {
        let p = sorted[i];
        r.insert(p, i as u32);
        proof {
            assert(sorted@.take(i + 1) =~= sorted@.take(i as int).push(p));
            sorted@.take(i as int).lemma_push_to_set_commute(p);
            assert forall|k: int| 0 <= k < i + 1 implies #[trigger] r@[sorted@[k]] == k by {
                if k < i {
                    assert(sorted@[k] < sorted@[i as int]);
                }
            }
        }
        assert(r@.dom() =~= sorted@.take(i + 1).to_set());
    }
    assert(sorted@.take(n as int) =~= sorted@);
    proof {
        assert forall|p: usize| #[trigger] r@.contains_key(p) implies r@[p] < predicates@.dom().len() by {
            assert(sorted@.to_set().contains(p));
            let k = choose|k: int| 0 <= k < sorted@.len() && sorted@[k] == p;
            assert(r@[sorted@[k]] == k);
        }
        assert forall|p: usize, q: usize| r@.contains_key(p) && r@.contains_key(q) && p < q implies #[trigger] r@[p] < #[trigger] r@[q] by {
            assert(sorted@.to_set().contains(p));
            assert(sorted@.to_set().contains(q));
            let a = choose|a: int| 0 <= a < sorted@.len() && sorted@[a] == p;
            let b = choose|b: int| 0 <= b < sorted@.len() && sorted@[b] == q;
            assert(r@[sorted@[a]] == a);
            assert(r@[sorted@[b]] == b);
            if b < a {
                assert(sorted@[b] < sorted@[a]);
            }
        }
    }
    r
}

/// The numbers (through `pid_to_u`) of the predicates that cover `s`.
pub open spec fn support_of(
    preds: Map<usize, crate::set_cover_instance::SetCoverPredicate>,
    pid_to_u: Map<usize, u32>,
    s: u64,
) -> Set<u32> {
    Set::new(|u: u32| exists|p: usize| preds.contains_key(p) && pid_to_u[p] == u && #[trigger] preds[p].covered_states@.contains(s as u32))
}

/// For each benign state, the numbers of the predicates covering it.
pub fn compute_b_supports(inst: &SetCoverInstance, pid_to_u: &HashMap<usize, u32>) -> (r: HashMap<StateIdType, BitSetWrapper>)
    requires
        forall|p: usize| #[trigger] inst.predicates@.contains_key(p) ==> pid_to_u@.contains_key(p) && bitset_index_ok(pid_to_u@[p]),
    ensures
        r@.dom() == inst.bex_samples@.dom(),
        forall|s: u64| #[trigger] r@.contains_key(s) ==> r@[s]@ == support_of(inst.predicates@, pid_to_u@, s),
{
    let states = u64_keys(&inst.bex_samples);
    let pkeys = usize_keys(&inst.predicates);
    let mut r: HashMap<u64, BitSetWrapper> = HashMap::new();
    let n = states.len();
    let m = pkeys.len();
    for i in 0..n
        invariant
            n == states@.len(),
            m == pkeys@.len(),
            states@.to_set() == inst.bex_samples@.dom(),
            pkeys@.to_set() == inst.predicates@.dom(),
            forall|p: usize| #[trigger] inst.predicates@.contains_key(p) ==> pid_to_u@.contains_key(p) && bitset_index_ok(pid_to_u@[p]),
            r@.dom() == states@.take(i as int).to_set(),
            forall|s: u64| #[trigger] r@.contains_key(s) ==> r@[s]@ == support_of(inst.predicates@, pid_to_u@, s),
    {
        let sid = states[i];
        let mut supp = BitSetWrapper::new();
        for j in 0..m
            invariant
                m == pkeys@.len(),
                pkeys@.to_set() == inst.predicates@.dom(),
                forall|p: usize| #[trigger] inst.predicates@.contains_key(p) ==> pid_to_u@.contains_key(p) && bitset_index_ok(pid_to_u@[p]),
                supp@ == Set::new(|u: u32| exists|k: int| 0 <= k < j && pid_to_u@[pkeys@[k]] == u
                    && #[trigger] inst.predicates@[pkeys@[k]].covered_states@.contains(sid as u32)),
        {
            let pid = pkeys[j];
            assert(pkeys@.to_set().contains(pid));
            let p = inst.predicates.get(&pid).unwrap();
            if p.covered_states.contains(&(sid as u32)) {
                let u = *pid_to_u.get(&pid).unwrap();
                supp.insert(u);
            }
            proof {
                assert forall|u: u32| supp@.contains(u) <==> exists|k: int| 0 <= k < j + 1 && pid_to_u@[pkeys@[k]] == u
                    && #[trigger] inst.predicates@[pkeys@[k]].covered_states@.contains(sid as u32) by {
                    if exists|k: int| 0 <= k < j + 1 && pid_to_u@[pkeys@[k]] == u
                        && #[trigger] inst.predicates@[pkeys@[k]].covered_states@.contains(sid as u32) {
                        let k = choose|k: int| 0 <= k < j + 1 && pid_to_u@[pkeys@[k]] == u
                            && #[trigger] inst.predicates@[pkeys@[k]].covered_states@.contains(sid as u32);
                        if k < j {
                            assert(exists|k2: int| 0 <= k2 < j && pid_to_u@[pkeys@[k2]] == u
                                && #[trigger] inst.predicates@[pkeys@[k2]].covered_states@.contains(sid as u32));
                        }
                    }
                }
            }
            assert(supp@ =~= Set::new(|u: u32| exists|k: int| 0 <= k < j + 1 && pid_to_u@[pkeys@[k]] == u
                && #[trigger] inst.predicates@[pkeys@[k]].covered_states@.contains(sid as u32)));
        }
        proof {
            assert forall|u: u32| supp@.contains(u) <==> support_of(inst.predicates@, pid_to_u@, sid).contains(u) by {
                if supp@.contains(u) {
                    let k = choose|k: int| 0 <= k < m && pid_to_u@[pkeys@[k]] == u
                        && #[trigger] inst.predicates@[pkeys@[k]].covered_states@.contains(sid as u32);
                    assert(pkeys@.to_set().contains(pkeys@[k]));
                }
                if support_of(inst.predicates@, pid_to_u@, sid).contains(u) {
                    let p = choose|p: usize| inst.predicates@.contains_key(p) && pid_to_u@[p] == u
                        && #[trigger] inst.predicates@[p].covered_states@.contains(sid as u32);
                    assert(pkeys@.to_set().contains(p));
                    let k = choose|k: int| 0 <= k < pkeys@.len() && pkeys@[k] == p;
                    assert(inst.predicates@[pkeys@[k]].covered_states@.contains(sid as u32));
                }
            }
            assert(supp@ =~= support_of(inst.predicates@, pid_to_u@, sid));
        }
        let ghost r0 = r@;
        r.insert(sid, supp);
        proof {
            assert(states@.take(i + 1) =~= states@.take(i as int).push(sid));
            states@.take(i as int).lemma_push_to_set_commute(sid);
        }
        assert(r@.dom() =~= states@.take(i + 1).to_set());
    }
    assert(states@.take(n as int) =~= states@);
    r
}

// ----------------------------------------------------------------------------
// Merging traces with the same states
// ----------------------------------------------------------------------------

/// The summing step of `group_weight`.
pub open spec fn add_id_weight(w: Map<usize, u64>) -> spec_fn(int, usize) -> int {
    |acc: int, u: usize| acc + w[u]
}

/// The ids whose key equals that of `t`.
pub open spec fn group_of(keys: Map<usize, Set<u32>>, t: usize) -> Set<usize> {
    Set::new(|u: usize| keys.contains_key(u) && keys[u] == keys[t])
}

/// `t` is the smallest id of its group.
pub open spec fn is_group_rep(keys: Map<usize, Set<u32>>, t: usize) -> bool {
    keys.contains_key(t) && forall|u: usize| #[trigger] group_of(keys, t).contains(u) ==> t <= u
}

/// The weights of the group of `t`, summed.
pub open spec fn group_weight(keys: Map<usize, Set<u32>>, w: Map<usize, u64>, t: usize) -> int {
    group_of(keys, t).fold(0int, add_id_weight(w))
}

/// Some member of the group of `t` is flagged.
pub open spec fn group_flag(keys: Map<usize, Set<u32>>, f: Map<usize, bool>, t: usize) -> bool {
    exists|u: usize| #[trigger] group_of(keys, t).contains(u) && f[u]
}

proof fn lemma_add_id_weight_commutative(w: Map<usize, u64>)
    ensures
        vstd::set::fold::is_fun_commutative(add_id_weight(w)),
{
    assert forall|a1: usize, a2: usize, b: int| #[trigger] add_id_weight(w)(add_id_weight(w)(b, a1), a2)
        == add_id_weight(w)(add_id_weight(w)(b, a2), a1) by {
    }
}

proof fn lemma_id_fold_nonneg_step(s: Set<usize>, w: Map<usize, u64>, u: usize)
    requires
        s.finite(),
        !s.contains(u),
    ensures
        s.insert(u).fold(0int, add_id_weight(w)) == s.fold(0int, add_id_weight(w)) + w[u],
{
    lemma_add_id_weight_commutative(w);
    vstd::set::fold::lemma_fold_insert(s, 0int, add_id_weight(w), u);
}

/// For every id of `ids`, whether it is the smallest of its group, the
/// group's summed weight and whether some member is flagged.
fn summarize_groups(ids: &Vec<usize>, keys: &Vec<BitSetWrapper>, weights: &Vec<u64>, flags: &Vec<bool>)
    -> (r: Vec<(bool, u64, bool)>)
    requires
        ids@.no_duplicates(),
        keys@.len() == ids@.len(),
        weights@.len() == ids@.len(),
        flags@.len() == ids@.len(),
        forall|i: int| 0 <= i < ids@.len() ==> group_weight(seq_key_map(ids@, keys@), seq_u64_map(ids@, weights@), #[trigger] ids@[i]) <= u64::MAX,
    ensures
        r@.len() == ids@.len(),
        forall|i: int| 0 <= i < ids@.len() ==> {
            let km = seq_key_map(ids@, keys@);
            &&& (#[trigger] r@[i]).0 == is_group_rep(km, ids@[i])
            &&& r@[i].1 == group_weight(km, seq_u64_map(ids@, weights@), ids@[i])
            &&& r@[i].2 == group_flag(km, seq_bool_map(ids@, flags@), ids@[i])
        },
{
    let ghost km = seq_key_map(ids@, keys@);
    let ghost wm = seq_u64_map(ids@, weights@);
    let ghost fm = seq_bool_map(ids@, flags@);
    let n = ids.len();
    let mut r: Vec<(bool, u64, bool)> = Vec::new();
    proof {
        lemma_seq_maps(ids@, keys@, weights@, flags@);
    }
    for i in 0..n
        invariant
            n == ids@.len(),
            ids@.no_duplicates(),
            keys@.len() == n && weights@.len() == n && flags@.len() == n,
            km == seq_key_map(ids@, keys@),
            wm == seq_u64_map(ids@, weights@),
            fm == seq_bool_map(ids@, flags@),
            forall|k: int| 0 <= k < n ==> #[trigger] km[ids@[k]] == keys@[k]@ && wm[ids@[k]] == weights@[k] && fm[ids@[k]] == flags@[k],
            km.dom() == ids@.to_set(),
            forall|k: int| 0 <= k < n ==> group_weight(km, wm, #[trigger] ids@[k]) <= u64::MAX,
            r@.len() == i,
            forall|k: int| 0 <= k < i ==> {
                &&& (#[trigger] r@[k]).0 == is_group_rep(km, ids@[k])
                &&& r@[k].1 == group_weight(km, wm, ids@[k])
                &&& r@[k].2 == group_flag(km, fm, ids@[k])
            },
    {
        let t = ids[i];
        let mut min_id = t;
        let mut sum: u64 = 0;
        let mut flag = false;
        let ghost mut seen: Set<usize> = Set::empty();
        proof {
            vstd::set::fold::lemma_fold_empty(0int, add_id_weight(wm));
        }
        for j in 0..n
            invariant
                n == ids@.len(),
                ids@.no_duplicates(),
                keys@.len() == n && weights@.len() == n && flags@.len() == n,
                forall|k: int| 0 <= k < n ==> #[trigger] km[ids@[k]] == keys@[k]@ && wm[ids@[k]] == weights@[k] && fm[ids@[k]] == flags@[k],
                km.dom() == ids@.to_set(),
                t == ids@[i as int],
                0 <= i < n,
                group_weight(km, wm, t) <= u64::MAX,
                seen == group_of(km, t).intersect(ids@.take(j as int).to_set()),
                seen.finite(),
                sum == seen.fold(0int, add_id_weight(wm)),
                flag == exists|u: usize| #[trigger] seen.contains(u) && fm[u],
                min_id <= t,
                group_of(km, t).contains(min_id),
                forall|u: usize| #[trigger] seen.contains(u) ==> min_id <= u,
                min_id == t || seen.contains(min_id),
        {
            let u = ids[j];
            proof {
                assert(ids@.take(j + 1) =~= ids@.take(j as int).push(u));
                ids@.take(j as int).lemma_push_to_set_commute(u);
                assert(!ids@.take(j as int).to_set().contains(u)) by {
                    if ids@.take(j as int).to_set().contains(u) {
                        let k = choose|k: int| 0 <= k < j && ids@.take(j as int)[k] == u;
                        assert(ids@[k] == ids@[j as int]);
                    }
                }
                assert(ids@.to_set().contains(u));
                assert(ids@.to_set().contains(t));
            }
            if keys[j].is_subset(&keys[i]) && keys[i].is_subset(&keys[j]) {
                proof {
                    assert(keys@[j as int]@ =~= keys@[i as int]@);
                    assert(group_of(km, t).contains(u));
                    lemma_id_fold_nonneg_step(seen, wm, u);
                    let g = group_of(km, t);
                    lemma_group_finite(km, t);
                    lemma_id_fold_subset(seen.insert(u), g, wm);
                }
                sum = sum + weights[j];
                let ghost flag0 = flag;
                if flags[j] {
                    flag = true;
                }
                proof {
                    assert(km[ids@[j as int]] == keys@[j as int]@);
                    assert(fm[u] == flags@[j as int]);
                    assert(flag == (flag0 || fm[u]));
                }
                if u < min_id {
                    min_id = u;
                }
                proof {
                    let old_seen = seen;
                    seen = seen.insert(u);
                    assert(seen =~= group_of(km, t).intersect(ids@.take(j + 1).to_set()));
                    assert(flag == exists|v: usize| #[trigger] seen.contains(v) && fm[v]) by {
                        if flag0 {
                            let v = choose|v: usize| #[trigger] old_seen.contains(v) && fm[v];
                            assert(seen.contains(v) && fm[v]);
                        }
                        if fm[u] {
                            assert(seen.contains(u) && fm[u]);
                        }
                        if exists|v: usize| #[trigger] seen.contains(v) && fm[v] {
                            let v = choose|v: usize| #[trigger] seen.contains(v) && fm[v];
                            if v != u {
                                assert(old_seen.contains(v));
                            }
                        }
                    }
                }
            } else {
                proof {
                    if group_of(km, t).contains(u) {
                        assert(keys@[j as int]@ == keys@[i as int]@);
                    }
                    assert(seen =~= group_of(km, t).intersect(ids@.take(j + 1).to_set()));
                }
            }
        }
        proof {
            assert(ids@.take(n as int) =~= ids@);
            lemma_group_finite(km, t);
            assert(seen =~= group_of(km, t));
        }
        r.push((min_id == t, sum, flag));
        proof {
            assert(r@[i as int] == (min_id == t, sum, flag));
            assert((min_id == t) == is_group_rep(km, t)) by {
                if min_id != t {
                    assert(group_of(km, t).contains(min_id));
                }
            }
        }
    }
    r
}

/// The map from each id of `ids` to the key at its position.
pub open spec fn seq_key_map(ids: Seq<usize>, keys: Seq<BitSetWrapper>) -> Map<usize, Set<u32>> {
    Map::new(|u: usize| ids.contains(u), |u: usize| keys[ids.index_of(u)]@)
}

/// The map from each id of `ids` to the weight at its position.
pub open spec fn seq_u64_map(ids: Seq<usize>, w: Seq<u64>) -> Map<usize, u64> {
    Map::new(|u: usize| ids.contains(u), |u: usize| w[ids.index_of(u)])
}

/// The map from each id of `ids` to the flag at its position.
pub open spec fn seq_bool_map(ids: Seq<usize>, f: Seq<bool>) -> Map<usize, bool> {
    Map::new(|u: usize| ids.contains(u), |u: usize| f[ids.index_of(u)])
}

proof fn lemma_seq_maps(ids: Seq<usize>, keys: Seq<BitSetWrapper>, w: Seq<u64>, f: Seq<bool>)
    requires
        ids.no_duplicates(),
    ensures
        seq_key_map(ids, keys).dom() == ids.to_set(),
        forall|k: int| 0 <= k < ids.len() ==> #[trigger] seq_key_map(ids, keys)[ids[k]] == keys[k]@
            && seq_u64_map(ids, w)[ids[k]] == w[k] && seq_bool_map(ids, f)[ids[k]] == f[k],
{
    assert(seq_key_map(ids, keys).dom() =~= ids.to_set());
    assert forall|k: int| 0 <= k < ids.len() implies #[trigger] seq_key_map(ids, keys)[ids[k]] == keys[k]@
        && seq_u64_map(ids, w)[ids[k]] == w[k] && seq_bool_map(ids, f)[ids[k]] == f[k] by {
        assert(ids.contains(ids[k]));
        ids.index_of_first_ensures(ids[k]);
        let j = ids.index_of(ids[k]);
        assert(ids[j] == ids[k]);
        if j != k {
            assert(false);
        }
    }
}

proof fn lemma_group_finite(km: Map<usize, Set<u32>>, t: usize)
    requires
        km.dom().finite(),
    ensures
        group_of(km, t).finite(),
        group_of(km, t).subset_of(km.dom()),
{
    assert(group_of(km, t).subset_of(km.dom()));
    vstd::set_lib::lemma_len_subset(group_of(km, t), km.dom());
}

/// A fold of weights over a subset is at most that over the set.
proof fn lemma_id_fold_subset(a: Set<usize>, b: Set<usize>, w: Map<usize, u64>)
    requires
        a.subset_of(b),
        b.finite(),
    ensures
        0 <= a.fold(0int, add_id_weight(w)) <= b.fold(0int, add_id_weight(w)),
    decreases b.len(),
{
    lemma_add_id_weight_commutative(w);
    if b.len() == 0 {
        assert(b =~= Set::<usize>::empty());
        assert(a =~= Set::<usize>::empty());
        vstd::set::fold::lemma_fold_empty(0int, add_id_weight(w));
    } else {
        let x = b.choose();
        let b1 = b.remove(x);
        let a1 = a.remove(x);
        vstd::set_lib::lemma_len_subset(a, b);
        lemma_id_fold_subset(a1, b1, w);
        vstd::set::fold::lemma_fold_insert(b1, 0int, add_id_weight(w), x);
        assert(b1.insert(x) =~= b);
        if a.contains(x) {
            vstd::set::fold::lemma_fold_insert(a1, 0int, add_id_weight(w), x);
            assert(a1.insert(x) =~= a);
        } else {
            assert(a1 =~= a);
        }
    }
}

/// The summing step of `state_group_weight`.
pub open spec fn add_state_weight(w: Map<u64, u64>) -> spec_fn(int, u64) -> int {
    |acc: int, u: u64| acc + w[u]
}

/// The ids whose key equals that of `t`.
pub open spec fn state_group_of(keys: Map<u64, Set<u32>>, t: u64) -> Set<u64> {
    Set::new(|u: u64| keys.contains_key(u) && keys[u] == keys[t])
}

/// The weights of the group of `t`, summed.
pub open spec fn state_group_weight(keys: Map<u64, Set<u32>>, w: Map<u64, u64>, t: u64) -> int {
    state_group_of(keys, t).fold(0int, add_state_weight(w))
}

/// Some member of the group of `t` is flagged.
pub open spec fn state_group_flag(keys: Map<u64, Set<u32>>, f: Map<u64, bool>, t: u64) -> bool {
    exists|u: u64| #[trigger] state_group_of(keys, t).contains(u) && f[u]
}

proof fn lemma_add_state_weight_commutative(w: Map<u64, u64>)
    ensures
        vstd::set::fold::is_fun_commutative(add_state_weight(w)),
{
    assert forall|a1: u64, a2: u64, b: int| #[trigger] add_state_weight(w)(add_state_weight(w)(b, a1), a2)
        == add_state_weight(w)(add_state_weight(w)(b, a2), a1) by {
    }
}

proof fn lemma_state_fold_step(s: Set<u64>, w: Map<u64, u64>, u: u64)
    requires
        s.finite(),
        !s.contains(u),
    ensures
        s.insert(u).fold(0int, add_state_weight(w)) == s.fold(0int, add_state_weight(w)) + w[u],
{
    lemma_add_state_weight_commutative(w);
    vstd::set::fold::lemma_fold_insert(s, 0int, add_state_weight(w), u);
}

/// For every state of `ids`, the smallest state of its group, the
/// group's summed weight and whether some member is flagged.
fn summarize_state_groups(ids: &Vec<u64>, keys: &Vec<BitSetWrapper>, weights: &Vec<u64>, flags: &Vec<bool>)
    -> (r: Vec<(u64, u64, bool)>)
    requires
        ids@.no_duplicates(),
        keys@.len() == ids@.len(),
        weights@.len() == ids@.len(),
        flags@.len() == ids@.len(),
        forall|i: int| 0 <= i < ids@.len() ==> state_group_weight(seq_state_key_map(ids@, keys@), seq_state_u64_map(ids@, weights@), #[trigger] ids@[i]) <= u64::MAX,
    ensures
        r@.len() == ids@.len(),
        forall|i: int| 0 <= i < ids@.len() ==> {
            let km = seq_state_key_map(ids@, keys@);
            &&& state_group_of(km, ids@[i]).contains((#[trigger] r@[i]).0)
            &&& (forall|u: u64| #[trigger] state_group_of(km, ids@[i]).contains(u) ==> r@[i].0 <= u)
            &&& r@[i].1 == state_group_weight(km, seq_state_u64_map(ids@, weights@), ids@[i])
            &&& r@[i].2 == state_group_flag(km, seq_state_bool_map(ids@, flags@), ids@[i])
        },
{
    let ghost km = seq_state_key_map(ids@, keys@);
    let ghost wm = seq_state_u64_map(ids@, weights@);
    let ghost fm = seq_state_bool_map(ids@, flags@);
    let n = ids.len();
    let mut r: Vec<(u64, u64, bool)> = Vec::new();
    proof {
        lemma_seq_state_maps(ids@, keys@, weights@, flags@);
    }
    for i in 0..n
        invariant
            n == ids@.len(),
            ids@.no_duplicates(),
            keys@.len() == n && weights@.len() == n && flags@.len() == n,
            km == seq_state_key_map(ids@, keys@),
            wm == seq_state_u64_map(ids@, weights@),
            fm == seq_state_bool_map(ids@, flags@),
            forall|k: int| 0 <= k < n ==> #[trigger] km[ids@[k]] == keys@[k]@ && wm[ids@[k]] == weights@[k] && fm[ids@[k]] == flags@[k],
            km.dom() == ids@.to_set(),
            forall|k: int| 0 <= k < n ==> state_group_weight(km, wm, #[trigger] ids@[k]) <= u64::MAX,
            r@.len() == i,
            forall|k: int| 0 <= k < i ==> {
                &&& state_group_of(km, ids@[k]).contains((#[trigger] r@[k]).0)
                &&& (forall|u: u64| #[trigger] state_group_of(km, ids@[k]).contains(u) ==> r@[k].0 <= u)
                &&& r@[k].1 == state_group_weight(km, wm, ids@[k])
                &&& r@[k].2 == state_group_flag(km, fm, ids@[k])
            },
    {
        let t = ids[i];
        let mut min_id = t;
        let mut sum: u64 = 0;
        let mut flag = false;
        let ghost mut seen: Set<u64> = Set::empty();
        proof {
            vstd::set::fold::lemma_fold_empty(0int, add_state_weight(wm));
        }
        for j in 0..n
            invariant
                n == ids@.len(),
                ids@.no_duplicates(),
                keys@.len() == n && weights@.len() == n && flags@.len() == n,
                forall|k: int| 0 <= k < n ==> #[trigger] km[ids@[k]] == keys@[k]@ && wm[ids@[k]] == weights@[k] && fm[ids@[k]] == flags@[k],
                km.dom() == ids@.to_set(),
                t == ids@[i as int],
                0 <= i < n,
                state_group_weight(km, wm, t) <= u64::MAX,
                seen == state_group_of(km, t).intersect(ids@.take(j as int).to_set()),
                seen.finite(),
                sum == seen.fold(0int, add_state_weight(wm)),
                flag == exists|u: u64| #[trigger] seen.contains(u) && fm[u],
                min_id <= t,
                state_group_of(km, t).contains(min_id),
                forall|u: u64| #[trigger] seen.contains(u) ==> min_id <= u,
                min_id == t || seen.contains(min_id),
        {
            let u = ids[j];
            proof {
                assert(ids@.take(j + 1) =~= ids@.take(j as int).push(u));
                ids@.take(j as int).lemma_push_to_set_commute(u);
                assert(!ids@.take(j as int).to_set().contains(u)) by {
                    if ids@.take(j as int).to_set().contains(u) {
                        let k = choose|k: int| 0 <= k < j && ids@.take(j as int)[k] == u;
                        assert(ids@[k] == ids@[j as int]);
                    }
                }
                assert(ids@.to_set().contains(u));
                assert(ids@.to_set().contains(t));
            }
            if keys[j].is_subset(&keys[i]) && keys[i].is_subset(&keys[j]) {
                proof {
                    assert(keys@[j as int]@ =~= keys@[i as int]@);
                    assert(state_group_of(km, t).contains(u));
                    lemma_state_fold_step(seen, wm, u);
                    let g = state_group_of(km, t);
                    lemma_state_group_finite(km, t);
                    lemma_state_fold_subset(seen.insert(u), g, wm);
                }
                sum = sum + weights[j];
                let ghost flag0 = flag;
                if flags[j] {
                    flag = true;
                }
                proof {
                    assert(km[ids@[j as int]] == keys@[j as int]@);
                    assert(fm[u] == flags@[j as int]);
                    assert(flag == (flag0 || fm[u]));
                }
                if u < min_id {
                    min_id = u;
                }
                proof {
                    let old_seen = seen;
                    seen = seen.insert(u);
                    assert(seen =~= state_group_of(km, t).intersect(ids@.take(j + 1).to_set()));
                    assert(flag == exists|v: u64| #[trigger] seen.contains(v) && fm[v]) by {
                        if flag0 {
                            let v = choose|v: u64| #[trigger] old_seen.contains(v) && fm[v];
                            assert(seen.contains(v) && fm[v]);
                        }
                        if fm[u] {
                            assert(seen.contains(u) && fm[u]);
                        }
                        if exists|v: u64| #[trigger] seen.contains(v) && fm[v] {
                            let v = choose|v: u64| #[trigger] seen.contains(v) && fm[v];
                            if v != u {
                                assert(old_seen.contains(v));
                            }
                        }
                    }
                }
            } else {
                proof {
                    if state_group_of(km, t).contains(u) {
                        assert(keys@[j as int]@ == keys@[i as int]@);
                    }
                    assert(seen =~= state_group_of(km, t).intersect(ids@.take(j + 1).to_set()));
                }
            }
        }
        proof {
            assert(ids@.take(n as int) =~= ids@);
            lemma_state_group_finite(km, t);
            assert(seen =~= state_group_of(km, t));
        }
        r.push((min_id, sum, flag));
        proof {
            assert(r@[i as int] == (min_id, sum, flag));
        }
    }
    r
}

/// The map from each id of `ids` to the key at its position.
pub open spec fn seq_state_key_map(ids: Seq<u64>, keys: Seq<BitSetWrapper>) -> Map<u64, Set<u32>> {
    Map::new(|u: u64| ids.contains(u), |u: u64| keys[ids.index_of(u)]@)
}

/// The map from each id of `ids` to the weight at its position.
pub open spec fn seq_state_u64_map(ids: Seq<u64>, w: Seq<u64>) -> Map<u64, u64> {
    Map::new(|u: u64| ids.contains(u), |u: u64| w[ids.index_of(u)])
}

/// The map from each id of `ids` to the flag at its position.
pub open spec fn seq_state_bool_map(ids: Seq<u64>, f: Seq<bool>) -> Map<u64, bool> {
    Map::new(|u: u64| ids.contains(u), |u: u64| f[ids.index_of(u)])
}

proof fn lemma_seq_state_maps(ids: Seq<u64>, keys: Seq<BitSetWrapper>, w: Seq<u64>, f: Seq<bool>)
    requires
        ids.no_duplicates(),
    ensures
        seq_state_key_map(ids, keys).dom() == ids.to_set(),
        forall|k: int| 0 <= k < ids.len() ==> #[trigger] seq_state_key_map(ids, keys)[ids[k]] == keys[k]@
            && seq_state_u64_map(ids, w)[ids[k]] == w[k] && seq_state_bool_map(ids, f)[ids[k]] == f[k],
{
    assert(seq_state_key_map(ids, keys).dom() =~= ids.to_set());
    assert forall|k: int| 0 <= k < ids.len() implies #[trigger] seq_state_key_map(ids, keys)[ids[k]] == keys[k]@
        && seq_state_u64_map(ids, w)[ids[k]] == w[k] && seq_state_bool_map(ids, f)[ids[k]] == f[k] by {
        assert(ids.contains(ids[k]));
        ids.index_of_first_ensures(ids[k]);
        let j = ids.index_of(ids[k]);
        assert(ids[j] == ids[k]);
        if j != k {
            assert(false);
        }
    }
}

proof fn lemma_state_group_finite(km: Map<u64, Set<u32>>, t: u64)
    requires
        km.dom().finite(),
    ensures
        state_group_of(km, t).finite(),
        state_group_of(km, t).subset_of(km.dom()),
{
    assert(state_group_of(km, t).subset_of(km.dom()));
    vstd::set_lib::lemma_len_subset(state_group_of(km, t), km.dom());
}

/// A fold of weights over a subset is at most that over the set.
proof fn lemma_state_fold_subset(a: Set<u64>, b: Set<u64>, w: Map<u64, u64>)
    requires
        a.subset_of(b),
        b.finite(),
    ensures
        0 <= a.fold(0int, add_state_weight(w)) <= b.fold(0int, add_state_weight(w)),
    decreases b.len(),
{
    lemma_add_state_weight_commutative(w);
    if b.len() == 0 {
        assert(b =~= Set::<u64>::empty());
        assert(a =~= Set::<u64>::empty());
        vstd::set::fold::lemma_fold_empty(0int, add_state_weight(w));
    } else {
        let x = b.choose();
        let b1 = b.remove(x);
        let a1 = a.remove(x);
        vstd::set_lib::lemma_len_subset(a, b);
        lemma_state_fold_subset(a1, b1, w);
        vstd::set::fold::lemma_fold_insert(b1, 0int, add_state_weight(w), x);
        assert(b1.insert(x) =~= b);
        if a.contains(x) {
            vstd::set::fold::lemma_fold_insert(a1, 0int, add_state_weight(w), x);
            assert(a1.insert(x) =~= a);
        } else {
            assert(a1 =~= a);
        }
    }
}

/// The predicate indices of the states of a trace.
pub open spec fn state_id_bits<V>(states: Map<u64, V>) -> Set<u32> {
    Set::new(|x: u32| exists|sid: u64| #[trigger] states.contains_key(sid) && sid as u32 == x)
}

/// Every state of every trace has an index a bit set accepts.
pub open spec fn trace_states_indexable<V>(states: Map<u64, V>) -> bool {
    forall|sid: u64| #[trigger] states.contains_key(sid) ==> bitset_index_ok(sid as u32)
}

pub(crate) fn state_bits_of<V>(states: &HashMap<u64, V>) -> (r: BitSetWrapper)
    requires
        trace_states_indexable(states@),
    ensures
        r@ == state_id_bits(states@),
{
    let ks = u64_keys(states);
    let n = ks.len();
    let mut r = BitSetWrapper::new();
    for i in 0..n
        invariant
            n == ks@.len(),
            ks@.to_set() == states@.dom(),
            trace_states_indexable(states@),
            forall|x: u32| r@.contains(x) <==> exists|k: int| 0 <= k < i && #[trigger] ks@[k] as u32 == x,
    {
        let sid = ks[i];
        assert(ks@.to_set().contains(sid));
        let ghost r0 = r@;
        r.insert(sid as u32);
        proof {
            assert forall|x: u32| r@.contains(x) <==> exists|k: int| 0 <= k < i + 1 && #[trigger] ks@[k] as u32 == x by {
                if r@.contains(x) {
                    if x == sid as u32 {
                        assert(ks@[i as int] as u32 == x);
                    } else {
                        assert(r0.contains(x));
                        let k = choose|k: int| 0 <= k < i && #[trigger] ks@[k] as u32 == x;
                        assert(0 <= k < i + 1 && ks@[k] as u32 == x);
                    }
                }
                if exists|k: int| 0 <= k < i + 1 && #[trigger] ks@[k] as u32 == x {
                    let k = choose|k: int| 0 <= k < i + 1 && #[trigger] ks@[k] as u32 == x;
                    if k < i {
                        assert(exists|k2: int| 0 <= k2 < i && #[trigger] ks@[k2] as u32 == x);
                        assert(r0.contains(x));
                    }
                }
            }
        }
    }
    proof {
        assert forall|x: u32| r@.contains(x) <==> state_id_bits(states@).contains(x) by {
            if r@.contains(x) {
                let k = choose|k: int| 0 <= k < n && #[trigger] ks@[k] as u32 == x;
                assert(ks@.to_set().contains(ks@[k]));
                assert(states@.contains_key(ks@[k]));
            }
            if state_id_bits(states@).contains(x) {
                let sid = choose|sid: u64| #[trigger] states@.contains_key(sid) && sid as u32 == x;
                assert(ks@.to_set().contains(sid));
                let k = choose|k: int| 0 <= k < ks@.len() && ks@[k] == sid;
                assert(ks@[k] as u32 == x);
            }
        }
        assert(r@ =~= state_id_bits(states@));
    }
    r
}

/// The state bits, weights and flags of the counterexample traces.
pub open spec fn cex_keys(traces: Map<usize, SetCoverCEXTrace>) -> Map<usize, Set<u32>> {
    traces.map_values(|t: SetCoverCEXTrace| state_id_bits(t.states@))
}

pub open spec fn cex_weights(traces: Map<usize, SetCoverCEXTrace>) -> Map<usize, u64> {
    traces.map_values(|t: SetCoverCEXTrace| t.weight)
}

pub open spec fn cex_original(traces: Map<usize, SetCoverCEXTrace>) -> Map<usize, bool> {
    traces.map_values(|t: SetCoverCEXTrace| t.file_source == Some(WaveFormSource::OriginalCex))
}

fn is_original(f: &Option<WaveFormSource>) -> (r: bool)
    ensures
        r == (*f == Some(WaveFormSource::OriginalCex)),
{
    match f {
        Some(WaveFormSource::OriginalCex) => true,
        _ => false,
    }
}

/// Merges counterexample traces with the same states (as predicate indices)
/// into the one of smallest id, which sums their weights and becomes an
/// original counterexample if one of them is.
pub fn merge_traces_identical_cex_traces(inst: &mut SetCoverInstance)
    requires
        forall|t: usize| #[trigger] old(inst).cex_traces@.contains_key(t) ==> {
            &&& group_weight(cex_keys(old(inst).cex_traces@), cex_weights(old(inst).cex_traces@), t) <= u64::MAX
            &&& trace_states_indexable(old(inst).cex_traces@[t].states@)
        },
    ensures
        forall|t: usize| #[trigger] final(inst).cex_traces@.contains_key(t) <==> is_group_rep(cex_keys(old(inst).cex_traces@), t),
        forall|t: usize| #[trigger] final(inst).cex_traces@.contains_key(t) ==> {
            let old_t = old(inst).cex_traces@[t];
            let new_t = final(inst).cex_traces@[t];
            &&& new_t.states@ == old_t.states@
            &&& new_t.id == old_t.id
            &&& new_t.from_path == old_t.from_path
            &&& new_t.weight == group_weight(cex_keys(old(inst).cex_traces@), cex_weights(old(inst).cex_traces@), t)
            &&& new_t.file_source == if group_flag(cex_keys(old(inst).cex_traces@), cex_original(old(inst).cex_traces@), t) {
                    Some(WaveFormSource::OriginalCex)
                } else {
                    old_t.file_source
                }
        },
        final(inst).predicates == old(inst).predicates,
        final(inst).bex_samples == old(inst).bex_samples,
        final(inst).bex_traces == old(inst).bex_traces,
        final(inst).all_states == old(inst).all_states,
        final(inst).formula_score_weights == old(inst).formula_score_weights,
{
    let ghost traces = inst.cex_traces@;
    let ids = usize_keys(&inst.cex_traces);
    let n = ids.len();
    let mut keys: Vec<BitSetWrapper> = Vec::new();
    let mut weights: Vec<u64> = Vec::new();
    let mut flags: Vec<bool> = Vec::new();
    for i in 0..n
        invariant
            n == ids@.len(),
            ids@.to_set() == traces.dom(),
            traces == inst.cex_traces@,
            forall|t: usize| #[trigger] traces.contains_key(t) ==> trace_states_indexable(traces[t].states@),
            keys@.len() == i && weights@.len() == i && flags@.len() == i,
            forall|k: int| 0 <= k < i ==> #[trigger] keys@[k]@ == state_id_bits(traces[ids@[k]].states@),
            forall|k: int| 0 <= k < i ==> #[trigger] weights@[k] == traces[ids@[k]].weight,
            forall|k: int| 0 <= k < i ==> #[trigger] flags@[k] == (traces[ids@[k]].file_source == Some(WaveFormSource::OriginalCex)),
    {
        assert(ids@.to_set().contains(ids@[i as int]));
        let t = inst.cex_traces.get(&ids[i]).unwrap();
        let ghost (k0, w0, f0) = (keys@, weights@, flags@);
        let b = state_bits_of(&t.states);
        let o = is_original(&t.file_source);
        keys.push(b);
        weights.push(t.weight);
        flags.push(o);
        proof {
            assert forall|k: int| 0 <= k < i + 1 implies #[trigger] keys@[k]@ == state_id_bits(traces[ids@[k]].states@) by {
                if k < i {
                    assert(keys@[k] == k0[k]);
                }
            }
            assert forall|k: int| 0 <= k < i + 1 implies #[trigger] weights@[k] == traces[ids@[k]].weight by {
                if k < i {
                    assert(weights@[k] == w0[k]);
                }
            }
            assert forall|k: int| 0 <= k < i + 1 implies #[trigger] flags@[k] == (traces[ids@[k]].file_source == Some(WaveFormSource::OriginalCex)) by {
                if k < i {
                    assert(flags@[k] == f0[k]);
                }
            }
        }
    }
    proof {
        lemma_seq_maps(ids@, keys@, weights@, flags@);
        assert(seq_key_map(ids@, keys@) =~= cex_keys(traces)) by {
            assert forall|u: usize| #[trigger] seq_key_map(ids@, keys@).contains_key(u) implies seq_key_map(ids@, keys@)[u] == cex_keys(traces)[u] by {
                let k = choose|k: int| 0 <= k < ids@.len() && ids@[k] == u;
                assert(seq_key_map(ids@, keys@)[ids@[k]] == keys@[k]@);
            }
        }
        assert(seq_u64_map(ids@, weights@) =~= cex_weights(traces)) by {
            assert forall|u: usize| #[trigger] seq_u64_map(ids@, weights@).contains_key(u) implies seq_u64_map(ids@, weights@)[u] == cex_weights(traces)[u] by {
                let k = choose|k: int| 0 <= k < ids@.len() && ids@[k] == u;
                assert(seq_u64_map(ids@, weights@)[ids@[k]] == weights@[k]);
            }
        }
        assert(seq_bool_map(ids@, flags@) =~= cex_original(traces)) by {
            assert forall|u: usize| #[trigger] seq_bool_map(ids@, flags@).contains_key(u) implies seq_bool_map(ids@, flags@)[u] == cex_original(traces)[u] by {
                let k = choose|k: int| 0 <= k < ids@.len() && ids@[k] == u;
                assert(seq_bool_map(ids@, flags@)[ids@[k]] == flags@[k]);
            }
        }
        assert forall|i: int| 0 <= i < ids@.len() implies group_weight(seq_key_map(ids@, keys@), seq_u64_map(ids@, weights@), #[trigger] ids@[i]) <= u64::MAX by {
            assert(ids@.to_set().contains(ids@[i]));
        }
    }
    let summary = summarize_groups(&ids, &keys, &weights, &flags);
    let mut new_traces: HashMap<usize, SetCoverCEXTrace> = HashMap::new();
    for i in 0..n
        invariant
            n == ids@.len(),
            ids@.to_set() == traces.dom(),
            ids@.no_duplicates(),
            summary@.len() == n,
            forall|i2: int| 0 <= i2 < n ==> {
                &&& (#[trigger] summary@[i2]).0 == is_group_rep(cex_keys(traces), ids@[i2])
                &&& summary@[i2].1 == group_weight(cex_keys(traces), cex_weights(traces), ids@[i2])
                &&& summary@[i2].2 == group_flag(cex_keys(traces), cex_original(traces), ids@[i2])
            },
            forall|t: usize| #[trigger] inst.cex_traces@.contains_key(t) ==> traces.contains_key(t) && inst.cex_traces@[t] == traces[t],
            forall|k: int| i <= k < n ==> #[trigger] inst.cex_traces@.contains_key(ids@[k]),
            forall|t: usize| #[trigger] new_traces@.contains_key(t) <==> exists|k: int| 0 <= k < i && ids@[k] == t && summary@[k].0,
            forall|t: usize| #[trigger] new_traces@.contains_key(t) ==> {
                let old_t = traces[t];
                let new_t = new_traces@[t];
                &&& new_t.states@ == old_t.states@
                &&& new_t.id == old_t.id
                &&& new_t.from_path == old_t.from_path
                &&& new_t.weight == group_weight(cex_keys(traces), cex_weights(traces), t)
                &&& new_t.file_source == if group_flag(cex_keys(traces), cex_original(traces), t) {
                        Some(WaveFormSource::OriginalCex)
                    } else {
                        old_t.file_source
                    }
            },
            inst.predicates == old(inst).predicates,
            inst.bex_samples == old(inst).bex_samples,
            inst.bex_traces == old(inst).bex_traces,
            inst.all_states == old(inst).all_states,
            inst.formula_score_weights == old(inst).formula_score_weights,
    {
        let id = ids[i];
        if summary[i].0 {
            let mut t = inst.cex_traces.remove(&id).unwrap();
            t.weight = summary[i].1;
            if summary[i].2 {
                t.file_source = Some(WaveFormSource::OriginalCex);
            }
            new_traces.insert(id, t);
        }
        proof {
            assert forall|k: int| i + 1 <= k < n implies #[trigger] inst.cex_traces@.contains_key(ids@[k]) by {
                assert(ids@[k] != ids@[i as int]);
            }
            assert forall|t2: usize| #[trigger] new_traces@.contains_key(t2) <==> exists|k: int| 0 <= k < i + 1 && ids@[k] == t2 && summary@[k].0 by {
                if new_traces@.contains_key(t2) && t2 != id {
                    let k = choose|k: int| 0 <= k < i && ids@[k] == t2 && summary@[k].0;
                    assert(0 <= k < i + 1 && ids@[k] == t2 && summary@[k].0);
                }
                if exists|k: int| 0 <= k < i + 1 && ids@[k] == t2 && summary@[k].0 {
                    let k = choose|k: int| 0 <= k < i + 1 && ids@[k] == t2 && summary@[k].0;
                    if k < i {
                        assert(exists|k2: int| 0 <= k2 < i && ids@[k2] == t2 && summary@[k2].0);
                    }
                }
            }
        }
    }
    proof {
        assert forall|t: usize| #[trigger] new_traces@.contains_key(t) <==> is_group_rep(cex_keys(traces), t) by {
            if new_traces@.contains_key(t) {
                let k = choose|k: int| 0 <= k < n && ids@[k] == t && summary@[k].0;
                assert(summary@[k].0 == is_group_rep(cex_keys(traces), ids@[k]));
            }
            if is_group_rep(cex_keys(traces), t) {
                assert(ids@.to_set().contains(t));
                let k = choose|k: int| 0 <= k < ids@.len() && ids@[k] == t;
                assert(summary@[k].0 == is_group_rep(cex_keys(traces), ids@[k]));
            }
        }
    }
    inst.cex_traces = new_traces;
}

pub(crate) fn usize_set_elems(set: &HashSet<usize>) -> (r: Vec<usize>)
    ensures
        r@.to_set() == set@,
        r@.no_duplicates(),
{
    let mut r: Vec<usize> = Vec::new();
    for k in it: set.iter()
        invariant
            r@ == it.seq().take(it.index()).unref(),
    {
        r.push(*k);
        assert(r@ =~= it.seq().take(it.index() + 1).unref());
    }
    assert(r@ =~= vstd::std_specs::hash::spec_hash_keys_iter(set).remaining().unref());
    r
}

/// The supports of the kept traces.
pub open spec fn kept_supports(kept: Set<usize>, ts: Map<usize, BitSetWrapper>) -> Map<usize, Set<u32>> {
    Map::new(|t: usize| kept.contains(t), |t: usize| ts[t]@)
}

/// The weights and original-counterexample flags of the kept traces.
pub open spec fn kept_cex_weights(kept: Set<usize>, traces: Map<usize, SetCoverCEXTrace>) -> Map<usize, u64> {
    Map::new(|t: usize| kept.contains(t), |t: usize| traces[t].weight)
}

pub open spec fn kept_cex_original(kept: Set<usize>, traces: Map<usize, SetCoverCEXTrace>) -> Map<usize, bool> {
    Map::new(|t: usize| kept.contains(t), |t: usize| traces[t].file_source == Some(WaveFormSource::OriginalCex))
}

/// `t` stands for its group of traces with the same support: the required
/// trace where the group holds it, else the smallest id of the group.
pub open spec fn is_support_rep(keys: Map<usize, Set<u32>>, required: usize, t: usize) -> bool {
    if keys.contains_key(required) && keys.contains_key(t) && keys[required] == keys[t] {
        t == required
    } else {
        is_group_rep(keys, t)
    }
}

pub open spec fn merge_supports_ready(
    inst: &SetCoverInstance,
    kept: Set<usize>,
    ts: Map<usize, BitSetWrapper>,
) -> bool {
    forall|t: usize| #[trigger] kept.contains(t) ==> {
        &&& ts.contains_key(t)
        &&& inst.cex_traces@.contains_key(t)
        &&& group_weight(kept_supports(kept, ts), kept_cex_weights(kept, inst.cex_traces@), t) <= u64::MAX
    }
}

/// Merges the kept counterexample traces with the same support into one:
/// the required trace where it is among them, else the one of smallest id.
/// It sums their weights and becomes an original counterexample if one of
/// them is.
pub fn merge_traces_identical_supports(
    inst: &SetCoverInstance,
    kept_traces: &HashSet<usize>,
    trace_support: &HashMap<usize, BitSetWrapper>,
    required_trace_id: usize,
) -> (r: HashMap<usize, SetCoverCEXTrace>)
    requires
        merge_supports_ready(inst, kept_traces@, trace_support@),
    ensures
        ({
            let keys = kept_supports(kept_traces@, trace_support@);
            let traces = inst.cex_traces@;
            &&& forall|t: usize| #[trigger] r@.contains_key(t) <==> is_support_rep(keys, required_trace_id, t)
            &&& forall|t: usize| #[trigger] r@.contains_key(t) ==> {
                &&& kept_traces@.contains(t)
                &&& r@[t].states@ == traces[t].states@
                &&& r@[t].id == traces[t].id
                &&& r@[t].from_path == traces[t].from_path
                &&& r@[t].weight == group_weight(keys, kept_cex_weights(kept_traces@, traces), t)
                &&& r@[t].file_source == if group_flag(keys, kept_cex_original(kept_traces@, traces), t) {
                        Some(WaveFormSource::OriginalCex)
                    } else {
                        traces[t].file_source
                    }
            }
        }),
{
    let ghost traces = inst.cex_traces@;
    let ghost km = kept_supports(kept_traces@, trace_support@);
    let ids = usize_set_elems(kept_traces);
    let n = ids.len();
    let mut keys: Vec<BitSetWrapper> = Vec::new();
    let mut weights: Vec<u64> = Vec::new();
    let mut flags: Vec<bool> = Vec::new();
    for i in 0..n
        invariant
            n == ids@.len(),
            ids@.to_set() == kept_traces@,
            traces == inst.cex_traces@,
            merge_supports_ready(inst, kept_traces@, trace_support@),
            keys@.len() == i && weights@.len() == i && flags@.len() == i,
            forall|k: int| 0 <= k < i ==> #[trigger] keys@[k]@ == trace_support@[ids@[k]]@,
            forall|k: int| 0 <= k < i ==> #[trigger] weights@[k] == traces[ids@[k]].weight,
            forall|k: int| 0 <= k < i ==> #[trigger] flags@[k] == (traces[ids@[k]].file_source == Some(WaveFormSource::OriginalCex)),
    {
        let id = ids[i];
        assert(ids@.to_set().contains(id));
        let t = inst.cex_traces.get(&id).unwrap();
        let ghost (k0, w0, f0) = (keys@, weights@, flags@);
        let b = trace_support.get(&id).unwrap().duplicate();
        let o = is_original(&t.file_source);
        keys.push(b);
        weights.push(t.weight);
        flags.push(o);
        proof {
            assert forall|k: int| 0 <= k < i + 1 implies #[trigger] keys@[k]@ == trace_support@[ids@[k]]@ by {
                if k < i {
                    assert(keys@[k] == k0[k]);
                }
            }
            assert forall|k: int| 0 <= k < i + 1 implies #[trigger] weights@[k] == traces[ids@[k]].weight by {
                if k < i {
                    assert(weights@[k] == w0[k]);
                }
            }
            assert forall|k: int| 0 <= k < i + 1 implies #[trigger] flags@[k] == (traces[ids@[k]].file_source == Some(WaveFormSource::OriginalCex)) by {
                if k < i {
                    assert(flags@[k] == f0[k]);
                }
            }
        }
    }
    proof {
        lemma_seq_maps(ids@, keys@, weights@, flags@);
        assert(seq_key_map(ids@, keys@) =~= km) by {
            assert forall|u: usize| #[trigger] seq_key_map(ids@, keys@).contains_key(u) implies seq_key_map(ids@, keys@)[u] == km[u] by {
                let k = choose|k: int| 0 <= k < ids@.len() && ids@[k] == u;
                assert(seq_key_map(ids@, keys@)[ids@[k]] == keys@[k]@);
            }
        }
        assert(seq_u64_map(ids@, weights@) =~= kept_cex_weights(kept_traces@, traces)) by {
            assert forall|u: usize| #[trigger] seq_u64_map(ids@, weights@).contains_key(u) implies seq_u64_map(ids@, weights@)[u] == kept_cex_weights(kept_traces@, traces)[u] by {
                let k = choose|k: int| 0 <= k < ids@.len() && ids@[k] == u;
                assert(seq_u64_map(ids@, weights@)[ids@[k]] == weights@[k]);
            }
        }
        assert(seq_bool_map(ids@, flags@) =~= kept_cex_original(kept_traces@, traces)) by {
            assert forall|u: usize| #[trigger] seq_bool_map(ids@, flags@).contains_key(u) implies seq_bool_map(ids@, flags@)[u] == kept_cex_original(kept_traces@, traces)[u] by {
                let k = choose|k: int| 0 <= k < ids@.len() && ids@[k] == u;
                assert(seq_bool_map(ids@, flags@)[ids@[k]] == flags@[k]);
            }
        }
        assert forall|i: int| 0 <= i < ids@.len() implies group_weight(seq_key_map(ids@, keys@), seq_u64_map(ids@, weights@), #[trigger] ids@[i]) <= u64::MAX by {
            assert(ids@.to_set().contains(ids@[i]));
        }
    }
    let summary = summarize_groups(&ids, &keys, &weights, &flags);
    let req_key: Option<BitSetWrapper> = if kept_traces.contains(&required_trace_id) {
        Some(trace_support.get(&required_trace_id).unwrap().duplicate())
    } else {
        None
    };
    let mut new_traces: HashMap<usize, SetCoverCEXTrace> = HashMap::new();
    for i in 0..n
        invariant
            n == ids@.len(),
            ids@.to_set() == kept_traces@,
            ids@.no_duplicates(),
            traces == inst.cex_traces@,
            km == kept_supports(kept_traces@, trace_support@),
            merge_supports_ready(inst, kept_traces@, trace_support@),
            keys@.len() == n,
            forall|k: int| 0 <= k < n ==> #[trigger] keys@[k]@ == trace_support@[ids@[k]]@,
            req_key is Some <==> km.contains_key(required_trace_id),
            req_key is Some ==> req_key->0@ == km[required_trace_id],
            summary@.len() == n,
            forall|i2: int| 0 <= i2 < n ==> {
                &&& (#[trigger] summary@[i2]).0 == is_group_rep(km, ids@[i2])
                &&& summary@[i2].1 == group_weight(km, kept_cex_weights(kept_traces@, traces), ids@[i2])
                &&& summary@[i2].2 == group_flag(km, kept_cex_original(kept_traces@, traces), ids@[i2])
            },
            forall|t: usize| #[trigger] new_traces@.contains_key(t) <==> exists|k: int| 0 <= k < i && ids@[k] == t && is_support_rep(km, required_trace_id, t),
            forall|t: usize| #[trigger] new_traces@.contains_key(t) ==> {
                &&& kept_traces@.contains(t)
                &&& new_traces@[t].states@ == traces[t].states@
                &&& new_traces@[t].id == traces[t].id
                &&& new_traces@[t].from_path == traces[t].from_path
                &&& new_traces@[t].weight == group_weight(km, kept_cex_weights(kept_traces@, traces), t)
                &&& new_traces@[t].file_source == if group_flag(km, kept_cex_original(kept_traces@, traces), t) {
                        Some(WaveFormSource::OriginalCex)
                    } else {
                        traces[t].file_source
                    }
            },
    {
        let id = ids[i];
        assert(ids@.to_set().contains(id));
        let chosen = match &req_key {
            Some(rk) => if rk.is_subset(&keys[i]) && keys[i].is_subset(rk) {
                id == required_trace_id
            } else {
                summary[i].0
            },
            None => summary[i].0,
        };
        proof {
            assert(keys@[i as int]@ == km[id]);
            if req_key is Some {
                let rk = req_key->0@;
                if rk.subset_of(km[id]) && km[id].subset_of(rk) {
                    assert(rk =~= km[id]);
                }
            }
            assert(chosen == is_support_rep(km, required_trace_id, id));
        }
        if chosen {
            let mut t = inst.cex_traces.get(&id).unwrap().duplicate();
            t.weight = summary[i].1;
            if summary[i].2 {
                t.file_source = Some(WaveFormSource::OriginalCex);
            }
            new_traces.insert(id, t);
        }
        proof {
            assert forall|t2: usize| #[trigger] new_traces@.contains_key(t2) <==> exists|k: int| 0 <= k < i + 1 && ids@[k] == t2 && is_support_rep(km, required_trace_id, t2) by {
                if new_traces@.contains_key(t2) && t2 != id {
                    let k = choose|k: int| 0 <= k < i && ids@[k] == t2 && is_support_rep(km, required_trace_id, t2);
                    assert(0 <= k < i + 1 && ids@[k] == t2);
                }
                if exists|k: int| 0 <= k < i + 1 && ids@[k] == t2 && is_support_rep(km, required_trace_id, t2) {
                    let k = choose|k: int| 0 <= k < i + 1 && ids@[k] == t2 && is_support_rep(km, required_trace_id, t2);
                    if k < i {
                        assert(exists|k2: int| 0 <= k2 < i && ids@[k2] == t2 && is_support_rep(km, required_trace_id, t2));
                    }
                }
            }
        }
    }
    proof {
        assert forall|t: usize| #[trigger] new_traces@.contains_key(t) <==> is_support_rep(km, required_trace_id, t) by {
            if is_support_rep(km, required_trace_id, t) {
                assert(km.contains_key(t));
                assert(ids@.to_set().contains(t));
                let k = choose|k: int| 0 <= k < ids@.len() && ids@[k] == t;
                assert(0 <= k < n && ids@[k] == t);
            }
        }
    }
    new_traces
}

/// The state bits, weights and flags of the benign traces.
pub open spec fn bex_keys(traces: Map<usize, SetCoverBEXTrace>) -> Map<usize, Set<u32>> {
    traces.map_values(|t: SetCoverBEXTrace| state_id_bits(t.states@))
}

pub open spec fn bex_weights(traces: Map<usize, SetCoverBEXTrace>) -> Map<usize, u64> {
    traces.map_values(|t: SetCoverBEXTrace| t.weight)
}

pub open spec fn bex_must(traces: Map<usize, SetCoverBEXTrace>) -> Map<usize, bool> {
    traces.map_values(|t: SetCoverBEXTrace| t.must_not_cover)
}

/// Merges benign traces with the same states (as predicate indices) into the
/// one of smallest id, which sums their weights and must not be covered if
/// one of them must not.
pub fn merge_traces_identical_bex_traces(inst: &mut SetCoverInstance)
    requires
        forall|t: usize| #[trigger] old(inst).bex_traces@.contains_key(t) ==> {
            &&& group_weight(bex_keys(old(inst).bex_traces@), bex_weights(old(inst).bex_traces@), t) <= u64::MAX
            &&& trace_states_indexable(old(inst).bex_traces@[t].states@)
        },
    ensures
        forall|t: usize| #[trigger] final(inst).bex_traces@.contains_key(t) <==> is_group_rep(bex_keys(old(inst).bex_traces@), t),
        forall|t: usize| #[trigger] final(inst).bex_traces@.contains_key(t) ==> {
            let old_t = old(inst).bex_traces@[t];
            let new_t = final(inst).bex_traces@[t];
            &&& new_t.states@ == old_t.states@
            &&& new_t.id == old_t.id
            &&& new_t.from_path == old_t.from_path
            &&& new_t.weight == group_weight(bex_keys(old(inst).bex_traces@), bex_weights(old(inst).bex_traces@), t)
            &&& new_t.file_source == old_t.file_source
            &&& new_t.must_not_cover == (old_t.must_not_cover || group_flag(bex_keys(old(inst).bex_traces@), bex_must(old(inst).bex_traces@), t))
        },
        final(inst).predicates == old(inst).predicates,
        final(inst).bex_samples == old(inst).bex_samples,
        final(inst).cex_traces == old(inst).cex_traces,
        final(inst).all_states == old(inst).all_states,
        final(inst).formula_score_weights == old(inst).formula_score_weights,
{
    let ghost traces = inst.bex_traces@;
    let ids = usize_keys(&inst.bex_traces);
    let n = ids.len();
    let mut keys: Vec<BitSetWrapper> = Vec::new();
    let mut weights: Vec<u64> = Vec::new();
    let mut flags: Vec<bool> = Vec::new();
    for i in 0..n
        invariant
            n == ids@.len(),
            ids@.to_set() == traces.dom(),
            traces == inst.bex_traces@,
            forall|t: usize| #[trigger] traces.contains_key(t) ==> trace_states_indexable(traces[t].states@),
            keys@.len() == i && weights@.len() == i && flags@.len() == i,
            forall|k: int| 0 <= k < i ==> #[trigger] keys@[k]@ == state_id_bits(traces[ids@[k]].states@),
            forall|k: int| 0 <= k < i ==> #[trigger] weights@[k] == traces[ids@[k]].weight,
            forall|k: int| 0 <= k < i ==> #[trigger] flags@[k] == traces[ids@[k]].must_not_cover,
    {
        assert(ids@.to_set().contains(ids@[i as int]));
        let t = inst.bex_traces.get(&ids[i]).unwrap();
        let ghost (k0, w0, f0) = (keys@, weights@, flags@);
        let b = state_bits_of(&t.states);
        let o = t.must_not_cover;
        keys.push(b);
        weights.push(t.weight);
        flags.push(o);
        proof {
            assert forall|k: int| 0 <= k < i + 1 implies #[trigger] keys@[k]@ == state_id_bits(traces[ids@[k]].states@) by {
                if k < i {
                    assert(keys@[k] == k0[k]);
                }
            }
            assert forall|k: int| 0 <= k < i + 1 implies #[trigger] weights@[k] == traces[ids@[k]].weight by {
                if k < i {
                    assert(weights@[k] == w0[k]);
                }
            }
            assert forall|k: int| 0 <= k < i + 1 implies #[trigger] flags@[k] == traces[ids@[k]].must_not_cover by {
                if k < i {
                    assert(flags@[k] == f0[k]);
                }
            }
        }
    }
    proof {
        lemma_seq_maps(ids@, keys@, weights@, flags@);
        assert(seq_key_map(ids@, keys@) =~= bex_keys(traces)) by {
            assert forall|u: usize| #[trigger] seq_key_map(ids@, keys@).contains_key(u) implies seq_key_map(ids@, keys@)[u] == bex_keys(traces)[u] by {
                let k = choose|k: int| 0 <= k < ids@.len() && ids@[k] == u;
                assert(seq_key_map(ids@, keys@)[ids@[k]] == keys@[k]@);
            }
        }
        assert(seq_u64_map(ids@, weights@) =~= bex_weights(traces)) by {
            assert forall|u: usize| #[trigger] seq_u64_map(ids@, weights@).contains_key(u) implies seq_u64_map(ids@, weights@)[u] == bex_weights(traces)[u] by {
                let k = choose|k: int| 0 <= k < ids@.len() && ids@[k] == u;
                assert(seq_u64_map(ids@, weights@)[ids@[k]] == weights@[k]);
            }
        }
        assert(seq_bool_map(ids@, flags@) =~= bex_must(traces)) by {
            assert forall|u: usize| #[trigger] seq_bool_map(ids@, flags@).contains_key(u) implies seq_bool_map(ids@, flags@)[u] == bex_must(traces)[u] by {
                let k = choose|k: int| 0 <= k < ids@.len() && ids@[k] == u;
                assert(seq_bool_map(ids@, flags@)[ids@[k]] == flags@[k]);
            }
        }
        assert forall|i: int| 0 <= i < ids@.len() implies group_weight(seq_key_map(ids@, keys@), seq_u64_map(ids@, weights@), #[trigger] ids@[i]) <= u64::MAX by {
            assert(ids@.to_set().contains(ids@[i]));
        }
    }
    let summary = summarize_groups(&ids, &keys, &weights, &flags);
    let mut new_traces: HashMap<usize, SetCoverBEXTrace> = HashMap::new();
    for i in 0..n
        invariant
            n == ids@.len(),
            ids@.to_set() == traces.dom(),
            ids@.no_duplicates(),
            summary@.len() == n,
            forall|i2: int| 0 <= i2 < n ==> {
                &&& (#[trigger] summary@[i2]).0 == is_group_rep(bex_keys(traces), ids@[i2])
                &&& summary@[i2].1 == group_weight(bex_keys(traces), bex_weights(traces), ids@[i2])
                &&& summary@[i2].2 == group_flag(bex_keys(traces), bex_must(traces), ids@[i2])
            },
            forall|t: usize| #[trigger] inst.bex_traces@.contains_key(t) ==> traces.contains_key(t) && inst.bex_traces@[t] == traces[t],
            forall|k: int| i <= k < n ==> #[trigger] inst.bex_traces@.contains_key(ids@[k]),
            forall|t: usize| #[trigger] new_traces@.contains_key(t) <==> exists|k: int| 0 <= k < i && ids@[k] == t && summary@[k].0,
            forall|t: usize| #[trigger] new_traces@.contains_key(t) ==> {
                let old_t = traces[t];
                let new_t = new_traces@[t];
                &&& new_t.states@ == old_t.states@
                &&& new_t.id == old_t.id
                &&& new_t.from_path == old_t.from_path
                &&& new_t.weight == group_weight(bex_keys(traces), bex_weights(traces), t)
                &&& new_t.file_source == old_t.file_source
                &&& new_t.must_not_cover == (old_t.must_not_cover || group_flag(bex_keys(traces), bex_must(traces), t))
            },
            inst.predicates == old(inst).predicates,
            inst.bex_samples == old(inst).bex_samples,
            inst.cex_traces == old(inst).cex_traces,
            inst.all_states == old(inst).all_states,
            inst.formula_score_weights == old(inst).formula_score_weights,
    {
        let id = ids[i];
        if summary[i].0 {
            let mut t = inst.bex_traces.remove(&id).unwrap();
            t.weight = summary[i].1;
            if summary[i].2 {
                t.must_not_cover = true;
            }
            new_traces.insert(id, t);
        }
        proof {
            assert forall|k: int| i + 1 <= k < n implies #[trigger] inst.bex_traces@.contains_key(ids@[k]) by {
                assert(ids@[k] != ids@[i as int]);
            }
            assert forall|t2: usize| #[trigger] new_traces@.contains_key(t2) <==> exists|k: int| 0 <= k < i + 1 && ids@[k] == t2 && summary@[k].0 by {
                if new_traces@.contains_key(t2) && t2 != id {
                    let k = choose|k: int| 0 <= k < i && ids@[k] == t2 && summary@[k].0;
                    assert(0 <= k < i + 1 && ids@[k] == t2 && summary@[k].0);
                }
                if exists|k: int| 0 <= k < i + 1 && ids@[k] == t2 && summary@[k].0 {
                    let k = choose|k: int| 0 <= k < i + 1 && ids@[k] == t2 && summary@[k].0;
                    if k < i {
                        assert(exists|k2: int| 0 <= k2 < i && ids@[k2] == t2 && summary@[k2].0);
                    }
                }
            }
        }
    }
    proof {
        assert forall|t: usize| #[trigger] new_traces@.contains_key(t) <==> is_group_rep(bex_keys(traces), t) by {
            if new_traces@.contains_key(t) {
                let k = choose|k: int| 0 <= k < n && ids@[k] == t && summary@[k].0;
                assert(summary@[k].0 == is_group_rep(bex_keys(traces), ids@[k]));
            }
            if is_group_rep(bex_keys(traces), t) {
                assert(ids@.to_set().contains(t));
                let k = choose|k: int| 0 <= k < ids@.len() && ids@[k] == t;
                assert(summary@[k].0 == is_group_rep(bex_keys(traces), ids@[k]));
            }
        }
    }
    inst.bex_traces = new_traces;
}

// ----------------------------------------------------------------------------
// Merging states that the same predicates cover
// ----------------------------------------------------------------------------

/// The ids (as predicate indices) of the predicates covering `s`.
pub open spec fn pred_support(preds: Map<usize, SetCoverPredicate>, s: u64) -> Set<u32> {
    Set::new(|u: u32| exists|p: usize| #[trigger] preds.contains_key(p) && p as u32 == u && preds[p].covered_states@.contains(s as u32))
}

/// The support of each state of the instance.
pub open spec fn support_keys(inst: &SetCoverInstance) -> Map<u64, Set<u32>> {
    Map::new(|s: u64| inst.all_states@.contains(s), |s: u64| pred_support(inst.predicates@, s))
}

/// The benign weight of each state (zero where it has no benign sample).
pub open spec fn bex_weight_map(inst: &SetCoverInstance) -> Map<u64, u64> {
    Map::new(|s: u64| inst.all_states@.contains(s),
        |s: u64| if inst.bex_samples@.contains_key(s) { inst.bex_samples@[s].weight } else { 0 })
}

/// The must-not-cover flag of each state (false where it has no benign sample).
pub open spec fn bex_must_map(inst: &SetCoverInstance) -> Map<u64, bool> {
    Map::new(|s: u64| inst.all_states@.contains(s),
        |s: u64| inst.bex_samples@.contains_key(s) && inst.bex_samples@[s].must_not_cover)
}

/// The smallest state with the same support as `s`.
pub open spec fn state_rep(keys: Map<u64, Set<u32>>, s: u64) -> u64 {
    choose|r: u64| state_group_of(keys, s).contains(r) && forall|u: u64| #[trigger] state_group_of(keys, s).contains(u) ==> r <= u
}

pub(crate) proof fn lemma_state_rep(keys: Map<u64, Set<u32>>, s: u64, m: u64)
    requires
        state_group_of(keys, s).contains(m),
        forall|u: u64| #[trigger] state_group_of(keys, s).contains(u) ==> m <= u,
    ensures
        state_rep(keys, s) == m,
{
    let r = state_rep(keys, s);
    assert(state_group_of(keys, s).contains(r) && forall|u: u64| #[trigger] state_group_of(keys, s).contains(u) ==> r <= u);
    assert(r <= m);
    assert(m <= r);
}

/// The states of `dom` taken to their representatives.
pub open spec fn reps_of(dom: Set<u64>, rep: Map<u64, u64>) -> Set<u64> {
    Set::new(|r: u64| exists|s: u64| #[trigger] dom.contains(s) && rep[s] == r)
}

/// The states of a counterexample trace under their representatives: each
/// keeps the cycle of one of the states it stands for.
fn rewrite_cex_states(states: &HashMap<u64, SetCoverCEXSample>, rep: &HashMap<u64, u64>) -> (r: HashMap<u64, SetCoverCEXSample>)
    requires
        forall|sid: u64| #[trigger] states@.contains_key(sid) ==> rep@.contains_key(sid),
    ensures
        r@.dom() == reps_of(states@.dom(), rep@),
        forall|x: u64| #[trigger] r@.contains_key(x) ==> r@[x].state_id == x
            && exists|sid: u64| #[trigger] states@.contains_key(sid) && rep@[sid] == x && r@[x].cycle == states@[sid].cycle,
{
    let ks = u64_keys(states);
    let n = ks.len();
    let mut r: HashMap<u64, SetCoverCEXSample> = HashMap::new();
    for i in 0..n
        invariant
            n == ks@.len(),
            ks@.to_set() == states@.dom(),
            forall|sid: u64| #[trigger] states@.contains_key(sid) ==> rep@.contains_key(sid),
            r@.dom() == reps_of(ks@.take(i as int).to_set(), rep@),
            forall|x: u64| #[trigger] r@.contains_key(x) ==> r@[x].state_id == x
                && exists|sid: u64| #[trigger] states@.contains_key(sid) && rep@[sid] == x && r@[x].cycle == states@[sid].cycle,
    {
        let sid = ks[i];
        assert(ks@.to_set().contains(sid));
        let x = *rep.get(&sid).unwrap();
        let sample = *states.get(&sid).unwrap();
        let ghost r0 = r@;
        if !r.contains_key(&x) {
            r.insert(x, SetCoverCEXSample { state_id: x, cycle: sample.cycle });
            assert(states@.contains_key(sid) && rep@[sid] == x && r@[x].cycle == states@[sid].cycle);
        }
        proof {
            assert(ks@.take(i + 1) =~= ks@.take(i as int).push(sid));
            ks@.take(i as int).lemma_push_to_set_commute(sid);
            assert forall|y: u64| r@.dom().contains(y) <==> reps_of(ks@.take(i + 1).to_set(), rep@).contains(y) by {
                if y == x {
                    assert(ks@.take(i + 1).to_set().contains(sid));
                }
                if reps_of(ks@.take(i + 1).to_set(), rep@).contains(y) {
                    let s2 = choose|s2: u64| #[trigger] ks@.take(i + 1).to_set().contains(s2) && rep@[s2] == y;
                    if s2 != sid {
                        assert(ks@.take(i as int).to_set().contains(s2));
                        assert(reps_of(ks@.take(i as int).to_set(), rep@).contains(y));
                    }
                }
                if r0.dom().contains(y) {
                    let s2 = choose|s2: u64| #[trigger] ks@.take(i as int).to_set().contains(s2) && rep@[s2] == y;
                    assert(ks@.take(i + 1).to_set().contains(s2));
                }
            }
            assert(r@.dom() =~= reps_of(ks@.take(i + 1).to_set(), rep@));
        }
    }
    assert(ks@.take(n as int) =~= ks@);
    r
}

/// The states of a benign trace under their representatives: each keeps the
/// cycle of one of the states it stands for.
fn rewrite_bex_states(states: &HashMap<u64, UnweightedBEXSample>, rep: &HashMap<u64, u64>) -> (r: HashMap<u64, UnweightedBEXSample>)
    requires
        forall|sid: u64| #[trigger] states@.contains_key(sid) ==> rep@.contains_key(sid),
    ensures
        r@.dom() == reps_of(states@.dom(), rep@),
        forall|x: u64| #[trigger] r@.contains_key(x) ==> r@[x].state_id == x
            && exists|sid: u64| #[trigger] states@.contains_key(sid) && rep@[sid] == x && r@[x].cycle == states@[sid].cycle,
{
    let ks = u64_keys(states);
    let n = ks.len();
    let mut r: HashMap<u64, UnweightedBEXSample> = HashMap::new();
    for i in 0..n
        invariant
            n == ks@.len(),
            ks@.to_set() == states@.dom(),
            forall|sid: u64| #[trigger] states@.contains_key(sid) ==> rep@.contains_key(sid),
            r@.dom() == reps_of(ks@.take(i as int).to_set(), rep@),
            forall|x: u64| #[trigger] r@.contains_key(x) ==> r@[x].state_id == x
                && exists|sid: u64| #[trigger] states@.contains_key(sid) && rep@[sid] == x && r@[x].cycle == states@[sid].cycle,
    {
        let sid = ks[i];
        assert(ks@.to_set().contains(sid));
        let x = *rep.get(&sid).unwrap();
        let sample = *states.get(&sid).unwrap();
        let ghost r0 = r@;
        if !r.contains_key(&x) {
            r.insert(x, UnweightedBEXSample { state_id: x, cycle: sample.cycle });
            assert(states@.contains_key(sid) && rep@[sid] == x && r@[x].cycle == states@[sid].cycle);
        }
        proof {
            assert(ks@.take(i + 1) =~= ks@.take(i as int).push(sid));
            ks@.take(i as int).lemma_push_to_set_commute(sid);
            assert forall|y: u64| r@.dom().contains(y) <==> reps_of(ks@.take(i + 1).to_set(), rep@).contains(y) by {
                if y == x {
                    assert(ks@.take(i + 1).to_set().contains(sid));
                }
                if reps_of(ks@.take(i + 1).to_set(), rep@).contains(y) {
                    let s2 = choose|s2: u64| #[trigger] ks@.take(i + 1).to_set().contains(s2) && rep@[s2] == y;
                    if s2 != sid {
                        assert(ks@.take(i as int).to_set().contains(s2));
                        assert(reps_of(ks@.take(i as int).to_set(), rep@).contains(y));
                    }
                }
                if r0.dom().contains(y) {
                    let s2 = choose|s2: u64| #[trigger] ks@.take(i as int).to_set().contains(s2) && rep@[s2] == y;
                    assert(ks@.take(i + 1).to_set().contains(s2));
                }
            }
            assert(r@.dom() =~= reps_of(ks@.take(i + 1).to_set(), rep@));
        }
    }
    assert(ks@.take(n as int) =~= ks@);
    r
}

/// The ids (as predicate indices) of the predicates covering `sid`.
fn state_support_bits(inst: &SetCoverInstance, pkeys: &Vec<usize>, sid: u64) -> (r: BitSetWrapper)
    requires
        pkeys@.to_set() == inst.predicates@.dom(),
        forall|p: usize| #[trigger] inst.predicates@.contains_key(p) ==> bitset_index_ok(p as u32),
    ensures
        r@ == pred_support(inst.predicates@, sid),
{
    let m = pkeys.len();
    let mut supp = BitSetWrapper::new();
    for j in 0..m
        invariant
            m == pkeys@.len(),
            pkeys@.to_set() == inst.predicates@.dom(),
            forall|p: usize| #[trigger] inst.predicates@.contains_key(p) ==> bitset_index_ok(p as u32),
            supp@ == Set::new(|u: u32| exists|k: int| 0 <= k < j && pkeys@[k] as u32 == u
                && #[trigger] inst.predicates@[pkeys@[k]].covered_states@.contains(sid as u32)),
    {
        let pid = pkeys[j];
        assert(pkeys@.to_set().contains(pid));
        let p = inst.predicates.get(&pid).unwrap();
        if p.covered_states.contains(&(sid as u32)) {
            supp.insert(pid as u32);
        }
        proof {
            assert forall|u: u32| supp@.contains(u) <==> exists|k: int| 0 <= k < j + 1 && pkeys@[k] as u32 == u
                && #[trigger] inst.predicates@[pkeys@[k]].covered_states@.contains(sid as u32) by {
                if exists|k: int| 0 <= k < j + 1 && pkeys@[k] as u32 == u
                    && #[trigger] inst.predicates@[pkeys@[k]].covered_states@.contains(sid as u32) {
                    let k = choose|k: int| 0 <= k < j + 1 && pkeys@[k] as u32 == u
                        && #[trigger] inst.predicates@[pkeys@[k]].covered_states@.contains(sid as u32);
                    if k < j {
                        assert(exists|k2: int| 0 <= k2 < j && pkeys@[k2] as u32 == u
                            && #[trigger] inst.predicates@[pkeys@[k2]].covered_states@.contains(sid as u32));
                    }
                }
            }
        }
        assert(supp@ =~= Set::new(|u: u32| exists|k: int| 0 <= k < j + 1 && pkeys@[k] as u32 == u
            && #[trigger] inst.predicates@[pkeys@[k]].covered_states@.contains(sid as u32)));
    }
    proof {
        assert forall|u: u32| supp@.contains(u) <==> pred_support(inst.predicates@, sid).contains(u) by {
            if supp@.contains(u) {
                let k = choose|k: int| 0 <= k < m && pkeys@[k] as u32 == u
                    && #[trigger] inst.predicates@[pkeys@[k]].covered_states@.contains(sid as u32);
                assert(pkeys@.to_set().contains(pkeys@[k]));
            }
            if pred_support(inst.predicates@, sid).contains(u) {
                let p = choose|p: usize| #[trigger] inst.predicates@.contains_key(p) && p as u32 == u
                    && inst.predicates@[p].covered_states@.contains(sid as u32);
                assert(pkeys@.to_set().contains(p));
                let k = choose|k: int| 0 <= k < pkeys@.len() && pkeys@[k] == p;
                assert(inst.predicates@[pkeys@[k]].covered_states@.contains(sid as u32));
            }
        }
        assert(supp@ =~= pred_support(inst.predicates@, sid));
    }
    supp
}

/// The covered states taken to their representatives.
pub open spec fn covered_reps(bits: Set<u32>, rep: Map<u64, u64>) -> Set<u32> {
    Set::new(|y: u32| exists|x: u32| #[trigger] bits.contains(x) && rep[x as u64] as u32 == y)
}

fn rewrite_covered(bits: &BitSetWrapper, rep: &HashMap<u64, u64>) -> (r: BitSetWrapper)
    requires
        forall|x: u32| #[trigger] bits@.contains(x) ==> rep@.contains_key(x as u64) && bitset_index_ok(rep@[x as u64] as u32),
    ensures
        r@ == covered_reps(bits@, rep@),
{
    let xs = bits.collect();
    let n = xs.len();
    let mut r = BitSetWrapper::new();
    for i in 0..n
        invariant
            n == xs@.len(),
            xs@.to_set() == bits@,
            forall|x: u32| #[trigger] bits@.contains(x) ==> rep@.contains_key(x as u64) && bitset_index_ok(rep@[x as u64] as u32),
            forall|y: u32| r@.contains(y) <==> exists|k: int| 0 <= k < i && #[trigger] rep@[xs@[k] as u64] as u32 == y,
    {
        let x = xs[i];
        assert(xs@.to_set().contains(x));
        let t = *rep.get(&(x as u64)).unwrap();
        let ghost r0 = r@;
        r.insert(t as u32);
        proof {
            assert forall|y: u32| r@.contains(y) <==> exists|k: int| 0 <= k < i + 1 && #[trigger] rep@[xs@[k] as u64] as u32 == y by {
                if r@.contains(y) {
                    if y == t as u32 {
                        assert(rep@[xs@[i as int] as u64] as u32 == y);
                    } else {
                        assert(r0.contains(y));
                        let k = choose|k: int| 0 <= k < i && #[trigger] rep@[xs@[k] as u64] as u32 == y;
                        assert(0 <= k < i + 1);
                    }
                }
                if exists|k: int| 0 <= k < i + 1 && #[trigger] rep@[xs@[k] as u64] as u32 == y {
                    let k = choose|k: int| 0 <= k < i + 1 && #[trigger] rep@[xs@[k] as u64] as u32 == y;
                    if k < i {
                        assert(exists|k2: int| 0 <= k2 < i && #[trigger] rep@[xs@[k2] as u64] as u32 == y);
                        assert(r0.contains(y));
                    }
                }
            }
        }
    }
    proof {
        assert forall|y: u32| r@.contains(y) <==> covered_reps(bits@, rep@).contains(y) by {
            if r@.contains(y) {
                let k = choose|k: int| 0 <= k < n && #[trigger] rep@[xs@[k] as u64] as u32 == y;
                assert(xs@.to_set().contains(xs@[k]));
                assert(bits@.contains(xs@[k]));
            }
            if covered_reps(bits@, rep@).contains(y) {
                let x = choose|x: u32| #[trigger] bits@.contains(x) && rep@[x as u64] as u32 == y;
                assert(xs@.to_set().contains(x));
                let k = choose|k: int| 0 <= k < xs@.len() && xs@[k] == x;
                assert(rep@[xs@[k] as u64] as u32 == y);
            }
        }
        assert(r@ =~= covered_reps(bits@, rep@));
    }
    r
}

/// The benign samples under their representatives, with the weight and flag
/// given for each representative and the path of one of the samples.
fn rewrite_bex_samples(
    bex: &HashMap<u64, SetCoverBEXSample>,
    rep: &HashMap<u64, u64>,
    info: &HashMap<u64, (u64, bool)>,
) -> (r: HashMap<u64, SetCoverBEXSample>)
    requires
        forall|sid: u64| #[trigger] bex@.contains_key(sid) ==> rep@.contains_key(sid) && info@.contains_key(rep@[sid]),
    ensures
        r@.dom() == reps_of(bex@.dom(), rep@),
        forall|x: u64| #[trigger] r@.contains_key(x) ==> {
            &&& r@[x].state_id == x
            &&& r@[x].weight == info@[x].0
            &&& r@[x].must_not_cover == info@[x].1
            &&& exists|sid: u64| #[trigger] bex@.contains_key(sid) && rep@[sid] == x && r@[x].from_path@ == bex@[sid].from_path@
        },
{
    let ks = u64_keys(bex);
    let n = ks.len();
    let mut r: HashMap<u64, SetCoverBEXSample> = HashMap::new();
    for i in 0..n
        invariant
            n == ks@.len(),
            ks@.to_set() == bex@.dom(),
            forall|sid: u64| #[trigger] bex@.contains_key(sid) ==> rep@.contains_key(sid) && info@.contains_key(rep@[sid]),
            r@.dom() == reps_of(ks@.take(i as int).to_set(), rep@),
            forall|x: u64| #[trigger] r@.contains_key(x) ==> {
                &&& r@[x].state_id == x
                &&& r@[x].weight == info@[x].0
                &&& r@[x].must_not_cover == info@[x].1
                &&& exists|sid: u64| #[trigger] bex@.contains_key(sid) && rep@[sid] == x && r@[x].from_path@ == bex@[sid].from_path@
            },
    {
        let sid = ks[i];
        assert(ks@.to_set().contains(sid));
        let x = *rep.get(&sid).unwrap();
        let ghost r0 = r@;
        if !r.contains_key(&x) {
            let (w, m) = *info.get(&x).unwrap();
            let sample = bex.get(&sid).unwrap();
            let path = sample.from_path.clone();
            r.insert(x, SetCoverBEXSample { state_id: x, weight: w, from_path: path, must_not_cover: m });
            assert(bex@.contains_key(sid) && rep@[sid] == x && r@[x].from_path@ == bex@[sid].from_path@);
        }
        proof {
            assert(ks@.take(i + 1) =~= ks@.take(i as int).push(sid));
            ks@.take(i as int).lemma_push_to_set_commute(sid);
            assert forall|y: u64| r@.dom().contains(y) <==> reps_of(ks@.take(i + 1).to_set(), rep@).contains(y) by {
                if y == x {
                    assert(ks@.take(i + 1).to_set().contains(sid));
                }
                if reps_of(ks@.take(i + 1).to_set(), rep@).contains(y) {
                    let s2 = choose|s2: u64| #[trigger] ks@.take(i + 1).to_set().contains(s2) && rep@[s2] == y;
                    if s2 != sid {
                        assert(ks@.take(i as int).to_set().contains(s2));
                        assert(reps_of(ks@.take(i as int).to_set(), rep@).contains(y));
                    }
                }
                if r0.dom().contains(y) {
                    let s2 = choose|s2: u64| #[trigger] ks@.take(i as int).to_set().contains(s2) && rep@[s2] == y;
                    assert(ks@.take(i + 1).to_set().contains(s2));
                }
            }
            assert(r@.dom() =~= reps_of(ks@.take(i + 1).to_set(), rep@));
        }
    }
    assert(ks@.take(n as int) =~= ks@);
    r
}

/// What merging states needs: predicate ids and representatives a bit set
/// accepts, every used state among all states, and group weights that fit.
pub open spec fn merge_states_ready(inst: &SetCoverInstance) -> bool {
    let keys = support_keys(inst);
    &&& forall|p: usize| #[trigger] inst.predicates@.contains_key(p) ==> bitset_index_ok(p as u32)
    &&& forall|p: usize, x: u32| inst.predicates@.contains_key(p) && #[trigger] inst.predicates@[p].covered_states@.contains(x)
        ==> inst.all_states@.contains(x as u64) && bitset_index_ok(state_rep(keys, x as u64) as u32)
    &&& forall|sid: u64| #[trigger] inst.bex_samples@.contains_key(sid) ==> inst.all_states@.contains(sid)
    &&& forall|t: usize, sid: u64| inst.cex_traces@.contains_key(t) && #[trigger] inst.cex_traces@[t].states@.contains_key(sid)
        ==> inst.all_states@.contains(sid)
    &&& forall|t: usize, sid: u64| inst.bex_traces@.contains_key(t) && #[trigger] inst.bex_traces@[t].states@.contains_key(sid)
        ==> inst.all_states@.contains(sid)
    &&& forall|sid: u64| #[trigger] inst.all_states@.contains(sid) ==> state_group_weight(keys, bex_weight_map(inst), sid) <= u64::MAX
}

/// Each state's representative, and for each representative the summed
/// benign weight and the must-not-cover flag of its group.
fn compute_state_reps(inst: &SetCoverInstance) -> (r: (HashMap<u64, u64>, HashMap<u64, (u64, bool)>))
    requires
        merge_states_ready(inst),
    ensures
        r.0@.dom() == inst.all_states@,
        inst.all_states@.finite(),
        forall|sid: u64| #[trigger] inst.all_states@.contains(sid) ==> {
            let keys = support_keys(inst);
            let x = r.0@[sid];
            &&& x == state_rep(keys, sid)
            &&& r.1@.contains_key(x)
            &&& r.1@[x].0 == state_group_weight(keys, bex_weight_map(inst), sid)
            &&& r.1@[x].1 == state_group_flag(keys, bex_must_map(inst), sid)
        },
{
    let ghost keys = support_keys(inst);
    let ids = set_elems(&inst.all_states);
    let pkeys = usize_keys(&inst.predicates);
    let n = ids.len();
    let mut supports: Vec<BitSetWrapper> = Vec::new();
    let mut weights: Vec<u64> = Vec::new();
    let mut flags: Vec<bool> = Vec::new();
    for i in 0..n
        invariant
            n == ids@.len(),
            ids@.to_set() == inst.all_states@,
            pkeys@.to_set() == inst.predicates@.dom(),
            merge_states_ready(inst),
            supports@.len() == i && weights@.len() == i && flags@.len() == i,
            forall|k: int| 0 <= k < i ==> #[trigger] supports@[k]@ == pred_support(inst.predicates@, ids@[k]),
            forall|k: int| 0 <= k < i ==> #[trigger] weights@[k] == bex_weight_map(inst)[ids@[k]],
            forall|k: int| 0 <= k < i ==> #[trigger] flags@[k] == bex_must_map(inst)[ids@[k]],
    {
        let sid = ids[i];
        assert(ids@.to_set().contains(sid));
        let ghost (s0, w0, f0) = (supports@, weights@, flags@);
        let b = state_support_bits(inst, &pkeys, sid);
        let (w, f) = match inst.bex_samples.get(&sid) {
            Some(sample) => (sample.weight, sample.must_not_cover),
            None => (0, false),
        };
        supports.push(b);
        weights.push(w);
        flags.push(f);
        proof {
            assert forall|k: int| 0 <= k < i + 1 implies #[trigger] supports@[k]@ == pred_support(inst.predicates@, ids@[k]) by {
                if k < i {
                    assert(supports@[k] == s0[k]);
                }
            }
            assert forall|k: int| 0 <= k < i + 1 implies #[trigger] weights@[k] == bex_weight_map(inst)[ids@[k]] by {
                if k < i {
                    assert(weights@[k] == w0[k]);
                }
            }
            assert forall|k: int| 0 <= k < i + 1 implies #[trigger] flags@[k] == bex_must_map(inst)[ids@[k]] by {
                if k < i {
                    assert(flags@[k] == f0[k]);
                }
            }
        }
    }
    proof {
        lemma_seq_state_maps(ids@, supports@, weights@, flags@);
        assert(seq_state_key_map(ids@, supports@) =~= keys) by {
            assert forall|u: u64| #[trigger] seq_state_key_map(ids@, supports@).contains_key(u) implies seq_state_key_map(ids@, supports@)[u] == keys[u] by {
                let k = choose|k: int| 0 <= k < ids@.len() && ids@[k] == u;
                assert(seq_state_key_map(ids@, supports@)[ids@[k]] == supports@[k]@);
            }
        }
        assert(seq_state_u64_map(ids@, weights@) =~= bex_weight_map(inst)) by {
            assert forall|u: u64| #[trigger] seq_state_u64_map(ids@, weights@).contains_key(u) implies seq_state_u64_map(ids@, weights@)[u] == bex_weight_map(inst)[u] by {
                let k = choose|k: int| 0 <= k < ids@.len() && ids@[k] == u;
                assert(seq_state_u64_map(ids@, weights@)[ids@[k]] == weights@[k]);
            }
        }
        assert(seq_state_bool_map(ids@, flags@) =~= bex_must_map(inst)) by {
            assert forall|u: u64| #[trigger] seq_state_bool_map(ids@, flags@).contains_key(u) implies seq_state_bool_map(ids@, flags@)[u] == bex_must_map(inst)[u] by {
                let k = choose|k: int| 0 <= k < ids@.len() && ids@[k] == u;
                assert(seq_state_bool_map(ids@, flags@)[ids@[k]] == flags@[k]);
            }
        }
        assert forall|i: int| 0 <= i < ids@.len() implies state_group_weight(seq_state_key_map(ids@, supports@), seq_state_u64_map(ids@, weights@), #[trigger] ids@[i]) <= u64::MAX by {
            assert(ids@.to_set().contains(ids@[i]));
        }
    }
    let summary = summarize_state_groups(&ids, &supports, &weights, &flags);
    proof {
        vstd::seq_lib::seq_to_set_is_finite(ids@);
    }
    let mut rep: HashMap<u64, u64> = HashMap::new();
    let mut info: HashMap<u64, (u64, bool)> = HashMap::new();
    for i in 0..n
        invariant
            n == ids@.len(),
            ids@.to_set() == inst.all_states@,
            summary@.len() == n,
            keys == support_keys(inst),
            keys.dom() == inst.all_states@,
            forall|i2: int| 0 <= i2 < n ==> {
                &&& state_group_of(keys, ids@[i2]).contains((#[trigger] summary@[i2]).0)
                &&& (forall|u: u64| #[trigger] state_group_of(keys, ids@[i2]).contains(u) ==> summary@[i2].0 <= u)
                &&& summary@[i2].1 == state_group_weight(keys, bex_weight_map(inst), ids@[i2])
                &&& summary@[i2].2 == state_group_flag(keys, bex_must_map(inst), ids@[i2])
            },
            rep@.dom() == ids@.take(i as int).to_set(),
            forall|sid: u64| #[trigger] rep@.contains_key(sid) ==> {
                let x = rep@[sid];
                &&& x == state_rep(keys, sid)
                &&& info@.contains_key(x)
                &&& info@[x].0 == state_group_weight(keys, bex_weight_map(inst), sid)
                &&& info@[x].1 == state_group_flag(keys, bex_must_map(inst), sid)
            },
    {
        let sid = ids[i];
        let (x, w, f) = summary[i];
        proof {
            lemma_state_rep(keys, sid, x);
            lemma_same_group(keys, sid, x);
        }
        rep.insert(sid, x);
        info.insert(x, (w, f));
        proof {
            assert(ids@.take(i + 1) =~= ids@.take(i as int).push(sid));
            ids@.take(i as int).lemma_push_to_set_commute(sid);
            assert(rep@.dom() =~= ids@.take(i + 1).to_set());
            assert forall|s2: u64| #[trigger] rep@.contains_key(s2) implies {
                let y = rep@[s2];
                &&& y == state_rep(keys, s2)
                &&& info@.contains_key(y)
                &&& info@[y].0 == state_group_weight(keys, bex_weight_map(inst), s2)
                &&& info@[y].1 == state_group_flag(keys, bex_must_map(inst), s2)
            } by {
                if s2 != sid {
                    let y = rep@[s2];
                    if y == x {
                        lemma_state_rep_group(keys, s2);
                        lemma_same_group(keys, s2, y);
                    }
                }
            }
        }
    }
    assert(ids@.take(n as int) =~= ids@);
    (rep, info)
}

/// Two states of one group have the same group, weight and flag.
proof fn lemma_same_group(keys: Map<u64, Set<u32>>, s: u64, t: u64)
    requires
        state_group_of(keys, s).contains(t),
    ensures
        state_group_of(keys, t) == state_group_of(keys, s),
        forall|w: Map<u64, u64>| #[trigger] state_group_weight(keys, w, t) == state_group_weight(keys, w, s),
        forall|f: Map<u64, bool>| #[trigger] state_group_flag(keys, f, t) == state_group_flag(keys, f, s),
{
    assert(state_group_of(keys, t) =~= state_group_of(keys, s));
}

/// The representative of a state lies in its group.
pub(crate) proof fn lemma_state_rep_group(keys: Map<u64, Set<u32>>, s: u64)
    requires
        keys.contains_key(s),
        keys.dom().finite(),
    ensures
        state_group_of(keys, s).contains(state_rep(keys, s)),
{
    let g = state_group_of(keys, s);
    lemma_state_group_finite(keys, s);
    assert(g.contains(s));
    let m = lemma_min_of(g);
    lemma_state_rep(keys, s, m);
}

/// A finite non-empty set of states has a smallest member.
pub(crate) proof fn lemma_min_of(g: Set<u64>) -> (m: u64)
    requires
        g.finite(),
        g.len() > 0,
    ensures
        g.contains(m),
        forall|u: u64| #[trigger] g.contains(u) ==> m <= u,
    decreases g.len(),
{
    let x = g.choose();
    let rest = g.remove(x);
    if rest.len() == 0 {
        assert forall|u: u64| #[trigger] g.contains(u) implies x <= u by {
            if u != x {
                assert(rest.contains(u));
            }
        }
        x
    } else {
        let m1 = lemma_min_of(rest);
        if x < m1 {
            assert forall|u: u64| #[trigger] g.contains(u) implies x <= u by {
                if u != x {
                    assert(rest.contains(u));
                }
            }
            x
        } else {
            assert forall|u: u64| #[trigger] g.contains(u) implies m1 <= u by {
                if u != x {
                    assert(rest.contains(u));
                }
            }
            m1
        }
    }
}

/// The representatives of the states of `dom`.
pub open spec fn state_reps_of(dom: Set<u64>, keys: Map<u64, Set<u32>>) -> Set<u64> {
    Set::new(|r: u64| exists|s: u64| #[trigger] dom.contains(s) && state_rep(keys, s) == r)
}

/// The covered states taken to their representatives, as predicate indices.
pub open spec fn covered_state_reps(bits: Set<u32>, keys: Map<u64, Set<u32>>) -> Set<u32> {
    Set::new(|y: u32| exists|x: u32| #[trigger] bits.contains(x) && state_rep(keys, x as u64) as u32 == y)
}

proof fn lemma_reps_of(dom: Set<u64>, rep: Map<u64, u64>, keys: Map<u64, Set<u32>>)
    requires
        forall|s: u64| #[trigger] dom.contains(s) ==> rep.contains_key(s) && rep[s] == state_rep(keys, s),
    ensures
        reps_of(dom, rep) == state_reps_of(dom, keys),
{
    assert forall|r: u64| reps_of(dom, rep).contains(r) <==> state_reps_of(dom, keys).contains(r) by {
        if reps_of(dom, rep).contains(r) {
            let s = choose|s: u64| #[trigger] dom.contains(s) && rep[s] == r;
            assert(dom.contains(s) && state_rep(keys, s) == r);
        }
        if state_reps_of(dom, keys).contains(r) {
            let s = choose|s: u64| #[trigger] dom.contains(s) && state_rep(keys, s) == r;
            assert(dom.contains(s) && rep[s] == r);
        }
    }
    assert(reps_of(dom, rep) =~= state_reps_of(dom, keys));
}

/// Merges the states that the same predicates cover into the smallest of
/// them: predicates cover the representatives; a representative's benign
/// sample sums the weights and joins the flags of its group's samples (and
/// keeps the path of one); traces hold the representatives of their states
/// (each with the cycle of one of them); the representatives form the set of
/// all states.
pub fn merge_states(inst: &mut SetCoverInstance)
    requires
        merge_states_ready(old(inst)),
    ensures
        ({
            let keys = support_keys(old(inst));
            &&& final(inst).all_states@ == state_reps_of(old(inst).all_states@, keys)
            &&& final(inst).predicates@.dom() == old(inst).predicates@.dom()
            &&& forall|k: usize| #[trigger] old(inst).predicates@.contains_key(k) ==> {
                &&& final(inst).predicates@[k].covered_states@ == covered_state_reps(old(inst).predicates@[k].covered_states@, keys)
                &&& final(inst).predicates@[k].id == old(inst).predicates@[k].id
                &&& final(inst).predicates@[k].predicate == old(inst).predicates@[k].predicate
            }
            &&& final(inst).bex_samples@.dom() == state_reps_of(old(inst).bex_samples@.dom(), keys)
            &&& forall|x: u64| #[trigger] final(inst).bex_samples@.contains_key(x) ==> {
                &&& final(inst).bex_samples@[x].state_id == x
                &&& final(inst).bex_samples@[x].weight == state_group_weight(keys, bex_weight_map(old(inst)), x)
                &&& final(inst).bex_samples@[x].must_not_cover == state_group_flag(keys, bex_must_map(old(inst)), x)
                &&& exists|sid: u64| #[trigger] old(inst).bex_samples@.contains_key(sid) && state_rep(keys, sid) == x
                    && final(inst).bex_samples@[x].from_path@ == old(inst).bex_samples@[sid].from_path@
            }
            &&& final(inst).cex_traces@.dom() == old(inst).cex_traces@.dom()
            &&& forall|k: usize| #[trigger] old(inst).cex_traces@.contains_key(k) ==> {
                let t0 = old(inst).cex_traces@[k];
                let t1 = final(inst).cex_traces@[k];
                &&& t1.states@.dom() == state_reps_of(t0.states@.dom(), keys)
                &&& forall|x: u64| #[trigger] t1.states@.contains_key(x) ==> t1.states@[x].state_id == x
                    && exists|sid: u64| #[trigger] t0.states@.contains_key(sid) && state_rep(keys, sid) == x
                        && t1.states@[x].cycle == t0.states@[sid].cycle
                &&& t1.id == t0.id && t1.weight == t0.weight && t1.from_path == t0.from_path && t1.file_source == t0.file_source
            }
            &&& final(inst).bex_traces@.dom() == old(inst).bex_traces@.dom()
            &&& forall|k: usize| #[trigger] old(inst).bex_traces@.contains_key(k) ==> {
                let t0 = old(inst).bex_traces@[k];
                let t1 = final(inst).bex_traces@[k];
                &&& t1.states@.dom() == state_reps_of(t0.states@.dom(), keys)
                &&& forall|x: u64| #[trigger] t1.states@.contains_key(x) ==> t1.states@[x].state_id == x
                    && exists|sid: u64| #[trigger] t0.states@.contains_key(sid) && state_rep(keys, sid) == x
                        && t1.states@[x].cycle == t0.states@[sid].cycle
                &&& t1.id == t0.id && t1.weight == t0.weight && t1.from_path == t0.from_path
                &&& t1.file_source == t0.file_source && t1.must_not_cover == t0.must_not_cover
            }
            &&& final(inst).formula_score_weights == old(inst).formula_score_weights
        }),
{
    let ghost keys = support_keys(inst);
    let ghost start = *inst;
    let (rep, info) = compute_state_reps(inst);
    // Predicates cover the representatives.
    let pkeys = usize_keys(&inst.predicates);
    let pn = pkeys.len();
    for j in 0..pn
        invariant
            pn == pkeys@.len(),
            pkeys@.to_set() == start.predicates@.dom(),
            pkeys@.no_duplicates(),
            keys == support_keys(&start),
            merge_states_ready(&start),
            rep@.dom() == start.all_states@,
            forall|sid: u64| #[trigger] start.all_states@.contains(sid) ==> rep@[sid] == state_rep(keys, sid),
            inst.predicates@.dom() == start.predicates@.dom(),
            forall|k: usize| #[trigger] start.predicates@.contains_key(k) ==> if pkeys@.take(j as int).contains(k) {
                &&& inst.predicates@[k].covered_states@ == covered_state_reps(start.predicates@[k].covered_states@, keys)
                &&& inst.predicates@[k].id == start.predicates@[k].id
                &&& inst.predicates@[k].predicate == start.predicates@[k].predicate
            } else {
                inst.predicates@[k] == start.predicates@[k]
            },
            inst.bex_samples == start.bex_samples,
            inst.cex_traces == start.cex_traces,
            inst.bex_traces == start.bex_traces,
            inst.all_states == start.all_states,
            inst.formula_score_weights == start.formula_score_weights,
    {
        let k = pkeys[j];
        proof {
            assert(pkeys@.to_set().contains(k));
            assert(!pkeys@.take(j as int).contains(k));
            assert(pkeys@.take(j + 1) =~= pkeys@.take(j as int).push(k));
        }
        let ghost cur = inst.predicates@;
        let mut p = inst.predicates.remove(&k).unwrap();
        proof {
            assert forall|x: u32| #[trigger] p.covered_states@.contains(x) implies rep@.contains_key(x as u64)
                && bitset_index_ok(rep@[x as u64] as u32) by {
                assert(start.predicates@.contains_key(k) && start.predicates@[k].covered_states@.contains(x));
            }
        }
        let bits = rewrite_covered(&p.covered_states, &rep);
        proof {
            assert forall|y: u32| bits@.contains(y) <==> covered_state_reps(start.predicates@[k].covered_states@, keys).contains(y) by {
                if bits@.contains(y) {
                    let x = choose|x: u32| #[trigger] p.covered_states@.contains(x) && rep@[x as u64] as u32 == y;
                    assert(start.predicates@[k].covered_states@.contains(x));
                    assert(start.all_states@.contains(x as u64));
                }
                if covered_state_reps(start.predicates@[k].covered_states@, keys).contains(y) {
                    let x = choose|x: u32| #[trigger] start.predicates@[k].covered_states@.contains(x) && state_rep(keys, x as u64) as u32 == y;
                    assert(start.all_states@.contains(x as u64));
                    assert(p.covered_states@.contains(x));
                }
            }
            assert(bits@ =~= covered_state_reps(start.predicates@[k].covered_states@, keys));
        }
        p.covered_states = bits;
        inst.predicates.insert(k, p);
        assert(inst.predicates@.dom() =~= start.predicates@.dom());
        proof {
            assert forall|k2: usize| #[trigger] start.predicates@.contains_key(k2) implies if pkeys@.take(j + 1).contains(k2) {
                &&& inst.predicates@[k2].covered_states@ == covered_state_reps(start.predicates@[k2].covered_states@, keys)
                &&& inst.predicates@[k2].id == start.predicates@[k2].id
                &&& inst.predicates@[k2].predicate == start.predicates@[k2].predicate
            } else {
                inst.predicates@[k2] == start.predicates@[k2]
            } by {
                if k2 == k {
                    assert(pkeys@.take(j + 1)[j as int] == k);
                } else {
                    assert(inst.predicates@[k2] == cur[k2]);
                    assert(pkeys@.take(j + 1).contains(k2) == pkeys@.take(j as int).contains(k2));
                }
            }
        }
    }
    proof {
        assert forall|k: usize| #[trigger] start.predicates@.contains_key(k) implies pkeys@.take(pn as int).contains(k) by {
            assert(pkeys@.take(pn as int) =~= pkeys@);
            assert(pkeys@.to_set().contains(k));
        }
    }
    // Benign samples under their representatives.
    let new_bex = rewrite_bex_samples(&inst.bex_samples, &rep, &info);
    proof {
        lemma_reps_of(start.bex_samples@.dom(), rep@, keys);
        assert forall|x: u64| #[trigger] new_bex@.contains_key(x) implies {
            &&& new_bex@[x].state_id == x
            &&& new_bex@[x].weight == state_group_weight(keys, bex_weight_map(&start), x)
            &&& new_bex@[x].must_not_cover == state_group_flag(keys, bex_must_map(&start), x)
            &&& exists|sid: u64| #[trigger] start.bex_samples@.contains_key(sid) && state_rep(keys, sid) == x
                && new_bex@[x].from_path@ == start.bex_samples@[sid].from_path@
        } by {
            let sid = choose|sid: u64| #[trigger] start.bex_samples@.contains_key(sid) && rep@[sid] == x
                && new_bex@[x].from_path@ == start.bex_samples@[sid].from_path@;
            assert(start.all_states@.contains(sid));
            assert(keys.dom() =~= start.all_states@);
            assert(keys.contains_key(sid));
            lemma_state_group_finite(keys, sid);
            lemma_state_rep_group(keys, sid);
            lemma_same_group(keys, sid, x);
        }
    }
    inst.bex_samples = new_bex;
    let ghost preds_done = inst.predicates;
    let ghost bex_done = inst.bex_samples;
    // Traces hold representatives.
    let tkeys = usize_keys(&inst.cex_traces);
    let tn = tkeys.len();
    for j in 0..tn
        invariant
            tn == tkeys@.len(),
            tkeys@.to_set() == start.cex_traces@.dom(),
            tkeys@.no_duplicates(),
            keys == support_keys(&start),
            merge_states_ready(&start),
            rep@.dom() == start.all_states@,
            forall|sid: u64| #[trigger] start.all_states@.contains(sid) ==> rep@[sid] == state_rep(keys, sid),
            inst.cex_traces@.dom() == start.cex_traces@.dom(),
            inst.predicates == preds_done,
            inst.bex_samples == bex_done,
            inst.bex_traces == start.bex_traces,
            inst.all_states == start.all_states,
            inst.formula_score_weights == start.formula_score_weights,
            forall|k: usize| #[trigger] start.cex_traces@.contains_key(k) ==> if tkeys@.take(j as int).contains(k) {
                let t0 = start.cex_traces@[k];
                let t1 = inst.cex_traces@[k];
                &&& t1.states@.dom() == state_reps_of(t0.states@.dom(), keys)
                &&& forall|x: u64| #[trigger] t1.states@.contains_key(x) ==> t1.states@[x].state_id == x
                    && exists|sid: u64| #[trigger] t0.states@.contains_key(sid) && state_rep(keys, sid) == x
                        && t1.states@[x].cycle == t0.states@[sid].cycle
                &&& t1.id == t0.id && t1.weight == t0.weight && t1.from_path == t0.from_path && t1.file_source == t0.file_source
            } else {
                inst.cex_traces@[k] == start.cex_traces@[k]
            },
    {
        let k = tkeys[j];
        proof {
            assert(tkeys@.to_set().contains(k));
            assert(!tkeys@.take(j as int).contains(k));
            assert(tkeys@.take(j + 1) =~= tkeys@.take(j as int).push(k));
        }
        let ghost cur = inst.cex_traces@;
        let mut t = inst.cex_traces.remove(&k).unwrap();
        proof {
            assert forall|sid: u64| #[trigger] t.states@.contains_key(sid) implies rep@.contains_key(sid) by {
                assert(start.cex_traces@.contains_key(k) && start.cex_traces@[k].states@.contains_key(sid));
            }
        }
        let new_states = rewrite_cex_states(&t.states, &rep);
        proof {
            lemma_reps_of(t.states@.dom(), rep@, keys);
        }
        t.states = new_states;
        inst.cex_traces.insert(k, t);
        assert(inst.cex_traces@.dom() =~= start.cex_traces@.dom());
        proof {
            assert forall|k2: usize| #[trigger] start.cex_traces@.contains_key(k2) implies if tkeys@.take(j + 1).contains(k2) {
                let t0 = start.cex_traces@[k2];
                let t1 = inst.cex_traces@[k2];
                &&& t1.states@.dom() == state_reps_of(t0.states@.dom(), keys)
                &&& forall|x: u64| #[trigger] t1.states@.contains_key(x) ==> t1.states@[x].state_id == x
                    && exists|sid: u64| #[trigger] t0.states@.contains_key(sid) && state_rep(keys, sid) == x
                        && t1.states@[x].cycle == t0.states@[sid].cycle
                &&& t1.id == t0.id && t1.weight == t0.weight && t1.from_path == t0.from_path && t1.file_source == t0.file_source
            } else {
                inst.cex_traces@[k2] == start.cex_traces@[k2]
            } by {
                if k2 == k {
                    assert(tkeys@.take(j + 1)[j as int] == k);
                    let t0 = start.cex_traces@[k2];
                    let t1 = inst.cex_traces@[k2];
                    assert forall|x: u64| #[trigger] t1.states@.contains_key(x) implies t1.states@[x].state_id == x
                        && exists|sid: u64| #[trigger] t0.states@.contains_key(sid) && state_rep(keys, sid) == x
                            && t1.states@[x].cycle == t0.states@[sid].cycle by {
                        let sid = choose|sid: u64| #[trigger] t0.states@.contains_key(sid) && rep@[sid] == x
                            && t1.states@[x].cycle == t0.states@[sid].cycle;
                        assert(start.all_states@.contains(sid));
                    }
                } else {
                    assert(inst.cex_traces@[k2] == cur[k2]);
                    assert(tkeys@.take(j + 1).contains(k2) == tkeys@.take(j as int).contains(k2));
                }
            }
        }
    }
    proof {
        assert forall|k: usize| #[trigger] start.cex_traces@.contains_key(k) implies tkeys@.take(tn as int).contains(k) by {
            assert(tkeys@.take(tn as int) =~= tkeys@);
            assert(tkeys@.to_set().contains(k));
        }
    }
    let ghost cex_done = inst.cex_traces;
    let bkeys = usize_keys(&inst.bex_traces);
    let bn = bkeys.len();
    for j in 0..bn
        invariant
            bn == bkeys@.len(),
            bkeys@.to_set() == start.bex_traces@.dom(),
            bkeys@.no_duplicates(),
            keys == support_keys(&start),
            merge_states_ready(&start),
            rep@.dom() == start.all_states@,
            forall|sid: u64| #[trigger] start.all_states@.contains(sid) ==> rep@[sid] == state_rep(keys, sid),
            inst.bex_traces@.dom() == start.bex_traces@.dom(),
            inst.predicates == preds_done,
            inst.bex_samples == bex_done,
            inst.cex_traces == cex_done,
            inst.all_states == start.all_states,
            inst.formula_score_weights == start.formula_score_weights,
            forall|k: usize| #[trigger] start.bex_traces@.contains_key(k) ==> if bkeys@.take(j as int).contains(k) {
                let t0 = start.bex_traces@[k];
                let t1 = inst.bex_traces@[k];
                &&& t1.states@.dom() == state_reps_of(t0.states@.dom(), keys)
                &&& forall|x: u64| #[trigger] t1.states@.contains_key(x) ==> t1.states@[x].state_id == x
                    && exists|sid: u64| #[trigger] t0.states@.contains_key(sid) && state_rep(keys, sid) == x
                        && t1.states@[x].cycle == t0.states@[sid].cycle
                &&& t1.id == t0.id && t1.weight == t0.weight && t1.from_path == t0.from_path
                &&& t1.file_source == t0.file_source && t1.must_not_cover == t0.must_not_cover
            } else {
                inst.bex_traces@[k] == start.bex_traces@[k]
            },
    {
        let k = bkeys[j];
        proof {
            assert(bkeys@.to_set().contains(k));
            assert(!bkeys@.take(j as int).contains(k));
            assert(bkeys@.take(j + 1) =~= bkeys@.take(j as int).push(k));
        }
        let ghost cur = inst.bex_traces@;
        let mut t = inst.bex_traces.remove(&k).unwrap();
        proof {
            assert forall|sid: u64| #[trigger] t.states@.contains_key(sid) implies rep@.contains_key(sid) by {
                assert(start.bex_traces@.contains_key(k) && start.bex_traces@[k].states@.contains_key(sid));
            }
        }
        let new_states = rewrite_bex_states(&t.states, &rep);
        proof {
            lemma_reps_of(t.states@.dom(), rep@, keys);
        }
        t.states = new_states;
        inst.bex_traces.insert(k, t);
        assert(inst.bex_traces@.dom() =~= start.bex_traces@.dom());
        proof {
            assert forall|k2: usize| #[trigger] start.bex_traces@.contains_key(k2) implies if bkeys@.take(j + 1).contains(k2) {
                let t0 = start.bex_traces@[k2];
                let t1 = inst.bex_traces@[k2];
                &&& t1.states@.dom() == state_reps_of(t0.states@.dom(), keys)
                &&& forall|x: u64| #[trigger] t1.states@.contains_key(x) ==> t1.states@[x].state_id == x
                    && exists|sid: u64| #[trigger] t0.states@.contains_key(sid) && state_rep(keys, sid) == x
                        && t1.states@[x].cycle == t0.states@[sid].cycle
                &&& t1.id == t0.id && t1.weight == t0.weight && t1.from_path == t0.from_path
                &&& t1.file_source == t0.file_source && t1.must_not_cover == t0.must_not_cover
            } else {
                inst.bex_traces@[k2] == start.bex_traces@[k2]
            } by {
                if k2 == k {
                    assert(bkeys@.take(j + 1)[j as int] == k);
                    let t0 = start.bex_traces@[k2];
                    let t1 = inst.bex_traces@[k2];
                    assert forall|x: u64| #[trigger] t1.states@.contains_key(x) implies t1.states@[x].state_id == x
                        && exists|sid: u64| #[trigger] t0.states@.contains_key(sid) && state_rep(keys, sid) == x
                            && t1.states@[x].cycle == t0.states@[sid].cycle by {
                        let sid = choose|sid: u64| #[trigger] t0.states@.contains_key(sid) && rep@[sid] == x
                            && t1.states@[x].cycle == t0.states@[sid].cycle;
                        assert(start.all_states@.contains(sid));
                    }
                } else {
                    assert(inst.bex_traces@[k2] == cur[k2]);
                    assert(bkeys@.take(j + 1).contains(k2) == bkeys@.take(j as int).contains(k2));
                }
            }
        }
    }
    proof {
        assert forall|k: usize| #[trigger] start.bex_traces@.contains_key(k) implies bkeys@.take(bn as int).contains(k) by {
            assert(bkeys@.take(bn as int) =~= bkeys@);
            assert(bkeys@.to_set().contains(k));
        }
    }
    // The representatives are all the states.
    let ids = set_elems(&inst.all_states);
    let n = ids.len();
    let mut all: HashSet<u64> = HashSet::new();
    for i in 0..n
        invariant
            n == ids@.len(),
            ids@.to_set() == start.all_states@,
            rep@.dom() == start.all_states@,
            all@ == reps_of(ids@.take(i as int).to_set(), rep@),
    {
        let sid = ids[i];
        assert(ids@.to_set().contains(sid));
        let x = *rep.get(&sid).unwrap();
        let ghost a0 = all@;
        all.insert(x);
        proof {
            assert(ids@.take(i + 1) =~= ids@.take(i as int).push(sid));
            ids@.take(i as int).lemma_push_to_set_commute(sid);
            assert forall|y: u64| all@.contains(y) <==> reps_of(ids@.take(i + 1).to_set(), rep@).contains(y) by {
                if y == x {
                    assert(ids@.take(i + 1).to_set().contains(sid));
                }
                if reps_of(ids@.take(i + 1).to_set(), rep@).contains(y) {
                    let s2 = choose|s2: u64| #[trigger] ids@.take(i + 1).to_set().contains(s2) && rep@[s2] == y;
                    if s2 != sid {
                        assert(ids@.take(i as int).to_set().contains(s2));
                        assert(reps_of(ids@.take(i as int).to_set(), rep@).contains(y));
                    }
                }
                if a0.contains(y) {
                    let s2 = choose|s2: u64| #[trigger] ids@.take(i as int).to_set().contains(s2) && rep@[s2] == y;
                    assert(ids@.take(i + 1).to_set().contains(s2));
                }
            }
            assert(all@ =~= reps_of(ids@.take(i + 1).to_set(), rep@));
        }
    }
    proof {
        assert(ids@.take(n as int) =~= ids@);
        lemma_reps_of(start.all_states@, rep@, keys);
    }
    inst.all_states = all;
}

// ----------------------------------------------------------------------------
// Merging kept benign states with the same support
// ----------------------------------------------------------------------------

/// The supports of the kept states.
pub open spec fn kept_keys(kept: Map<u64, SetCoverBEXSample>, bs: Map<u64, BitSetWrapper>) -> Map<u64, Set<u32>> {
    Map::new(|s: u64| kept.contains_key(s), |s: u64| bs[s]@)
}

pub open spec fn kept_weights(kept: Map<u64, SetCoverBEXSample>) -> Map<u64, u64> {
    kept.map_values(|b: SetCoverBEXSample| b.weight)
}

pub open spec fn kept_must(kept: Map<u64, SetCoverBEXSample>) -> Map<u64, bool> {
    kept.map_values(|b: SetCoverBEXSample| b.must_not_cover)
}

/// Some kept state has support `supp`.
#[verifier::opaque]
pub open spec fn has_support(kept: Map<u64, SetCoverBEXSample>, bs: Map<u64, BitSetWrapper>, supp: Set<u32>) -> bool {
    exists|u: u64| #[trigger] kept.contains_key(u) && bs[u]@ == supp
}

/// The smallest kept state with support `supp`.
#[verifier::opaque]
pub open spec fn support_min(kept: Map<u64, SetCoverBEXSample>, bs: Map<u64, BitSetWrapper>, supp: Set<u32>) -> u64 {
    choose|m: u64| kept.contains_key(m) && bs[m]@ == supp
        && forall|u: u64| #[trigger] kept.contains_key(u) && bs[u]@ == supp ==> m <= u
}

/// The state a trace state stands for: itself where kept, else where it was merged.
pub open spec fn moved_state(kept: Map<u64, SetCoverBEXSample>, old_to_new: Map<u64, u64>, s: u64) -> u64 {
    if kept.contains_key(s) { s } else { old_to_new[s] }
}

/// The state of a benign trace under the smallest kept state of its support.
pub open spec fn trace_state_rep(
    kept: Map<u64, SetCoverBEXSample>,
    bs: Map<u64, BitSetWrapper>,
    old_to_new: Map<u64, u64>,
    s: u64,
) -> u64 {
    support_min(kept, bs, bs[moved_state(kept, old_to_new, s)]@)
}

proof fn lemma_support_min(kept: Map<u64, SetCoverBEXSample>, bs: Map<u64, BitSetWrapper>, supp: Set<u32>, m: u64)
    requires
        kept.contains_key(m),
        bs[m]@ == supp,
        forall|u: u64| #[trigger] kept.contains_key(u) && bs[u]@ == supp ==> m <= u,
    ensures
        support_min(kept, bs, supp) == m,
{
    reveal(support_min);
    let r = support_min(kept, bs, supp);
    assert(kept.contains_key(m) && bs[m]@ == supp && forall|u: u64| #[trigger] kept.contains_key(u) && bs[u]@ == supp ==> m <= u);
    assert(r <= m);
    assert(m <= r);
}

/// The smallest kept state whose support equals `supp`, if any.
fn support_group_min(kids: &Vec<u64>, bs: &HashMap<u64, BitSetWrapper>, kept: &HashMap<u64, SetCoverBEXSample>, supp: &BitSetWrapper)
    -> (r: Option<u64>)
    requires
        kids@.to_set() == kept@.dom(),
        forall|s: u64| #[trigger] kept@.contains_key(s) ==> bs@.contains_key(s),
    ensures
        match r {
            Some(m) => has_support(kept@, bs@, supp@) && support_min(kept@, bs@, supp@) == m,
            None => !has_support(kept@, bs@, supp@),
        },
{
    let n = kids.len();
    let mut best: Option<u64> = None;
    for i in 0..n
        invariant
            n == kids@.len(),
            kids@.to_set() == kept@.dom(),
            forall|s: u64| #[trigger] kept@.contains_key(s) ==> bs@.contains_key(s),
            match best {
                Some(m) => kept@.contains_key(m) && bs@[m]@ == supp@
                    && forall|k: int| 0 <= k < i && #[trigger] bs@[kids@[k]]@ == supp@ ==> m <= kids@[k],
                None => forall|k: int| 0 <= k < i ==> #[trigger] bs@[kids@[k]]@ != supp@,
            },
    {
        let s = kids[i];
        assert(kids@.to_set().contains(s));
        let b = bs.get(&s).unwrap();
        if b.is_subset(supp) && supp.is_subset(b) {
            assert(b@ =~= supp@);
            match best {
                Some(m) => {
                    if s < m {
                        best = Some(s);
                    }
                },
                None => {
                    best = Some(s);
                },
            }
        } else {
            assert(b@ != supp@);
        }
    }
    proof {
        reveal(has_support);
        match best {
            Some(m) => {
                assert forall|u: u64| #[trigger] kept@.contains_key(u) && bs@[u]@ == supp@ implies m <= u by {
                    assert(kids@.to_set().contains(u));
                    let k = choose|k: int| 0 <= k < kids@.len() && kids@[k] == u;
                    assert(bs@[kids@[k]]@ == supp@);
                }
                lemma_support_min(kept@, bs@, supp@, m);
            },
            None => {
                if has_support(kept@, bs@, supp@) {
                    let u = choose|u: u64| #[trigger] kept@.contains_key(u) && bs@[u]@ == supp@;
                    assert(kids@.to_set().contains(u));
                    let k = choose|k: int| 0 <= k < kids@.len() && kids@[k] == u;
                    assert(bs@[kids@[k]]@ != supp@);
                }
            },
        }
    }
    best
}

/// What merging the kept states needs: each kept state and each state of a
/// benign trace (where it was merged to, if not kept) has a support, some kept
/// state shares it, and group weights fit.
pub open spec fn merge_b_ready(
    kept: Map<u64, SetCoverBEXSample>,
    bs: Map<u64, BitSetWrapper>,
    old_to_new: Map<u64, u64>,
    inst: &SetCoverInstance,
) -> bool {
    &&& forall|s: u64| #[trigger] kept.contains_key(s) ==> bs.contains_key(s)
        && state_group_weight(kept_keys(kept, bs), kept_weights(kept), s) <= u64::MAX
    &&& forall|t: usize, s: u64| inst.bex_traces@.contains_key(t) && #[trigger] inst.bex_traces@[t].states@.contains_key(s)
        ==> trace_state_ok(kept, bs, old_to_new, s)
}

/// A state of a benign trace leads to a support that a kept state has.
pub open spec fn trace_state_ok(
    kept: Map<u64, SetCoverBEXSample>,
    bs: Map<u64, BitSetWrapper>,
    old_to_new: Map<u64, u64>,
    s: u64,
) -> bool {
    &&& (kept.contains_key(s) || old_to_new.contains_key(s))
    &&& bs.contains_key(moved_state(kept, old_to_new, s))
    &&& has_support(kept, bs, bs[moved_state(kept, old_to_new, s)]@)
}

/// The representatives of the states of a benign trace.
#[verifier::spinoff_prover]
fn trace_rep_map(
    states: &HashMap<u64, UnweightedBEXSample>,
    kids: &Vec<u64>,
    kept: &HashMap<u64, SetCoverBEXSample>,
    bs: &HashMap<u64, BitSetWrapper>,
    old_to_new: &HashMap<u64, u64>,
) -> (r: HashMap<u64, u64>)
    requires
        kids@.to_set() == kept@.dom(),
        forall|s: u64| #[trigger] kept@.contains_key(s) ==> bs@.contains_key(s),
        forall|s: u64| #[trigger] states@.contains_key(s) ==> trace_state_ok(kept@, bs@, old_to_new@, s),
    ensures
        forall|s: u64| #[trigger] states@.contains_key(s) ==> r@.contains_key(s)
            && r@[s] == trace_state_rep(kept@, bs@, old_to_new@, s),
{
    let ks = u64_keys(states);
    let n = ks.len();
    let mut r: HashMap<u64, u64> = HashMap::new();
    let mut i: usize = 0;
    while i < n
        invariant
            i <= n,
            n == ks@.len(),
            ks@.to_set() == states@.dom(),
            kids@.to_set() == kept@.dom(),
            forall|s: u64| #[trigger] kept@.contains_key(s) ==> bs@.contains_key(s),
            ks@.no_duplicates(),
            forall|s: u64| #[trigger] states@.contains_key(s) ==> trace_state_ok(kept@, bs@, old_to_new@, s),
            forall|k: int| 0 <= k < i ==> #[trigger] r@.contains_key(ks@[k]) && r@[ks@[k]] == trace_state_rep(kept@, bs@, old_to_new@, ks@[k]),
        decreases n - i,
    {
        let s = ks[i];
        assert(ks@.to_set().contains(s));
        let m = if kept.contains_key(&s) { s } else { *old_to_new.get(&s).unwrap() };
        let supp = bs.get(&m).unwrap();
        let x = support_group_min(kids, bs, kept, supp).unwrap();
        assert(m == moved_state(kept@, old_to_new@, s));
        assert(x == trace_state_rep(kept@, bs@, old_to_new@, s));
        let ghost r0 = r@;
        r.insert(s, x);
        proof {
            assert forall|k: int| 0 <= k < i + 1 implies #[trigger] r@.contains_key(ks@[k]) && r@[ks@[k]] == trace_state_rep(kept@, bs@, old_to_new@, ks@[k]) by {
                if k == i {
                    assert(ks@[k] == s);
                } else {
                    assert(ks@[k] != s);
                    assert(r0.contains_key(ks@[k]));
                    assert(r@[ks@[k]] == r0[ks@[k]]);
                }
            }
        }
        i = i + 1;
    }
    proof {
        assert forall|s: u64| #[trigger] states@.contains_key(s) implies r@.contains_key(s)
            && r@[s] == trace_state_rep(kept@, bs@, old_to_new@, s) by {
            assert(ks@.to_set().contains(s));
            let k = choose|k: int| 0 <= k < ks@.len() && ks@[k] == s;
            assert(r@.contains_key(ks@[k]));
        }
    }
    r
}

/// A benign trace whose states are taken to their representatives; the rest is kept.
pub open spec fn b_trace_merged(
    t0: SetCoverBEXTrace,
    t1: SetCoverBEXTrace,
    kept: Map<u64, SetCoverBEXSample>,
    bs: Map<u64, BitSetWrapper>,
    old_to_new: Map<u64, u64>,
) -> bool {
    &&& t1.states@.dom() == Set::new(|r: u64| exists|s: u64| #[trigger] t0.states@.contains_key(s)
        && trace_state_rep(kept, bs, old_to_new, s) == r)
    &&& forall|x: u64| #[trigger] t1.states@.contains_key(x) ==> t1.states@[x].state_id == x
        && exists|sid: u64| #[trigger] t0.states@.contains_key(sid) && trace_state_rep(kept, bs, old_to_new, sid) == x
            && t1.states@[x].cycle == t0.states@[sid].cycle
    &&& t1.id == t0.id && t1.weight == t0.weight && t1.from_path == t0.from_path
    &&& t1.file_source == t0.file_source && t1.must_not_cover == t0.must_not_cover
}

fn merge_b_trace(
    t: &mut SetCoverBEXTrace,
    kids: &Vec<u64>,
    kept_b: &HashMap<u64, SetCoverBEXSample>,
    b_support: &HashMap<u64, BitSetWrapper>,
    old_to_new_map: &HashMap<u64, u64>,
)
    requires
        kids@.to_set() == kept_b@.dom(),
        forall|s: u64| #[trigger] kept_b@.contains_key(s) ==> b_support@.contains_key(s),
        forall|s: u64| #[trigger] old(t).states@.contains_key(s) ==> trace_state_ok(kept_b@, b_support@, old_to_new_map@, s),
    ensures
        b_trace_merged(*old(t), *final(t), kept_b@, b_support@, old_to_new_map@),
{
    let ghost kept = kept_b@;
    let ghost bs = b_support@;
    let rep = trace_rep_map(&t.states, kids, kept_b, b_support, old_to_new_map);
    let new_states = rewrite_bex_states(&t.states, &rep);
    let ghost t0s = t.states@;
    proof {
        assert forall|r: u64| reps_of(t0s.dom(), rep@).contains(r) <==> (exists|s: u64| #[trigger] t0s.contains_key(s)
            && trace_state_rep(kept, bs, old_to_new_map@, s) == r) by {
            if reps_of(t0s.dom(), rep@).contains(r) {
                let s = choose|s: u64| #[trigger] t0s.dom().contains(s) && rep@[s] == r;
                assert(t0s.contains_key(s));
            }
            if exists|s: u64| #[trigger] t0s.contains_key(s) && trace_state_rep(kept, bs, old_to_new_map@, s) == r {
                let s = choose|s: u64| #[trigger] t0s.contains_key(s) && trace_state_rep(kept, bs, old_to_new_map@, s) == r;
                assert(t0s.dom().contains(s) && rep@[s] == r);
            }
        }
        assert(new_states@.dom() =~= Set::new(|r: u64| exists|s: u64| #[trigger] t0s.contains_key(s)
            && trace_state_rep(kept, bs, old_to_new_map@, s) == r));
        assert forall|x: u64| #[trigger] new_states@.contains_key(x) implies new_states@[x].state_id == x
            && exists|sid: u64| #[trigger] t0s.contains_key(sid) && trace_state_rep(kept, bs, old_to_new_map@, sid) == x
                && new_states@[x].cycle == t0s[sid].cycle by {
            let sid = choose|sid: u64| #[trigger] t0s.contains_key(sid) && rep@[sid] == x
                && new_states@[x].cycle == t0s[sid].cycle;
        }
    }
    t.states = new_states;
}

/// One benign sample per group of kept states with the same support, under
/// the smallest of them, with the group's summed weight and joined flag.
proof fn lemma_kept_samples_dom(
    kept: Map<u64, SetCoverBEXSample>,
    bs: Map<u64, BitSetWrapper>,
    kids: Seq<u64>,
    summary: Seq<(u64, u64, bool)>,
    d: Set<u64>,
)
    requires
        kids.to_set() == kept.dom(),
        summary.len() == kids.len(),
        forall|i2: int| 0 <= i2 < kids.len() ==> {
            &&& state_group_of(kept_keys(kept, bs), kids[i2]).contains((#[trigger] summary[i2]).0)
            &&& (forall|u: u64| #[trigger] state_group_of(kept_keys(kept, bs), kids[i2]).contains(u) ==> summary[i2].0 <= u)
        },
        forall|x: u64| #[trigger] d.contains(x) <==> exists|k: int| 0 <= k < kids.len() && kids[k] == x && summary[k].0 == x,
    ensures
        d == Set::new(|r: u64| exists|s: u64| #[trigger] kept.contains_key(s) && support_min(kept, bs, bs[s]@) == r),
{
    assert forall|r: u64| d.contains(r) implies (exists|s: u64| #[trigger] kept.contains_key(s) && support_min(kept, bs, bs[s]@) == r) by {
        lemma_kept_sample_is_min(kept, bs, kids, summary, d, r);
    }
    assert forall|s: u64| #[trigger] kept.contains_key(s) implies d.contains(support_min(kept, bs, bs[s]@)) by {
        lemma_support_min_is_kept_sample(kept, bs, kids, summary, d, s);
    }
    assert(d =~= Set::new(|r: u64| exists|s: u64| #[trigger] kept.contains_key(s) && support_min(kept, bs, bs[s]@) == r));
}

proof fn lemma_kept_sample_is_min(
    kept: Map<u64, SetCoverBEXSample>,
    bs: Map<u64, BitSetWrapper>,
    kids: Seq<u64>,
    summary: Seq<(u64, u64, bool)>,
    d: Set<u64>,
    r: u64,
)
    requires
        kids.to_set() == kept.dom(),
        summary.len() == kids.len(),
        forall|i2: int| 0 <= i2 < kids.len() ==> {
            &&& state_group_of(kept_keys(kept, bs), kids[i2]).contains((#[trigger] summary[i2]).0)
            &&& (forall|u: u64| #[trigger] state_group_of(kept_keys(kept, bs), kids[i2]).contains(u) ==> summary[i2].0 <= u)
        },
        forall|x: u64| #[trigger] d.contains(x) <==> exists|k: int| 0 <= k < kids.len() && kids[k] == x && summary[k].0 == x,
        d.contains(r),
    ensures
        kept.contains_key(r) && support_min(kept, bs, bs[r]@) == r,
{
    let k = choose|k: int| 0 <= k < kids.len() && kids[k] == r && summary[k].0 == r;
    assert(kids.to_set().contains(r));
    assert(state_group_of(kept_keys(kept, bs), kids[k]).contains(summary[k].0));
    lemma_group_min_is_support_min(kept, bs, kids[k], summary[k].0);
}

proof fn lemma_support_min_is_kept_sample(
    kept: Map<u64, SetCoverBEXSample>,
    bs: Map<u64, BitSetWrapper>,
    kids: Seq<u64>,
    summary: Seq<(u64, u64, bool)>,
    d: Set<u64>,
    s: u64,
)
    requires
        kids.to_set() == kept.dom(),
        summary.len() == kids.len(),
        forall|i2: int| 0 <= i2 < kids.len() ==> {
            &&& state_group_of(kept_keys(kept, bs), kids[i2]).contains((#[trigger] summary[i2]).0)
            &&& (forall|u: u64| #[trigger] state_group_of(kept_keys(kept, bs), kids[i2]).contains(u) ==> summary[i2].0 <= u)
        },
        forall|x: u64| #[trigger] d.contains(x) <==> exists|k: int| 0 <= k < kids.len() && kids[k] == x && summary[k].0 == x,
        kept.contains_key(s),
    ensures
        d.contains(support_min(kept, bs, bs[s]@)),
{
    let km = kept_keys(kept, bs);
    assert(kids.to_set().contains(s));
    let k = choose|k: int| 0 <= k < kids.len() && kids[k] == s;
    assert(state_group_of(km, kids[k]).contains(summary[k].0));
    lemma_group_min_is_support_min(kept, bs, kids[k], summary[k].0);
    let m = summary[k].0;
    assert(kids.to_set().contains(m));
    let k2 = choose|k2: int| 0 <= k2 < kids.len() && kids[k2] == m;
    lemma_same_group(km, s, m);
    assert(state_group_of(km, kids[k2]).contains(summary[k2].0));
    assert(summary[k2].0 <= m);
    assert(state_group_of(km, kids[k2]).contains(m));
    assert(m <= summary[k2].0);
    assert(d.contains(m));
}

fn merged_kept_samples(
    kept_b: &HashMap<StateIdType, SetCoverBEXSample>,
    b_support: &HashMap<StateIdType, BitSetWrapper>,
) -> (new_bex: HashMap<u64, SetCoverBEXSample>)
    requires
        forall|s: u64| #[trigger] kept_b@.contains_key(s) ==> b_support@.contains_key(s)
            && state_group_weight(kept_keys(kept_b@, b_support@), kept_weights(kept_b@), s) <= u64::MAX,
    ensures
        ({
            let kept = kept_b@;
            let bs = b_support@;
            &&& new_bex@.dom() == Set::new(|r: u64| exists|s: u64| #[trigger] kept.contains_key(s) && support_min(kept, bs, bs[s]@) == r)
            &&& forall|x: u64| #[trigger] new_bex@.contains_key(x) ==> {
                &&& kept.contains_key(x)
                &&& new_bex@[x].state_id == kept[x].state_id
                &&& new_bex@[x].from_path@ == kept[x].from_path@
                &&& new_bex@[x].weight == state_group_weight(kept_keys(kept, bs), kept_weights(kept), x)
                &&& new_bex@[x].must_not_cover == state_group_flag(kept_keys(kept, bs), kept_must(kept), x)
            }
        }),
{
    let ghost kept = kept_b@;
    let ghost bs = b_support@;
    let ghost km = kept_keys(kept, bs);
    let kids = u64_keys(kept_b);
    let n = kids.len();
    let mut supports: Vec<BitSetWrapper> = Vec::new();
    let mut weights: Vec<u64> = Vec::new();
    let mut flags: Vec<bool> = Vec::new();
    for i in 0..n
        invariant
            n == kids@.len(),
            kids@.to_set() == kept.dom(),
            kept == kept_b@,
            bs == b_support@,
            forall|s: u64| #[trigger] kept.contains_key(s) ==> bs.contains_key(s)
                && state_group_weight(kept_keys(kept, bs), kept_weights(kept), s) <= u64::MAX,
            supports@.len() == i && weights@.len() == i && flags@.len() == i,
            forall|k: int| 0 <= k < i ==> #[trigger] supports@[k]@ == bs[kids@[k]]@,
            forall|k: int| 0 <= k < i ==> #[trigger] weights@[k] == kept[kids@[k]].weight,
            forall|k: int| 0 <= k < i ==> #[trigger] flags@[k] == kept[kids@[k]].must_not_cover,
    {
        let sid = kids[i];
        assert(kids@.to_set().contains(sid));
        let ghost (s0, w0, f0) = (supports@, weights@, flags@);
        let b = b_support.get(&sid).unwrap().duplicate();
        let sample = kept_b.get(&sid).unwrap();
        supports.push(b);
        weights.push(sample.weight);
        flags.push(sample.must_not_cover);
        proof {
            assert forall|k: int| 0 <= k < i + 1 implies #[trigger] supports@[k]@ == bs[kids@[k]]@ by {
                if k < i {
                    assert(supports@[k] == s0[k]);
                }
            }
            assert forall|k: int| 0 <= k < i + 1 implies #[trigger] weights@[k] == kept[kids@[k]].weight by {
                if k < i {
                    assert(weights@[k] == w0[k]);
                }
            }
            assert forall|k: int| 0 <= k < i + 1 implies #[trigger] flags@[k] == kept[kids@[k]].must_not_cover by {
                if k < i {
                    assert(flags@[k] == f0[k]);
                }
            }
        }
    }
    proof {
        lemma_seq_state_maps(kids@, supports@, weights@, flags@);
        assert(seq_state_key_map(kids@, supports@) =~= km) by {
            assert forall|u: u64| #[trigger] seq_state_key_map(kids@, supports@).contains_key(u) implies seq_state_key_map(kids@, supports@)[u] == km[u] by {
                let k = choose|k: int| 0 <= k < kids@.len() && kids@[k] == u;
                assert(seq_state_key_map(kids@, supports@)[kids@[k]] == supports@[k]@);
            }
        }
        assert(seq_state_u64_map(kids@, weights@) =~= kept_weights(kept)) by {
            assert forall|u: u64| #[trigger] seq_state_u64_map(kids@, weights@).contains_key(u) implies seq_state_u64_map(kids@, weights@)[u] == kept_weights(kept)[u] by {
                let k = choose|k: int| 0 <= k < kids@.len() && kids@[k] == u;
                assert(seq_state_u64_map(kids@, weights@)[kids@[k]] == weights@[k]);
            }
        }
        assert(seq_state_bool_map(kids@, flags@) =~= kept_must(kept)) by {
            assert forall|u: u64| #[trigger] seq_state_bool_map(kids@, flags@).contains_key(u) implies seq_state_bool_map(kids@, flags@)[u] == kept_must(kept)[u] by {
                let k = choose|k: int| 0 <= k < kids@.len() && kids@[k] == u;
                assert(seq_state_bool_map(kids@, flags@)[kids@[k]] == flags@[k]);
            }
        }
        assert forall|i: int| 0 <= i < kids@.len() implies state_group_weight(seq_state_key_map(kids@, supports@), seq_state_u64_map(kids@, weights@), #[trigger] kids@[i]) <= u64::MAX by {
            assert(kids@.to_set().contains(kids@[i]));
        }
    }
    let summary = summarize_state_groups(&kids, &supports, &weights, &flags);
    let mut new_bex: HashMap<u64, SetCoverBEXSample> = HashMap::new();
    for i in 0..n
        invariant
            n == kids@.len(),
            kids@.to_set() == kept.dom(),
            kids@.no_duplicates(),
            kept == kept_b@,
            bs == b_support@,
            km == kept_keys(kept, bs),
            summary@.len() == n,
            forall|i2: int| 0 <= i2 < n ==> {
                &&& state_group_of(km, kids@[i2]).contains((#[trigger] summary@[i2]).0)
                &&& (forall|u: u64| #[trigger] state_group_of(km, kids@[i2]).contains(u) ==> summary@[i2].0 <= u)
                &&& summary@[i2].1 == state_group_weight(km, kept_weights(kept), kids@[i2])
                &&& summary@[i2].2 == state_group_flag(km, kept_must(kept), kids@[i2])
            },
            forall|x: u64| #[trigger] new_bex@.contains_key(x) <==> exists|k: int| 0 <= k < i && kids@[k] == x && summary@[k].0 == x,
            forall|x: u64| #[trigger] new_bex@.contains_key(x) ==> {
                &&& kept.contains_key(x)
                &&& new_bex@[x].state_id == kept[x].state_id
                &&& new_bex@[x].from_path@ == kept[x].from_path@
                &&& new_bex@[x].weight == state_group_weight(km, kept_weights(kept), x)
                &&& new_bex@[x].must_not_cover == state_group_flag(km, kept_must(kept), x)
            },
    {
        let sid = kids[i];
        let (m, w, f) = summary[i];
        let ghost nb0 = new_bex@;
        if m == sid {
            assert(kids@.to_set().contains(sid));
            let sample = kept_b.get(&sid).unwrap();
            let path = sample.from_path.clone();
            new_bex.insert(sid, SetCoverBEXSample { state_id: sample.state_id, weight: w, from_path: path, must_not_cover: f });
        }
        proof {
            assert forall|x: u64| #[trigger] new_bex@.contains_key(x) <==> exists|k: int| 0 <= k < i + 1 && kids@[k] == x && summary@[k].0 == x by {
                if new_bex@.contains_key(x) && !(x == sid && m == sid) {
                    assert(nb0.contains_key(x));
                    let k = choose|k: int| 0 <= k < i && kids@[k] == x && summary@[k].0 == x;
                    assert(0 <= k < i + 1);
                }
                if exists|k: int| 0 <= k < i + 1 && kids@[k] == x && summary@[k].0 == x {
                    let k = choose|k: int| 0 <= k < i + 1 && kids@[k] == x && summary@[k].0 == x;
                    if k < i {
                        assert(exists|k2: int| 0 <= k2 < i && kids@[k2] == x && summary@[k2].0 == x);
                    }
                }
            }
        }
    }
    proof {
        lemma_kept_samples_dom(kept, bs, kids@, summary@, new_bex@.dom());
    }
    new_bex
}

/// Merges the kept benign states with the same support into the smallest of
/// them, which sums their weights and joins their flags; benign traces hold
/// the representatives of their states, a state that was merged before being
/// taken where it went.
pub fn merge_b_states(
    kept_b: &HashMap<StateIdType, SetCoverBEXSample>,
    b_support: &HashMap<StateIdType, BitSetWrapper>,
    old_to_new_map: &HashMap<StateIdType, StateIdType>,
    inst: &mut SetCoverInstance,
)
    requires
        merge_b_ready(kept_b@, b_support@, old_to_new_map@, old(inst)),
    ensures
        ({
            let kept = kept_b@;
            let bs = b_support@;
            &&& final(inst).bex_samples@.dom() == Set::new(|r: u64| exists|s: u64| #[trigger] kept.contains_key(s) && support_min(kept, bs, bs[s]@) == r)
            &&& forall|x: u64| #[trigger] final(inst).bex_samples@.contains_key(x) ==> {
                &&& kept.contains_key(x)
                &&& final(inst).bex_samples@[x].state_id == kept[x].state_id
                &&& final(inst).bex_samples@[x].from_path@ == kept[x].from_path@
                &&& final(inst).bex_samples@[x].weight == state_group_weight(kept_keys(kept, bs), kept_weights(kept), x)
                &&& final(inst).bex_samples@[x].must_not_cover == state_group_flag(kept_keys(kept, bs), kept_must(kept), x)
            }
            &&& final(inst).bex_traces@.dom() == old(inst).bex_traces@.dom()
            &&& forall|k: usize| #[trigger] old(inst).bex_traces@.contains_key(k)
                ==> b_trace_merged(old(inst).bex_traces@[k], final(inst).bex_traces@[k], kept, bs, old_to_new_map@)
            &&& final(inst).predicates == old(inst).predicates
            &&& final(inst).cex_traces == old(inst).cex_traces
            &&& final(inst).all_states == old(inst).all_states
            &&& final(inst).formula_score_weights == old(inst).formula_score_weights
        }),
{
    let ghost kept = kept_b@;
    let ghost bs = b_support@;
    let new_bex = merged_kept_samples(kept_b, b_support);
    let kids = u64_keys(kept_b);
    inst.bex_samples = new_bex;
    let ghost start = *inst;
    let tkeys = usize_keys(&inst.bex_traces);
    let tn = tkeys.len();
    for j in 0..tn
        invariant
            tn == tkeys@.len(),
            tkeys@.to_set() == start.bex_traces@.dom(),
            tkeys@.no_duplicates(),
            kids@.to_set() == kept.dom(),
            kept == kept_b@,
            bs == b_support@,
            start.bex_traces == old(inst).bex_traces,
            merge_b_ready(kept, bs, old_to_new_map@, old(inst)),
            inst.bex_traces@.dom() == start.bex_traces@.dom(),
            inst.bex_samples == start.bex_samples,
            inst.predicates == old(inst).predicates,
            inst.cex_traces == old(inst).cex_traces,
            inst.all_states == old(inst).all_states,
            inst.formula_score_weights == old(inst).formula_score_weights,
            forall|k: usize| #[trigger] start.bex_traces@.contains_key(k) ==> if tkeys@.take(j as int).contains(k) {
                b_trace_merged(start.bex_traces@[k], inst.bex_traces@[k], kept, bs, old_to_new_map@)
            } else {
                inst.bex_traces@[k] == start.bex_traces@[k]
            },
    {
        let k = tkeys[j];
        proof {
            assert(tkeys@.to_set().contains(k));
            assert(!tkeys@.take(j as int).contains(k));
            assert(tkeys@.take(j + 1) =~= tkeys@.take(j as int).push(k));
        }
        let ghost cur = inst.bex_traces@;
        let mut t = inst.bex_traces.remove(&k).unwrap();
        proof {
            assert forall|s: u64| #[trigger] t.states@.contains_key(s) implies trace_state_ok(kept, bs, old_to_new_map@, s) by {
                assert(old(inst).bex_traces@.contains_key(k) && old(inst).bex_traces@[k].states@.contains_key(s));
            }
        }
        merge_b_trace(&mut t, &kids, kept_b, b_support, old_to_new_map);
        inst.bex_traces.insert(k, t);
        assert(inst.bex_traces@.dom() =~= start.bex_traces@.dom());
        proof {
            assert forall|k2: usize| #[trigger] start.bex_traces@.contains_key(k2) implies if tkeys@.take(j + 1).contains(k2) {
                b_trace_merged(start.bex_traces@[k2], inst.bex_traces@[k2], kept, bs, old_to_new_map@)
            } else {
                inst.bex_traces@[k2] == start.bex_traces@[k2]
            } by {
                if k2 == k {
                    assert(tkeys@.take(j + 1)[j as int] == k);
                } else {
                    assert(inst.bex_traces@[k2] == cur[k2]);
                    assert(tkeys@.take(j + 1).contains(k2) == tkeys@.take(j as int).contains(k2));
                }
            }
        }
    }
    proof {
        assert forall|k: usize| #[trigger] start.bex_traces@.contains_key(k) implies tkeys@.take(tn as int).contains(k) by {
            assert(tkeys@.take(tn as int) =~= tkeys@);
            assert(tkeys@.to_set().contains(k));
        }
    }
}

/// The smallest member of a kept state's group is the smallest kept state of its support.
pub(crate) proof fn lemma_group_min_is_support_min(kept: Map<u64, SetCoverBEXSample>, bs: Map<u64, BitSetWrapper>, s: u64, m: u64)
    requires
        kept.contains_key(s),
        state_group_of(kept_keys(kept, bs), s).contains(m),
        forall|u: u64| #[trigger] state_group_of(kept_keys(kept, bs), s).contains(u) ==> m <= u,
    ensures
        support_min(kept, bs, bs[s]@) == m,
        kept.contains_key(m),
        bs[m]@ == bs[s]@,
{
    let km = kept_keys(kept, bs);
    assert forall|u: u64| #[trigger] kept.contains_key(u) && bs[u]@ == bs[s]@ implies m <= u by {
        assert(state_group_of(km, s).contains(u));
    }
    lemma_support_min(kept, bs, bs[s]@, m);
}

} // verus!
