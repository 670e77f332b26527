//! The set-cover instance that the search solves, and a map of state
//! representatives used when states are merged.

use vstd::prelude::*;
use std::collections::{HashMap, HashSet};
use crate::data_types::general_data_types::{BitSetWrapper, FormulaScoreWeights, WaveFormSource, StateIdType, bitset_index_ok};
use crate::predicates::{BasePredicateCandidate, PredicateLike};
use crate::samples::{Teacher, ContainedState, CexTrace, Sample};
use vstd::std_specs::iter::IteratorSpec;

verus! {

broadcast use vstd::std_specs::hash::group_hash_axioms;

// ----------------------------------------------------------------------------
// The instance
// ----------------------------------------------------------------------------

/// A predicate that may be chosen, with the states it covers.
#[derive(Debug)]
pub struct SetCoverPredicate {
    pub id: usize,
    pub covered_states: BitSetWrapper,
    pub predicate: BasePredicateCandidate,
}

/// A benign state, counted `weight` times, that a chosen predicate should not cover.
#[derive(Debug, Clone)]
pub struct SetCoverBEXSample {
    pub state_id: StateIdType,
    pub weight: u64,
    pub from_path: String,
    pub must_not_cover: bool,
}

/// A state of a counterexample trace, with the cycle it occurs in.
#[derive(Debug, Clone, Copy)]
pub struct SetCoverCEXSample {
    pub state_id: StateIdType,
    pub cycle: u32,
}

/// A counterexample trace: covering any of its states blocks it.
#[derive(Debug, Clone)]
pub struct SetCoverCEXTrace {
    pub id: usize,
    pub weight: u64,
    pub states: HashMap<StateIdType, SetCoverCEXSample>,
    pub from_path: String,
    pub file_source: Option<WaveFormSource>,
}

impl SetCoverCEXTrace {
    /// A copy of the trace, field for field.
    pub fn duplicate(&self) -> (r: Self)
        ensures
            r.id == self.id,
            r.weight == self.weight,
            r.states@ == self.states@,
            r.from_path == self.from_path,
            r.file_source == self.file_source,
    {
        SetCoverCEXTrace {
            id: self.id,
            weight: self.weight,
            states: self.states.clone(),
            from_path: self.from_path.clone(),
            file_source: self.file_source,
        }
    }
}

/// A state of a benign trace, with the cycle it occurs in.
#[derive(Debug, Clone, Copy)]
pub struct UnweightedBEXSample {
    pub state_id: StateIdType,
    pub cycle: u32,
}

/// A benign trace, counted `weight` times.
#[derive(Debug)]
pub struct SetCoverBEXTrace {
    pub id: usize,
    pub weight: u64,
    pub states: HashMap<StateIdType, UnweightedBEXSample>,
    pub from_path: String,
    pub file_source: Option<WaveFormSource>,
    pub must_not_cover: bool,
}

/// The predicates to choose from and the examples they are judged on.
#[derive(Debug)]
pub struct SetCoverInstance {
    pub predicates: HashMap<usize, SetCoverPredicate>,
    pub bex_samples: HashMap<StateIdType, SetCoverBEXSample>,
    pub cex_traces: HashMap<usize, SetCoverCEXTrace>,
    pub bex_traces: HashMap<usize, SetCoverBEXTrace>,
    pub all_states: HashSet<StateIdType>,
    pub formula_score_weights: FormulaScoreWeights,
}

/// The keys of a map, each once.
pub(crate) fn u64_keys<V>(m: &HashMap<u64, V>) -> (r: Vec<u64>)
    ensures
        r@.to_set() == m@.dom(),
        r@.no_duplicates(),
{
    let mut r: Vec<u64> = Vec::new();
    for k in it: m.keys()
        invariant
            r@ == it.seq().take(it.index()).unref(),
    {
        r.push(*k);
        assert(r@ =~= it.seq().take(it.index() + 1).unref());
    }
    assert(r@ =~= vstd::std_specs::hash::spec_keys_iter(m).remaining().unref());
    r
}

/// The keys of a map, each once.
pub(crate) fn usize_keys<V>(m: &HashMap<usize, V>) -> (r: Vec<usize>)
    ensures
        r@.to_set() == m@.dom(),
        r@.no_duplicates(),
{
    let mut r: Vec<usize> = Vec::new();
    for k in it: m.keys()
        invariant
            r@ == it.seq().take(it.index()).unref(),
    {
        r.push(*k);
        assert(r@ =~= it.seq().take(it.index() + 1).unref());
    }
    assert(r@ =~= vstd::std_specs::hash::spec_keys_iter(m).remaining().unref());
    r
}

// ----------------------------------------------------------------------------
// Merging a list of states onto its first
// ----------------------------------------------------------------------------

/// The states merged onto the first of the list: the others, if there are
/// at least two.
pub open spec fn merge_rest(list: Seq<u64>) -> Seq<u64> {
    if list.len() < 2 { Seq::empty() } else { list.drop_first() }
}

/// A benign sample with the weight and the must-not-cover flag of `from` added.
pub open spec fn merged_sample(into: SetCoverBEXSample, from: SetCoverBEXSample) -> SetCoverBEXSample {
    SetCoverBEXSample {
        state_id: into.state_id,
        weight: (into.weight + from.weight) as u64,
        from_path: into.from_path,
        must_not_cover: into.must_not_cover || from.must_not_cover,
    }
}

/// The benign samples once the states of `rest` are merged, one after the
/// other, onto `m`: a merged state's sample leaves and is added to `m`'s.
pub open spec fn bex_after_merge(bex: Map<u64, SetCoverBEXSample>, m: u64, rest: Seq<u64>) -> Map<u64, SetCoverBEXSample>
    decreases rest.len(),
{
    if rest.len() == 0 {
        bex
    } else {
        let b = bex_after_merge(bex, m, rest.drop_last());
        let s = rest.last();
        if b.contains_key(s) { b.remove(s).insert(m, merged_sample(b[m], b[s])) } else { b }
    }
}

/// Every merged benign sample finds the sample of `m` in place (another
/// state than `m`), and no weight exceeds `u64::MAX`.
pub open spec fn bex_merge_ok(bex: Map<u64, SetCoverBEXSample>, m: u64, rest: Seq<u64>) -> bool
    decreases rest.len(),
{
    if rest.len() == 0 {
        true
    } else {
        let b = bex_after_merge(bex, m, rest.drop_last());
        let s = rest.last();
        &&& bex_merge_ok(bex, m, rest.drop_last())
        &&& b.contains_key(s) ==> s != m && b.contains_key(m) && b[m].weight + b[s].weight <= u64::MAX
    }
}

/// The states of a counterexample trace once those of `rest` are merged onto
/// `m`: a merged state leaves, and `m` enters with its cycle unless present.
pub open spec fn cex_states_after_merge(states: Map<u64, SetCoverCEXSample>, m: u64, rest: Seq<u64>) -> Map<u64, SetCoverCEXSample>
    decreases rest.len(),
{
    if rest.len() == 0 {
        states
    } else {
        let st = cex_states_after_merge(states, m, rest.drop_last());
        let s = rest.last();
        if st.contains_key(s) {
            let st2 = st.remove(s);
            if st2.contains_key(m) { st2 } else { st2.insert(m, SetCoverCEXSample { state_id: m, cycle: st[s].cycle }) }
        } else {
            st
        }
    }
}

/// The predicate indices of the states, as a predicate stores them.
pub open spec fn state_bits(states: Seq<u64>) -> Set<u32> {
    states.map_values(|s: u64| s as u32).to_set()
}

proof fn lemma_bex_merge_ok_prefix(bex: Map<u64, SetCoverBEXSample>, m: u64, rest: Seq<u64>, j: int)
    requires
        bex_merge_ok(bex, m, rest),
        0 <= j <= rest.len(),
    ensures
        bex_merge_ok(bex, m, rest.take(j)),
    decreases rest.len(),
{
    if j < rest.len() {
        assert(rest.drop_last().take(j) =~= rest.take(j));
        lemma_bex_merge_ok_prefix(bex, m, rest.drop_last(), j);
    } else {
        assert(rest.take(j) =~= rest);
    }
}

fn merge_trace_states(states: &mut HashMap<u64, SetCoverCEXSample>, m: u64, list: &Vec<u64>)
    requires
        list@.len() >= 2,
    ensures
        final(states)@ == cex_states_after_merge(old(states)@, m, list@.drop_first()),
{
    let ghost start = states@;
    let ghost rest = list@.drop_first();
    let n = list.len();
    assert(rest.take(0) =~= Seq::<u64>::empty());
    for i in 1..n
        invariant
            n == list@.len(),
            rest == list@.drop_first(),
            states@ == cex_states_after_merge(start, m, rest.take(i - 1)),
    {
        proof {
            assert(rest.take(i as int).drop_last() =~= rest.take(i - 1));
            assert(rest.take(i as int).last() == list@[i as int]);
        }
        let s = list[i];
        match states.remove(&s) {
            Some(sample) => {
                if !states.contains_key(&m) {
                    states.insert(m, SetCoverCEXSample { state_id: m, cycle: sample.cycle });
                }
            },
            None => {},
        }
    }
    assert(rest.take(n - 1) =~= rest);
}

fn remove_state_bits(bits: &mut BitSetWrapper, list: &Vec<u64>)
    requires
        list@.len() >= 2,
    ensures
        final(bits)@ == old(bits)@.difference(state_bits(list@.drop_first())),
{
    let ghost rest = list@.drop_first();
    let n = list.len();
    for i in 1..n
        invariant
            n == list@.len(),
            rest == list@.drop_first(),
            bits@ == old(bits)@.difference(state_bits(rest.take(i - 1))),
    {
        let s = list[i];
        bits.remove(s as u32);
        proof {
            assert(rest.take(i as int) =~= rest.take(i - 1).push(s));
            assert(rest.take(i as int).map_values(|x: u64| x as u32)
                =~= rest.take(i - 1).map_values(|x: u64| x as u32).push(s as u32));
            rest.take(i - 1).map_values(|x: u64| x as u32).lemma_push_to_set_commute(s as u32);
        }
        assert(bits@ =~= old(bits)@.difference(state_bits(rest.take(i as int))));
    }
    assert(rest.take(n - 1) =~= rest);
}

impl SetCoverInstance {
    /// Merges the states of the list onto its first one: their benign samples
    /// add weight and must-not-cover flag to the first's and leave; in every
    /// counterexample trace they give way to the first state; no predicate
    /// covers them any more; and they leave the set of all states.
    pub fn merge_states(&mut self, state_list: &Vec<u64>)
        requires
            state_list@.len() >= 2 ==> bex_merge_ok(old(self).bex_samples@, state_list@[0], merge_rest(state_list@)),
        ensures
            final(self).bex_samples@ == bex_after_merge(old(self).bex_samples@, state_list@[0], merge_rest(state_list@)),
            final(self).all_states@ == old(self).all_states@.difference(merge_rest(state_list@).to_set()),
            final(self).cex_traces@.dom() == old(self).cex_traces@.dom(),
            forall|k: usize| #[trigger] old(self).cex_traces@.contains_key(k) ==> {
                &&& final(self).cex_traces@[k].states@
                    == cex_states_after_merge(old(self).cex_traces@[k].states@, state_list@[0], merge_rest(state_list@))
                &&& final(self).cex_traces@[k].id == old(self).cex_traces@[k].id
                &&& final(self).cex_traces@[k].weight == old(self).cex_traces@[k].weight
                &&& final(self).cex_traces@[k].from_path == old(self).cex_traces@[k].from_path
                &&& final(self).cex_traces@[k].file_source == old(self).cex_traces@[k].file_source
            },
            final(self).predicates@.dom() == old(self).predicates@.dom(),
            forall|k: usize| #[trigger] old(self).predicates@.contains_key(k) ==> {
                &&& final(self).predicates@[k].covered_states@
                    == old(self).predicates@[k].covered_states@.difference(state_bits(merge_rest(state_list@)))
                &&& final(self).predicates@[k].id == old(self).predicates@[k].id
                &&& final(self).predicates@[k].predicate == old(self).predicates@[k].predicate
            },
            final(self).bex_traces == old(self).bex_traces,
            final(self).formula_score_weights == old(self).formula_score_weights,
    {
        let n = state_list.len();
        if n < 2 {
            proof {
                assert(merge_rest(state_list@) =~= Seq::<u64>::empty());
                assert(state_bits(Seq::<u64>::empty()) =~= Set::<u32>::empty());
            }
            assert(self.all_states@ =~= old(self).all_states@.difference(Set::<u64>::empty()));
            assert forall|k: usize| #[trigger] old(self).predicates@.contains_key(k) implies
                self.predicates@[k].covered_states@ == old(self).predicates@[k].covered_states@.difference(state_bits(merge_rest(state_list@))) by {
                assert(self.predicates@[k].covered_states@ =~= old(self).predicates@[k].covered_states@.difference(Set::<u32>::empty()));
            }
            return;
        }
        let ghost rest = state_list@.drop_first();
        let ghost old_bex = self.bex_samples@;
        let ghost old_all = self.all_states@;
        let merge_id = state_list[0];
        assert(rest.take(0) =~= Seq::<u64>::empty());
        assert(old_all.difference(rest.take(0).to_set()) =~= old_all);
        for i in 1..n
            invariant
                n == state_list@.len(),
                n >= 2,
                rest == state_list@.drop_first(),
                merge_id == state_list@[0],
                bex_merge_ok(old_bex, merge_id, rest),
                self.bex_samples@ == bex_after_merge(old_bex, merge_id, rest.take(i - 1)),
                self.all_states@ == old_all.difference(rest.take(i - 1).to_set()),
                self.cex_traces == old(self).cex_traces,
                self.predicates == old(self).predicates,
                self.bex_traces == old(self).bex_traces,
                self.formula_score_weights == old(self).formula_score_weights,
        {
            proof {
                assert(rest.take(i as int).drop_last() =~= rest.take(i - 1));
                assert(rest.take(i as int).last() == state_list@[i as int]);
                lemma_bex_merge_ok_prefix(old_bex, merge_id, rest, i as int);
            }
            let s = state_list[i];
            match self.bex_samples.remove(&s) {
                Some(sample) => {
                    let into = self.bex_samples.remove(&merge_id).unwrap();
                    let merged = SetCoverBEXSample {
                        state_id: into.state_id,
                        weight: into.weight + sample.weight,
                        from_path: into.from_path,
                        must_not_cover: into.must_not_cover || sample.must_not_cover,
                    };
                    self.bex_samples.insert(merge_id, merged);
                    let ghost b = bex_after_merge(old_bex, merge_id, rest.take(i - 1));
                    assert(self.bex_samples@ =~= b.remove(s).insert(merge_id, merged_sample(b[merge_id], b[s])));
                },
                None => {},
            }
            self.all_states.remove(&s);
            proof {
                assert(rest.take(i as int) =~= rest.take(i - 1).push(s));
                rest.take(i - 1).lemma_push_to_set_commute(s);
            }
            assert(self.all_states@ =~= old_all.difference(rest.take(i as int).to_set()));
        }
        assert(rest.take(n - 1) =~= rest);
        let ghost traces_before = self.cex_traces@;
        let trace_keys = usize_keys(&self.cex_traces);
        let tn = trace_keys.len();
        for j in 0..tn
            invariant
                tn == trace_keys@.len(),
                n == state_list@.len(),
                n >= 2,
                rest == state_list@.drop_first(),
                merge_id == state_list@[0],
                trace_keys@.to_set() == traces_before.dom(),
                trace_keys@.no_duplicates(),
                traces_before == old(self).cex_traces@,
                self.cex_traces@.dom() == traces_before.dom(),
                forall|k: usize| #[trigger] traces_before.contains_key(k) ==> if trace_keys@.take(j as int).contains(k) {
                    &&& self.cex_traces@[k].states@ == cex_states_after_merge(traces_before[k].states@, merge_id, rest)
                    &&& self.cex_traces@[k].id == traces_before[k].id
                    &&& self.cex_traces@[k].weight == traces_before[k].weight
                    &&& self.cex_traces@[k].from_path == traces_before[k].from_path
                    &&& self.cex_traces@[k].file_source == traces_before[k].file_source
                } else {
                    self.cex_traces@[k] == traces_before[k]
                },
                self.bex_samples@ == bex_after_merge(old_bex, merge_id, rest),
                self.all_states@ == old_all.difference(rest.to_set()),
                self.predicates == old(self).predicates,
                self.bex_traces == old(self).bex_traces,
                self.formula_score_weights == old(self).formula_score_weights,
        {
            let k = trace_keys[j];
            proof {
                assert(trace_keys@.to_set().contains(k));
                assert(!trace_keys@.take(j as int).contains(k));
                assert(trace_keys@.take(j + 1) =~= trace_keys@.take(j as int).push(k));
            }
            let ghost cur = self.cex_traces@;
            let mut t = self.cex_traces.remove(&k).unwrap();
            merge_trace_states(&mut t.states, merge_id, state_list);
            self.cex_traces.insert(k, t);
            assert(self.cex_traces@.dom() =~= traces_before.dom());
            proof {
                assert forall|k2: usize| #[trigger] traces_before.contains_key(k2) implies if trace_keys@.take(j + 1).contains(k2) {
                    &&& self.cex_traces@[k2].states@ == cex_states_after_merge(traces_before[k2].states@, merge_id, rest)
                    &&& self.cex_traces@[k2].id == traces_before[k2].id
                    &&& self.cex_traces@[k2].weight == traces_before[k2].weight
                    &&& self.cex_traces@[k2].from_path == traces_before[k2].from_path
                    &&& self.cex_traces@[k2].file_source == traces_before[k2].file_source
                } else {
                    self.cex_traces@[k2] == traces_before[k2]
                } by {
                    if k2 == k {
                        assert(trace_keys@.take(j + 1)[j as int] == k);
                    } else {
                        assert(self.cex_traces@[k2] == cur[k2]);
                        assert(trace_keys@.take(j + 1).contains(k2) == trace_keys@.take(j as int).contains(k2));
                    }
                }
            }
        }
        proof {
            assert forall|k: usize| #[trigger] traces_before.contains_key(k) implies trace_keys@.take(tn as int).contains(k) by {
                assert(trace_keys@.take(tn as int) =~= trace_keys@);
                assert(trace_keys@.to_set().contains(k));
            }
        }
        let ghost preds_before = self.predicates@;
        let pred_keys = usize_keys(&self.predicates);
        let pn = pred_keys.len();
        for j in 0..pn
            invariant
                pn == pred_keys@.len(),
                n == state_list@.len(),
                n >= 2,
                rest == state_list@.drop_first(),
                pred_keys@.to_set() == preds_before.dom(),
                pred_keys@.no_duplicates(),
                preds_before == old(self).predicates@,
                self.predicates@.dom() == preds_before.dom(),
                forall|k: usize| #[trigger] preds_before.contains_key(k) ==> if pred_keys@.take(j as int).contains(k) {
                    &&& self.predicates@[k].covered_states@ == preds_before[k].covered_states@.difference(state_bits(rest))
                    &&& self.predicates@[k].id == preds_before[k].id
                    &&& self.predicates@[k].predicate == preds_before[k].predicate
                } else {
                    self.predicates@[k] == preds_before[k]
                },
                forall|k: usize| #[trigger] old(self).cex_traces@.contains_key(k) ==> {
                    &&& self.cex_traces@[k].states@
                        == cex_states_after_merge(old(self).cex_traces@[k].states@, state_list@[0], rest)
                    &&& self.cex_traces@[k].id == old(self).cex_traces@[k].id
                    &&& self.cex_traces@[k].weight == old(self).cex_traces@[k].weight
                    &&& self.cex_traces@[k].from_path == old(self).cex_traces@[k].from_path
                    &&& self.cex_traces@[k].file_source == old(self).cex_traces@[k].file_source
                },
                self.cex_traces@.dom() == old(self).cex_traces@.dom(),
                self.bex_samples@ == bex_after_merge(old_bex, merge_id, rest),
                self.all_states@ == old_all.difference(rest.to_set()),
                self.bex_traces == old(self).bex_traces,
                self.formula_score_weights == old(self).formula_score_weights,
        {
            let k = pred_keys[j];
            proof {
                assert(pred_keys@.to_set().contains(k));
                assert(!pred_keys@.take(j as int).contains(k));
                assert(pred_keys@.take(j + 1) =~= pred_keys@.take(j as int).push(k));
            }
            let ghost cur = self.predicates@;
            let mut p = self.predicates.remove(&k).unwrap();
            remove_state_bits(&mut p.covered_states, state_list);
            self.predicates.insert(k, p);
            assert(self.predicates@.dom() =~= preds_before.dom());
            proof {
                assert forall|k2: usize| #[trigger] preds_before.contains_key(k2) implies if pred_keys@.take(j + 1).contains(k2) {
                    &&& self.predicates@[k2].covered_states@ == preds_before[k2].covered_states@.difference(state_bits(rest))
                    &&& self.predicates@[k2].id == preds_before[k2].id
                    &&& self.predicates@[k2].predicate == preds_before[k2].predicate
                } else {
                    self.predicates@[k2] == preds_before[k2]
                } by {
                    if k2 == k {
                        assert(pred_keys@.take(j + 1)[j as int] == k);
                    } else {
                        assert(self.predicates@[k2] == cur[k2]);
                        assert(pred_keys@.take(j + 1).contains(k2) == pred_keys@.take(j as int).contains(k2));
                    }
                }
            }
        }
        proof {
            assert forall|k: usize| #[trigger] preds_before.contains_key(k) implies pred_keys@.take(pn as int).contains(k) by {
                assert(pred_keys@.take(pn as int) =~= pred_keys@);
                assert(pred_keys@.to_set().contains(k));
            }
        }
    }

    /// For each benign state, the ids of the predicates that do not cover it,
    /// that is, that a formula may use while keeping the state allowed.
    pub fn calculate_allowed_by_map(&self) -> (r: HashMap<u64, BitSetWrapper>)
        requires
            forall|p: usize| #[trigger] self.predicates@.contains_key(p) ==> bitset_index_ok(self.predicates@[p].id as u32),
        ensures
            r@.dom() == self.bex_samples@.dom(),
            forall|s: u64| #[trigger] r@.contains_key(s) ==> r@[s]@ == allowed_by(self.predicates@, s),
    {
        let states = u64_keys(&self.bex_samples);
        let pkeys = usize_keys(&self.predicates);
        let n = states.len();
        let m = pkeys.len();
        let mut r: HashMap<u64, BitSetWrapper> = HashMap::new();
        for i in 0..n
            invariant
                n == states@.len(),
                m == pkeys@.len(),
                states@.to_set() == self.bex_samples@.dom(),
                pkeys@.to_set() == self.predicates@.dom(),
                forall|p: usize| #[trigger] self.predicates@.contains_key(p) ==> bitset_index_ok(self.predicates@[p].id as u32),
                r@.dom() == states@.take(i as int).to_set(),
                forall|s: u64| #[trigger] r@.contains_key(s) ==> r@[s]@ == allowed_by(self.predicates@, s),
        {
            let sid = states[i];
            let mut not_covered_by = BitSetWrapper::new();
            for j in 0..m
                invariant
                    m == pkeys@.len(),
                    pkeys@.to_set() == self.predicates@.dom(),
                    forall|p: usize| #[trigger] self.predicates@.contains_key(p) ==> bitset_index_ok(self.predicates@[p].id as u32),
                    not_covered_by@ == Set::new(|x: u32| exists|k: int| 0 <= k < j && #[trigger] self.predicates@[pkeys@[k]].id as u32 == x
                        && !self.predicates@[pkeys@[k]].covered_states@.contains(sid as u32)),
            {
                let pid = pkeys[j];
                assert(pkeys@.to_set().contains(pid));
                let predicate = self.predicates.get(&pid).unwrap();
                if !predicate.covered_states.contains(&(sid as u32)) {
                    not_covered_by.add(predicate.id as u32);
                }
                proof {
                    assert forall|x: u32| not_covered_by@.contains(x) <==> exists|k: int| 0 <= k < j + 1
                        && #[trigger] self.predicates@[pkeys@[k]].id as u32 == x
                        && !self.predicates@[pkeys@[k]].covered_states@.contains(sid as u32) by {
                        if exists|k: int| 0 <= k < j + 1 && #[trigger] self.predicates@[pkeys@[k]].id as u32 == x
                            && !self.predicates@[pkeys@[k]].covered_states@.contains(sid as u32) {
                            let k = choose|k: int| 0 <= k < j + 1 && #[trigger] self.predicates@[pkeys@[k]].id as u32 == x
                                && !self.predicates@[pkeys@[k]].covered_states@.contains(sid as u32);
                            if k < j {
                                assert(exists|k2: int| 0 <= k2 < j && #[trigger] self.predicates@[pkeys@[k2]].id as u32 == x
                                    && !self.predicates@[pkeys@[k2]].covered_states@.contains(sid as u32));
                            }
                        }
                    }
                }
                assert(not_covered_by@ =~= Set::new(|x: u32| exists|k: int| 0 <= k < j + 1 && #[trigger] self.predicates@[pkeys@[k]].id as u32 == x
                    && !self.predicates@[pkeys@[k]].covered_states@.contains(sid as u32)));
            }
            proof {
                assert forall|x: u32| not_covered_by@.contains(x) <==> allowed_by(self.predicates@, sid).contains(x) by {
                    if not_covered_by@.contains(x) {
                        let k = choose|k: int| 0 <= k < m && #[trigger] self.predicates@[pkeys@[k]].id as u32 == x
                            && !self.predicates@[pkeys@[k]].covered_states@.contains(sid as u32);
                        assert(pkeys@.to_set().contains(pkeys@[k]));
                    }
                    if allowed_by(self.predicates@, sid).contains(x) {
                        let p = choose|p: usize| self.predicates@.contains_key(p) && #[trigger] self.predicates@[p].id as u32 == x
                            && !self.predicates@[p].covered_states@.contains(sid as u32);
                        assert(pkeys@.to_set().contains(p));
                        let k = choose|k: int| 0 <= k < pkeys@.len() && pkeys@[k] == p;
                        assert(self.predicates@[pkeys@[k]].id as u32 == x);
                    }
                }
                assert(not_covered_by@ =~= allowed_by(self.predicates@, sid));
            }
            let ghost r0 = r@;
            r.insert(sid, not_covered_by);
            proof {
                assert(states@.take(i + 1) =~= states@.take(i as int).push(sid));
                states@.take(i as int).lemma_push_to_set_commute(sid);
            }
            assert(r@.dom() =~= states@.take(i + 1).to_set());
        }
        assert(states@.take(n as int) =~= states@);
        r
    }
}

/// The ids of the predicates that leave state `s` uncovered.
pub open spec fn allowed_by(preds: Map<usize, SetCoverPredicate>, s: u64) -> Set<u32> {
    Set::new(|x: u32| exists|p: usize| preds.contains_key(p) && #[trigger] preds[p].id as u32 == x
        && !preds[p].covered_states@.contains(s as u32))
}

// ----------------------------------------------------------------------------
// Representatives of merged states
// ----------------------------------------------------------------------------

/// Following `rep` from `x` meets an entry that points to itself within `fuel` steps.
pub open spec fn reaches_root(rep: Seq<u64>, x: u64, fuel: nat) -> bool
    decreases fuel,
{
    (x as int) < rep.len() && (rep[x as int] == x || (fuel > 0 && reaches_root(rep, rep[x as int], (fuel - 1) as nat)))
}

/// Where following `rep` from `x` for at most `fuel` steps ends.
pub open spec fn root_after(rep: Seq<u64>, x: u64, fuel: nat) -> u64
    decreases fuel,
{
    if fuel == 0 || !((x as int) < rep.len()) || rep[x as int] == x {
        x
    } else {
        root_after(rep, rep[x as int], (fuel - 1) as nat)
    }
}

/// Following `rep` from `x` meets a representative.
pub open spec fn has_root(rep: Seq<u64>, x: u64) -> bool {
    exists|f: nat| reaches_root(rep, x, f)
}

/// Every entry of `rep` leads to a representative: `rep` is a forest.
pub open spec fn is_forest(rep: Seq<u64>) -> bool {
    forall|x: u64| (x as int) < rep.len() ==> #[trigger] has_root(rep, x)
}

/// The representative of `x`.
pub open spec fn root_of(rep: Seq<u64>, x: u64) -> u64 {
    root_after(rep, x, choose|f: nat| reaches_root(rep, x, f))
}

/// The class of `x` holds one of the first `k` members of `group`.
pub open spec fn touches(rep: Seq<u64>, group: Seq<u64>, k: int, x: u64) -> bool {
    exists|j: int| 0 <= j < k && root_of(rep, group[j]) == root_of(rep, x)
}

/// The representative of `x` once the classes of all members of `group`
/// are joined under the representative of its first member.
pub open spec fn merged_root(rep: Seq<u64>, group: Seq<u64>, x: u64) -> u64 {
    if touches(rep, group, group.len() as int, x) { root_of(rep, group[0]) } else { root_of(rep, x) }
}

proof fn lemma_reaches_more_fuel(rep: Seq<u64>, x: u64, f: nat, g: nat)
    requires
        reaches_root(rep, x, f),
        f <= g,
    ensures
        reaches_root(rep, x, g),
        root_after(rep, x, g) == root_after(rep, x, f),
    decreases f,
{
    if rep[x as int] != x {
        lemma_reaches_more_fuel(rep, rep[x as int], (f - 1) as nat, (g - 1) as nat);
    }
}

pub(crate) proof fn lemma_root_after_is_root(rep: Seq<u64>, x: u64, f: nat)
    requires
        reaches_root(rep, x, f),
    ensures
        (root_after(rep, x, f) as int) < rep.len(),
        rep[root_after(rep, x, f) as int] == root_after(rep, x, f),
    decreases f,
{
    if rep[x as int] != x {
        lemma_root_after_is_root(rep, rep[x as int], (f - 1) as nat);
    }
}

/// With any fuel that suffices, the walk ends at the representative.
pub(crate) proof fn lemma_root_of(rep: Seq<u64>, x: u64, f: nat)
    requires
        reaches_root(rep, x, f),
    ensures
        has_root(rep, x),
        root_of(rep, x) == root_after(rep, x, f),
        (root_of(rep, x) as int) < rep.len(),
        rep[root_of(rep, x) as int] == root_of(rep, x),
{
    let g = choose|g: nat| reaches_root(rep, x, g);
    if f <= g {
        lemma_reaches_more_fuel(rep, x, f, g);
    } else {
        lemma_reaches_more_fuel(rep, x, g, f);
    }
    lemma_root_after_is_root(rep, x, f);
}

/// A representative is its own representative.
pub(crate) proof fn lemma_root_of_root(rep: Seq<u64>, x: u64)
    requires
        (x as int) < rep.len(),
        rep[x as int] == x,
    ensures
        root_of(rep, x) == x,
{
    assert(reaches_root(rep, x, 0));
    lemma_root_of(rep, x, 0);
}

/// In a forest an entry points to itself exactly when it is its own representative.
pub(crate) proof fn lemma_root_iff(rep: Seq<u64>, x: u64)
    requires
        is_forest(rep),
        (x as int) < rep.len(),
    ensures
        (rep[x as int] == x) == (root_of(rep, x) == x),
{
    lemma_forest_root(rep, x);
    if rep[x as int] == x {
        lemma_root_of_root(rep, x);
    }
}

/// Every entry of a forest has a representative, which points to itself.
pub(crate) proof fn lemma_forest_root(rep: Seq<u64>, x: u64)
    requires
        is_forest(rep),
        (x as int) < rep.len(),
    ensures
        (root_of(rep, x) as int) < rep.len(),
        rep[root_of(rep, x) as int] == root_of(rep, x),
        reaches_root(rep, x, choose|f: nat| reaches_root(rep, x, f)),
{
    assert(has_root(rep, x));
    let f = choose|f: nat| reaches_root(rep, x, f);
    lemma_root_of(rep, x, f);
}

/// One step towards the representative keeps it.
pub(crate) proof fn lemma_step(rep: Seq<u64>, x: u64, f: nat)
    requires
        reaches_root(rep, x, f),
        rep[x as int] != x,
    ensures
        f > 0,
        reaches_root(rep, rep[x as int], (f - 1) as nat),
        root_of(rep, rep[x as int]) == root_of(rep, x),
{
    lemma_root_of(rep, x, f);
    lemma_root_of(rep, rep[x as int], (f - 1) as nat);
}

/// Pointing a non-representative `x` straight at its representative `r`
/// keeps every walk within the same fuel, and every representative.
proof fn lemma_redirect_walk(rep: Seq<u64>, x: u64, r: u64, y: u64, f: nat)
    requires
        (x as int) < rep.len(),
        rep[x as int] != x,
        has_root(rep, x),
        r == root_of(rep, x),
        reaches_root(rep, y, f),
    ensures
        reaches_root(rep.update(x as int, r), y, f),
        root_after(rep.update(x as int, r), y, f) == root_after(rep, y, f),
    decreases f,
{
    let rep2 = rep.update(x as int, r);
    let g = choose|g: nat| reaches_root(rep, x, g);
    lemma_root_of(rep, x, g);
    if y == x {
        lemma_step(rep, x, f);
        lemma_root_of(rep, x, f);
        assert(rep2[r as int] == r);
        assert(reaches_root(rep2, r, (f - 1) as nat));
        assert(root_after(rep2, r, (f - 1) as nat) == r);
    } else if rep[y as int] != y {
        lemma_redirect_walk(rep, x, r, rep[y as int], (f - 1) as nat);
    }
}

proof fn lemma_redirect(rep: Seq<u64>, x: u64, r: u64)
    requires
        is_forest(rep),
        (x as int) < rep.len(),
        rep[x as int] != x,
        r == root_of(rep, x),
    ensures
        is_forest(rep.update(x as int, r)),
        forall|y: u64| (y as int) < rep.len() ==> #[trigger] root_of(rep.update(x as int, r), y) == root_of(rep, y),
{
    let rep2 = rep.update(x as int, r);
    assert(has_root(rep, x));
    assert forall|y: u64| #![trigger has_root(rep2, y)] #![trigger root_of(rep2, y)]
        (y as int) < rep2.len() implies has_root(rep2, y) && root_of(rep2, y) == root_of(rep, y) by {
        assert(has_root(rep, y));
        let f = choose|f: nat| reaches_root(rep, y, f);
        lemma_redirect_walk(rep, x, r, y, f);
        lemma_root_of(rep2, y, f);
        lemma_root_of(rep, y, f);
    }
}

/// Pointing a representative `a` at another representative `b` adds one step
/// to every walk and moves the class of `a` under `b`.
proof fn lemma_link_walk(rep: Seq<u64>, a: u64, b: u64, y: u64, f: nat)
    requires
        (a as int) < rep.len(),
        (b as int) < rep.len(),
        rep[a as int] == a,
        rep[b as int] == b,
        a != b,
        reaches_root(rep, y, f),
    ensures
        reaches_root(rep.update(a as int, b), y, f + 1),
        root_after(rep.update(a as int, b), y, f + 1)
            == if root_after(rep, y, f) == a { b } else { root_after(rep, y, f) },
    decreases f,
{
    let rep2 = rep.update(a as int, b);
    if y == a {
        assert(reaches_root(rep2, b, f));
        assert(root_after(rep2, b, f) == b);
    } else if rep[y as int] != y {
        lemma_link_walk(rep, a, b, rep[y as int], (f - 1) as nat);
    }
}

pub(crate) proof fn lemma_link(rep: Seq<u64>, a: u64, b: u64)
    requires
        is_forest(rep),
        (a as int) < rep.len(),
        (b as int) < rep.len(),
        rep[a as int] == a,
        rep[b as int] == b,
        a != b,
    ensures
        is_forest(rep.update(a as int, b)),
        forall|y: u64| (y as int) < rep.len() ==> #[trigger] root_of(rep.update(a as int, b), y)
            == if root_of(rep, y) == a { b } else { root_of(rep, y) },
{
    let rep2 = rep.update(a as int, b);
    assert forall|y: u64| #![trigger has_root(rep2, y)] #![trigger root_of(rep2, y)]
        (y as int) < rep2.len() implies has_root(rep2, y)
        && root_of(rep2, y) == if root_of(rep, y) == a { b } else { root_of(rep, y) } by {
        assert(has_root(rep, y));
        let f = choose|f: nat| reaches_root(rep, y, f);
        lemma_link_walk(rep, a, b, y, f);
        lemma_root_of(rep2, y, f + 1);
        lemma_root_of(rep, y, f);
    }
}

/// The identity map: every state is its own representative.
pub fn init_representatives(max_state_id_inclusive: usize) -> (r: Vec<u64>)
    requires
        max_state_id_inclusive < usize::MAX,
        max_state_id_inclusive < u64::MAX,
    ensures
        r@.len() == max_state_id_inclusive + 1,
        forall|i: int| 0 <= i < r@.len() ==> r@[i] == i,
        is_forest(r@),
        forall|x: u64| (x as int) < r@.len() ==> #[trigger] root_of(r@, x) == x,
{
    let mut r: Vec<u64> = Vec::new();
    let mut i: usize = 0;
    while i <= max_state_id_inclusive
        invariant
            i <= max_state_id_inclusive + 1,
            max_state_id_inclusive < usize::MAX,
            max_state_id_inclusive < u64::MAX,
            r@.len() == i,
            forall|k: int| 0 <= k < r@.len() ==> r@[k] == k,
        decreases max_state_id_inclusive + 1 - i,
    {
        r.push(i as u64);
        i = i + 1;
    }
    assert forall|x: u64| #![trigger has_root(r@, x)] #![trigger root_of(r@, x)]
        (x as int) < r@.len() implies has_root(r@, x) && root_of(r@, x) == x by {
        assert(reaches_root(r@, x, 0));
        lemma_root_of_root(r@, x);
    }
    r
}

/// The representative of `x`; every entry on the way is pointed straight at
/// it, which changes no representative.
pub fn find_rep(rep: &mut Vec<u64>, x: u64) -> (r: u64)
    requires
        is_forest(old(rep)@),
        (x as int) < old(rep)@.len(),
    ensures
        final(rep)@.len() == old(rep)@.len(),
        is_forest(final(rep)@),
        r == root_of(old(rep)@, x),
        forall|y: u64| (y as int) < old(rep)@.len() ==> #[trigger] root_of(final(rep)@, y) == root_of(old(rep)@, y),
{
    let ghost start = rep@;
    let len = rep.len();
    proof { lemma_forest_root(start, x); }
    let ghost mut f: nat = choose|f: nat| reaches_root(start, x, f);
    proof { lemma_root_of(start, x, f); }
    let mut r = x;
    while rep[r as usize] != r
        invariant
            rep@ == start,
            len == rep@.len(),
            (r as int) < rep@.len(),
            reaches_root(rep@, r, f),
            root_after(rep@, r, f) == root_of(start, x),
        decreases f,
    {
        proof {
            lemma_step(rep@, r, f);
            f = (f - 1) as nat;
        }
        r = rep[r as usize];
    }
    proof { lemma_root_of_root(start, r); }
    let mut y = x;
    let ghost mut g: nat = choose|g: nat| reaches_root(start, x, g);
    proof { lemma_forest_root(start, x); }
    while rep[y as usize] != y
        invariant
            rep@.len() == start.len(),
            len == rep@.len(),
            is_forest(rep@),
            forall|z: u64| (z as int) < start.len() ==> #[trigger] root_of(rep@, z) == root_of(start, z),
            (y as int) < rep@.len(),
            reaches_root(rep@, y, g),
            root_of(rep@, y) == r,
            (r as int) < rep@.len(),
            rep@[r as int] == r,
        decreases g,
    {
        let p = rep[y as usize];
        proof {
            lemma_step(rep@, y, g);
            lemma_redirect_walk(rep@, y, r, p, (g - 1) as nat);
            lemma_redirect(rep@, y, r);
            lemma_root_of(rep@.update(y as int, r), p, (g - 1) as nat);
            lemma_root_of(rep@, p, (g - 1) as nat);
            g = (g - 1) as nat;
        }
        rep.set(y as usize, r);
        y = p;
    }
    r
}

/// Joins the classes of all members of `group` under the representative of
/// its first member; only representatives are repointed.
pub fn merge_states_rep(rep: &mut Vec<u64>, group: &Vec<u64>)
    requires
        is_forest(old(rep)@),
        forall|k: int| 0 <= k < group@.len() ==> (#[trigger] group@[k] as int) < old(rep)@.len(),
    ensures
        final(rep)@.len() == old(rep)@.len(),
        is_forest(final(rep)@),
        forall|y: u64| (y as int) < old(rep)@.len() ==> #[trigger] root_of(final(rep)@, y) == merged_root(old(rep)@, group@, y),
{
    let ghost start = rep@;
    let n = group.len();
    if n == 0 {
        return;
    }
    let len = rep.len();
    let rep0 = find_rep(rep, group[0]);
    proof {
        lemma_forest_root(start, group@[0]);
        lemma_forest_root(rep@, group@[0]);
    }
    for k in 1..n
        invariant
            n == group@.len(),
            n > 0,
            len == start.len(),
            is_forest(start),
            rep@.len() == start.len(),
            is_forest(rep@),
            forall|i: int| 0 <= i < group@.len() ==> (#[trigger] group@[i] as int) < start.len(),
            rep0 == root_of(start, group@[0]),
            (rep0 as int) < start.len(),
            rep@[rep0 as int] == rep0,
            forall|y: u64| (y as int) < start.len() ==> #[trigger] root_of(rep@, y)
                == if touches(start, group@, k as int, y) { rep0 } else { root_of(start, y) },
    {
        let s = group[k];
        let ghost before = rep@;
        let rs = find_rep(rep, s);
        proof {
            lemma_forest_root(before, s);
            lemma_forest_root(rep@, s);
            lemma_forest_root(rep@, group@[0]);
            assert(root_of(before, group@[0]) == rep0);
            assert(root_of(before, s) == if touches(start, group@, k as int, s) { rep0 } else { root_of(start, s) });
        }
        if rs != rep0 {
            let ghost cur = rep@;
            proof {
                lemma_forest_root(start, s);
                assert(rep@[rs as int] == rs);
                lemma_link(cur, rs, rep0);
                assert(!touches(start, group@, k as int, s));
                assert(rs == root_of(start, s));
            }
            rep.set(rs as usize, rep0);
            proof {
                assert forall|y: u64| (y as int) < start.len() implies #[trigger] root_of(rep@, y)
                    == if touches(start, group@, k + 1, y) { rep0 } else { root_of(start, y) } by {
                    if touches(start, group@, k as int, y) {
                        let j = choose|j: int| 0 <= j < k && root_of(start, group@[j]) == root_of(start, y);
                        assert(touches(start, group@, k + 1, y));
                    } else if root_of(start, y) == root_of(start, group@[k as int]) {
                        assert(touches(start, group@, k + 1, y));
                    } else {
                        assert forall|j: int| 0 <= j < k + 1 implies root_of(start, group@[j]) != root_of(start, y) by {
                            if j < k {
                                assert(!touches(start, group@, k as int, y));
                            }
                        }
                    }
                }
            }
        } else {
            proof {
                assert forall|y: u64| (y as int) < start.len() implies #[trigger] root_of(rep@, y)
                    == if touches(start, group@, k + 1, y) { rep0 } else { root_of(start, y) } by {
                    if touches(start, group@, k as int, y) {
                        let j = choose|j: int| 0 <= j < k && root_of(start, group@[j]) == root_of(start, y);
                        assert(touches(start, group@, k + 1, y));
                    } else if root_of(start, y) == root_of(start, group@[k as int]) {
                        assert(touches(start, group@, k + 1, y));
                        if touches(start, group@, k as int, s) {
                            let j = choose|j: int| 0 <= j < k && root_of(start, group@[j]) == root_of(start, s);
                            assert(touches(start, group@, k as int, y));
                        } else {
                            assert(root_of(start, s) == rep0);
                            assert(touches(start, group@, 1, y));
                            assert(touches(start, group@, k as int, y));
                        }
                    } else {
                        assert forall|j: int| 0 <= j < k + 1 implies root_of(start, group@[j]) != root_of(start, y) by {
                            if j < k {
                                assert(!touches(start, group@, k as int, y));
                            }
                        }
                    }
                }
            }
        }
    }
    proof {
        assert forall|y: u64| (y as int) < start.len() implies #[trigger] root_of(rep@, y) == merged_root(start, group@, y) by {
            if touches(start, group@, n as int, y) {
            }
        }
    }
}


/// The states of a counterexample trace by id, each with the cycle of its
/// last occurrence.
pub open spec fn cex_sample_map(s: Seq<ContainedState>) -> Map<StateIdType, SetCoverCEXSample>
    decreases s.len(),
{
    if s.len() == 0 {
        Map::empty()
    } else {
        cex_sample_map(s.drop_last()).insert(s.last().state_id,
            SetCoverCEXSample { state_id: s.last().state_id, cycle: s.last().and_cycle as u32 })
    }
}

/// The states of a benign trace by id, each with the cycle of its last occurrence.
pub open spec fn bex_trace_sample_map(s: Seq<ContainedState>) -> Map<StateIdType, UnweightedBEXSample>
    decreases s.len(),
{
    if s.len() == 0 {
        Map::empty()
    } else {
        bex_trace_sample_map(s.drop_last()).insert(s.last().state_id,
            UnweightedBEXSample { state_id: s.last().state_id, cycle: s.last().and_cycle as u32 })
    }
}

/// The benign samples by state id, from the last sample of each state: its
/// occurrence count as weight, and the flag `must[j]` of sample `j`.
pub open spec fn bex_sample_map(samples: Seq<Sample>, must: Seq<bool>) -> Map<StateIdType, SetCoverBEXSample>
    decreases samples.len(),
{
    if samples.len() == 0 {
        Map::empty()
    } else {
        let j = samples.len() - 1;
        bex_sample_map(samples.drop_last(), must.take(j)).insert(samples[j].state_id, SetCoverBEXSample {
            state_id: samples[j].state_id,
            weight: samples[j].occurrence_count,
            from_path: samples[j].from_path,
            must_not_cover: must[j],
        })
    }
}

/// The ids of the states of some trace.
pub open spec fn traces_state_ids(ts: Seq<CexTrace>) -> Set<StateIdType> {
    Set::new(|x: StateIdType| exists|t: int, k: int| 0 <= t < ts.len() && 0 <= k < ts[t].contained_samples@.len()
        && #[trigger] ts[t].contained_samples@[k].state_id == x)
}

fn cex_states_of(samples: &Vec<ContainedState>, all_states: &mut HashSet<StateIdType>) -> (r: HashMap<StateIdType, SetCoverCEXSample>)
    ensures
        r@ == cex_sample_map(samples@),
        final(all_states)@ == old(all_states)@.union(Set::new(|x: StateIdType| exists|k: int| 0 <= k < samples@.len() && #[trigger] samples@[k].state_id == x)),
{
    let mut m: HashMap<StateIdType, SetCoverCEXSample> = HashMap::new();
    let n = samples.len();
    let ghost a0 = all_states@;
    for i in 0..n
        invariant
            n == samples@.len(),
            m@ == cex_sample_map(samples@.take(i as int)),
            all_states@ == a0.union(Set::new(|x: StateIdType| exists|k: int| 0 <= k < i && #[trigger] samples@[k].state_id == x)),
    {
        let s = &samples[i];
        proof {
            assert(samples@.take(i + 1).drop_last() =~= samples@.take(i as int));
            assert(samples@.take(i + 1).last() == samples@[i as int]);
        }
        let cycle = #[verifier::truncate] (s.and_cycle as u32);
        m.insert(s.state_id, SetCoverCEXSample { state_id: s.state_id, cycle });
        all_states.insert(s.state_id);
        proof {
            assert(all_states@ =~= a0.union(Set::new(|x: StateIdType| exists|k: int| 0 <= k < i + 1 && #[trigger] samples@[k].state_id == x))) by {
                assert forall|x: StateIdType| (exists|k: int| 0 <= k < i + 1 && #[trigger] samples@[k].state_id == x)
                    implies all_states@.contains(x) by {
                    let k = choose|k: int| 0 <= k < i + 1 && #[trigger] samples@[k].state_id == x;
                    if k < i {
                        assert(exists|k2: int| 0 <= k2 < i && #[trigger] samples@[k2].state_id == x);
                    }
                }
            }
        }
    }
    assert(samples@.take(n as int) =~= samples@);
    m
}

fn bex_states_of(samples: &Vec<ContainedState>, all_states: &mut HashSet<StateIdType>) -> (r: HashMap<StateIdType, UnweightedBEXSample>)
    ensures
        r@ == bex_trace_sample_map(samples@),
        final(all_states)@ == old(all_states)@.union(Set::new(|x: StateIdType| exists|k: int| 0 <= k < samples@.len() && #[trigger] samples@[k].state_id == x)),
{
    let mut m: HashMap<StateIdType, UnweightedBEXSample> = HashMap::new();
    let n = samples.len();
    let ghost a0 = all_states@;
    for i in 0..n
        invariant
            n == samples@.len(),
            m@ == bex_trace_sample_map(samples@.take(i as int)),
            all_states@ == a0.union(Set::new(|x: StateIdType| exists|k: int| 0 <= k < i && #[trigger] samples@[k].state_id == x)),
    {
        let s = &samples[i];
        proof {
            assert(samples@.take(i + 1).drop_last() =~= samples@.take(i as int));
            assert(samples@.take(i + 1).last() == samples@[i as int]);
        }
        let cycle = #[verifier::truncate] (s.and_cycle as u32);
        m.insert(s.state_id, UnweightedBEXSample { state_id: s.state_id, cycle });
        all_states.insert(s.state_id);
        proof {
            assert(all_states@ =~= a0.union(Set::new(|x: StateIdType| exists|k: int| 0 <= k < i + 1 && #[trigger] samples@[k].state_id == x))) by {
                assert forall|x: StateIdType| (exists|k: int| 0 <= k < i + 1 && #[trigger] samples@[k].state_id == x)
                    implies all_states@.contains(x) by {
                    let k = choose|k: int| 0 <= k < i + 1 && #[trigger] samples@[k].state_id == x;
                    if k < i {
                        assert(exists|k2: int| 0 <= k2 < i && #[trigger] samples@[k2].state_id == x);
                    }
                }
            }
        }
    }
    assert(samples@.take(n as int) =~= samples@);
    m
}

impl SetCoverInstance {
    /// The instance over the examples of `teacher`: predicate `k` is
    /// `scored_predicates[k]` with the states it covers; the benign samples
    /// by state id (weighted by their occurrence counts, flagged by
    /// `bex_must_not_cover`); counterexample trace `k` of weight 1 and benign
    /// trace `k` of its weight, each with its states by id, a benign trace
    /// that must be fulfilled being one that must not be covered; and all
    /// states the samples and traces hold.
    pub fn new_from_teacher_and_predicates<T: PredicateLike>(
        teacher: &Teacher,
        scored_predicates: &Vec<(BitSetWrapper, T)>,
        bex_must_not_cover: &Vec<bool>,
        formula_score_weights: FormulaScoreWeights,
    ) -> (r: Self)
        requires
            bex_must_not_cover@.len() == teacher.bex_samples@.len(),
        ensures
            r.predicates@.dom() == Set::new(|k: usize| k < scored_predicates@.len()),
            forall|k: usize| #[trigger] r.predicates@.contains_key(k) ==> {
                &&& r.predicates@[k].id == k
                &&& r.predicates@[k].covered_states@ == scored_predicates@[k as int].0@
                &&& r.predicates@[k].predicate.base_predicate@ == scored_predicates@[k as int].1.predicate_view()
            },
            r.bex_samples@ == bex_sample_map(teacher.bex_samples@, bex_must_not_cover@),
            r.cex_traces@.dom() == Set::new(|k: usize| k < teacher.cex_traces@.len()),
            forall|k: usize| #[trigger] r.cex_traces@.contains_key(k) ==> {
                &&& r.cex_traces@[k].id == k
                &&& r.cex_traces@[k].weight == 1
                &&& r.cex_traces@[k].states@ == cex_sample_map(teacher.cex_traces@[k as int].contained_samples@)
                &&& r.cex_traces@[k].from_path == teacher.cex_traces@[k as int].from_path
                &&& r.cex_traces@[k].file_source == teacher.cex_traces@[k as int].file_source
            },
            r.bex_traces@.dom() == Set::new(|k: usize| k < teacher.bex_traces@.len()),
            forall|k: usize| #[trigger] r.bex_traces@.contains_key(k) ==> {
                &&& r.bex_traces@[k].id == k
                &&& r.bex_traces@[k].weight == teacher.bex_traces@[k as int].weight
                &&& r.bex_traces@[k].states@ == bex_trace_sample_map(teacher.bex_traces@[k as int].contained_samples@)
                &&& r.bex_traces@[k].from_path == teacher.bex_traces@[k as int].from_path
                &&& r.bex_traces@[k].file_source == teacher.bex_traces@[k as int].file_source
                &&& r.bex_traces@[k].must_not_cover == (teacher.bex_traces@[k as int].file_source == Some(WaveFormSource::MustFulfill))
            },
            r.all_states@ == bex_sample_map(teacher.bex_samples@, bex_must_not_cover@).dom()
                .union(traces_state_ids(teacher.cex_traces@)).union(traces_state_ids(teacher.bex_traces@)),
            r.formula_score_weights == formula_score_weights,
    {
        let mut predicates: HashMap<usize, SetCoverPredicate> = HashMap::new();
        let np = scored_predicates.len();
        for k in 0..np
            invariant
                np == scored_predicates@.len(),
                predicates@.dom() == Set::new(|j: usize| j < k),
                forall|j: usize| #[trigger] predicates@.contains_key(j) ==> {
                    &&& predicates@[j].id == j
                    &&& predicates@[j].covered_states@ == scored_predicates@[j as int].0@
                    &&& predicates@[j].predicate.base_predicate@ == scored_predicates@[j as int].1.predicate_view()
                },
        {
            let (covered, pred) = &scored_predicates[k];
            predicates.insert(k, SetCoverPredicate { id: k, covered_states: covered.duplicate(), predicate: pred.to_candidate() });
            assert(predicates@.dom() =~= Set::new(|j: usize| j < k + 1));
        }
        let mut bex_samples: HashMap<StateIdType, SetCoverBEXSample> = HashMap::new();
        let ns = teacher.bex_samples.len();
        for j in 0..ns
            invariant
                ns == teacher.bex_samples@.len(),
                bex_must_not_cover@.len() == ns,
                bex_samples@ == bex_sample_map(teacher.bex_samples@.take(j as int), bex_must_not_cover@.take(j as int)),
        {
            let sample = &teacher.bex_samples[j];
            proof {
                let s1 = teacher.bex_samples@.take(j + 1);
                assert(s1.drop_last() =~= teacher.bex_samples@.take(j as int));
                assert(bex_must_not_cover@.take(j + 1).take(j as int) =~= bex_must_not_cover@.take(j as int));
                assert(s1[j as int] == teacher.bex_samples@[j as int]);
            }
            bex_samples.insert(sample.state_id, SetCoverBEXSample {
                state_id: sample.state_id,
                weight: sample.occurrence_count,
                from_path: sample.from_path.clone(),
                must_not_cover: bex_must_not_cover[j],
            });
        }
        assert(teacher.bex_samples@.take(ns as int) =~= teacher.bex_samples@);
        assert(bex_must_not_cover@.take(ns as int) =~= bex_must_not_cover@);
        let mut all_states: HashSet<StateIdType> = HashSet::new();
        let keys = u64_keys(&bex_samples);
        let nk = keys.len();
        for i in 0..nk
            invariant
                nk == keys@.len(),
                all_states@ == keys@.take(i as int).to_set(),
        {
            proof {
                assert(keys@.take(i + 1) =~= keys@.take(i as int).push(keys@[i as int]));
                keys@.take(i as int).lemma_push_to_set_commute(keys@[i as int]);
            }
            all_states.insert(keys[i]);
        }
        assert(keys@.take(nk as int) =~= keys@);
        let ghost base = all_states@;
        let mut cex_traces: HashMap<usize, SetCoverCEXTrace> = HashMap::new();
        let nc = teacher.cex_traces.len();
        for k in 0..nc
            invariant
                nc == teacher.cex_traces@.len(),
                cex_traces@.dom() == Set::new(|j: usize| j < k),
                forall|j: usize| #[trigger] cex_traces@.contains_key(j) ==> {
                    &&& cex_traces@[j].id == j
                    &&& cex_traces@[j].weight == 1
                    &&& cex_traces@[j].states@ == cex_sample_map(teacher.cex_traces@[j as int].contained_samples@)
                    &&& cex_traces@[j].from_path == teacher.cex_traces@[j as int].from_path
                    &&& cex_traces@[j].file_source == teacher.cex_traces@[j as int].file_source
                },
                all_states@ == base.union(traces_state_ids(teacher.cex_traces@.take(k as int))),
        {
            let trace = &teacher.cex_traces[k];
            let ghost a0 = all_states@;
            let states = cex_states_of(&trace.contained_samples, &mut all_states);
            cex_traces.insert(k, SetCoverCEXTrace {
                id: k,
                weight: 1,
                states,
                from_path: trace.from_path.clone(),
                file_source: trace.file_source,
            });
            assert(cex_traces@.dom() =~= Set::new(|j: usize| j < k + 1));
            proof {
                lemma_traces_state_ids_step(teacher.cex_traces@, k as int);
                assert(all_states@ =~= base.union(traces_state_ids(teacher.cex_traces@.take(k + 1))));
            }
        }
        assert(teacher.cex_traces@.take(nc as int) =~= teacher.cex_traces@);
        let ghost base2 = all_states@;
        let mut bex_traces: HashMap<usize, SetCoverBEXTrace> = HashMap::new();
        let nb = teacher.bex_traces.len();
        for k in 0..nb
            invariant
                nb == teacher.bex_traces@.len(),
                bex_traces@.dom() == Set::new(|j: usize| j < k),
                forall|j: usize| #[trigger] bex_traces@.contains_key(j) ==> {
                    &&& bex_traces@[j].id == j
                    &&& bex_traces@[j].weight == teacher.bex_traces@[j as int].weight
                    &&& bex_traces@[j].states@ == bex_trace_sample_map(teacher.bex_traces@[j as int].contained_samples@)
                    &&& bex_traces@[j].from_path == teacher.bex_traces@[j as int].from_path
                    &&& bex_traces@[j].file_source == teacher.bex_traces@[j as int].file_source
                    &&& bex_traces@[j].must_not_cover == (teacher.bex_traces@[j as int].file_source == Some(WaveFormSource::MustFulfill))
                },
                all_states@ == base2.union(traces_state_ids(teacher.bex_traces@.take(k as int))),
        {
            let trace = &teacher.bex_traces[k];
            let states = bex_states_of(&trace.contained_samples, &mut all_states);
            let must = trace.file_source == Some(WaveFormSource::MustFulfill);
            bex_traces.insert(k, SetCoverBEXTrace {
                id: k,
                weight: trace.weight,
                states,
                from_path: trace.from_path.clone(),
                file_source: trace.file_source,
                must_not_cover: must,
            });
            assert(bex_traces@.dom() =~= Set::new(|j: usize| j < k + 1));
            proof {
                lemma_traces_state_ids_step(teacher.bex_traces@, k as int);
                assert(all_states@ =~= base2.union(traces_state_ids(teacher.bex_traces@.take(k + 1))));
            }
        }
        assert(teacher.bex_traces@.take(nb as int) =~= teacher.bex_traces@);
        SetCoverInstance {
            predicates,
            bex_samples,
            cex_traces,
            bex_traces,
            all_states,
            formula_score_weights,
        }
    }
}

proof fn lemma_traces_state_ids_step(ts: Seq<CexTrace>, k: int)
    requires
        0 <= k < ts.len(),
    ensures
        traces_state_ids(ts.take(k + 1)) == traces_state_ids(ts.take(k)).union(
            Set::new(|x: StateIdType| exists|j: int| 0 <= j < ts[k].contained_samples@.len() && #[trigger] ts[k].contained_samples@[j].state_id == x)),
{
    let lhs = traces_state_ids(ts.take(k + 1));
    let rhs = traces_state_ids(ts.take(k)).union(
        Set::new(|x: StateIdType| exists|j: int| 0 <= j < ts[k].contained_samples@.len() && #[trigger] ts[k].contained_samples@[j].state_id == x));
    assert forall|x: StateIdType| lhs.contains(x) implies rhs.contains(x) by {
        let (t, j) = choose|t: int, j: int| 0 <= t < ts.take(k + 1).len() && 0 <= j < ts.take(k + 1)[t].contained_samples@.len()
            && #[trigger] ts.take(k + 1)[t].contained_samples@[j].state_id == x;
        if t < k {
            assert(ts.take(k)[t] == ts.take(k + 1)[t]);
            assert(ts.take(k)[t].contained_samples@[j].state_id == x);
        } else {
            assert(ts.take(k + 1)[t] == ts[k]);
            assert(ts[k].contained_samples@[j].state_id == x);
        }
    }
    assert forall|x: StateIdType| rhs.contains(x) implies lhs.contains(x) by {
        if traces_state_ids(ts.take(k)).contains(x) {
            let (t, j) = choose|t: int, j: int| 0 <= t < ts.take(k).len() && 0 <= j < ts.take(k)[t].contained_samples@.len()
                && #[trigger] ts.take(k)[t].contained_samples@[j].state_id == x;
            assert(ts.take(k + 1)[t] == ts.take(k)[t]);
            assert(ts.take(k + 1)[t].contained_samples@[j].state_id == x);
        } else {
            let j = choose|j: int| 0 <= j < ts[k].contained_samples@.len() && #[trigger] ts[k].contained_samples@[j].state_id == x;
            assert(ts.take(k + 1)[k] == ts[k]);
            assert(ts.take(k + 1)[k].contained_samples@[j].state_id == x);
        }
    }
    assert(lhs =~= rhs);
}

} // verus!
