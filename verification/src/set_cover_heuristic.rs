//! A greedy heuristic for the set-cover instance: starting from all states,
//! it intersects predicates into the intent while that pays off, then keeps
//! tightening until no benign trace that must not be covered meets the intent.

use vstd::prelude::*;
use std::collections::{HashMap, HashSet};
use crate::data_types::general_data_types::{BitSetWrapper, bitset_index_ok};
use crate::set_cover_instance::{SetCoverInstance, SetCoverCEXTrace, SetCoverBEXTrace, SetCoverPredicate, usize_keys};
use crate::set_cover_preprocessing::{set_elems, state_bits_of, state_id_bits, trace_states_indexable, usize_set_elems};

verus! {

broadcast use vstd::std_specs::hash::group_hash_axioms;

/// The predicates the heuristic selected and how the result scores.
#[derive(Debug, Clone)]
pub struct HeuristicResult {
    pub selected_predicates: Vec<usize>,
    pub score: i64,
    pub covered_traces: i64,
    pub b_penalty: i64,
}

/// Two sets of states have a state in common.
pub open spec fn meets(bits: Set<u32>, intent: Set<u32>) -> bool {
    bits.intersect(intent) != Set::<u32>::empty()
}

/// The traces whose states meet the intent.
pub open spec fn traces_met(bits: Map<usize, Set<u32>>, intent: Set<u32>) -> Set<usize> {
    bits.dom().filter(|t: usize| meets(bits[t], intent))
}

/// The state sets of a table of bit sets.
pub open spec fn bits_view(m: Map<usize, BitSetWrapper>) -> Map<usize, Set<u32>> {
    m.map_values(|b: BitSetWrapper| b@)
}

pub open spec fn add_signed(w: Map<usize, i64>) -> spec_fn(int, usize) -> int {
    |acc: int, u: usize| acc + w[u]
}

/// The weights of the ids of `s`, summed.
pub open spec fn weight_of(w: Map<usize, i64>, s: Set<usize>) -> int {
    s.fold(0int, add_signed(w))
}

/// Every id of `s` has a weight, and no weight is negative.
pub open spec fn nonneg_on(w: Map<usize, i64>, s: Set<usize>) -> bool {
    forall|t: usize| #[trigger] s.contains(t) ==> w.contains_key(t) && w[t] >= 0
}

proof fn lemma_add_signed_commutative(w: Map<usize, i64>)
    ensures
        vstd::set::fold::is_fun_commutative(add_signed(w)),
{
    assert forall|a1: usize, a2: usize, b: int| #[trigger] add_signed(w)(add_signed(w)(b, a1), a2)
        == add_signed(w)(add_signed(w)(b, a2), a1) by {
    }
}

proof fn lemma_weight_of_empty(w: Map<usize, i64>)
    ensures
        weight_of(w, Set::empty()) == 0,
{
    vstd::set::fold::lemma_fold_empty(0int, add_signed(w));
}

proof fn lemma_weight_of_insert(w: Map<usize, i64>, s: Set<usize>, t: usize)
    requires
        s.finite(),
        !s.contains(t),
    ensures
        weight_of(w, s.insert(t)) == weight_of(w, s) + w[t],
{
    lemma_add_signed_commutative(w);
    vstd::set::fold::lemma_fold_insert(s, 0int, add_signed(w), t);
}

/// On weights that are not negative, a subset weighs no more than its superset.
proof fn lemma_weight_of_subset(w: Map<usize, i64>, s: Set<usize>, t: Set<usize>)
    requires
        t.finite(),
        s.subset_of(t),
        nonneg_on(w, t),
    ensures
        s.finite(),
        0 <= weight_of(w, s) <= weight_of(w, t),
    decreases t.len(),
{
    vstd::set_lib::lemma_len_subset(s, t);
    if t.len() == 0 {
        assert(t =~= Set::<usize>::empty());
        assert(s =~= Set::<usize>::empty());
        lemma_weight_of_empty(w);
    } else {
        let x = t.choose();
        let t2 = t.remove(x);
        assert(t2.insert(x) =~= t);
        lemma_weight_of_insert(w, t2, x);
        assert(nonneg_on(w, t2));
        if s.contains(x) {
            let s2 = s.remove(x);
            assert(s2.insert(x) =~= s);
            lemma_weight_of_subset(w, s2, t2);
            lemma_weight_of_insert(w, s2, x);
        } else {
            lemma_weight_of_subset(w, s, t2);
        }
    }
}

/// A multiple of a subset's weight is at most the multiple of its superset's.
proof fn lemma_scaled_subset(w: Map<usize, i64>, s: Set<usize>, t: Set<usize>, m: int)
    requires
        t.finite(),
        s.subset_of(t),
        nonneg_on(w, t),
        m >= 0,
    ensures
        0 <= m * weight_of(w, s) <= m * weight_of(w, t),
        weight_of(w, s) * m == m * weight_of(w, s),
{
    lemma_weight_of_subset(w, s, t);
    let a = weight_of(w, s);
    let b = weight_of(w, t);
    assert(0 <= m * a <= m * b && a * m == m * a) by (nonlinear_arith)
        requires
            0 <= a <= b,
            m >= 0,
    ;
}

/// The weights of the ids, summed.
fn weight_sum(ids: &Vec<usize>, w: &HashMap<usize, i64>) -> (r: i64)
    requires
        ids@.no_duplicates(),
        nonneg_on(w@, ids@.to_set()),
        weight_of(w@, ids@.to_set()) <= i64::MAX,
    ensures
        r == weight_of(w@, ids@.to_set()),
{
    let n = ids.len();
    let mut acc: i64 = 0;
    proof {
        assert(ids@.take(0).to_set() =~= Set::<usize>::empty());
        lemma_weight_of_empty(w@);
        vstd::seq_lib::seq_to_set_is_finite(ids@);
    }
    for i in 0..n
        invariant
            n == ids@.len(),
            ids@.no_duplicates(),
            nonneg_on(w@, ids@.to_set()),
            weight_of(w@, ids@.to_set()) <= i64::MAX,
            ids@.to_set().finite(),
            acc == weight_of(w@, ids@.take(i as int).to_set()),
    {
        let t = ids[i];
        proof {
            let s0 = ids@.take(i as int);
            let s1 = ids@.take(i + 1);
            assert(s1 =~= s0.push(t));
            s0.lemma_push_to_set_commute(t);
            vstd::seq_lib::seq_to_set_is_finite(s0);
            assert(!s0.to_set().contains(t)) by {
                if s0.to_set().contains(t) {
                    let k = choose|k: int| 0 <= k < s0.len() && s0[k] == t;
                    assert(ids@[k] == ids@[i as int]);
                }
            }
            lemma_weight_of_insert(w@, s0.to_set(), t);
            assert(ids@.to_set().contains(t));
            assert forall|x: usize| s1.to_set().contains(x) implies ids@.to_set().contains(x) by {
                let k = choose|k: int| 0 <= k < s1.len() && s1[k] == x;
                assert(ids@[k] == x);
            }
            lemma_weight_of_subset(w@, s1.to_set(), ids@.to_set());
        }
        acc = acc + *w.get(&t).unwrap();
    }
    assert(ids@.take(n as int) =~= ids@);
    acc
}

/// Whether the two sets of states have a state in common.
fn sets_meet(bits: &BitSetWrapper, intent: &BitSetWrapper) -> (r: bool)
    ensures
        r == meets(bits@, intent@),
{
    !bits.intersection(intent).is_empty()
}

/// The ids of `ids` whose states meet the intent, or miss it, as `meeting` says,
/// leaving out those of `skip`.
fn select_traces(
    bits: &HashMap<usize, BitSetWrapper>,
    ids: &Vec<usize>,
    intent: &BitSetWrapper,
    meeting: bool,
    skip: &HashSet<usize>,
) -> (r: Vec<usize>)
    requires
        ids@.no_duplicates(),
        forall|t: usize| #[trigger] ids@.to_set().contains(t) ==> bits@.contains_key(t),
    ensures
        r@.no_duplicates(),
        r@.to_set() == ids@.to_set().filter(|t: usize| !skip@.contains(t) && meets(bits@[t]@, intent@) == meeting),
{
    let n = ids.len();
    let mut r: Vec<usize> = Vec::new();
    for i in 0..n
        invariant
            n == ids@.len(),
            ids@.no_duplicates(),
            forall|t: usize| #[trigger] ids@.to_set().contains(t) ==> bits@.contains_key(t),
            r@.no_duplicates(),
            r@.to_set() == ids@.take(i as int).to_set().filter(|t: usize| !skip@.contains(t) && meets(bits@[t]@, intent@) == meeting),
    {
        let t = ids[i];
        let ghost r0 = r@;
        let ghost s0 = ids@.take(i as int);
        proof {
            assert(ids@.take(i + 1) =~= s0.push(t));
            s0.lemma_push_to_set_commute(t);
            assert(ids@.to_set().contains(t));
        }
        if !skip.contains(&t) && sets_meet(bits.get(&t).unwrap(), intent) == meeting {
            proof {
                assert(!r0.to_set().contains(t)) by {
                    if r0.to_set().contains(t) {
                        assert(s0.to_set().contains(t));
                        let k = choose|k: int| 0 <= k < s0.len() && s0[k] == t;
                        assert(ids@[k] == ids@[i as int]);
                    }
                }
            }
            r.push(t);
            proof {
                assert forall|a: int, b: int| 0 <= a < r@.len() && 0 <= b < r@.len() && a != b implies r@[a] != r@[b] by {
                    if a < r0.len() && b < r0.len() {
                        assert(r0[a] != r0[b]);
                    } else if a < r0.len() {
                        assert(r0.to_set().contains(r0[a]));
                    } else if b < r0.len() {
                        assert(r0.to_set().contains(r0[b]));
                    }
                }
                assert(r@ =~= r0.push(t));
                r0.lemma_push_to_set_commute(t);
            }
        }
        assert(r@.to_set() =~= ids@.take(i + 1).to_set().filter(|t: usize| !skip@.contains(t) && meets(bits@[t]@, intent@) == meeting));
    }
    assert(ids@.take(n as int) =~= ids@);
    r
}

/// Recomputes which traces the intent covers and the coverage part of the
/// score: the weights of the covered counterexample traces less the scaled
/// weights of the covered benign traces.
fn recompute_from_currently_covered(
    cex_trace_states: &HashMap<usize, BitSetWrapper>,
    bex_trace_states: &HashMap<usize, BitSetWrapper>,
    cex_weights: &HashMap<usize, i64>,
    bex_weights: &HashMap<usize, i64>,
    bex_multiplier: i64,
    currently_covered: &BitSetWrapper,
    covered_cex: &mut HashSet<usize>,
    covered_bex_traces: &mut HashSet<usize>,
    score_coverage_component: &mut i64,
)
    requires
        nonneg_on(cex_weights@, cex_trace_states@.dom()),
        nonneg_on(bex_weights@, bex_trace_states@.dom()),
        bex_multiplier >= 0,
        weight_of(bex_weights@, bex_trace_states@.dom()) <= i64::MAX,
        weight_of(cex_weights@, cex_trace_states@.dom()) + bex_multiplier * weight_of(bex_weights@, bex_trace_states@.dom()) <= i64::MAX,
    ensures
        final(covered_cex)@ == traces_met(bits_view(cex_trace_states@), currently_covered@),
        final(covered_bex_traces)@ == traces_met(bits_view(bex_trace_states@), currently_covered@),
        *final(score_coverage_component) == weight_of(cex_weights@, final(covered_cex)@)
            - bex_multiplier * weight_of(bex_weights@, final(covered_bex_traces)@),
{
    covered_cex.clear();
    covered_bex_traces.clear();
    let none: HashSet<usize> = HashSet::new();
    let cids = usize_keys(cex_trace_states);
    let met_cex = select_traces(cex_trace_states, &cids, currently_covered, true, &none);
    let bids = usize_keys(bex_trace_states);
    let met_bex = select_traces(bex_trace_states, &bids, currently_covered, true, &none);
    let ghost cbits = bits_view(cex_trace_states@);
    let ghost bbits = bits_view(bex_trace_states@);
    assert(met_cex@.to_set() =~= traces_met(cbits, currently_covered@));
    assert(met_bex@.to_set() =~= traces_met(bbits, currently_covered@));
    let n = met_cex.len();
    for i in 0..n
        invariant
            n == met_cex@.len(),
            covered_cex@ == met_cex@.take(i as int).to_set(),
    {
        proof {
            assert(met_cex@.take(i + 1) =~= met_cex@.take(i as int).push(met_cex@[i as int]));
            met_cex@.take(i as int).lemma_push_to_set_commute(met_cex@[i as int]);
        }
        covered_cex.insert(met_cex[i]);
    }
    assert(met_cex@.take(n as int) =~= met_cex@);
    let m = met_bex.len();
    for i in 0..m
        invariant
            m == met_bex@.len(),
            covered_bex_traces@ == met_bex@.take(i as int).to_set(),
    {
        proof {
            assert(met_bex@.take(i + 1) =~= met_bex@.take(i as int).push(met_bex@[i as int]));
            met_bex@.take(i as int).lemma_push_to_set_commute(met_bex@[i as int]);
        }
        covered_bex_traces.insert(met_bex[i]);
    }
    assert(met_bex@.take(m as int) =~= met_bex@);
    proof {
        lemma_weight_of_subset(cex_weights@, met_cex@.to_set(), cex_trace_states@.dom());
        lemma_scaled_subset(bex_weights@, met_bex@.to_set(), bex_trace_states@.dom(), bex_multiplier as int);
        lemma_weight_of_subset(bex_weights@, met_bex@.to_set(), bex_trace_states@.dom());
    }
    let cex_sum = weight_sum(&met_cex, cex_weights);
    let bex_sum = weight_sum(&met_bex, bex_weights);
    *score_coverage_component = cex_sum - bex_sum * bex_multiplier;
}

/// The covered traces, other than those of `skip`, whose states miss the intent.
pub open spec fn lost_traces(bits: Map<usize, Set<u32>>, covered: Set<usize>, skip: Set<usize>, intent: Set<u32>) -> Set<usize> {
    covered.filter(|t: usize| !skip.contains(t) && !meets(bits[t], intent))
}

/// A covered required trace would no longer meet the intent.
pub open spec fn loses_required(bits: Map<usize, Set<u32>>, covered: Set<usize>, required: Set<usize>, intent: Set<u32>) -> bool {
    exists|t: usize| #[trigger] required.contains(t) && covered.contains(t) && !meets(bits[t], intent)
}

/// Tightening the intent to `next` keeps states and every covered required trace.
pub open spec fn viable_step(cbits: Map<usize, Set<u32>>, covered_cex: Set<usize>, required: Set<usize>, next: Set<u32>) -> bool {
    next != Set::<u32>::empty() && !loses_required(cbits, covered_cex, required, next)
}

/// The gain of tightening the intent to `next` at cost `cost`: the scaled
/// weights of the covered benign traces it frees, less the weights of the
/// covered counterexample traces (other than required ones) it loses, less
/// the cost.
pub open spec fn step_gain(
    cbits: Map<usize, Set<u32>>,
    bbits: Map<usize, Set<u32>>,
    cex_weights: Map<usize, i64>,
    bex_weights: Map<usize, i64>,
    bex_multiplier: i64,
    covered_cex: Set<usize>,
    covered_bex: Set<usize>,
    required: Set<usize>,
    next: Set<u32>,
    cost: i64,
) -> int {
    bex_multiplier * weight_of(bex_weights, lost_traces(bbits, covered_bex, Set::empty(), next))
        - weight_of(cex_weights, lost_traces(cbits, covered_cex, required, next)) - cost
}

/// What tightening the intent with predicate `pid` gains: the scaled weights
/// of the covered benign traces that the tighter intent no longer meets, less
/// the weights of the covered counterexample traces (other than required
/// ones) that it no longer meets, less the predicate's cost. `None` where the
/// tighter intent is empty or would lose a covered required trace.
fn eval_gain(
    instance: &SetCoverInstance,
    cex_trace_states: &HashMap<usize, BitSetWrapper>,
    bex_trace_states: &HashMap<usize, BitSetWrapper>,
    cex_weights: &HashMap<usize, i64>,
    bex_weights: &HashMap<usize, i64>,
    bex_multiplier: i64,
    covered_cex: &HashSet<usize>,
    covered_bex: &HashSet<usize>,
    currently_covered: &BitSetWrapper,
    pid: usize,
    required_ids: &HashSet<usize>,
    predicate_cost: i64,
) -> (r: Option<(i64, BitSetWrapper)>)
    requires
        instance.predicates@.contains_key(pid),
        covered_cex@.subset_of(cex_trace_states@.dom()),
        covered_bex@.subset_of(bex_trace_states@.dom()),
        nonneg_on(cex_weights@, cex_trace_states@.dom()),
        nonneg_on(bex_weights@, bex_trace_states@.dom()),
        bex_multiplier >= 0,
        weight_of(bex_weights@, bex_trace_states@.dom()) <= i64::MAX,
        0 <= predicate_cost,
        weight_of(cex_weights@, cex_trace_states@.dom()) + bex_multiplier * weight_of(bex_weights@, bex_trace_states@.dom())
            + predicate_cost <= i64::MAX,
    ensures
        ({
            let next = currently_covered@.intersect(instance.predicates@[pid].covered_states@);
            let cbits = bits_view(cex_trace_states@);
            let bbits = bits_view(bex_trace_states@);
            &&& r is Some <==> viable_step(cbits, covered_cex@, required_ids@, next)
            &&& match r {
                Some((gain, tighter)) => {
                    &&& tighter@ == next
                    &&& gain == step_gain(cbits, bbits, cex_weights@, bex_weights@, bex_multiplier, covered_cex@,
                        covered_bex@, required_ids@, next, predicate_cost)
                    &&& gain > i64::MIN
                },
                None => true,
            }
        }),
{
    let ghost cbits = bits_view(cex_trace_states@);
    let ghost bbits = bits_view(bex_trace_states@);
    let predicate = instance.predicates.get(&pid).unwrap();
    let next_covered = currently_covered.intersection(&predicate.covered_states);
    if next_covered.is_empty() {
        return None;
    }
    let req = usize_set_elems(required_ids);
    let nr = req.len();
    for i in 0..nr
        invariant
            nr == req@.len(),
            req@.to_set() == required_ids@,
            cbits == bits_view(cex_trace_states@),
            instance.predicates@.contains_key(pid),
            next_covered@ == currently_covered@.intersect(instance.predicates@[pid].covered_states@),
            covered_cex@.subset_of(cex_trace_states@.dom()),
            forall|k: int| 0 <= k < i ==> !(covered_cex@.contains(#[trigger] req@[k]) && !meets(cbits[req@[k]], next_covered@)),
    {
        let t = req[i];
        if covered_cex.contains(&t) {
            if !sets_meet(cex_trace_states.get(&t).unwrap(), &next_covered) {
                proof {
                    assert(req@.to_set().contains(t));
                    assert(required_ids@.contains(t) && covered_cex@.contains(t) && !meets(cbits[t], next_covered@));
                    assert(loses_required(cbits, covered_cex@, required_ids@, next_covered@));
                }
                return None;
            }
        }
    }
    proof {
        assert(!loses_required(cbits, covered_cex@, required_ids@, next_covered@)) by {
            if loses_required(cbits, covered_cex@, required_ids@, next_covered@) {
                let t = choose|t: usize| #[trigger] required_ids@.contains(t) && covered_cex@.contains(t) && !meets(cbits[t], next_covered@);
                assert(req@.to_set().contains(t));
                let k = choose|k: int| 0 <= k < req@.len() && req@[k] == t;
                assert(!(covered_cex@.contains(req@[k]) && !meets(cbits[req@[k]], next_covered@)));
            }
        }
    }
    let cov = usize_set_elems(covered_cex);
    let lost_cex = select_traces(cex_trace_states, &cov, &next_covered, false, required_ids);
    let none: HashSet<usize> = HashSet::new();
    let covb = usize_set_elems(covered_bex);
    let lost_bex = select_traces(bex_trace_states, &covb, &next_covered, false, &none);
    proof {
        assert(lost_cex@.to_set() =~= lost_traces(cbits, covered_cex@, required_ids@, next_covered@));
        assert(lost_bex@.to_set() =~= lost_traces(bbits, covered_bex@, Set::empty(), next_covered@));
        lemma_weight_of_subset(cex_weights@, lost_cex@.to_set(), cex_trace_states@.dom());
        lemma_weight_of_subset(bex_weights@, lost_bex@.to_set(), bex_trace_states@.dom());
        lemma_scaled_subset(bex_weights@, lost_bex@.to_set(), bex_trace_states@.dom(), bex_multiplier as int);
    }
    let cex_loss = weight_sum(&lost_cex, cex_weights);
    let bex_avoided = weight_sum(&lost_bex, bex_weights) * bex_multiplier;
    let mut gain: i64 = 0;
    gain = gain - cex_loss;
    gain = gain + bex_avoided;
    gain = gain - predicate_cost;
    Some((gain, next_covered))
}

/// The states of each counterexample trace, as bits.
pub open spec fn cex_bits_map(inst: &SetCoverInstance) -> Map<usize, Set<u32>> {
    inst.cex_traces@.map_values(|t: SetCoverCEXTrace| state_id_bits(t.states@))
}

/// The states of each benign trace, as bits.
pub open spec fn bex_bits_map(inst: &SetCoverInstance) -> Map<usize, Set<u32>> {
    inst.bex_traces@.map_values(|t: SetCoverBEXTrace| state_id_bits(t.states@))
}

/// The weight of each counterexample trace.
pub open spec fn cex_trace_weights(inst: &SetCoverInstance) -> Map<usize, i64> {
    inst.cex_traces@.map_values(|t: SetCoverCEXTrace| t.weight as i64)
}

/// The weight of each benign trace.
pub open spec fn bex_trace_weights(inst: &SetCoverInstance) -> Map<usize, i64> {
    inst.bex_traces@.map_values(|t: SetCoverBEXTrace| t.weight as i64)
}

/// All states of the instance, as bits.
pub open spec fn all_state_bits(inst: &SetCoverInstance) -> Set<u32> {
    Set::new(|x: u32| exists|s: u64| #[trigger] inst.all_states@.contains(s) && s as u32 == x)
}

/// The states of `base` that every predicate of `sel` covers.
pub open spec fn intent_of(base: Set<u32>, preds: Map<usize, SetCoverPredicate>, sel: Set<usize>) -> Set<u32> {
    base.filter(|x: u32| forall|p: usize| #[trigger] sel.contains(p) ==> preds[p].covered_states@.contains(x))
}

/// The benign traces that must not be covered and are.
pub open spec fn must_not_met(inst: &SetCoverInstance, covered_bex: Set<usize>) -> Set<usize> {
    inst.bex_traces@.dom().filter(|b: usize| inst.bex_traces@[b].must_not_cover && covered_bex.contains(b))
}

/// What the heuristic needs: state ids that bit sets hold, weights that fit,
/// a cost for each predicate, and totals that fit in the score.
pub open spec fn heuristic_ready(
    inst: &SetCoverInstance,
    bex_multiplier: i64,
    gain_costs: Map<usize, i64>,
    final_costs: Map<usize, i64>,
) -> bool {
    let preds = inst.predicates@.dom();
    &&& bex_multiplier >= 0
    &&& forall|t: usize| #[trigger] inst.cex_traces@.contains_key(t) ==> trace_states_indexable(inst.cex_traces@[t].states@)
        && inst.cex_traces@[t].weight <= i64::MAX
    &&& forall|t: usize| #[trigger] inst.bex_traces@.contains_key(t) ==> trace_states_indexable(inst.bex_traces@[t].states@)
        && inst.bex_traces@[t].weight <= i64::MAX
    &&& forall|s: u64| #[trigger] inst.all_states@.contains(s) ==> bitset_index_ok(s as u32)
    &&& nonneg_on(gain_costs, preds)
    &&& nonneg_on(final_costs, preds)
    &&& weight_of(bex_trace_weights(inst), inst.bex_traces@.dom()) <= i64::MAX
    &&& weight_of(cex_trace_weights(inst), inst.cex_traces@.dom())
        + bex_multiplier * weight_of(bex_trace_weights(inst), inst.bex_traces@.dom())
        + weight_of(gain_costs, preds) + weight_of(final_costs, preds) <= i64::MAX
}

/// No predicate outside `sel` offers a viable tightening of `intent` with a
/// positive gain (at its cost in `gain_costs`).
pub open spec fn no_gainful_step(
    inst: &SetCoverInstance,
    required: Set<usize>,
    bex_multiplier: i64,
    gain_costs: Map<usize, i64>,
    sel: Set<usize>,
    intent: Set<u32>,
) -> bool {
    let covered_cex = traces_met(cex_bits_map(inst), intent);
    let covered_bex = traces_met(bex_bits_map(inst), intent);
    forall|q: usize| #[trigger] inst.predicates@.contains_key(q) && !sel.contains(q)
        && viable_step(cex_bits_map(inst), covered_cex, required, intent.intersect(inst.predicates@[q].covered_states@))
        ==> step_gain(cex_bits_map(inst), bex_bits_map(inst), cex_trace_weights(inst), bex_trace_weights(inst),
            bex_multiplier, covered_cex, covered_bex, required,
            intent.intersect(inst.predicates@[q].covered_states@), gain_costs[q]) <= 0
}

/// No predicate tightens `intent` into a non-empty intent that keeps every
/// covered required trace and frees a covered benign trace that must not be
/// covered.
pub open spec fn no_repair(inst: &SetCoverInstance, required: Set<usize>, intent: Set<u32>) -> bool {
    let cbits = cex_bits_map(inst);
    let bbits = bex_bits_map(inst);
    forall|q: usize| #[trigger] inst.predicates@.contains_key(q) ==> !(
        viable_step(cbits, traces_met(cbits, intent), required, intent.intersect(inst.predicates@[q].covered_states@))
        && exists|b: usize| #[trigger] inst.bex_traces@.contains_key(b) && inst.bex_traces@[b].must_not_cover
            && meets(bbits[b], intent) && !meets(bbits[b], intent.intersect(inst.predicates@[q].covered_states@)))
}

/// The greedy search got stuck: a selection whose intent keeps every
/// required trace that all states meet and still meets a benign trace that
/// must not be covered, and that no predicate can repair.
pub open spec fn stuck_selection(inst: &SetCoverInstance, required: Set<usize>, sel: Set<usize>) -> bool {
    let intent = intent_of(all_state_bits(inst), inst.predicates@, sel);
    &&& sel.subset_of(inst.predicates@.dom())
    &&& forall|t: usize| #[trigger] required.contains(t) && inst.cex_traces@.contains_key(t)
        && meets(cex_bits_map(inst)[t], all_state_bits(inst)) ==> meets(cex_bits_map(inst)[t], intent)
    &&& exists|b: usize| #[trigger] inst.bex_traces@.contains_key(b) && inst.bex_traces@[b].must_not_cover
        && meets(bex_bits_map(inst)[b], intent)
    &&& no_repair(inst, required, intent)
}

/// The intent of a result: what its predicates leave of all states.
pub open spec fn result_intent(inst: &SetCoverInstance, res: HeuristicResult) -> Set<u32> {
    intent_of(all_state_bits(inst), inst.predicates@, res.selected_predicates@.to_set())
}

/// What a result of the heuristic satisfies: its predicates, all different,
/// cut the states down to an intent that meets no benign trace that must not
/// be covered and still meets each required trace that all states meet; its
/// scores are those of that intent.
pub open spec fn heuristic_result_ok(
    inst: &SetCoverInstance,
    required: Set<usize>,
    bex_multiplier: i64,
    final_costs: Map<usize, i64>,
    res: HeuristicResult,
) -> bool {
    let sel = res.selected_predicates@.to_set();
    let base = all_state_bits(inst);
    let intent = intent_of(base, inst.predicates@, sel);
    &&& res.selected_predicates@.no_duplicates()
    &&& sel.subset_of(inst.predicates@.dom())
    &&& forall|b: usize| #[trigger] inst.bex_traces@.contains_key(b) && inst.bex_traces@[b].must_not_cover
        ==> !meets(bex_bits_map(inst)[b], intent)
    &&& forall|t: usize| #[trigger] required.contains(t) && inst.cex_traces@.contains_key(t) && meets(cex_bits_map(inst)[t], base)
        ==> meets(cex_bits_map(inst)[t], intent)
    &&& res.covered_traces == weight_of(cex_trace_weights(inst), traces_met(cex_bits_map(inst), intent))
    &&& res.b_penalty == weight_of(bex_trace_weights(inst), traces_met(bex_bits_map(inst), intent))
    &&& res.score == res.covered_traces - res.b_penalty * bex_multiplier - weight_of(final_costs, sel)
}

/// The search state: the intent is what the selected predicates leave of all
/// states, the covered traces are those it meets, and every required trace
/// that all states meet it meets too.
pub open spec fn search_state(
    inst: &SetCoverInstance,
    required: Set<usize>,
    intent: Set<u32>,
    sel: Set<usize>,
    covered_cex: Set<usize>,
    covered_bex: Set<usize>,
) -> bool {
    &&& sel.subset_of(inst.predicates@.dom())
    &&& intent == intent_of(all_state_bits(inst), inst.predicates@, sel)
    &&& covered_cex == traces_met(cex_bits_map(inst), intent)
    &&& covered_bex == traces_met(bex_bits_map(inst), intent)
    &&& forall|t: usize| #[trigger] required.contains(t) && inst.cex_traces@.contains_key(t)
        && meets(cex_bits_map(inst)[t], all_state_bits(inst)) ==> meets(cex_bits_map(inst)[t], intent)
}

proof fn lemma_intent_step(base: Set<u32>, preds: Map<usize, SetCoverPredicate>, sel: Set<usize>, p: usize)
    ensures
        intent_of(base, preds, sel.insert(p)) == intent_of(base, preds, sel).intersect(preds[p].covered_states@),
{
    let lhs = intent_of(base, preds, sel.insert(p));
    let rhs = intent_of(base, preds, sel).intersect(preds[p].covered_states@);
    assert forall|x: u32| rhs.contains(x) implies lhs.contains(x) by {
        assert forall|q: usize| #[trigger] sel.insert(p).contains(q) implies preds[q].covered_states@.contains(x) by {
            if q != p {
                assert(sel.contains(q));
            }
        }
    }
    assert forall|x: u32| lhs.contains(x) implies rhs.contains(x) by {
        assert(sel.insert(p).contains(p));
        assert forall|q: usize| #[trigger] sel.contains(q) implies preds[q].covered_states@.contains(x) by {
            assert(sel.insert(p).contains(q));
        }
    }
    assert(lhs =~= rhs);
}

proof fn lemma_weight_of_single(w: Map<usize, i64>, s: Set<usize>, p: usize)
    requires
        s.finite(),
        s.contains(p),
        nonneg_on(w, s),
    ensures
        0 <= w[p] <= weight_of(w, s),
{
    lemma_weight_of_empty(w);
    lemma_weight_of_insert(w, Set::empty(), p);
    lemma_weight_of_subset(w, Set::empty().insert(p), s);
}

/// The bits and weights of the counterexample traces.
fn cex_tables(inst: &SetCoverInstance) -> (r: (HashMap<usize, BitSetWrapper>, HashMap<usize, i64>))
    requires
        forall|t: usize| #[trigger] inst.cex_traces@.contains_key(t) ==> trace_states_indexable(inst.cex_traces@[t].states@)
            && inst.cex_traces@[t].weight <= i64::MAX,
    ensures
        bits_view(r.0@) == cex_bits_map(inst),
        r.1@ == cex_trace_weights(inst),
{
    let keys = usize_keys(&inst.cex_traces);
    let n = keys.len();
    let mut bits: HashMap<usize, BitSetWrapper> = HashMap::new();
    let mut weights: HashMap<usize, i64> = HashMap::new();
    for i in 0..n
        invariant
            n == keys@.len(),
            keys@.to_set() == inst.cex_traces@.dom(),
            forall|t: usize| #[trigger] inst.cex_traces@.contains_key(t) ==> trace_states_indexable(inst.cex_traces@[t].states@)
                && inst.cex_traces@[t].weight <= i64::MAX,
            bits@.dom() == keys@.take(i as int).to_set(),
            weights@.dom() == keys@.take(i as int).to_set(),
            forall|t: usize| #[trigger] bits@.contains_key(t) ==> bits@[t]@ == state_id_bits(inst.cex_traces@[t].states@)
                && weights@[t] == inst.cex_traces@[t].weight as i64,
    {
        let t = keys[i];
        assert(keys@.to_set().contains(t));
        let tr = inst.cex_traces.get(&t).unwrap();
        bits.insert(t, state_bits_of(&tr.states));
        weights.insert(t, tr.weight as i64);
        proof {
            assert(keys@.take(i + 1) =~= keys@.take(i as int).push(t));
            keys@.take(i as int).lemma_push_to_set_commute(t);
        }
        assert(bits@.dom() =~= keys@.take(i + 1).to_set());
        assert(weights@.dom() =~= keys@.take(i + 1).to_set());
    }
    assert(keys@.take(n as int) =~= keys@);
    assert(bits_view(bits@) =~= cex_bits_map(inst));
    assert(weights@ =~= cex_trace_weights(inst));
    (bits, weights)
}

/// The bits and weights of the benign traces.
fn bex_tables(inst: &SetCoverInstance) -> (r: (HashMap<usize, BitSetWrapper>, HashMap<usize, i64>))
    requires
        forall|t: usize| #[trigger] inst.bex_traces@.contains_key(t) ==> trace_states_indexable(inst.bex_traces@[t].states@)
            && inst.bex_traces@[t].weight <= i64::MAX,
    ensures
        bits_view(r.0@) == bex_bits_map(inst),
        r.1@ == bex_trace_weights(inst),
{
    let keys = usize_keys(&inst.bex_traces);
    let n = keys.len();
    let mut bits: HashMap<usize, BitSetWrapper> = HashMap::new();
    let mut weights: HashMap<usize, i64> = HashMap::new();
    for i in 0..n
        invariant
            n == keys@.len(),
            keys@.to_set() == inst.bex_traces@.dom(),
            forall|t: usize| #[trigger] inst.bex_traces@.contains_key(t) ==> trace_states_indexable(inst.bex_traces@[t].states@)
                && inst.bex_traces@[t].weight <= i64::MAX,
            bits@.dom() == keys@.take(i as int).to_set(),
            weights@.dom() == keys@.take(i as int).to_set(),
            forall|t: usize| #[trigger] bits@.contains_key(t) ==> bits@[t]@ == state_id_bits(inst.bex_traces@[t].states@)
                && weights@[t] == inst.bex_traces@[t].weight as i64,
    {
        let t = keys[i];
        assert(keys@.to_set().contains(t));
        let tr = inst.bex_traces.get(&t).unwrap();
        bits.insert(t, state_bits_of(&tr.states));
        weights.insert(t, tr.weight as i64);
        proof {
            assert(keys@.take(i + 1) =~= keys@.take(i as int).push(t));
            keys@.take(i as int).lemma_push_to_set_commute(t);
        }
        assert(bits@.dom() =~= keys@.take(i + 1).to_set());
        assert(weights@.dom() =~= keys@.take(i + 1).to_set());
    }
    assert(keys@.take(n as int) =~= keys@);
    assert(bits_view(bits@) =~= bex_bits_map(inst));
    assert(weights@ =~= bex_trace_weights(inst));
    (bits, weights)
}

/// All states of the instance, as a bit set.
fn all_states_bits(inst: &SetCoverInstance) -> (r: BitSetWrapper)
    requires
        forall|s: u64| #[trigger] inst.all_states@.contains(s) ==> bitset_index_ok(s as u32),
    ensures
        r@ == all_state_bits(inst),
{
    let ks = set_elems(&inst.all_states);
    let n = ks.len();
    let mut r = BitSetWrapper::new();
    for i in 0..n
        invariant
            n == ks@.len(),
            ks@.to_set() == inst.all_states@,
            forall|s: u64| #[trigger] inst.all_states@.contains(s) ==> bitset_index_ok(s as u32),
            forall|x: u32| r@.contains(x) <==> exists|k: int| 0 <= k < i && #[trigger] ks@[k] as u32 == x,
    {
        let sid = ks[i];
        assert(ks@.to_set().contains(sid));
        let ghost r0 = r@;
        r.insert(sid as u32);
        proof {
            assert forall|x: u32| r@.contains(x) <==> exists|k: int| 0 <= k < i + 1 && #[trigger] ks@[k] as u32 == x by {
                if r@.contains(x) {
                    if x == sid as u32 {
                        assert(ks@[i as int] as u32 == x);
                    } else {
                        assert(r0.contains(x));
                        let k = choose|k: int| 0 <= k < i && #[trigger] ks@[k] as u32 == x;
                        assert(0 <= k < i + 1 && ks@[k] as u32 == x);
                    }
                }
                if exists|k: int| 0 <= k < i + 1 && #[trigger] ks@[k] as u32 == x {
                    let k = choose|k: int| 0 <= k < i + 1 && #[trigger] ks@[k] as u32 == x;
                    if k < i {
                        assert(exists|k2: int| 0 <= k2 < i && #[trigger] ks@[k2] as u32 == x);
                        assert(r0.contains(x));
                    }
                }
            }
        }
    }
    proof {
        assert forall|x: u32| r@.contains(x) <==> all_state_bits(inst).contains(x) by {
            if r@.contains(x) {
                let k = choose|k: int| 0 <= k < n && #[trigger] ks@[k] as u32 == x;
                assert(ks@.to_set().contains(ks@[k]));
            }
            if all_state_bits(inst).contains(x) {
                let s = choose|s: u64| #[trigger] inst.all_states@.contains(s) && s as u32 == x;
                assert(ks@.to_set().contains(s));
                let k = choose|k: int| 0 <= k < ks@.len() && ks@[k] == s;
                assert(ks@[k] as u32 == x);
            }
        }
        assert(r@ =~= all_state_bits(inst));
    }
    r
}

/// What the candidate searches know of the tables and weights.
pub open spec fn tables_ready(
    cex_trace_states: Map<usize, BitSetWrapper>,
    bex_trace_states: Map<usize, BitSetWrapper>,
    cex_weights: Map<usize, i64>,
    bex_weights: Map<usize, i64>,
    bex_multiplier: i64,
    preds: Set<usize>,
    gain_costs: Map<usize, i64>,
) -> bool {
    &&& nonneg_on(cex_weights, cex_trace_states.dom())
    &&& nonneg_on(bex_weights, bex_trace_states.dom())
    &&& bex_multiplier >= 0
    &&& weight_of(bex_weights, bex_trace_states.dom()) <= i64::MAX
    &&& forall|p: usize| #[trigger] preds.contains(p) ==> gain_costs.contains_key(p) && 0 <= gain_costs[p]
        && weight_of(cex_weights, cex_trace_states.dom()) + bex_multiplier * weight_of(bex_weights, bex_trace_states.dom())
            + gain_costs[p] <= i64::MAX
}

/// Among the predicates not yet selected whose tightening keeps a non-empty
/// intent and every covered required trace, the one of highest gain (the
/// first found among equal gains), with its gain and the tighter intent.
fn best_tightening(
    instance: &SetCoverInstance,
    cex_trace_states: &HashMap<usize, BitSetWrapper>,
    bex_trace_states: &HashMap<usize, BitSetWrapper>,
    cex_weights: &HashMap<usize, i64>,
    bex_weights: &HashMap<usize, i64>,
    bex_multiplier: i64,
    covered_cex: &HashSet<usize>,
    covered_bex: &HashSet<usize>,
    currently_covered: &BitSetWrapper,
    selected: &HashSet<usize>,
    required_ids: &HashSet<usize>,
    gain_costs: &HashMap<usize, i64>,
) -> (r: Option<(usize, i64, BitSetWrapper)>)
    requires
        covered_cex@.subset_of(cex_trace_states@.dom()),
        covered_bex@.subset_of(bex_trace_states@.dom()),
        tables_ready(cex_trace_states@, bex_trace_states@, cex_weights@, bex_weights@, bex_multiplier,
            instance.predicates@.dom(), gain_costs@),
    ensures
        match r {
            Some((p, gain, tighter)) => {
                &&& instance.predicates@.contains_key(p)
                &&& !selected@.contains(p)
                &&& tighter@ == currently_covered@.intersect(instance.predicates@[p].covered_states@)
                &&& !loses_required(bits_view(cex_trace_states@), covered_cex@, required_ids@, tighter@)
                &&& viable_step(bits_view(cex_trace_states@), covered_cex@, required_ids@, tighter@)
                &&& gain == step_gain(bits_view(cex_trace_states@), bits_view(bex_trace_states@), cex_weights@, bex_weights@,
                        bex_multiplier, covered_cex@, covered_bex@, required_ids@, tighter@, gain_costs@[p])
                &&& forall|q: usize| #[trigger] instance.predicates@.contains_key(q) && !selected@.contains(q)
                    && viable_step(bits_view(cex_trace_states@), covered_cex@, required_ids@,
                        currently_covered@.intersect(instance.predicates@[q].covered_states@))
                    ==> step_gain(bits_view(cex_trace_states@), bits_view(bex_trace_states@), cex_weights@, bex_weights@,
                        bex_multiplier, covered_cex@, covered_bex@, required_ids@,
                        currently_covered@.intersect(instance.predicates@[q].covered_states@), gain_costs@[q]) <= gain
            },
            None => forall|q: usize| #[trigger] instance.predicates@.contains_key(q) && !selected@.contains(q)
                ==> !viable_step(bits_view(cex_trace_states@), covered_cex@, required_ids@,
                    currently_covered@.intersect(instance.predicates@[q].covered_states@)),
        },
{
    let ghost cbits = bits_view(cex_trace_states@);
    let ghost bbits = bits_view(bex_trace_states@);
    let ghost cur = currently_covered@;
    let pkeys = usize_keys(&instance.predicates);
    let n = pkeys.len();
    let mut best: Option<(usize, i64, BitSetWrapper)> = None;
    for i in 0..n
        invariant
            n == pkeys@.len(),
            pkeys@.to_set() == instance.predicates@.dom(),
            covered_cex@.subset_of(cex_trace_states@.dom()),
            covered_bex@.subset_of(bex_trace_states@.dom()),
            tables_ready(cex_trace_states@, bex_trace_states@, cex_weights@, bex_weights@, bex_multiplier,
                instance.predicates@.dom(), gain_costs@),
            cbits == bits_view(cex_trace_states@),
            bbits == bits_view(bex_trace_states@),
            cur == currently_covered@,
            match best {
                Some((p, gain, tighter)) => {
                    &&& instance.predicates@.contains_key(p)
                    &&& !selected@.contains(p)
                    &&& tighter@ == cur.intersect(instance.predicates@[p].covered_states@)
                    &&& !loses_required(cbits, covered_cex@, required_ids@, tighter@)
                    &&& viable_step(cbits, covered_cex@, required_ids@, tighter@)
                    &&& gain == step_gain(cbits, bbits, cex_weights@, bex_weights@, bex_multiplier, covered_cex@,
                        covered_bex@, required_ids@, tighter@, gain_costs@[p])
                    &&& forall|k: int| 0 <= k < i && #[trigger] instance.predicates@.contains_key(pkeys@[k])
                        && !selected@.contains(pkeys@[k])
                        && viable_step(cbits, covered_cex@, required_ids@, cur.intersect(instance.predicates@[pkeys@[k]].covered_states@))
                        ==> step_gain(cbits, bbits, cex_weights@, bex_weights@, bex_multiplier, covered_cex@, covered_bex@,
                            required_ids@, cur.intersect(instance.predicates@[pkeys@[k]].covered_states@), gain_costs@[pkeys@[k]]) <= gain
                },
                None => forall|k: int| 0 <= k < i && #[trigger] instance.predicates@.contains_key(pkeys@[k])
                    && !selected@.contains(pkeys@[k])
                    ==> !viable_step(cbits, covered_cex@, required_ids@, cur.intersect(instance.predicates@[pkeys@[k]].covered_states@)),
            },
    {
        let pid = pkeys[i];
        assert(pkeys@.to_set().contains(pid));
        let ghost before = best;
        if !selected.contains(&pid) {
            let cost = *gain_costs.get(&pid).unwrap();
            let candidate = eval_gain(instance, cex_trace_states, bex_trace_states, cex_weights, bex_weights,
                bex_multiplier, covered_cex, covered_bex, currently_covered, pid, required_ids, cost);
            match candidate {
                Some((gain, tighter)) => {
                    let better = match &best {
                        Some((_, best_gain, _)) => gain > *best_gain,
                        None => gain > i64::MIN,
                    };
                    if better {
                        best = Some((pid, gain, tighter));
                    }
                },
                None => {},
            }
        }
        proof {
            if best is Some {
                let g = (best->0).1;
                assert forall|k: int| 0 <= k < i + 1 && #[trigger] instance.predicates@.contains_key(pkeys@[k])
                    && !selected@.contains(pkeys@[k])
                    && viable_step(cbits, covered_cex@, required_ids@, cur.intersect(instance.predicates@[pkeys@[k]].covered_states@))
                    implies step_gain(cbits, bbits, cex_weights@, bex_weights@, bex_multiplier, covered_cex@, covered_bex@,
                        required_ids@, cur.intersect(instance.predicates@[pkeys@[k]].covered_states@), gain_costs@[pkeys@[k]]) <= g by {
                    if k < i {
                        if before is Some {
                            assert((before->0).1 <= g);
                        }
                    }
                }
            } else {
                assert forall|k: int| 0 <= k < i + 1 && #[trigger] instance.predicates@.contains_key(pkeys@[k])
                    && !selected@.contains(pkeys@[k])
                    implies !viable_step(cbits, covered_cex@, required_ids@, cur.intersect(instance.predicates@[pkeys@[k]].covered_states@)) by {
                }
            }
        }
    }
    proof {
        if best is Some {
            let g = (best->0).1;
            assert forall|q: usize| #[trigger] instance.predicates@.contains_key(q) && !selected@.contains(q)
                && viable_step(cbits, covered_cex@, required_ids@, cur.intersect(instance.predicates@[q].covered_states@))
                implies step_gain(cbits, bbits, cex_weights@, bex_weights@, bex_multiplier, covered_cex@, covered_bex@,
                    required_ids@, cur.intersect(instance.predicates@[q].covered_states@), gain_costs@[q]) <= g by {
                assert(pkeys@.to_set().contains(q));
                let k = choose|k: int| 0 <= k < pkeys@.len() && pkeys@[k] == q;
                assert(instance.predicates@.contains_key(pkeys@[k]));
            }
        } else {
            assert forall|q: usize| #[trigger] instance.predicates@.contains_key(q) && !selected@.contains(q)
                implies !viable_step(cbits, covered_cex@, required_ids@, cur.intersect(instance.predicates@[q].covered_states@)) by {
                assert(pkeys@.to_set().contains(q));
                let k = choose|k: int| 0 <= k < pkeys@.len() && pkeys@[k] == q;
                assert(instance.predicates@.contains_key(pkeys@[k]));
            }
        }
    }
    best
}

/// Tightening the intent to `next` frees one of the `violating` benign traces.
pub open spec fn frees_one(bex_trace_states: Map<usize, BitSetWrapper>, violating: Seq<usize>, next: Set<u32>) -> bool {
    exists|k: int| 0 <= k < violating.len() && !meets(#[trigger] bex_trace_states[violating[k]]@, next)
}

/// Among the predicates not yet selected whose tightening keeps a non-empty
/// intent and every covered required trace and frees one of the `violating`
/// benign traces, the one of highest gain (the first found among equal
/// gains), with the tighter intent; `None` where there is none.
fn best_fix(
    instance: &SetCoverInstance,
    cex_trace_states: &HashMap<usize, BitSetWrapper>,
    bex_trace_states: &HashMap<usize, BitSetWrapper>,
    cex_weights: &HashMap<usize, i64>,
    bex_weights: &HashMap<usize, i64>,
    bex_multiplier: i64,
    covered_cex: &HashSet<usize>,
    covered_bex: &HashSet<usize>,
    currently_covered: &BitSetWrapper,
    selected: &HashSet<usize>,
    required_ids: &HashSet<usize>,
    gain_costs: &HashMap<usize, i64>,
    violating: &Vec<usize>,
) -> (r: Option<(usize, BitSetWrapper)>)
    requires
        covered_cex@.subset_of(cex_trace_states@.dom()),
        covered_bex@.subset_of(bex_trace_states@.dom()),
        forall|k: int| 0 <= k < violating@.len() ==> bex_trace_states@.contains_key(#[trigger] violating@[k]),
        tables_ready(cex_trace_states@, bex_trace_states@, cex_weights@, bex_weights@, bex_multiplier,
            instance.predicates@.dom(), gain_costs@),
    ensures
        match r {
            Some((p, tighter)) => {
                &&& instance.predicates@.contains_key(p)
                &&& !selected@.contains(p)
                &&& tighter@ == currently_covered@.intersect(instance.predicates@[p].covered_states@)
                &&& viable_step(bits_view(cex_trace_states@), covered_cex@, required_ids@, tighter@)
                &&& !loses_required(bits_view(cex_trace_states@), covered_cex@, required_ids@, tighter@)
                &&& frees_one(bex_trace_states@, violating@, tighter@)
                &&& forall|q: usize| #[trigger] instance.predicates@.contains_key(q) && !selected@.contains(q)
                    && viable_step(bits_view(cex_trace_states@), covered_cex@, required_ids@,
                        currently_covered@.intersect(instance.predicates@[q].covered_states@))
                    && frees_one(bex_trace_states@, violating@, currently_covered@.intersect(instance.predicates@[q].covered_states@))
                    ==> step_gain(bits_view(cex_trace_states@), bits_view(bex_trace_states@), cex_weights@, bex_weights@,
                        bex_multiplier, covered_cex@, covered_bex@, required_ids@,
                        currently_covered@.intersect(instance.predicates@[q].covered_states@), gain_costs@[q])
                    <= step_gain(bits_view(cex_trace_states@), bits_view(bex_trace_states@), cex_weights@, bex_weights@,
                        bex_multiplier, covered_cex@, covered_bex@, required_ids@, tighter@, gain_costs@[p])
            },
            None => forall|q: usize| #[trigger] instance.predicates@.contains_key(q) && !selected@.contains(q)
                ==> !(viable_step(bits_view(cex_trace_states@), covered_cex@, required_ids@,
                        currently_covered@.intersect(instance.predicates@[q].covered_states@))
                    && frees_one(bex_trace_states@, violating@, currently_covered@.intersect(instance.predicates@[q].covered_states@))),
        },
{
    let ghost cbits = bits_view(cex_trace_states@);
    let ghost bbits = bits_view(bex_trace_states@);
    let ghost cur = currently_covered@;
    let ghost bst = bex_trace_states@;
    let ghost viol = violating@;
    let pkeys = usize_keys(&instance.predicates);
    let n = pkeys.len();
    let mut best: Option<(usize, BitSetWrapper, i64)> = None;
    for i in 0..n
        invariant
            n == pkeys@.len(),
            pkeys@.to_set() == instance.predicates@.dom(),
            covered_cex@.subset_of(cex_trace_states@.dom()),
            covered_bex@.subset_of(bex_trace_states@.dom()),
            forall|k: int| 0 <= k < violating@.len() ==> bex_trace_states@.contains_key(#[trigger] violating@[k]),
            tables_ready(cex_trace_states@, bex_trace_states@, cex_weights@, bex_weights@, bex_multiplier,
                instance.predicates@.dom(), gain_costs@),
            cbits == bits_view(cex_trace_states@),
            bbits == bits_view(bex_trace_states@),
            cur == currently_covered@,
            bst == bex_trace_states@,
            viol == violating@,
            match best {
                Some((p, tighter, gain)) => {
                    &&& instance.predicates@.contains_key(p)
                    &&& !selected@.contains(p)
                    &&& tighter@ == cur.intersect(instance.predicates@[p].covered_states@)
                    &&& viable_step(cbits, covered_cex@, required_ids@, tighter@)
                    &&& frees_one(bst, viol, tighter@)
                    &&& gain == step_gain(cbits, bbits, cex_weights@, bex_weights@, bex_multiplier, covered_cex@,
                        covered_bex@, required_ids@, tighter@, gain_costs@[p])
                    &&& forall|k: int| 0 <= k < i && #[trigger] instance.predicates@.contains_key(pkeys@[k])
                        && !selected@.contains(pkeys@[k])
                        && viable_step(cbits, covered_cex@, required_ids@, cur.intersect(instance.predicates@[pkeys@[k]].covered_states@))
                        && frees_one(bst, viol, cur.intersect(instance.predicates@[pkeys@[k]].covered_states@))
                        ==> step_gain(cbits, bbits, cex_weights@, bex_weights@, bex_multiplier, covered_cex@, covered_bex@,
                            required_ids@, cur.intersect(instance.predicates@[pkeys@[k]].covered_states@), gain_costs@[pkeys@[k]]) <= gain
                },
                None => forall|k: int| 0 <= k < i && #[trigger] instance.predicates@.contains_key(pkeys@[k])
                    && !selected@.contains(pkeys@[k])
                    ==> !(viable_step(cbits, covered_cex@, required_ids@, cur.intersect(instance.predicates@[pkeys@[k]].covered_states@))
                        && frees_one(bst, viol, cur.intersect(instance.predicates@[pkeys@[k]].covered_states@))),
            },
    {
        let pid = pkeys[i];
        assert(pkeys@.to_set().contains(pid));
        let ghost before = best;
        if !selected.contains(&pid) {
            let cost = *gain_costs.get(&pid).unwrap();
            let candidate = eval_gain(instance, cex_trace_states, bex_trace_states, cex_weights, bex_weights,
                bex_multiplier, covered_cex, covered_bex, currently_covered, pid, required_ids, cost);
            match candidate {
                Some((gain, tighter)) => {
                    let mut fixes = false;
                    let m = violating.len();
                    for k in 0..m
                        invariant
                            m == violating@.len(),
                            forall|j: int| 0 <= j < violating@.len() ==> bex_trace_states@.contains_key(#[trigger] violating@[j]),
                            fixes ==> exists|j: int| 0 <= j < violating@.len() && !meets(#[trigger] bex_trace_states@[violating@[j]]@, tighter@),
                            !fixes ==> forall|j: int| 0 <= j < k ==> meets(#[trigger] bex_trace_states@[violating@[j]]@, tighter@),
                    {
                        if !sets_meet(bex_trace_states.get(&violating[k]).unwrap(), &tighter) {
                            assert(!meets(bex_trace_states@[violating@[k as int]]@, tighter@));
                            fixes = true;
                        }
                    }
                    assert(fixes == frees_one(bst, viol, tighter@));
                    if fixes {
                        let better = match &best {
                            Some((_, _, best_gain)) => gain > *best_gain,
                            None => true,
                        };
                        if better {
                            best = Some((pid, tighter, gain));
                        }
                    }
                },
                None => {},
            }
        }
        proof {
            if best is Some {
                let g = (best->0).2;
                assert forall|k: int| 0 <= k < i + 1 && #[trigger] instance.predicates@.contains_key(pkeys@[k])
                    && !selected@.contains(pkeys@[k])
                    && viable_step(cbits, covered_cex@, required_ids@, cur.intersect(instance.predicates@[pkeys@[k]].covered_states@))
                    && frees_one(bst, viol, cur.intersect(instance.predicates@[pkeys@[k]].covered_states@))
                    implies step_gain(cbits, bbits, cex_weights@, bex_weights@, bex_multiplier, covered_cex@, covered_bex@,
                        required_ids@, cur.intersect(instance.predicates@[pkeys@[k]].covered_states@), gain_costs@[pkeys@[k]]) <= g by {
                    if k < i {
                        if before is Some {
                            assert((before->0).2 <= g);
                        }
                    }
                }
            } else {
                assert forall|k: int| 0 <= k < i + 1 && #[trigger] instance.predicates@.contains_key(pkeys@[k])
                    && !selected@.contains(pkeys@[k])
                    implies !(viable_step(cbits, covered_cex@, required_ids@, cur.intersect(instance.predicates@[pkeys@[k]].covered_states@))
                        && frees_one(bst, viol, cur.intersect(instance.predicates@[pkeys@[k]].covered_states@))) by {
                }
            }
        }
    }
    proof {
        if best is Some {
            let g = (best->0).2;
            assert forall|q: usize| #[trigger] instance.predicates@.contains_key(q) && !selected@.contains(q)
                && viable_step(cbits, covered_cex@, required_ids@, cur.intersect(instance.predicates@[q].covered_states@))
                && frees_one(bst, viol, cur.intersect(instance.predicates@[q].covered_states@))
                implies step_gain(cbits, bbits, cex_weights@, bex_weights@, bex_multiplier, covered_cex@, covered_bex@,
                    required_ids@, cur.intersect(instance.predicates@[q].covered_states@), gain_costs@[q]) <= g by {
                assert(pkeys@.to_set().contains(q));
                let k = choose|k: int| 0 <= k < pkeys@.len() && pkeys@[k] == q;
                assert(instance.predicates@.contains_key(pkeys@[k]));
            }
        } else {
            assert forall|q: usize| #[trigger] instance.predicates@.contains_key(q) && !selected@.contains(q)
                implies !(viable_step(cbits, covered_cex@, required_ids@, cur.intersect(instance.predicates@[q].covered_states@))
                    && frees_one(bst, viol, cur.intersect(instance.predicates@[q].covered_states@))) by {
                assert(pkeys@.to_set().contains(q));
                let k = choose|k: int| 0 <= k < pkeys@.len() && pkeys@[k] == q;
                assert(instance.predicates@.contains_key(pkeys@[k]));
            }
        }
    }
    match best {
        Some((p, tighter, _)) => Some((p, tighter)),
        None => None,
    }
}

/// The benign traces that must not be covered and are.
fn violating_traces(instance: &SetCoverInstance, covered_bex: &HashSet<usize>) -> (r: Vec<usize>)
    ensures
        r@.to_set() == must_not_met(instance, covered_bex@),
        forall|k: int| 0 <= k < r@.len() ==> instance.bex_traces@.contains_key(#[trigger] r@[k]),
{
    let keys = usize_keys(&instance.bex_traces);
    let n = keys.len();
    let mut r: Vec<usize> = Vec::new();
    for i in 0..n
        invariant
            n == keys@.len(),
            keys@.to_set() == instance.bex_traces@.dom(),
            r@.to_set() == keys@.take(i as int).to_set().filter(|b: usize| instance.bex_traces@[b].must_not_cover && covered_bex@.contains(b)),
            forall|k: int| 0 <= k < r@.len() ==> instance.bex_traces@.contains_key(#[trigger] r@[k]),
    {
        let b = keys[i];
        assert(keys@.to_set().contains(b));
        let ghost r0 = r@;
        if instance.bex_traces.get(&b).unwrap().must_not_cover && covered_bex.contains(&b) {
            r.push(b);
            proof {
                r0.lemma_push_to_set_commute(b);
            }
        }
        proof {
            assert(keys@.take(i + 1) =~= keys@.take(i as int).push(b));
            keys@.take(i as int).lemma_push_to_set_commute(b);
        }
        assert(r@.to_set() =~= keys@.take(i + 1).to_set().filter(|b: usize| instance.bex_traces@[b].must_not_cover && covered_bex@.contains(b)));
    }
    assert(keys@.take(n as int) =~= keys@);
    assert(r@.to_set() =~= must_not_met(instance, covered_bex@));
    r
}

/// Tightening the intent with predicate `p` keeps the search state, where the
/// tighter intent keeps every covered required trace.
proof fn lemma_tighten_keeps_state(
    inst: &SetCoverInstance,
    required: Set<usize>,
    intent: Set<u32>,
    sel: Set<usize>,
    covered_cex: Set<usize>,
    p: usize,
    tighter: Set<u32>,
)
    requires
        sel.subset_of(inst.predicates@.dom()),
        intent == intent_of(all_state_bits(inst), inst.predicates@, sel),
        covered_cex == traces_met(cex_bits_map(inst), intent),
        forall|t: usize| #[trigger] required.contains(t) && inst.cex_traces@.contains_key(t)
            && meets(cex_bits_map(inst)[t], all_state_bits(inst)) ==> meets(cex_bits_map(inst)[t], intent),
        inst.predicates@.contains_key(p),
        tighter == intent.intersect(inst.predicates@[p].covered_states@),
        !loses_required(cex_bits_map(inst), covered_cex, required, tighter),
    ensures
        sel.insert(p).subset_of(inst.predicates@.dom()),
        tighter == intent_of(all_state_bits(inst), inst.predicates@, sel.insert(p)),
        forall|t: usize| #[trigger] required.contains(t) && inst.cex_traces@.contains_key(t)
            && meets(cex_bits_map(inst)[t], all_state_bits(inst)) ==> meets(cex_bits_map(inst)[t], tighter),
{
    lemma_intent_step(all_state_bits(inst), inst.predicates@, sel, p);
    assert forall|t: usize| #[trigger] required.contains(t) && inst.cex_traces@.contains_key(t)
        && meets(cex_bits_map(inst)[t], all_state_bits(inst)) implies meets(cex_bits_map(inst)[t], tighter) by {
        assert(covered_cex.contains(t));
    }
}

/// The intent that the predicates of `sel` leave of all states.
pub open spec fn sel_intent(inst: &SetCoverInstance, sel: Set<usize>) -> Set<u32> {
    intent_of(all_state_bits(inst), inst.predicates@, sel)
}

/// Predicate `q`, not in `sel`, tightens the intent of `sel` to a non-empty
/// intent that keeps every covered required trace.
pub open spec fn tighten_viable(inst: &SetCoverInstance, required: Set<usize>, sel: Set<usize>, q: usize) -> bool {
    let intent = sel_intent(inst, sel);
    let cbits = cex_bits_map(inst);
    &&& inst.predicates@.contains_key(q)
    &&& !sel.contains(q)
    &&& viable_step(cbits, traces_met(cbits, intent), required, intent.intersect(inst.predicates@[q].covered_states@))
}

/// The gain of tightening the intent of `sel` with predicate `q` (see `step_gain`).
pub open spec fn tighten_gain(
    inst: &SetCoverInstance,
    required: Set<usize>,
    bex_multiplier: i64,
    gain_costs: Map<usize, i64>,
    sel: Set<usize>,
    q: usize,
) -> int {
    let intent = sel_intent(inst, sel);
    let cbits = cex_bits_map(inst);
    let bbits = bex_bits_map(inst);
    step_gain(cbits, bbits, cex_trace_weights(inst), bex_trace_weights(inst), bex_multiplier, traces_met(cbits, intent),
        traces_met(bbits, intent), required, intent.intersect(inst.predicates@[q].covered_states@), gain_costs[q])
}

/// Some benign trace that must not be covered meets the intent of `sel`.
pub open spec fn must_met(inst: &SetCoverInstance, sel: Set<usize>) -> bool {
    exists|b: usize| #[trigger] inst.bex_traces@.contains_key(b) && inst.bex_traces@[b].must_not_cover
        && meets(bex_bits_map(inst)[b], sel_intent(inst, sel))
}

/// Tightening the intent of `sel` with `q` frees a benign trace that must not
/// be covered and meets the intent.
pub open spec fn frees_must(inst: &SetCoverInstance, sel: Set<usize>, q: usize) -> bool {
    let intent = sel_intent(inst, sel);
    exists|b: usize| #[trigger] inst.bex_traces@.contains_key(b) && inst.bex_traces@[b].must_not_cover
        && meets(bex_bits_map(inst)[b], intent) && !meets(bex_bits_map(inst)[b], intent.intersect(inst.predicates@[q].covered_states@))
}

/// A step of the first phase: `p` is viable, of positive gain, and of
/// highest gain among the viable predicates.
pub open spec fn phase1_step_ok(
    inst: &SetCoverInstance,
    required: Set<usize>,
    bex_multiplier: i64,
    gain_costs: Map<usize, i64>,
    sel: Set<usize>,
    p: usize,
) -> bool {
    &&& tighten_viable(inst, required, sel, p)
    &&& tighten_gain(inst, required, bex_multiplier, gain_costs, sel, p) > 0
    &&& forall|q: usize| #[trigger] tighten_viable(inst, required, sel, q)
        ==> tighten_gain(inst, required, bex_multiplier, gain_costs, sel, q) <= tighten_gain(inst, required, bex_multiplier, gain_costs, sel, p)
}

/// A step of the second phase: a benign trace that must not be covered
/// meets the intent, and `p` is viable, frees one, and is of highest gain
/// among the viable predicates that free one.
pub open spec fn phase2_step_ok(
    inst: &SetCoverInstance,
    required: Set<usize>,
    bex_multiplier: i64,
    gain_costs: Map<usize, i64>,
    sel: Set<usize>,
    p: usize,
) -> bool {
    &&& must_met(inst, sel)
    &&& tighten_viable(inst, required, sel, p)
    &&& frees_must(inst, sel, p)
    &&& forall|q: usize| #[trigger] tighten_viable(inst, required, sel, q) && frees_must(inst, sel, q)
        ==> tighten_gain(inst, required, bex_multiplier, gain_costs, sel, q) <= tighten_gain(inst, required, bex_multiplier, gain_costs, sel, p)
}

/// The second phase is stuck: a benign trace that must not be covered meets
/// the intent, and no viable predicate frees one.
pub open spec fn phase2_stuck(inst: &SetCoverInstance, required: Set<usize>, sel: Set<usize>) -> bool {
    &&& must_met(inst, sel)
    &&& forall|q: usize| #[trigger] tighten_viable(inst, required, sel, q) ==> !frees_must(inst, sel, q)
}

/// `steps` is a run of the greedy search: its first `m` steps are steps of
/// the first phase, after which no viable predicate has a positive gain; the
/// rest are steps of the second phase; it ends stuck (`stuck`) or with no
/// benign trace that must not be covered meeting the intent. Where several
/// predicates share the highest gain, any of them may be the step.
pub open spec fn greedy_run(
    inst: &SetCoverInstance,
    required: Set<usize>,
    bex_multiplier: i64,
    gain_costs: Map<usize, i64>,
    steps: Seq<usize>,
    m: int,
    stuck: bool,
) -> bool {
    &&& 0 <= m <= steps.len()
    &&& forall|k: int| #![trigger steps[k]] 0 <= k < m
        ==> phase1_step_ok(inst, required, bex_multiplier, gain_costs, steps.take(k).to_set(), steps[k])
    &&& no_gainful_step(inst, required, bex_multiplier, gain_costs, steps.take(m).to_set(), sel_intent(inst, steps.take(m).to_set()))
    &&& forall|k: int| #![trigger steps[k]] m <= k < steps.len()
        ==> phase2_step_ok(inst, required, bex_multiplier, gain_costs, steps.take(k).to_set(), steps[k])
    &&& if stuck {
        phase2_stuck(inst, required, steps.to_set())
    } else {
        !must_met(inst, steps.to_set())
    }
}

proof fn lemma_phase1_step(
    inst: &SetCoverInstance,
    required: Set<usize>,
    bex_multiplier: i64,
    gain_costs: Map<usize, i64>,
    sel: Set<usize>,
    cur: Set<u32>,
    covered_cex: Set<usize>,
    covered_bex: Set<usize>,
    cbits: Map<usize, Set<u32>>,
    bbits: Map<usize, Set<u32>>,
    cw: Map<usize, i64>,
    bw: Map<usize, i64>,
    p: usize,
    gain: int,
)
    requires
        search_state(inst, required, cur, sel, covered_cex, covered_bex),
        cbits == cex_bits_map(inst),
        bbits == bex_bits_map(inst),
        cw == cex_trace_weights(inst),
        bw == bex_trace_weights(inst),
        inst.predicates@.contains_key(p),
        !sel.contains(p),
        viable_step(cbits, covered_cex, required, cur.intersect(inst.predicates@[p].covered_states@)),
        gain == step_gain(cbits, bbits, cw, bw, bex_multiplier, covered_cex, covered_bex, required,
            cur.intersect(inst.predicates@[p].covered_states@), gain_costs[p]),
        gain > 0,
        forall|q: usize| #[trigger] inst.predicates@.contains_key(q) && !sel.contains(q)
            && viable_step(cbits, covered_cex, required, cur.intersect(inst.predicates@[q].covered_states@))
            ==> step_gain(cbits, bbits, cw, bw, bex_multiplier, covered_cex, covered_bex, required,
                cur.intersect(inst.predicates@[q].covered_states@), gain_costs[q]) <= gain,
    ensures
        phase1_step_ok(inst, required, bex_multiplier, gain_costs, sel, p),
{
    assert forall|q: usize| #[trigger] tighten_viable(inst, required, sel, q)
        implies tighten_gain(inst, required, bex_multiplier, gain_costs, sel, q) <= tighten_gain(inst, required, bex_multiplier, gain_costs, sel, p) by {
        assert(inst.predicates@.contains_key(q));
    }
}

proof fn lemma_phase2_step(
    inst: &SetCoverInstance,
    required: Set<usize>,
    bex_multiplier: i64,
    gain_costs: Map<usize, i64>,
    sel: Set<usize>,
    cur: Set<u32>,
    covered_cex: Set<usize>,
    covered_bex: Set<usize>,
    bst: Map<usize, BitSetWrapper>,
    violating: Seq<usize>,
    cbits: Map<usize, Set<u32>>,
    cw: Map<usize, i64>,
    bw: Map<usize, i64>,
    p: usize,
)
    requires
        search_state(inst, required, cur, sel, covered_cex, covered_bex),
        cbits == cex_bits_map(inst),
        bits_view(bst) == bex_bits_map(inst),
        cw == cex_trace_weights(inst),
        bw == bex_trace_weights(inst),
        violating.to_set() == must_not_met(inst, covered_bex),
        violating.len() > 0,
        forall|k: int| 0 <= k < violating.len() ==> bst.contains_key(#[trigger] violating[k]),
        inst.predicates@.contains_key(p),
        !sel.contains(p),
        viable_step(cbits, covered_cex, required, cur.intersect(inst.predicates@[p].covered_states@)),
        frees_one(bst, violating, cur.intersect(inst.predicates@[p].covered_states@)),
        forall|q: usize| #[trigger] inst.predicates@.contains_key(q) && !sel.contains(q)
            && viable_step(cbits, covered_cex, required, cur.intersect(inst.predicates@[q].covered_states@))
            && frees_one(bst, violating, cur.intersect(inst.predicates@[q].covered_states@))
            ==> step_gain(cbits, bits_view(bst), cw, bw, bex_multiplier, covered_cex, covered_bex, required,
                cur.intersect(inst.predicates@[q].covered_states@), gain_costs[q])
            <= step_gain(cbits, bits_view(bst), cw, bw, bex_multiplier, covered_cex, covered_bex, required,
                cur.intersect(inst.predicates@[p].covered_states@), gain_costs[p]),
    ensures
        phase2_step_ok(inst, required, bex_multiplier, gain_costs, sel, p),
{
    let bbits = bex_bits_map(inst);
    let b0 = violating[0];
    assert(violating.to_set().contains(b0));
    assert(must_not_met(inst, covered_bex).contains(b0));
    assert(covered_bex.contains(b0));
    assert(must_met(inst, sel));
    let next = cur.intersect(inst.predicates@[p].covered_states@);
    let k = choose|k: int| 0 <= k < violating.len() && !meets(#[trigger] bst[violating[k]]@, next);
    let b = violating[k];
    assert(violating.to_set().contains(b));
    assert(must_not_met(inst, covered_bex).contains(b));
    assert(bits_view(bst)[b] == bst[b]@);
    assert(frees_must(inst, sel, p));
    assert forall|q: usize| #[trigger] tighten_viable(inst, required, sel, q) && frees_must(inst, sel, q)
        implies tighten_gain(inst, required, bex_multiplier, gain_costs, sel, q) <= tighten_gain(inst, required, bex_multiplier, gain_costs, sel, p) by {
        let nq = cur.intersect(inst.predicates@[q].covered_states@);
        let bq = choose|bq: usize| #[trigger] inst.bex_traces@.contains_key(bq) && inst.bex_traces@[bq].must_not_cover
            && meets(bbits[bq], cur) && !meets(bbits[bq], nq);
        assert(covered_bex.contains(bq));
        assert(must_not_met(inst, covered_bex).contains(bq));
        assert(violating.to_set().contains(bq));
        let kq = choose|kq: int| 0 <= kq < violating.len() && violating[kq] == bq;
        assert(bits_view(bst)[bq] == bst[bq]@);
        assert(!meets(bst[violating[kq]]@, nq));
        assert(frees_one(bst, violating, nq));
        assert(inst.predicates@.contains_key(q));
    }
}

/// Runs the greedy heuristic at the level of traces. Starting from all
/// states, it repeatedly intersects the predicate of highest positive gain
/// into the intent (see `eval_gain`, with `gain_costs` as the predicates'
/// costs); then, while benign traces that must not be covered meet the
/// intent, it intersects the predicate that frees one of them at the highest
/// gain. No step may empty the intent or lose a covered required trace.
/// Returns `None` where such benign traces remain; else the selected
/// predicates with the weights of the covered counterexample traces, those
/// of the covered benign traces, and the score: the first less the second
/// scaled by `bex_multiplier`, less the `final_costs` of the selection.
/// The selection is that of a run of the search as `greedy_run` states it,
/// which ends stuck exactly where the result is `None`.
pub fn run_heuristic_trace_level(
    instance: &SetCoverInstance,
    required_ids: &HashSet<usize>,
    bex_multiplier: i64,
    gain_costs: &HashMap<usize, i64>,
    final_costs: &HashMap<usize, i64>,
) -> (r: Option<HeuristicResult>)
    requires
        heuristic_ready(instance, bex_multiplier, gain_costs@, final_costs@),
    ensures
        (forall|b: usize| #[trigger] instance.bex_traces@.contains_key(b) ==> !instance.bex_traces@[b].must_not_cover)
            ==> r is Some && no_gainful_step(instance, required_ids@, bex_multiplier, gain_costs@,
                (r->0).selected_predicates@.to_set(), result_intent(instance, r->0)),
        match r {
            Some(res) => heuristic_result_ok(instance, required_ids@, bex_multiplier, final_costs@, res),
            None => exists|sel: Set<usize>| stuck_selection(instance, required_ids@, sel),
        },
        match r {
            Some(res) => exists|steps: Seq<usize>, m: int| #[trigger] greedy_run(instance, required_ids@, bex_multiplier,
                gain_costs@, steps, m, false) && steps.to_set() == res.selected_predicates@.to_set(),
            None => exists|steps: Seq<usize>, m: int| #[trigger] greedy_run(instance, required_ids@, bex_multiplier,
                gain_costs@, steps, m, true),
        },
{
    let ghost preds = instance.predicates@.dom();
    let (cex_trace_states, cex_weights) = cex_tables(instance);
    let (bex_trace_states, bex_weights) = bex_tables(instance);
    let mut currently_covered = all_states_bits(instance);
    let mut selected: HashSet<usize> = HashSet::new();
    let mut covered_cex: HashSet<usize> = HashSet::new();
    let mut covered_bex_traces: HashSet<usize> = HashSet::new();
    let mut score_coverage: i64 = 0;
    proof {
        assert(cex_trace_states@.dom() =~= bits_view(cex_trace_states@).dom());
        assert(bex_trace_states@.dom() =~= bits_view(bex_trace_states@).dom());
        assert(cex_trace_states@.dom() =~= instance.cex_traces@.dom());
        assert(bex_trace_states@.dom() =~= instance.bex_traces@.dom());
        assert(nonneg_on(cex_weights@, cex_trace_states@.dom()));
        assert(nonneg_on(bex_weights@, bex_trace_states@.dom()));
        lemma_weight_of_subset(gain_costs@, preds, preds);
        lemma_weight_of_subset(final_costs@, preds, preds);
        lemma_weight_of_subset(bex_weights@, bex_trace_states@.dom(), bex_trace_states@.dom());
        lemma_scaled_subset(bex_weights@, bex_trace_states@.dom(), bex_trace_states@.dom(), bex_multiplier as int);
        lemma_weight_of_subset(cex_weights@, cex_trace_states@.dom(), cex_trace_states@.dom());
        assert forall|p: usize| #[trigger] preds.contains(p) implies gain_costs@.contains_key(p) && 0 <= gain_costs@[p]
            && weight_of(cex_weights@, cex_trace_states@.dom()) + bex_multiplier * weight_of(bex_weights@, bex_trace_states@.dom())
                + gain_costs@[p] <= i64::MAX by {
            lemma_weight_of_single(gain_costs@, preds, p);
        }
        assert(intent_of(all_state_bits(instance), instance.predicates@, selected@) =~= all_state_bits(instance));
    }
    recompute_from_currently_covered(&cex_trace_states, &bex_trace_states, &cex_weights, &bex_weights, bex_multiplier,
        &currently_covered, &mut covered_cex, &mut covered_bex_traces, &mut score_coverage);
    proof {
        assert forall|t: usize| #[trigger] required_ids@.contains(t) && instance.cex_traces@.contains_key(t)
            && meets(cex_bits_map(instance)[t], all_state_bits(instance))
            implies meets(cex_bits_map(instance)[t], currently_covered@) by {
        }
    }
    let ghost mut steps: Seq<usize> = Seq::empty();
    assert(steps.to_set() =~= selected@);
    // Tighten the intent while that pays off.
    loop
        invariant
            steps.to_set() == selected@,
            forall|k: int| #![trigger steps[k]] 0 <= k < steps.len()
                ==> phase1_step_ok(instance, required_ids@, bex_multiplier, gain_costs@, steps.take(k).to_set(), steps[k]),
            bits_view(cex_trace_states@) == cex_bits_map(instance),
            bits_view(bex_trace_states@) == bex_bits_map(instance),
            cex_weights@ == cex_trace_weights(instance),
            bex_weights@ == bex_trace_weights(instance),
            preds == instance.predicates@.dom(),
            heuristic_ready(instance, bex_multiplier, gain_costs@, final_costs@),
            tables_ready(cex_trace_states@, bex_trace_states@, cex_weights@, bex_weights@, bex_multiplier, preds, gain_costs@),
            weight_of(cex_weights@, cex_trace_states@.dom()) + bex_multiplier * weight_of(bex_weights@, bex_trace_states@.dom()) <= i64::MAX,
            search_state(instance, required_ids@, currently_covered@, selected@, covered_cex@, covered_bex_traces@),
        ensures
            no_gainful_step(instance, required_ids@, bex_multiplier, gain_costs@, selected@, currently_covered@),
        decreases preds.len() - selected@.len(),
    {
        proof {
            vstd::set_lib::lemma_len_subset(selected@, preds);
        }
        let step = best_tightening(instance, &cex_trace_states, &bex_trace_states, &cex_weights, &bex_weights,
            bex_multiplier, &covered_cex, &covered_bex_traces, &currently_covered, &selected, required_ids, gain_costs);
        match step {
            None => {
                break;
            },
            Some((pid, gain, tighter)) => {
                if gain <= 0 {
                    break;
                }
                proof {
                    lemma_phase1_step(instance, required_ids@, bex_multiplier, gain_costs@, selected@, currently_covered@,
                        covered_cex@, covered_bex_traces@, bits_view(cex_trace_states@), bits_view(bex_trace_states@),
                        cex_weights@, bex_weights@, pid, gain as int);
                    lemma_tighten_keeps_state(instance, required_ids@, currently_covered@, selected@, covered_cex@, pid, tighter@);
                    vstd::set_lib::lemma_len_subset(selected@.insert(pid), preds);
                }
                let ghost sel_before = selected@;
                currently_covered = tighter;
                selected.insert(pid);
                proof {
                    let s0 = steps;
                    steps = steps.push(pid);
                    s0.lemma_push_to_set_commute(pid);
                    assert forall|k: int| #![trigger steps[k]] 0 <= k < steps.len()
                        implies phase1_step_ok(instance, required_ids@, bex_multiplier, gain_costs@, steps.take(k).to_set(), steps[k]) by {
                        if k < s0.len() {
                            assert(steps.take(k) =~= s0.take(k));
                            assert(steps[k] == s0[k]);
                        } else {
                            assert(steps.take(k) =~= s0);
                        }
                    }
                }
                recompute_from_currently_covered(&cex_trace_states, &bex_trace_states, &cex_weights, &bex_weights,
                    bex_multiplier, &currently_covered, &mut covered_cex, &mut covered_bex_traces, &mut score_coverage);
                if currently_covered.is_empty() {
                    proof {
                        assert forall|q: usize| #[trigger] instance.predicates@.contains_key(q)
                            implies currently_covered@.intersect(instance.predicates@[q].covered_states@) == Set::<u32>::empty() by {
                            assert(currently_covered@.intersect(instance.predicates@[q].covered_states@) =~= Set::<u32>::empty());
                        }
                    }
                    break;
                }
            },
        }
    }
    // Free the benign traces that must not be covered.
    let ghost m = steps.len() as int;
    let ghost sel1 = selected@;
    proof {
        assert(steps.take(m) =~= steps);
    }
    let mut violating = violating_traces(instance, &covered_bex_traces);
    loop
        invariant
            0 <= m <= steps.len(),
            steps.to_set() == selected@,
            steps.take(m).to_set() == sel1,
            sel_intent(instance, sel1) == intent_of(all_state_bits(instance), instance.predicates@, sel1),
            no_gainful_step(instance, required_ids@, bex_multiplier, gain_costs@, sel1, sel_intent(instance, sel1)),
            forall|k: int| #![trigger steps[k]] 0 <= k < m
                ==> phase1_step_ok(instance, required_ids@, bex_multiplier, gain_costs@, steps.take(k).to_set(), steps[k]),
            forall|k: int| #![trigger steps[k]] m <= k < steps.len()
                ==> phase2_step_ok(instance, required_ids@, bex_multiplier, gain_costs@, steps.take(k).to_set(), steps[k]),
            bits_view(cex_trace_states@) == cex_bits_map(instance),
            bits_view(bex_trace_states@) == bex_bits_map(instance),
            cex_weights@ == cex_trace_weights(instance),
            bex_weights@ == bex_trace_weights(instance),
            preds == instance.predicates@.dom(),
            heuristic_ready(instance, bex_multiplier, gain_costs@, final_costs@),
            tables_ready(cex_trace_states@, bex_trace_states@, cex_weights@, bex_weights@, bex_multiplier, preds, gain_costs@),
            weight_of(cex_weights@, cex_trace_states@.dom()) + bex_multiplier * weight_of(bex_weights@, bex_trace_states@.dom()) <= i64::MAX,
            search_state(instance, required_ids@, currently_covered@, selected@, covered_cex@, covered_bex_traces@),
            violating@.to_set() == must_not_met(instance, covered_bex_traces@),
            forall|k: int| 0 <= k < violating@.len() ==> instance.bex_traces@.contains_key(#[trigger] violating@[k]),
            (forall|b: usize| #[trigger] instance.bex_traces@.contains_key(b) ==> !instance.bex_traces@[b].must_not_cover)
                ==> no_gainful_step(instance, required_ids@, bex_multiplier, gain_costs@, selected@, currently_covered@),
        ensures
            violating@.len() > 0 ==> no_repair(instance, required_ids@, currently_covered@),
        decreases preds.len() - selected@.len(),
    {
        if violating.len() == 0 {
            break;
        }
        proof {
            let b0 = violating@[0];
            assert(violating@.to_set().contains(b0));
            assert(instance.bex_traces@.contains_key(b0) && instance.bex_traces@[b0].must_not_cover);
        }
        proof {
            vstd::set_lib::lemma_len_subset(selected@, preds);
            assert forall|k: int| 0 <= k < violating@.len() implies bex_trace_states@.contains_key(#[trigger] violating@[k]) by {
                assert(instance.bex_traces@.contains_key(violating@[k]));
                assert(bits_view(bex_trace_states@).contains_key(violating@[k]));
            }
        }
        let fix = best_fix(instance, &cex_trace_states, &bex_trace_states, &cex_weights, &bex_weights,
            bex_multiplier, &covered_cex, &covered_bex_traces, &currently_covered, &selected, required_ids, gain_costs,
            &violating);
        match fix {
            None => {
                proof {
                    let cur = currently_covered@;
                    let cbits = cex_bits_map(instance);
                    let bbits = bex_bits_map(instance);
                    assert forall|q: usize| #[trigger] instance.predicates@.contains_key(q) implies !(
                        viable_step(cbits, traces_met(cbits, cur), required_ids@, cur.intersect(instance.predicates@[q].covered_states@))
                        && exists|b: usize| #[trigger] instance.bex_traces@.contains_key(b) && instance.bex_traces@[b].must_not_cover
                            && meets(bbits[b], cur) && !meets(bbits[b], cur.intersect(instance.predicates@[q].covered_states@))) by {
                        let next = cur.intersect(instance.predicates@[q].covered_states@);
                        if exists|b: usize| #[trigger] instance.bex_traces@.contains_key(b) && instance.bex_traces@[b].must_not_cover
                            && meets(bbits[b], cur) && !meets(bbits[b], next) {
                            let b = choose|b: usize| #[trigger] instance.bex_traces@.contains_key(b) && instance.bex_traces@[b].must_not_cover
                                && meets(bbits[b], cur) && !meets(bbits[b], next);
                            if selected@.contains(q) {
                                assert(next =~= cur);
                            } else {
                                assert(covered_bex_traces@.contains(b));
                                assert(must_not_met(instance, covered_bex_traces@).contains(b));
                                assert(violating@.to_set().contains(b));
                                let k = choose|k: int| 0 <= k < violating@.len() && violating@[k] == b;
                                assert(bits_view(bex_trace_states@)[b] == bex_trace_states@[b]@);
                                assert(!meets(bex_trace_states@[violating@[k]]@, next));
                                assert(frees_one(bex_trace_states@, violating@, next));
                            }
                        }
                    }
                }
                break;
            },
            Some((pid, tighter)) => {
                proof {
                    lemma_phase2_step(instance, required_ids@, bex_multiplier, gain_costs@, selected@, currently_covered@,
                        covered_cex@, covered_bex_traces@, bex_trace_states@, violating@, bits_view(cex_trace_states@),
                        cex_weights@, bex_weights@, pid);
                    lemma_tighten_keeps_state(instance, required_ids@, currently_covered@, selected@, covered_cex@, pid, tighter@);
                    vstd::set_lib::lemma_len_subset(selected@.insert(pid), preds);
                }
                currently_covered = tighter;
                selected.insert(pid);
                proof {
                    let s0 = steps;
                    steps = steps.push(pid);
                    s0.lemma_push_to_set_commute(pid);
                    assert(steps.take(m) =~= s0.take(m));
                    assert forall|k: int| #![trigger steps[k]] 0 <= k < m
                        implies phase1_step_ok(instance, required_ids@, bex_multiplier, gain_costs@, steps.take(k).to_set(), steps[k]) by {
                        assert(steps.take(k) =~= s0.take(k));
                        assert(steps[k] == s0[k]);
                    }
                    assert forall|k: int| #![trigger steps[k]] m <= k < steps.len()
                        implies phase2_step_ok(instance, required_ids@, bex_multiplier, gain_costs@, steps.take(k).to_set(), steps[k]) by {
                        if k < s0.len() {
                            assert(steps.take(k) =~= s0.take(k));
                            assert(steps[k] == s0[k]);
                        } else {
                            assert(steps.take(k) =~= s0);
                        }
                    }
                }
                recompute_from_currently_covered(&cex_trace_states, &bex_trace_states, &cex_weights, &bex_weights,
                    bex_multiplier, &currently_covered, &mut covered_cex, &mut covered_bex_traces, &mut score_coverage);
                violating = violating_traces(instance, &covered_bex_traces);
            },
        }
    }
    if violating.len() > 0 {
        proof {
            let b = violating@[0];
            assert(violating@.to_set().contains(b));
            assert(instance.bex_traces@.contains_key(b) && instance.bex_traces@[b].must_not_cover);
            assert(covered_bex_traces@.contains(b));
            assert(meets(bex_bits_map(instance)[b], currently_covered@));
            assert(stuck_selection(instance, required_ids@, selected@));
            assert(must_met(instance, steps.to_set()));
            assert forall|q: usize| #[trigger] tighten_viable(instance, required_ids@, steps.to_set(), q)
                implies !frees_must(instance, steps.to_set(), q) by {
                assert(instance.predicates@.contains_key(q));
            }
            assert(greedy_run(instance, required_ids@, bex_multiplier, gain_costs@, steps, m, true));
        }
        return None;
    }
    proof {
        assert forall|b: usize| #[trigger] instance.bex_traces@.contains_key(b) && instance.bex_traces@[b].must_not_cover
            implies !meets(bex_bits_map(instance)[b], currently_covered@) by {
            if meets(bex_bits_map(instance)[b], currently_covered@) {
                assert(covered_bex_traces@.contains(b));
                assert(must_not_met(instance, covered_bex_traces@).contains(b));
                assert(violating@.to_set().contains(b));
            }
        }
    }
    let sel = usize_set_elems(&selected);
    proof {
        assert(sel@.to_set() == selected@);
        assert(!must_met(instance, steps.to_set()));
        assert(greedy_run(instance, required_ids@, bex_multiplier, gain_costs@, steps, m, false));
    }
    let cov = usize_set_elems(&covered_cex);
    let pen = usize_set_elems(&covered_bex_traces);
    proof {
        lemma_weight_of_subset(cex_weights@, covered_cex@, cex_trace_states@.dom());
        lemma_weight_of_subset(bex_weights@, covered_bex_traces@, bex_trace_states@.dom());
        lemma_scaled_subset(bex_weights@, covered_bex_traces@, bex_trace_states@.dom(), bex_multiplier as int);
        vstd::set_lib::lemma_len_subset(selected@, preds);
        lemma_weight_of_subset(final_costs@, selected@, preds);
        lemma_weight_of_subset(gain_costs@, preds, preds);
    }
    let covered_traces = weight_sum(&cov, &cex_weights);
    let bex_penalty_total = weight_sum(&pen, &bex_weights);
    let total_invariant_cost = weight_sum(&sel, final_costs);
    let final_score = covered_traces - bex_penalty_total * bex_multiplier - total_invariant_cost;
    Some(HeuristicResult {
        selected_predicates: sel,
        score: final_score,
        covered_traces,
        b_penalty: bex_penalty_total,
    })
}

} // verus!
