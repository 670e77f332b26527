//! Properties that hold across the operations of the library.

use vstd::prelude::*;
use std::sync::Arc;
use crate::predicates::{Operator, FormulaView, SeparatorFormula, pred_eq, spec_pred_inverse, spec_pred_operator, preds_contain,
    spec_should_add, blocks_addition, spec_invariant_eq};
use crate::samples::{StateMapping, ContainedState, CexTrace, trace_covered};
use crate::smt_solver::{pred_resolves, pred_holds, conj_holds, disj_holds, trace_holds, conj_covered_ids,
    disj_trace_holds, separator_holds, separator_trace_holds,
    disj_covered_ids, traces_where};
use crate::set_cover_instance::{root_of, touches, merged_root, bex_after_merge, bex_merge_ok, SetCoverBEXSample};
use crate::set_cover_preprocessing::{bex_total, lemma_bex_total_merge_step, is_group_rep, group_weight, cex_keys,
    cex_weights, bex_keys, bex_weights};
use crate::set_cover_preprocessing::weight_sums::{sum_over, group_reps, lemma_group_weights_add_up, lemma_sum_agree};
use crate::set_cover_instance::{SetCoverCEXTrace, SetCoverBEXTrace};
use crate::set_cover_preprocessing::{support_min, state_group_of, state_group_weight, kept_keys, kept_weights,
    lemma_group_min_is_support_min, lemma_min_of, state_rep, state_reps_of, support_keys, bex_weight_map,
    lemma_state_rep};
use crate::set_cover_instance::SetCoverInstance;
use crate::set_cover_preprocessing::state_weight_sums::{state_group_reps, lemma_state_group_weights_add_up,
    lemma_sum_states_agree, lemma_bex_total_is_sum, lemma_sum_states_disjoint_union, lemma_sum_states_zero,
    sum_over_states};
use crate::data_types::general_data_types::BitSetWrapper;

verus! {

/// The state an `Arc` points to.
pub open spec fn state_of(p: Arc<StateMapping>) -> StateMapping {
    *p
}

/// Inverting a predicate twice gives the predicate back.
pub proof fn law_inverse_involution(f: FormulaView)
    ensures
        spec_pred_inverse(spec_pred_inverse(f)) == f,
{
}

/// An equality, inequality, membership or exclusion predicate and its inverse
/// read the same signals, and in every state exactly one of them holds.
pub proof fn law_inverse_negates(f: FormulaView, st: StateMapping)
    requires
        spec_pred_operator(f) == Operator::Equal || spec_pred_operator(f) == Operator::NotEqual,
    ensures
        pred_resolves(spec_pred_inverse(f), st) == pred_resolves(f, st),
        pred_holds(spec_pred_inverse(f), st) == !pred_holds(f, st),
{
}

/// In every state a predicate or its inverse holds; for `>=` and `<=` both
/// hold where the signal equals the bound.
pub proof fn law_inverse_covers(f: FormulaView, st: StateMapping)
    ensures
        pred_resolves(spec_pred_inverse(f), st) == pred_resolves(f, st),
        pred_holds(f, st) || pred_holds(spec_pred_inverse(f), st),
{
}

/// Predicate equality is symmetric.
pub proof fn law_pred_eq_symmetric(a: FormulaView, b: FormulaView)
    ensures
        pred_eq(a, b) == pred_eq(b, a),
{
}

/// Every predicate equals itself.
pub proof fn law_pred_eq_reflexive(a: FormulaView)
    ensures
        pred_eq(a, a),
{
}

/// Every conjunction equals itself.
pub proof fn law_invariant_eq_reflexive(s: Seq<FormulaView>)
    ensures
        spec_invariant_eq(s, s),
{
    assert forall|i: int| 0 <= i < s.len() implies preds_contain(s, #[trigger] s[i]) by {
        law_pred_eq_reflexive(s[i]);
    }
}

/// After adding a predicate, the conjunction contains it.
pub proof fn law_added_predicate_is_contained(s: Seq<FormulaView>, p: FormulaView)
    ensures
        preds_contain(s.push(p), p),
{
    law_pred_eq_reflexive(p);
    assert(s.push(p)[s.len() as int] == p);
}

/// A predicate the conjunction already contains is never added again,
/// whatever the limit.
pub proof fn law_contained_predicate_not_added_again(s: Seq<FormulaView>, p: FormulaView, limit: usize)
    requires
        preds_contain(s, p),
    ensures
        !spec_should_add(s, p, limit),
{
    let i = choose|i: int| 0 <= i < s.len() && pred_eq(#[trigger] s[i], p);
    assert(blocks_addition(s, p, limit, i));
}

/// A conjunction holds exactly when each of its predicates holds.
pub proof fn law_conjunction_holds_when_all_hold(c: Seq<FormulaView>, st: StateMapping)
    ensures
        conj_holds(c, st) == forall|i: int| 0 <= i < c.len() ==> pred_holds(#[trigger] c[i], st),
    decreases c.len(),
{
    if c.len() > 0 {
        law_conjunction_holds_when_all_hold(c.drop_first(), st);
        if conj_holds(c, st) {
            assert forall|i: int| 0 <= i < c.len() implies pred_holds(#[trigger] c[i], st) by {
                if i > 0 {
                    assert(c.drop_first()[i - 1] == c[i]);
                }
            }
        } else if pred_holds(c[0], st) {
            let k = choose|k: int| 0 <= k < c.drop_first().len() && !pred_holds(#[trigger] c.drop_first()[k], st);
            assert(c.drop_first()[k] == c[k + 1]);
        }
    }
}

/// A disjunction holds exactly when one of its conjunctions holds.
pub proof fn law_disjunction_holds_when_one_holds(d: Seq<Seq<FormulaView>>, st: StateMapping)
    ensures
        disj_holds(d, st) == exists|j: int| 0 <= j < d.len() && conj_holds(#[trigger] d[j], st),
    decreases d.len(),
{
    if d.len() > 0 {
        law_disjunction_holds_when_one_holds(d.drop_first(), st);
        if disj_holds(d, st) {
            if !conj_holds(d[0], st) {
                let k = choose|k: int| 0 <= k < d.drop_first().len() && conj_holds(#[trigger] d.drop_first()[k], st);
                assert(d.drop_first()[k] == d[k + 1]);
            }
        } else {
            assert forall|j: int| 0 <= j < d.len() implies !conj_holds(#[trigger] d[j], st) by {
                if j > 0 {
                    assert(d.drop_first()[j - 1] == d[j]);
                }
            }
        }
    }
}

/// A conjunction holds on a trace exactly when it holds in one of its states.
pub proof fn law_trace_holds_in_some_state(c: Seq<FormulaView>, t: Seq<ContainedState>)
    ensures
        trace_holds(c, t) == exists|k: int| 0 <= k < t.len() && conj_holds(c, *(#[trigger] t[k]).state_pointer),
    decreases t.len(),
{
    if t.len() > 0 {
        law_trace_holds_in_some_state(c, t.drop_first());
        if trace_holds(c, t) {
            if !conj_holds(c, state_of(t[0].state_pointer)) {
                let k = choose|k: int| 0 <= k < t.drop_first().len() && conj_holds(c, *(#[trigger] t.drop_first()[k]).state_pointer);
                assert(t.drop_first()[k] == t[k + 1]);
            }
        } else {
            assert forall|k: int| 0 <= k < t.len() implies !conj_holds(c, *(#[trigger] t[k]).state_pointer) by {
                if k > 0 {
                    assert(t.drop_first()[k - 1] == t[k]);
                }
            }
        }
    }
}

/// A disjunction holds on a trace exactly when one of its conjunctions does.
pub proof fn law_disjunction_on_trace_holds_when_one_holds(d: Seq<Seq<FormulaView>>, t: Seq<ContainedState>)
    ensures
        disj_trace_holds(d, t) == exists|j: int| 0 <= j < d.len() && trace_holds(#[trigger] d[j], t),
    decreases d.len(),
{
    if d.len() > 0 {
        law_disjunction_on_trace_holds_when_one_holds(d.drop_first(), t);
        if disj_trace_holds(d, t) {
            if !trace_holds(d[0], t) {
                let k = choose|k: int| 0 <= k < d.drop_first().len() && trace_holds(#[trigger] d.drop_first()[k], t);
                assert(d.drop_first()[k] == d[k + 1]);
            }
        } else {
            assert forall|j: int| 0 <= j < d.len() implies !trace_holds(#[trigger] d[j], t) by {
                if j > 0 {
                    assert(d.drop_first()[j - 1] == d[j]);
                }
            }
        }
    }
}

/// A separator formula holds on a trace exactly when it holds in one of the
/// trace's states; on a trace without states it does not hold.
pub proof fn law_separator_holds_on_trace_in_some_state(f: SeparatorFormula, t: Seq<ContainedState>)
    ensures
        separator_trace_holds(f, t) == exists|k: int| 0 <= k < t.len() && separator_holds(f, *(#[trigger] t[k]).state_pointer),
        t.len() == 0 ==> !separator_trace_holds(f, t),
{
    match f {
        SeparatorFormula::Invariant(i) => {
            law_trace_holds_in_some_state(i@, t);
        },
        SeparatorFormula::InvariantDisjunction(dj) => {
            let d = dj@;
            law_disjunction_on_trace_holds_when_one_holds(d, t);
            if disj_trace_holds(d, t) {
                let j = choose|j: int| 0 <= j < d.len() && trace_holds(#[trigger] d[j], t);
                law_trace_holds_in_some_state(d[j], t);
                let k = choose|k: int| 0 <= k < t.len() && conj_holds(d[j], *(#[trigger] t[k]).state_pointer);
                law_disjunction_holds_when_one_holds(d, state_of(t[k].state_pointer));
                assert(separator_holds(f, *t[k].state_pointer));
            }
            if exists|k: int| 0 <= k < t.len() && separator_holds(f, *(#[trigger] t[k]).state_pointer) {
                let k = choose|k: int| 0 <= k < t.len() && separator_holds(f, *(#[trigger] t[k]).state_pointer);
                law_disjunction_holds_when_one_holds(d, state_of(t[k].state_pointer));
                let j = choose|j: int| 0 <= j < d.len() && conj_holds(#[trigger] d[j], *t[k].state_pointer);
                law_trace_holds_in_some_state(d[j], t);
                assert(trace_holds(d[j], t));
            }
            if t.len() == 0 {
                assert forall|j: int| 0 <= j < d.len() implies !trace_holds(#[trigger] d[j], t) by {}
            }
        },
    }
}

/// The merge of two conjunctions holds exactly when both hold.
pub proof fn law_merged_conjunction_holds(a: Seq<FormulaView>, b: Seq<FormulaView>, st: StateMapping)
    ensures
        conj_holds(a + b, st) == (conj_holds(a, st) && conj_holds(b, st)),
    decreases a.len(),
{
    if a.len() == 0 {
        assert(a + b =~= b);
    } else {
        law_merged_conjunction_holds(a.drop_first(), b, st);
        assert((a + b).drop_first() =~= a.drop_first() + b);
        assert((a + b)[0] == a[0]);
    }
}

/// Every id a coverage set holds belongs to one of the states.
proof fn lemma_covered_ids_are_state_ids(states: Seq<Arc<StateMapping>>, c: Seq<FormulaView>, x: u32)
    requires
        conj_covered_ids(states, c).contains(x),
    ensures
        exists|i: int| 0 <= i < states.len() && (#[trigger] states[i]).state_id as u32 == x,
    decreases states.len(),
{
    if states.len() > 0 {
        let prev = states.drop_last();
        if conj_covered_ids(prev, c).contains(x) {
            lemma_covered_ids_are_state_ids(prev, c, x);
            let i = choose|i: int| 0 <= i < prev.len() && (#[trigger] prev[i]).state_id as u32 == x;
            assert(states[i] == prev[i]);
        } else {
            assert(states[states.len() - 1].state_id as u32 == x);
        }
    }
}

/// No two states share an id, cut to 32 bits.
pub open spec fn state_ids_distinct(states: Seq<Arc<StateMapping>>) -> bool {
    forall|i: int, j: int| 0 <= i < j < states.len()
        ==> (#[trigger] states[i]).state_id as u32 != (#[trigger] states[j]).state_id as u32
}

/// Where no two states share an id, the states the merge of two conjunctions
/// covers are those both cover. (Two states with one id, each covered by one
/// side only, make the id covered by both sides and not by the merge.)
pub proof fn law_merged_coverage_is_intersection(states: Seq<Arc<StateMapping>>, a: Seq<FormulaView>, b: Seq<FormulaView>)
    requires
        state_ids_distinct(states),
    ensures
        conj_covered_ids(states, a + b) == conj_covered_ids(states, a).intersect(conj_covered_ids(states, b)),
    decreases states.len(),
{
    if states.len() > 0 {
        let prev = states.drop_last();
        let last = states.last();
        let x = last.state_id as u32;
        assert forall|i: int, j: int| 0 <= i < j < prev.len() implies
            (#[trigger] prev[i]).state_id as u32 != (#[trigger] prev[j]).state_id as u32 by {
            assert(prev[i] == states[i] && prev[j] == states[j]);
        }
        law_merged_coverage_is_intersection(prev, a, b);
        law_merged_conjunction_holds(a, b, state_of(last));
        if conj_covered_ids(prev, a).contains(x) {
            lemma_covered_ids_are_state_ids(prev, a, x);
            let i = choose|i: int| 0 <= i < prev.len() && (#[trigger] prev[i]).state_id as u32 == x;
            assert(states[i] == prev[i]);
            assert(false);
        }
        if conj_covered_ids(prev, b).contains(x) {
            lemma_covered_ids_are_state_ids(prev, b, x);
            let i = choose|i: int| 0 <= i < prev.len() && (#[trigger] prev[i]).state_id as u32 == x;
            assert(states[i] == prev[i]);
            assert(false);
        }
        assert(conj_covered_ids(states, a + b) =~= conj_covered_ids(states, a).intersect(conj_covered_ids(states, b)));
    }
}

/// Adding a conjunction to a disjunction adds the states that conjunction covers.
pub proof fn law_added_disjunct_coverage_is_union(states: Seq<Arc<StateMapping>>, d: Seq<Seq<FormulaView>>, c: Seq<FormulaView>)
    ensures
        disj_covered_ids(states, d.push(c)) == disj_covered_ids(states, d).union(conj_covered_ids(states, c)),
    decreases states.len(),
{
    if states.len() > 0 {
        let prev = states.drop_last();
        law_added_disjunct_coverage_is_union(prev, d, c);
        let st = state_of(states.last());
        law_disjunction_holds_when_one_holds(d.push(c), st);
        law_disjunction_holds_when_one_holds(d, st);
        if disj_holds(d, st) {
            let j = choose|j: int| 0 <= j < d.len() && conj_holds(#[trigger] d[j], st);
            assert(d.push(c)[j] == d[j]);
        }
        if conj_holds(c, st) {
            assert(d.push(c)[d.len() as int] == c);
        }
        if disj_holds(d.push(c), st) {
            let j = choose|j: int| 0 <= j < d.push(c).len() && conj_holds(#[trigger] d.push(c)[j], st);
            if j < d.len() {
                assert(d.push(c)[j] == d[j]);
            }
        }
        assert(disj_covered_ids(states, d.push(c)) =~= disj_covered_ids(states, d).union(conj_covered_ids(states, c)));
    }
}

/// A split sends every trace to exactly one side: the blocked traces to one,
/// the others to the other.
pub proof fn law_split_is_partition(traces: Seq<CexTrace>, blocked: Set<u32>)
    ensures
        traces_where(traces, blocked, true).len() + traces_where(traces, blocked, false).len() == traces.len(),
        forall|i: int| 0 <= i < traces_where(traces, blocked, true).len()
            ==> trace_covered((#[trigger] traces_where(traces, blocked, true)[i]).contained_samples@, blocked),
        forall|i: int| 0 <= i < traces_where(traces, blocked, false).len()
            ==> !trace_covered((#[trigger] traces_where(traces, blocked, false)[i]).contained_samples@, blocked),
    decreases traces.len(),
{
    if traces.len() > 0 {
        law_split_is_partition(traces.drop_last(), blocked);
    }
}

/// Joining a group's classes puts all members of the group under one
/// representative: that of its first member.
pub proof fn law_merge_joins_group(rep: Seq<u64>, group: Seq<u64>, j: int)
    requires
        0 <= j < group.len(),
    ensures
        merged_root(rep, group, group[j]) == root_of(rep, group[0]),
{
    assert(touches(rep, group, group.len() as int, group[j]));
}

/// Joining classes never separates two states that shared a representative.
pub proof fn law_merge_never_separates(rep: Seq<u64>, group: Seq<u64>, x: u64, y: u64)
    requires
        root_of(rep, x) == root_of(rep, y),
    ensures
        merged_root(rep, group, x) == merged_root(rep, group, y),
{
    if touches(rep, group, group.len() as int, x) {
        let j = choose|j: int| 0 <= j < group.len() && root_of(rep, group[j]) == root_of(rep, x);
        assert(touches(rep, group, group.len() as int, y));
    }
    if touches(rep, group, group.len() as int, y) {
        let j = choose|j: int| 0 <= j < group.len() && root_of(rep, group[j]) == root_of(rep, y);
        assert(touches(rep, group, group.len() as int, x));
    }
}

/// Joining the same group a second time changes no representative: where
/// `after` has the representatives that joining `group` in `rep` gives, joining
/// `group` in `after` gives them again.
pub proof fn law_merge_idempotent(rep: Seq<u64>, after: Seq<u64>, group: Seq<u64>, y: u64)
    requires
        group.len() > 0,
        after.len() == rep.len(),
        forall|k: int| 0 <= k < group.len() ==> (#[trigger] group[k] as int) < rep.len(),
        forall|x: u64| (x as int) < rep.len() ==> #[trigger] root_of(after, x) == merged_root(rep, group, x),
        (y as int) < rep.len(),
    ensures
        merged_root(after, group, y) == root_of(after, y),
{
    assert(root_of(after, group[0]) == merged_root(rep, group, group[0]));
    law_merge_joins_group(rep, group, 0);
    if touches(after, group, group.len() as int, y) {
        let j = choose|j: int| 0 <= j < group.len() && root_of(after, group[j]) == root_of(after, y);
        assert(root_of(after, group[j]) == merged_root(rep, group, group[j]));
        law_merge_joins_group(rep, group, j);
    }
}

/// Merging states onto one keeps the total weight of the benign samples.
pub proof fn law_merge_states_keeps_bex_total(bex: Map<u64, SetCoverBEXSample>, m: u64, rest: Seq<u64>)
    requires
        bex.dom().finite(),
        bex_merge_ok(bex, m, rest),
    ensures
        bex_after_merge(bex, m, rest).dom().finite(),
        bex_total(bex_after_merge(bex, m, rest)) == bex_total(bex),
    decreases rest.len(),
{
    if rest.len() > 0 {
        law_merge_states_keeps_bex_total(bex, m, rest.drop_last());
        let b = bex_after_merge(bex, m, rest.drop_last());
        let s = rest.last();
        if b.contains_key(s) {
            lemma_bex_total_merge_step(b, s, m, crate::set_cover_instance::merged_sample(b[m], b[s]));
        }
    }
}

/// The weights of the counterexample traces, summed.
pub open spec fn cex_trace_total(m: Map<usize, SetCoverCEXTrace>) -> int {
    sum_over(m.dom(), |t: usize| m[t].weight as int)
}

/// The weights of the benign traces, summed.
pub open spec fn bex_trace_total(m: Map<usize, SetCoverBEXTrace>) -> int {
    sum_over(m.dom(), |t: usize| m[t].weight as int)
}

/// Merging counterexample traces with the same states keeps their total
/// weight: where the remaining traces are the representatives of the groups
/// and each carries its group's weight, the weights add up to those before.
pub proof fn law_merge_cex_traces_keeps_weight(before: Map<usize, SetCoverCEXTrace>, after: Map<usize, SetCoverCEXTrace>)
    requires
        before.dom().finite(),
        forall|t: usize| #[trigger] after.contains_key(t) <==> is_group_rep(cex_keys(before), t),
        forall|t: usize| #[trigger] after.contains_key(t) ==> after[t].weight == group_weight(cex_keys(before), cex_weights(before), t),
    ensures
        cex_trace_total(after) == cex_trace_total(before),
{
    let keys = cex_keys(before);
    let w = cex_weights(before);
    assert(keys.dom() =~= before.dom());
    lemma_group_weights_add_up(keys, w);
    assert(after.dom() =~= group_reps(keys));
    lemma_sum_agree(after.dom(), |t: usize| after[t].weight as int, |r: usize| group_weight(keys, w, r));
    lemma_sum_agree(before.dom(), |u: usize| w[u] as int, |t: usize| before[t].weight as int);
}

/// Merging benign traces with the same states keeps their total weight, in
/// the same way.
pub proof fn law_merge_bex_traces_keeps_weight(before: Map<usize, SetCoverBEXTrace>, after: Map<usize, SetCoverBEXTrace>)
    requires
        before.dom().finite(),
        forall|t: usize| #[trigger] after.contains_key(t) <==> is_group_rep(bex_keys(before), t),
        forall|t: usize| #[trigger] after.contains_key(t) ==> after[t].weight == group_weight(bex_keys(before), bex_weights(before), t),
    ensures
        bex_trace_total(after) == bex_trace_total(before),
{
    let keys = bex_keys(before);
    let w = bex_weights(before);
    assert(keys.dom() =~= before.dom());
    lemma_group_weights_add_up(keys, w);
    assert(after.dom() =~= group_reps(keys));
    lemma_sum_agree(after.dom(), |t: usize| after[t].weight as int, |r: usize| group_weight(keys, w, r));
    lemma_sum_agree(before.dom(), |u: usize| w[u] as int, |t: usize| before[t].weight as int);
}

/// Merging the kept benign states with the same support keeps their total
/// weight: where the remaining samples are the smallest kept state of each
/// support, each with its group's weight, the weights add up to those kept.
pub proof fn law_merge_b_states_keeps_weight(
    kept: Map<u64, SetCoverBEXSample>,
    bs: Map<u64, BitSetWrapper>,
    after: Map<u64, SetCoverBEXSample>,
)
    requires
        kept.dom().finite(),
        after.dom() == Set::new(|r: u64| exists|s: u64| #[trigger] kept.contains_key(s) && support_min(kept, bs, bs[s]@) == r),
        forall|x: u64| #[trigger] after.contains_key(x)
            ==> after[x].weight == state_group_weight(kept_keys(kept, bs), kept_weights(kept), x),
    ensures
        bex_total(after) == bex_total(kept),
{
    let keys = kept_keys(kept, bs);
    let w = kept_weights(kept);
    assert(keys.dom() =~= kept.dom());
    assert(after.dom() =~= state_group_reps(keys)) by {
        assert forall|x: u64| after.dom().contains(x) implies state_group_reps(keys).contains(x) by {
            let s = choose|s: u64| #[trigger] kept.contains_key(s) && support_min(kept, bs, bs[s]@) == x;
            let g = state_group_of(keys, s);
            assert(g.subset_of(keys.dom()));
            vstd::set_lib::lemma_len_subset(g, keys.dom());
            assert(g.contains(s));
            let m = lemma_min_of(g);
            lemma_group_min_is_support_min(kept, bs, s, m);
            assert(state_group_of(keys, m) =~= g);
        }
        assert forall|r: u64| state_group_reps(keys).contains(r) implies after.dom().contains(r) by {
            assert(state_group_of(keys, r).contains(r));
            lemma_group_min_is_support_min(kept, bs, r, r);
            assert(kept.contains_key(r) && support_min(kept, bs, bs[r]@) == r);
        }
    }
    lemma_bex_total_is_sum(after);
    lemma_bex_total_is_sum(kept);
    lemma_state_group_weights_add_up(keys, w);
    lemma_sum_states_agree(after.dom(), |x: u64| after[x].weight as int, |r: u64| state_group_weight(keys, w, r));
    lemma_sum_states_agree(kept.dom(), |u: u64| w[u] as int, |x: u64| kept[x].weight as int);
}

proof fn lemma_merged_samples_are_reps(inst: &SetCoverInstance, after: Map<u64, SetCoverBEXSample>)
    requires
        inst.all_states@.finite(),
        inst.bex_samples@.dom().subset_of(inst.all_states@),
        after.dom() == state_reps_of(inst.bex_samples@.dom(), support_keys(inst)),
    ensures
        after.dom().subset_of(state_group_reps(support_keys(inst))),
{
    let keys = support_keys(inst);
    assert(keys.dom() =~= inst.all_states@);
    assert forall|x: u64| after.dom().contains(x) implies state_group_reps(keys).contains(x) by {
        let s = choose|s: u64| #[trigger] inst.bex_samples@.contains_key(s) && state_rep(keys, s) == x;
        let g = state_group_of(keys, s);
        assert(g.subset_of(keys.dom()));
        vstd::set_lib::lemma_len_subset(g, keys.dom());
        assert(g.contains(s));
        let m = lemma_min_of(g);
        lemma_state_rep(keys, s, m);
        assert(state_group_of(keys, x) =~= g);
    }
}

proof fn lemma_unmerged_groups_weigh_nothing(inst: &SetCoverInstance, after: Map<u64, SetCoverBEXSample>, r: u64)
    requires
        inst.all_states@.finite(),
        after.dom() == state_reps_of(inst.bex_samples@.dom(), support_keys(inst)),
        state_group_reps(support_keys(inst)).contains(r),
        !after.dom().contains(r),
    ensures
        state_group_weight(support_keys(inst), bex_weight_map(inst), r) == 0,
{
    let keys = support_keys(inst);
    let w = bex_weight_map(inst);
    let fw = |u: u64| w[u] as int;
    assert(keys.dom() =~= inst.all_states@);
    let g = state_group_of(keys, r);
    assert(g.subset_of(keys.dom()));
    vstd::set_lib::lemma_len_subset(g, keys.dom());
    assert forall|u: u64| #[trigger] g.contains(u) implies fw(u) == 0 by {
        if inst.bex_samples@.contains_key(u) {
            assert(state_group_of(keys, u) =~= g);
            lemma_state_rep(keys, u, r);
            assert(after.dom().contains(r));
        }
    }
    lemma_sum_states_zero(g, fw);
    assert(crate::set_cover_preprocessing::add_state_weight(w) =~= crate::set_cover_preprocessing::state_weight_sums::add_each_state(fw));
}

/// Merging the states with the same support keeps the total weight of the
/// benign samples: where each remaining sample stands for the group of a
/// benign state, under its smallest state, with the group's benign weight,
/// the weights add up to those before.
pub proof fn law_merge_states_keeps_weight(inst: &SetCoverInstance, after: Map<u64, SetCoverBEXSample>)
    requires
        inst.all_states@.finite(),
        inst.bex_samples@.dom().subset_of(inst.all_states@),
        after.dom() == state_reps_of(inst.bex_samples@.dom(), support_keys(inst)),
        forall|x: u64| #[trigger] after.contains_key(x)
            ==> after[x].weight == state_group_weight(support_keys(inst), bex_weight_map(inst), x),
    ensures
        bex_total(after) == bex_total(inst.bex_samples@),
{
    let keys = support_keys(inst);
    let w = bex_weight_map(inst);
    let bex = inst.bex_samples@;
    let reps = state_group_reps(keys);
    let gw = |r: u64| state_group_weight(keys, w, r);
    let fw = |u: u64| w[u] as int;
    assert(keys.dom() =~= inst.all_states@);
    lemma_state_group_weights_add_up(keys, w);
    // The remaining samples are the representatives of groups with a benign state.
    lemma_merged_samples_are_reps(inst, after);
    let rest = reps.difference(after.dom());
    assert forall|r: u64| #[trigger] rest.contains(r) implies gw(r) == 0 by {
        lemma_unmerged_groups_weigh_nothing(inst, after, r);
    }
    vstd::set_lib::lemma_len_subset(after.dom(), reps);
    vstd::set_lib::lemma_len_subset(rest, reps);
    assert(reps =~= after.dom().union(rest));
    lemma_sum_states_disjoint_union(after.dom(), rest, gw);
    lemma_sum_states_zero(rest, gw);
    // The states without a benign sample weigh nothing.
    let others = inst.all_states@.difference(bex.dom());
    vstd::set_lib::lemma_len_subset(others, inst.all_states@);
    vstd::set_lib::lemma_len_subset(bex.dom(), inst.all_states@);
    assert(inst.all_states@ =~= bex.dom().union(others));
    lemma_sum_states_disjoint_union(bex.dom(), others, fw);
    lemma_sum_states_zero(others, fw);
    lemma_sum_states_agree(bex.dom(), fw, |x: u64| bex[x].weight as int);
    lemma_bex_total_is_sum(after);
    lemma_bex_total_is_sum(bex);
    lemma_sum_states_agree(after.dom(), |x: u64| after[x].weight as int, gw);
}

} // verus!
