//! Evaluation of predicates, conjunctions, disjunctions and separator
//! formulas on sampled states and traces, and the coverage and example
//! splits computed from it.

use vstd::prelude::*;
use crate::predicates::{Operator, FormulaView, BasePredicate, BaseFormula, Invariant, InvariantDisjunction,
    SeparatorFormula, BaseSignalToConstFormula, BaseSignalToConstSetFormula, BaseFormulaTwoSignalCompare};
use std::sync::Arc;
use crate::samples::{StateMapping, ContainedState, CexTrace, Sample, Teacher, trace_covered};
use crate::predicates::ScoreAndFulfilledExample;
use crate::data_types::general_data_types::{BitSetWrapper, bitset_index_ok};
use vstd::std_specs::convert::FromSpecImpl;

verus! {

/// Outcome of a satisfiability question.
#[derive(PartialEq, Eq, Structural, Debug, Clone, Copy)]
pub enum SatResult {
    Sat,
    Unsat,
    Unknown,
}

/// A formula whose truth value is already decided.
#[derive(PartialEq, Eq, Structural, Debug, Clone, Copy)]
pub enum Formula {
    KnownBoolean(bool),
}

impl Formula {
    pub open spec fn truth(self) -> bool {
        match self {
            Formula::KnownBoolean(b) => b,
        }
    }

    pub fn is_known_true(&self) -> (r: bool)
        ensures
            r == self.truth(),
    {
        match self {
            Formula::KnownBoolean(truth_value) => *truth_value,
        }
    }

    pub fn is_known_false(&self) -> (r: bool)
        ensures
            r == !self.truth(),
    {
        match self {
            Formula::KnownBoolean(truth_value) => !*truth_value,
        }
    }
}

/// A true formula is satisfiable, a false one is not.
pub open spec fn spec_sat_result(f: Formula) -> SatResult {
    if f.truth() { SatResult::Sat } else { SatResult::Unsat }
}

impl From<Formula> for SatResult {
    fn from(formula: Formula) -> (r: SatResult) {
        match formula {
            Formula::KnownBoolean(truth_value) => {
                if truth_value {
                    SatResult::Sat
                } else {
                    SatResult::Unsat
                }
            },
        }
    }
}

impl FromSpecImpl<Formula> for SatResult {
    open spec fn obeys_from_spec() -> bool {
        true
    }

    open spec fn from_spec(formula: Formula) -> SatResult {
        spec_sat_result(formula)
    }
}

// ----------------------------------------------------------------------------
// Meaning of formulas on a state
// ----------------------------------------------------------------------------

/// `left op right`.
pub open spec fn apply_op(op: Operator, left: i64, right: i64) -> bool {
    match op {
        Operator::Equal => left == right,
        Operator::NotEqual => left != right,
        Operator::GreaterEqual => left >= right,
        Operator::SmallerEqual => left <= right,
    }
}

/// Every signal the predicate reads has a value in the state.
pub open spec fn pred_resolves(f: FormulaView, st: StateMapping) -> bool {
    match f {
        FormulaView::SignalToConst(x) => st.resolves(x.signal_idx, x.signal_name),
        FormulaView::ValueNotIn(x) => st.resolves(x.signal_idx, x.signal_name),
        FormulaView::ValueIn(x) => st.resolves(x.signal_idx, x.signal_name),
        FormulaView::TwoSignalEqual(x) => st.resolves(x.signal_idx1, x.signal_name1)
            && st.resolves(x.signal_idx2, x.signal_name2),
    }
}

/// The predicate holds in the state.
pub open spec fn pred_holds(f: FormulaView, st: StateMapping) -> bool {
    match f {
        FormulaView::SignalToConst(x) => apply_op(x.operator, st.signal_value(x.signal_idx, x.signal_name), x.value),
        FormulaView::ValueNotIn(x) => !x.values.contains(st.signal_value(x.signal_idx, x.signal_name)),
        FormulaView::ValueIn(x) => x.values.contains(st.signal_value(x.signal_idx, x.signal_name)),
        FormulaView::TwoSignalEqual(x) => apply_op(
            x.operation,
            st.signal_value(x.signal_idx1, x.signal_name1),
            st.signal_value(x.signal_idx2, x.signal_name2),
        ),
    }
}

/// Every predicate of the conjunction holds in the state.
pub open spec fn conj_holds(c: Seq<FormulaView>, st: StateMapping) -> bool
    decreases c.len(),
{
    if c.len() == 0 {
        true
    } else {
        pred_holds(c[0], st) && conj_holds(c.drop_first(), st)
    }
}

/// Evaluating the conjunction from the left, stopping at the first false
/// predicate, reads only signals that have a value.
pub open spec fn conj_evaluable(c: Seq<FormulaView>, st: StateMapping) -> bool
    decreases c.len(),
{
    if c.len() == 0 {
        true
    } else {
        pred_resolves(c[0], st) && (pred_holds(c[0], st) ==> conj_evaluable(c.drop_first(), st))
    }
}

/// Some conjunction of the disjunction holds in the state.
pub open spec fn disj_holds(d: Seq<Seq<FormulaView>>, st: StateMapping) -> bool
    decreases d.len(),
{
    if d.len() == 0 {
        false
    } else {
        conj_holds(d[0], st) || disj_holds(d.drop_first(), st)
    }
}

/// Evaluating the disjunction from the left, stopping at the first true
/// conjunction, reads only signals that have a value.
pub open spec fn disj_evaluable(d: Seq<Seq<FormulaView>>, st: StateMapping) -> bool
    decreases d.len(),
{
    if d.len() == 0 {
        true
    } else {
        conj_evaluable(d[0], st) && (!conj_holds(d[0], st) ==> disj_evaluable(d.drop_first(), st))
    }
}

/// The conjunction holds in some state of the trace.
pub open spec fn trace_holds(c: Seq<FormulaView>, t: Seq<ContainedState>) -> bool
    decreases t.len(),
{
    if t.len() == 0 {
        false
    } else {
        conj_holds(c, *t[0].state_pointer) || trace_holds(c, t.drop_first())
    }
}

/// Walking the trace until the conjunction holds reads only signals that have a value.
pub open spec fn trace_evaluable(c: Seq<FormulaView>, t: Seq<ContainedState>) -> bool
    decreases t.len(),
{
    if t.len() == 0 {
        true
    } else {
        conj_evaluable(c, *t[0].state_pointer)
            && (!conj_holds(c, *t[0].state_pointer) ==> trace_evaluable(c, t.drop_first()))
    }
}

/// Some conjunction of the disjunction holds in some state of the trace.
pub open spec fn disj_trace_holds(d: Seq<Seq<FormulaView>>, t: Seq<ContainedState>) -> bool
    decreases d.len(),
{
    if d.len() == 0 {
        false
    } else {
        trace_holds(d[0], t) || disj_trace_holds(d.drop_first(), t)
    }
}

pub open spec fn disj_trace_evaluable(d: Seq<Seq<FormulaView>>, t: Seq<ContainedState>) -> bool
    decreases d.len(),
{
    if d.len() == 0 {
        true
    } else {
        trace_evaluable(d[0], t) && (!trace_holds(d[0], t) ==> disj_trace_evaluable(d.drop_first(), t))
    }
}

/// A separator formula holds in a state.
pub open spec fn separator_holds(f: SeparatorFormula, st: StateMapping) -> bool {
    match f {
        SeparatorFormula::InvariantDisjunction(d) => disj_holds(d@, st),
        SeparatorFormula::Invariant(i) => conj_holds(i@, st),
    }
}

pub open spec fn separator_evaluable(f: SeparatorFormula, st: StateMapping) -> bool {
    match f {
        SeparatorFormula::InvariantDisjunction(d) => disj_evaluable(d@, st),
        SeparatorFormula::Invariant(i) => conj_evaluable(i@, st),
    }
}

/// A separator formula holds in some state of a trace.
pub open spec fn separator_trace_holds(f: SeparatorFormula, t: Seq<ContainedState>) -> bool {
    match f {
        SeparatorFormula::InvariantDisjunction(d) => disj_trace_holds(d@, t),
        SeparatorFormula::Invariant(i) => trace_holds(i@, t),
    }
}

pub open spec fn separator_trace_evaluable(f: SeparatorFormula, t: Seq<ContainedState>) -> bool {
    match f {
        SeparatorFormula::InvariantDisjunction(d) => disj_trace_evaluable(d@, t),
        SeparatorFormula::Invariant(i) => trace_evaluable(i@, t),
    }
}

// ----------------------------------------------------------------------------
// Evaluation
// ----------------------------------------------------------------------------

pub fn apply_operation(operator: &Operator, left: i64, right: i64) -> (r: bool)
    ensures
        r == apply_op(*operator, left, right),
{
    match operator {
        Operator::Equal => left == right,
        Operator::NotEqual => left != right,
        Operator::GreaterEqual => left >= right,
        Operator::SmallerEqual => left <= right,
    }
}

fn signal_value(sample: &StateMapping, signal_idx: Option<u64>, signal_name: &String) -> (r: i64)
    requires
        sample.resolves(signal_idx, signal_name@),
    ensures
        r == sample.signal_value(signal_idx, signal_name@),
{
    match signal_idx {
        Some(idx) => sample.get_signal_value_from_index(&idx),
        None => sample.get_signal_value_from_string(signal_name.as_str()),
    }
}

fn evaluate_signal_to_const_formula_and_sample(predicate: &BaseSignalToConstFormula, sample: &StateMapping) -> (r: Formula)
    requires
        pred_resolves(FormulaView::SignalToConst(predicate@), *sample),
    ensures
        r.truth() == pred_holds(FormulaView::SignalToConst(predicate@), *sample),
{
    let predicate_value = predicate.get_value();
    let value = signal_value(sample, predicate.signal_idx, &predicate.signal_name);
    Formula::KnownBoolean(apply_operation(&predicate.operator, value, predicate_value))
}

fn evaluate_signal_to_const_set_formula_and_sample(
    predicate: &BaseSignalToConstSetFormula,
    sample: &StateMapping,
    not_in: bool,
) -> (r: Formula)
    requires
        pred_resolves(FormulaView::ValueIn(predicate@), *sample),
    ensures
        r.truth() == if not_in {
            pred_holds(FormulaView::ValueNotIn(predicate@), *sample)
        } else {
            pred_holds(FormulaView::ValueIn(predicate@), *sample)
        },
{
    let value = signal_value(sample, predicate.signal_idx, &predicate.signal_name);
    let values = predicate.get_values();
    let n = values.len();
    let mut is_in_set = false;
    for i in 0..n
        invariant
            n == values@.len(),
            values@ == predicate.values@,
            !is_in_set ==> forall|k: int| 0 <= k < i ==> values@[k] != value,
            is_in_set ==> values@.contains(value),
    {
        if values[i] == value {
            is_in_set = true;
        }
    }
    let result = if not_in { !is_in_set } else { is_in_set };
    Formula::KnownBoolean(result)
}

pub fn evaluate_two_signal_formula(predicate: &BaseFormulaTwoSignalCompare, sample: &StateMapping) -> (r: Formula)
    requires
        pred_resolves(FormulaView::TwoSignalEqual(predicate@), *sample),
    ensures
        r.truth() == pred_holds(FormulaView::TwoSignalEqual(predicate@), *sample),
{
    let signal_value_1 = signal_value(sample, predicate.signal_idx1, &predicate.signal_name1);
    let signal_value_2 = signal_value(sample, predicate.signal_idx2, &predicate.signal_name2);
    Formula::KnownBoolean(apply_operation(&predicate.operation, signal_value_1, signal_value_2))
}

fn construct_z3_formula_predicate_and_sample(predicate: &BasePredicate, sample: &StateMapping) -> (r: Formula)
    requires
        pred_resolves(predicate@, *sample),
    ensures
        r.truth() == pred_holds(predicate@, *sample),
{
    match &predicate.base_formula {
        BaseFormula::SignalToConst(f) => evaluate_signal_to_const_formula_and_sample(f, sample),
        BaseFormula::ValueNotIn(f) => evaluate_signal_to_const_set_formula_and_sample(f, sample, true),
        BaseFormula::ValueIn(f) => evaluate_signal_to_const_set_formula_and_sample(f, sample, false),
        BaseFormula::TwoSignalEqual(f) => evaluate_two_signal_formula(f, sample),
    }
}

fn construct_z3_formula_for_sample_and_invariant(sample: &StateMapping, inv: &Invariant) -> (r: Formula)
    requires
        conj_evaluable(inv@, *sample),
    ensures
        r.truth() == conj_holds(inv@, *sample),
{
    let n = inv.predicate_set.predicates.len();
    let ghost c = inv@;
    assert(c.skip(0) =~= c);
    for i in 0..n
        invariant
            n == c.len(),
            c == inv@,
            conj_holds(c, *sample) == conj_holds(c.skip(i as int), *sample),
            conj_evaluable(c.skip(i as int), *sample),
    {
        let ghost rest = c.skip(i as int);
        assert(rest.drop_first() =~= c.skip(i + 1));
        assert(rest[0] == c[i as int]);
        let formula = construct_z3_formula_predicate_and_sample(&inv.predicate_set.predicates[i], sample);
        if formula.is_known_false() {
            return Formula::KnownBoolean(false);
        }
    }
    Formula::KnownBoolean(true)
}

/// A benign state is allowed by an invariant exactly when the invariant does
/// not hold in it.
pub fn construct_z3_formula_for_bex_sample_and_invariant(sample: &StateMapping, inv: &Invariant) -> (r: Formula)
    requires
        conj_evaluable(inv@, *sample),
    ensures
        r.truth() == !conj_holds(inv@, *sample),
{
    let this_formula = construct_z3_formula_for_sample_and_invariant(sample, inv);
    match this_formula {
        Formula::KnownBoolean(x) => Formula::KnownBoolean(!x),
    }
}

fn construct_z3_formula_for_maybesample_and_invariant(maybe_sample: &CexTrace, inv: &Invariant) -> (r: Formula)
    requires
        trace_evaluable(inv@, maybe_sample.contained_samples@),
    ensures
        r.truth() == trace_holds(inv@, maybe_sample.contained_samples@),
{
    let n = maybe_sample.contained_samples.len();
    let ghost t = maybe_sample.contained_samples@;
    assert(t.skip(0) =~= t);
    for i in 0..n
        invariant
            n == t.len(),
            t == maybe_sample.contained_samples@,
            trace_holds(inv@, t) == trace_holds(inv@, t.skip(i as int)),
            trace_evaluable(inv@, t.skip(i as int)),
    {
        let ghost rest = t.skip(i as int);
        assert(rest.drop_first() =~= t.skip(i + 1));
        assert(rest[0] == t[i as int]);
        let this_cycle_formula = construct_z3_formula_for_sample_and_invariant(&*maybe_sample.contained_samples[i].state_pointer, inv);
        if this_cycle_formula.is_known_true() {
            return Formula::KnownBoolean(true);
        }
    }
    Formula::KnownBoolean(false)
}

fn evaluate_invariant_disjunction_on_maybe_sample(maybe_sample: &CexTrace, invariant_disjunction: &InvariantDisjunction) -> (r: Formula)
    requires
        disj_trace_evaluable(invariant_disjunction@, maybe_sample.contained_samples@),
    ensures
        r.truth() == disj_trace_holds(invariant_disjunction@, maybe_sample.contained_samples@),
{
    let n = invariant_disjunction.disjunctions.len();
    let ghost d = invariant_disjunction@;
    assert(d.skip(0) =~= d);
    for i in 0..n
        invariant
            n == d.len(),
            d == invariant_disjunction@,
            disj_trace_holds(d, maybe_sample.contained_samples@) == disj_trace_holds(d.skip(i as int), maybe_sample.contained_samples@),
            disj_trace_evaluable(d.skip(i as int), maybe_sample.contained_samples@),
    {
        let ghost rest = d.skip(i as int);
        assert(rest.drop_first() =~= d.skip(i + 1));
        assert(rest[0] == d[i as int]);
        let formula = construct_z3_formula_for_maybesample_and_invariant(maybe_sample, &invariant_disjunction.disjunctions[i]);
        if formula.is_known_true() {
            return Formula::KnownBoolean(true);
        }
    }
    Formula::KnownBoolean(false)
}

pub fn evaluate_invariant_disjunction_on_sample(sample: &StateMapping, invariant_disjunction: &InvariantDisjunction) -> (r: Formula)
    requires
        disj_evaluable(invariant_disjunction@, *sample),
    ensures
        r.truth() == disj_holds(invariant_disjunction@, *sample),
{
    let n = invariant_disjunction.disjunctions.len();
    let ghost d = invariant_disjunction@;
    assert(d.skip(0) =~= d);
    for i in 0..n
        invariant
            n == d.len(),
            d == invariant_disjunction@,
            disj_holds(d, *sample) == disj_holds(d.skip(i as int), *sample),
            disj_evaluable(d.skip(i as int), *sample),
    {
        let ghost rest = d.skip(i as int);
        assert(rest.drop_first() =~= d.skip(i + 1));
        assert(rest[0] == d[i as int]);
        let formula = construct_z3_formula_for_sample_and_invariant(sample, &invariant_disjunction.disjunctions[i]);
        if formula.is_known_true() {
            return Formula::KnownBoolean(true);
        }
    }
    Formula::KnownBoolean(false)
}

pub fn evaluate_separator_formula_on_maybe_sample(maybe_sample: &CexTrace, separator_formula: &SeparatorFormula) -> (r: Formula)
    requires
        separator_trace_evaluable(*separator_formula, maybe_sample.contained_samples@),
    ensures
        r.truth() == separator_trace_holds(*separator_formula, maybe_sample.contained_samples@),
{
    match separator_formula {
        SeparatorFormula::InvariantDisjunction(d) => evaluate_invariant_disjunction_on_maybe_sample(maybe_sample, d),
        SeparatorFormula::Invariant(i) => construct_z3_formula_for_maybesample_and_invariant(maybe_sample, i),
    }
}

pub fn evaluate_separator_formula_on_sample(sample: &StateMapping, separator_formula: &SeparatorFormula) -> (r: Formula)
    requires
        separator_evaluable(*separator_formula, *sample),
    ensures
        r.truth() == separator_holds(*separator_formula, *sample),
{
    match separator_formula {
        SeparatorFormula::InvariantDisjunction(d) => evaluate_invariant_disjunction_on_sample(sample, d),
        SeparatorFormula::Invariant(i) => construct_z3_formula_for_sample_and_invariant(sample, i),
    }
}

} // verus!

verus! {

// ----------------------------------------------------------------------------
// Coverage of the examples
// ----------------------------------------------------------------------------

/// The ids, cut to 32 bits, of the states in which the conjunction holds.
pub open spec fn conj_covered_ids(states: Seq<Arc<StateMapping>>, c: Seq<FormulaView>) -> Set<u32>
    decreases states.len(),
{
    if states.len() == 0 {
        Set::empty()
    } else {
        let prev = conj_covered_ids(states.drop_last(), c);
        if conj_holds(c, *states.last()) { prev.insert(states.last().state_id as u32) } else { prev }
    }
}

/// The ids, cut to 32 bits, of the states in which the disjunction holds.
pub open spec fn disj_covered_ids(states: Seq<Arc<StateMapping>>, d: Seq<Seq<FormulaView>>) -> Set<u32>
    decreases states.len(),
{
    if states.len() == 0 {
        Set::empty()
    } else {
        let prev = disj_covered_ids(states.drop_last(), d);
        if disj_holds(d, *states.last()) { prev.insert(states.last().state_id as u32) } else { prev }
    }
}

/// The ids, cut to 32 bits, of the states in which the separator formula holds.
pub open spec fn separator_covered_ids(states: Seq<Arc<StateMapping>>, f: SeparatorFormula) -> Set<u32>
    decreases states.len(),
{
    if states.len() == 0 {
        Set::empty()
    } else {
        let prev = separator_covered_ids(states.drop_last(), f);
        if separator_holds(f, *states.last()) { prev.insert(states.last().state_id as u32) } else { prev }
    }
}

/// The ids, cut to 32 bits, of the states of a trace in which the conjunction holds, in order.
pub open spec fn sample_ids_where(samples: Seq<ContainedState>, c: Seq<FormulaView>) -> Seq<u32>
    decreases samples.len(),
{
    if samples.len() == 0 {
        Seq::empty()
    } else {
        let prev = sample_ids_where(samples.drop_last(), c);
        if conj_holds(c, *samples.last().state_pointer) { prev.push(samples.last().state_id as u32) } else { prev }
    }
}

/// `sample_ids_where` over the traces one after the other.
pub open spec fn trace_ids_where(traces: Seq<CexTrace>, c: Seq<FormulaView>) -> Seq<u32>
    decreases traces.len(),
{
    if traces.len() == 0 {
        Seq::empty()
    } else {
        trace_ids_where(traces.drop_last(), c) + sample_ids_where(traces.last().contained_samples@, c)
    }
}

/// The traces that are (`covered`) or are not (`!covered`) blocked by `blocked`, in order.
pub open spec fn traces_where(traces: Seq<CexTrace>, blocked: Set<u32>, covered: bool) -> Seq<CexTrace>
    decreases traces.len(),
{
    if traces.len() == 0 {
        Seq::empty()
    } else {
        let prev = traces_where(traces.drop_last(), blocked, covered);
        if trace_covered(traces.last().contained_samples@, blocked) == covered { prev.push(traces.last()) } else { prev }
    }
}

/// The benign states whose id is (`covered`) or is not (`!covered`) in `blocked`, in order.
pub open spec fn samples_where(samples: Seq<Sample>, blocked: Set<u32>, covered: bool) -> Seq<Sample>
    decreases samples.len(),
{
    if samples.len() == 0 {
        Seq::empty()
    } else {
        let prev = samples_where(samples.drop_last(), blocked, covered);
        if blocked.contains(samples.last().state_id as u32) == covered { prev.push(samples.last()) } else { prev }
    }
}

pub open spec fn deref_traces(s: Seq<&CexTrace>) -> Seq<CexTrace> {
    s.map_values(|t: &CexTrace| *t)
}

pub open spec fn deref_samples(s: Seq<&Sample>) -> Seq<Sample> {
    s.map_values(|t: &Sample| *t)
}

/// One side of a split of the counterexample and benign traces.
pub struct ExamplesSplit<'a> {
    pub cex_traces: Vec<&'a CexTrace>,
    pub bex_traces: Vec<&'a CexTrace>,
}

/// One side of a split of the counterexample traces and benign states.
pub struct SamplesSplit<'a> {
    pub cex_traces: Vec<&'a CexTrace>,
    pub bex_samples: Vec<&'a Sample>,
}

/// Every state of the examples can be entered in a set of state ids.
pub open spec fn ids_fit(states: Seq<Arc<StateMapping>>) -> bool {
    forall|i: int| 0 <= i < states.len() ==> bitset_index_ok(#[trigger] states[i].state_id as u32)
}

/// Every state of every trace has the signals the conjunction reads where it is evaluated.
pub open spec fn traces_evaluable(traces: Seq<CexTrace>, c: Seq<FormulaView>) -> bool {
    forall|i: int, k: int| 0 <= i < traces.len() && 0 <= k < traces[i].contained_samples@.len()
        ==> conj_evaluable(c, *(#[trigger] traces[i].contained_samples@[k]).state_pointer)
}

fn keep_traces<'a>(traces: &'a Vec<CexTrace>, blocked: &BitSetWrapper, covered: bool) -> (r: Vec<&'a CexTrace>)
    ensures
        deref_traces(r@) == traces_where(traces@, blocked@, covered),
{
    let mut r: Vec<&'a CexTrace> = Vec::new();
    let n = traces.len();
    for i in 0..n
        invariant
            n == traces@.len(),
            deref_traces(r@) == traces_where(traces@.take(i as int), blocked@, covered),
    {
        assert(traces@.take(i + 1).drop_last() =~= traces@.take(i as int));
        let t: &'a CexTrace = &traces[i];
        if t.is_covered_by_blocked_states(blocked) == covered {
            r.push(t);
            assert(deref_traces(r@) =~= traces_where(traces@.take(i + 1), blocked@, covered));
        } else {
            assert(deref_traces(r@) =~= traces_where(traces@.take(i + 1), blocked@, covered));
        }
    }
    assert(traces@.take(n as int) =~= traces@);
    r
}

fn all_traces<'a>(traces: &'a Vec<CexTrace>) -> (r: Vec<&'a CexTrace>)
    ensures
        deref_traces(r@) == traces@,
{
    let mut r: Vec<&'a CexTrace> = Vec::new();
    let n = traces.len();
    for i in 0..n
        invariant
            n == traces@.len(),
            deref_traces(r@) == traces@.take(i as int),
    {
        let ghost before = r@;
        r.push(&traces[i]);
        assert(traces@.take(i + 1) =~= traces@.take(i as int).push(traces@[i as int]));
        assert(r@ == before.push(&traces@[i as int]));
        assert(deref_traces(r@) =~= deref_traces(before).push(traces@[i as int]));
        assert(deref_traces(r@) =~= traces@.take(i + 1));
    }
    assert(traces@.take(n as int) =~= traces@);
    r
}

fn keep_samples<'a>(samples: &'a Vec<Sample>, blocked: &BitSetWrapper, covered: bool) -> (r: Vec<&'a Sample>)
    ensures
        deref_samples(r@) == samples_where(samples@, blocked@, covered),
{
    let mut r: Vec<&'a Sample> = Vec::new();
    let n = samples.len();
    for i in 0..n
        invariant
            n == samples@.len(),
            deref_samples(r@) == samples_where(samples@.take(i as int), blocked@, covered),
    {
        assert(samples@.take(i + 1).drop_last() =~= samples@.take(i as int));
        let s: &'a Sample = &samples[i];
        let id: u32 = s.state_id as u32;
        if blocked.contains(&id) == covered {
            r.push(s);
            assert(deref_samples(r@) =~= samples_where(samples@.take(i + 1), blocked@, covered));
        } else {
            assert(deref_samples(r@) =~= samples_where(samples@.take(i + 1), blocked@, covered));
        }
    }
    assert(samples@.take(n as int) =~= samples@);
    r
}

/// Splits the examples by the states a scored formula covers: the first part
/// keeps every counterexample trace and the benign states that stay blocked,
/// the second holds what is covered, the third what is not.
pub fn calculate_examples_split_from_scored_invariant<'a>(score: &ScoreAndFulfilledExample, teacher: &'a Teacher)
    -> (r: (SamplesSplit<'a>, SamplesSplit<'a>, SamplesSplit<'a>))
    ensures
        ({
            let blocked = score.cover_info.covered_states@;
            &&& deref_traces(r.0.cex_traces@) == teacher.cex_traces@
            &&& deref_samples(r.0.bex_samples@) == samples_where(teacher.bex_samples@, blocked, true)
            &&& deref_traces(r.1.cex_traces@) == traces_where(teacher.cex_traces@, blocked, true)
            &&& deref_samples(r.1.bex_samples@) == samples_where(teacher.bex_samples@, blocked, true)
            &&& deref_traces(r.2.cex_traces@) == traces_where(teacher.cex_traces@, blocked, false)
            &&& deref_samples(r.2.bex_samples@) == samples_where(teacher.bex_samples@, blocked, false)
        }),
{
    let covered = &score.cover_info.covered_states;
    let remaining = SamplesSplit {
        cex_traces: all_traces(&teacher.cex_traces),
        bex_samples: keep_samples(&teacher.bex_samples, covered, true),
    };
    let lhs = SamplesSplit {
        cex_traces: keep_traces(&teacher.cex_traces, covered, true),
        bex_samples: keep_samples(&teacher.bex_samples, covered, true),
    };
    let rhs = SamplesSplit {
        cex_traces: keep_traces(&teacher.cex_traces, covered, false),
        bex_samples: keep_samples(&teacher.bex_samples, covered, false),
    };
    (remaining, lhs, rhs)
}

/// Evaluates formulas on the examples of a teacher.
pub struct SMTSolver<'a> {
    teacher: &'a Teacher,
}

/// Builds a solver over a set of examples.
pub trait Solver<'a>: Sized {
    fn new_from_teacher(teacher: &'a Teacher) -> Self;
}

impl<'a> Solver<'a> for SMTSolver<'a> {
    fn new_from_teacher(teacher: &'a Teacher) -> (r: Self)
        ensures
            r.examples() == *teacher,
    {
        SMTSolver { teacher }
    }
}

impl<'a> SMTSolver<'a> {
    /// The examples the solver evaluates on.
    pub closed spec fn examples(&self) -> Teacher {
        *self.teacher
    }

    /// The ids of the counterexample states in which the conjunction holds,
    /// trace by trace, in order.
    pub fn get_fulfilled_cex_samples(&self, inv: &Invariant) -> (r: Vec<u32>)
        requires
            traces_evaluable(self.examples().cex_traces@, inv@),
        ensures
            r@ == trace_ids_where(self.examples().cex_traces@, inv@),
    {
        let traces = &self.teacher.cex_traces;
        let mut result_vec: Vec<u32> = Vec::new();
        let n = traces.len();
        for i in 0..n
            invariant
                n == traces@.len(),
                traces_evaluable(traces@, inv@),
                result_vec@ == trace_ids_where(traces@.take(i as int), inv@),
        {
            let samples = &traces[i].contained_samples;
            let m = samples.len();
            assert(traces@.take(i + 1).drop_last() =~= traces@.take(i as int));
            for j in 0..m
                invariant
                    n == traces@.len(),
                    i < n,
                    samples@ == traces@[i as int].contained_samples@,
                    m == samples@.len(),
                    traces_evaluable(traces@, inv@),
                    result_vec@ == trace_ids_where(traces@.take(i as int), inv@) + sample_ids_where(samples@.take(j as int), inv@),
            {
                assert(samples@.take(j + 1).drop_last() =~= samples@.take(j as int));
                assert(conj_evaluable(inv@, *samples@[j as int].state_pointer));
                let formula = construct_z3_formula_for_sample_and_invariant(&*samples[j].state_pointer, inv);
                if formula.is_known_true() {
                    result_vec.push(samples[j].state_id as u32);
                }
                assert(result_vec@ =~= trace_ids_where(traces@.take(i as int), inv@) + sample_ids_where(samples@.take(j + 1), inv@));
            }
            assert(samples@.take(m as int) =~= samples@);
            assert(result_vec@ =~= trace_ids_where(traces@.take(i + 1), inv@));
        }
        assert(traces@.take(n as int) =~= traces@);
        result_vec
    }

    /// The ids of the states in which the conjunction holds.
    pub fn get_covered_states(&self, inv: &Invariant) -> (r: BitSetWrapper)
        requires
            ids_fit(self.examples().states@),
            forall|i: int| 0 <= i < self.examples().states@.len()
                ==> conj_evaluable(inv@, *#[trigger] self.examples().states@[i]),
        ensures
            r@ == conj_covered_ids(self.examples().states@, inv@),
    {
        let states = &self.teacher.states;
        let mut covered_states = BitSetWrapper::new();
        let n = states.len();
        for i in 0..n
            invariant
                n == states@.len(),
                ids_fit(states@),
                forall|k: int| 0 <= k < states@.len() ==> conj_evaluable(inv@, *#[trigger] states@[k]),
                covered_states@ == conj_covered_ids(states@.take(i as int), inv@),
        {
            assert(states@.take(i + 1).drop_last() =~= states@.take(i as int));
            assert(bitset_index_ok(states@[i as int].state_id as u32));
            let formula = construct_z3_formula_for_sample_and_invariant(&*states[i], inv);
            if formula.is_known_true() {
                covered_states.add(states[i].state_id as u32);
            }
        }
        assert(states@.take(n as int) =~= states@);
        covered_states
    }

    /// The ids of the states in which the disjunction holds.
    pub fn get_covered_states_disjunction(&self, invariant_disjunction: &InvariantDisjunction) -> (r: BitSetWrapper)
        requires
            ids_fit(self.examples().states@),
            forall|i: int| 0 <= i < self.examples().states@.len()
                ==> disj_evaluable(invariant_disjunction@, *#[trigger] self.examples().states@[i]),
        ensures
            r@ == disj_covered_ids(self.examples().states@, invariant_disjunction@),
    {
        let states = &self.teacher.states;
        let mut covered_states = BitSetWrapper::new();
        let n = states.len();
        for i in 0..n
            invariant
                n == states@.len(),
                ids_fit(states@),
                forall|k: int| 0 <= k < states@.len() ==> disj_evaluable(invariant_disjunction@, *#[trigger] states@[k]),
                covered_states@ == disj_covered_ids(states@.take(i as int), invariant_disjunction@),
        {
            assert(states@.take(i + 1).drop_last() =~= states@.take(i as int));
            assert(bitset_index_ok(states@[i as int].state_id as u32));
            let formula = evaluate_invariant_disjunction_on_sample(&*states[i], invariant_disjunction);
            if formula.is_known_true() {
                covered_states.add(states[i].state_id as u32);
            }
        }
        assert(states@.take(n as int) =~= states@);
        covered_states
    }

    /// The ids of the states in which the separator formula holds.
    pub fn get_covered_states_from_formula(&self, separator_formula: &SeparatorFormula) -> (r: BitSetWrapper)
        requires
            ids_fit(self.examples().states@),
            forall|i: int| 0 <= i < self.examples().states@.len()
                ==> separator_evaluable(*separator_formula, *#[trigger] self.examples().states@[i]),
        ensures
            r@ == separator_covered_ids(self.examples().states@, *separator_formula),
    {
        let states = &self.teacher.states;
        let mut covered_states = BitSetWrapper::new();
        let n = states.len();
        for i in 0..n
            invariant
                n == states@.len(),
                ids_fit(states@),
                forall|k: int| 0 <= k < states@.len() ==> separator_evaluable(*separator_formula, *#[trigger] states@[k]),
                covered_states@ == separator_covered_ids(states@.take(i as int), *separator_formula),
        {
            assert(states@.take(i + 1).drop_last() =~= states@.take(i as int));
            assert(bitset_index_ok(states@[i as int].state_id as u32));
            let formula = evaluate_separator_formula_on_sample(&*states[i], separator_formula);
            if formula.is_known_true() {
                covered_states.add(states[i].state_id as u32);
            }
        }
        assert(states@.take(n as int) =~= states@);
        covered_states
    }

    /// Splits the traces by whether the conjunction blocks them: the first
    /// part keeps every counterexample trace and the benign traces that stay
    /// blocked, the second holds the blocked traces, the third the others.
    pub fn calculate_examples_split(&self, inv: &Invariant) -> (r: (ExamplesSplit<'a>, ExamplesSplit<'a>, ExamplesSplit<'a>))
        requires
            ids_fit(self.examples().states@),
            forall|i: int| 0 <= i < self.examples().states@.len()
                ==> conj_evaluable(inv@, *#[trigger] self.examples().states@[i]),
        ensures
            ({
                let blocked = conj_covered_ids(self.examples().states@, inv@);
                let cex = self.examples().cex_traces@;
                let bex = self.examples().bex_traces@;
                &&& deref_traces(r.0.cex_traces@) == cex
                &&& deref_traces(r.0.bex_traces@) == traces_where(bex, blocked, true)
                &&& deref_traces(r.1.cex_traces@) == traces_where(cex, blocked, true)
                &&& deref_traces(r.1.bex_traces@) == traces_where(bex, blocked, true)
                &&& deref_traces(r.2.cex_traces@) == traces_where(cex, blocked, false)
                &&& deref_traces(r.2.bex_traces@) == traces_where(bex, blocked, false)
            }),
    {
        let covered_states = self.get_covered_states(inv);
        let teacher: &'a Teacher = self.teacher;
        let remaining = ExamplesSplit {
            cex_traces: all_traces(&teacher.cex_traces),
            bex_traces: keep_traces(&teacher.bex_traces, &covered_states, true),
        };
        let lhs = ExamplesSplit {
            cex_traces: keep_traces(&teacher.cex_traces, &covered_states, true),
            bex_traces: keep_traces(&teacher.bex_traces, &covered_states, true),
        };
        let rhs = ExamplesSplit {
            cex_traces: keep_traces(&teacher.cex_traces, &covered_states, false),
            bex_traces: keep_traces(&teacher.bex_traces, &covered_states, false),
        };
        (remaining, lhs, rhs)
    }
}

} // verus!
