use std::collections::HashMap;
use std::sync::Arc;

use invariant_finder_rust::data_types::general_data_types::BitSetWrapper;
use invariant_finder_rust::predicates::{BasePredicate, Invariant, InvariantDisjunction, Operator, SeparatorFormula};
use invariant_finder_rust::samples::{CexTrace, ContainedState, Sample, StateMapping, Teacher};
use invariant_finder_rust::smt_solver::{
    apply_operation, calculate_examples_split_from_scored_invariant, construct_z3_formula_for_bex_sample_and_invariant,
    evaluate_invariant_disjunction_on_sample, evaluate_separator_formula_on_maybe_sample,
    evaluate_separator_formula_on_sample, evaluate_two_signal_formula, Formula, SMTSolver, SatResult, Solver,
};
use invariant_finder_rust::predicates::{BaseFormula, ScoreAndFulfilledExample, CoverInformation, PriorityScores};

/// A state where signal 1 ("a") is `a` and signal 2 ("b") is `b`.
fn state(id: u64, a: i64, b: i64) -> StateMapping {
    let mut idx = HashMap::new();
    idx.insert(1u64, 0usize);
    idx.insert(2u64, 1usize);
    StateMapping {
        signal_values: vec![a, b],
        signal_id_to_index: idx,
        string_to_id: vec![("a".to_string(), 1), ("b".to_string(), 2)],
        state_id: id,
    }
}

fn trace(states: Vec<Arc<StateMapping>>, weight: u64) -> CexTrace {
    let contained_samples = states
        .into_iter()
        .enumerate()
        .map(|(i, s)| ContainedState { state_id: s.state_id, and_cycle: i as u64, state_pointer: s })
        .collect();
    CexTrace { contained_samples, from_path: "trace.vcd".to_string(), file_source: None, weight }
}

fn a_equals(v: i64) -> BasePredicate {
    BasePredicate::new_from_value("a".to_string(), Operator::Equal, 8, v, Some(1))
}

fn b_by_name_at_least(v: i64) -> BasePredicate {
    BasePredicate::new_from_value("b".to_string(), Operator::GreaterEqual, 8, v, None)
}

fn conj(preds: Vec<BasePredicate>) -> Invariant {
    let mut inv = Invariant::new();
    for p in preds {
        inv.add_predicate(p);
    }
    inv
}

#[test]
fn test_apply_operation_each_operator() {
    assert!(apply_operation(&Operator::Equal, 3, 3));
    assert!(!apply_operation(&Operator::Equal, 3, 4));
    assert!(apply_operation(&Operator::NotEqual, 3, 4));
    assert!(apply_operation(&Operator::GreaterEqual, 4, 4));
    assert!(!apply_operation(&Operator::GreaterEqual, 3, 4));
    assert!(apply_operation(&Operator::SmallerEqual, -5, 4));
}

#[test]
fn test_formula_truth_and_sat_result() {
    let t = Formula::KnownBoolean(true);
    let f = Formula::KnownBoolean(false);
    assert!(t.is_known_true() && !t.is_known_false());
    assert!(f.is_known_false() && !f.is_known_true());
    let st: SatResult = t.into();
    let sf: SatResult = f.into();
    assert_eq!(st, SatResult::Sat);
    assert_eq!(sf, SatResult::Unsat);
}

#[test]
fn test_signal_value_lookup() {
    let s = state(7, 10, -3);
    assert_eq!(s.get_signal_value_from_index(&1), 10);
    assert_eq!(s.get_signal_value_from_index(&2), -3);
    assert_eq!(s.get_signal_value_from_string("b"), -3);
}

#[test]
fn test_two_signal_formula() {
    let s = state(1, 4, 4);
    let p = BasePredicate::new_from_two_signals("a".to_string(), "b".to_string(), Some(1), None, Operator::Equal);
    match &p.base_formula {
        BaseFormula::TwoSignalEqual(f) => {
            assert!(evaluate_two_signal_formula(f, &s).is_known_true());
            let s2 = state(2, 4, 5);
            assert!(evaluate_two_signal_formula(f, &s2).is_known_false());
        }
        _ => panic!("not a two-signal formula"),
    }
}

#[test]
fn test_bex_sample_negates_invariant() {
    let s = state(1, 3, 9);
    let holds = conj(vec![a_equals(3), b_by_name_at_least(9)]);
    let fails = conj(vec![a_equals(3), b_by_name_at_least(10)]);
    assert!(construct_z3_formula_for_bex_sample_and_invariant(&s, &holds).is_known_false());
    assert!(construct_z3_formula_for_bex_sample_and_invariant(&s, &fails).is_known_true());
}

#[test]
fn test_value_sets_and_disjunction() {
    let s = state(1, 3, 9);
    let inside = BasePredicate::new_from_value_set("a".to_string(), 8, vec![1, 2, 3], Some(1), false);
    let outside = BasePredicate::new_from_value_set("a".to_string(), 8, vec![1, 2, 3], Some(1), true);
    let mut d = InvariantDisjunction::new();
    d.add_invariant(conj(vec![outside.clone()]));
    assert!(evaluate_invariant_disjunction_on_sample(&s, &d).is_known_false());
    d.add_invariant(conj(vec![inside.clone()]));
    assert!(evaluate_invariant_disjunction_on_sample(&s, &d).is_known_true());
    let f = SeparatorFormula::InvariantDisjunction(d);
    assert!(evaluate_separator_formula_on_sample(&s, &f).is_known_true());
}

#[test]
fn test_separator_on_trace_holds_in_some_state() {
    let t = trace(vec![Arc::new(state(1, 0, 0)), Arc::new(state(2, 5, 0)), Arc::new(state(3, 0, 0))], 1);
    let hit = SeparatorFormula::Invariant(conj(vec![a_equals(5)]));
    let miss = SeparatorFormula::Invariant(conj(vec![a_equals(6)]));
    assert!(evaluate_separator_formula_on_maybe_sample(&t, &hit).is_known_true());
    assert!(evaluate_separator_formula_on_maybe_sample(&t, &miss).is_known_false());
    let mut d = InvariantDisjunction::new();
    d.add_invariant(conj(vec![a_equals(6)]));
    d.add_invariant(conj(vec![a_equals(5)]));
    let either = SeparatorFormula::InvariantDisjunction(d);
    assert!(evaluate_separator_formula_on_maybe_sample(&t, &either).is_known_true());
    let empty = trace(vec![], 2);
    assert!(evaluate_separator_formula_on_maybe_sample(&empty, &either).is_known_false());
}

fn teacher() -> Teacher {
    let s1 = Arc::new(state(1, 5, 0));
    let s2 = Arc::new(state(2, 0, 0));
    let s3 = Arc::new(state(3, 5, 1));
    let s4 = Arc::new(state(4, 1, 1));
    Teacher {
        states: vec![s1.clone(), s2.clone(), s3.clone(), s4.clone()],
        cex_traces: vec![trace(vec![s1.clone(), s2.clone()], 1), trace(vec![s2.clone()], 1)],
        bex_traces: vec![trace(vec![s3.clone()], 2), trace(vec![s4.clone()], 3)],
        bex_samples: vec![
            Sample { state_id: 3, and_cycle: 0, from_path: "b.vcd".to_string(), occurrence_count: 1, state_pointer: s3 },
            Sample { state_id: 4, and_cycle: 1, from_path: "b.vcd".to_string(), occurrence_count: 1, state_pointer: s4 },
        ],
    }
}

#[test]
fn test_covered_states_and_fulfilled_cex_samples() {
    let t = teacher();
    let solver = SMTSolver::new_from_teacher(&t);
    let inv = conj(vec![a_equals(5)]);
    let covered = solver.get_covered_states(&inv);
    assert_eq!(covered.collect(), vec![1, 3]);
    assert_eq!(solver.get_fulfilled_cex_samples(&inv), vec![1]);
    let mut d = InvariantDisjunction::new();
    d.add_invariant(conj(vec![a_equals(5)]));
    d.add_invariant(conj(vec![a_equals(0)]));
    assert_eq!(solver.get_covered_states_disjunction(&d).collect(), vec![1, 2, 3]);
    let f = SeparatorFormula::Invariant(conj(vec![a_equals(1)]));
    assert_eq!(solver.get_covered_states_from_formula(&f).collect(), vec![4]);
}

#[test]
fn test_calculate_examples_split() {
    let t = teacher();
    let solver = SMTSolver::new_from_teacher(&t);
    let inv = conj(vec![a_equals(5)]);
    let (remaining, lhs, rhs) = solver.calculate_examples_split(&inv);
    assert_eq!(remaining.cex_traces.len(), 2);
    assert_eq!(remaining.bex_traces.len(), 1);
    assert_eq!(lhs.cex_traces.len(), 1);
    assert_eq!(lhs.cex_traces[0].contained_samples.len(), 2);
    assert_eq!(lhs.bex_traces.len(), 1);
    assert_eq!(lhs.bex_traces[0].weight, 2);
    assert_eq!(rhs.cex_traces.len(), 1);
    assert_eq!(rhs.cex_traces[0].contained_samples[0].state_id, 2);
    assert_eq!(rhs.bex_traces.len(), 1);
    assert_eq!(rhs.bex_traces[0].weight, 3);
}

#[test]
fn test_examples_split_from_scored_invariant() {
    let t = teacher();
    let covered = BitSetWrapper::from_vec(vec![2, 4]);
    let score = ScoreAndFulfilledExample {
        score: PriorityScores::default(),
        cover_info: CoverInformation { covered_states: covered, ..CoverInformation::default() },
    };
    let (remaining, lhs, rhs) = calculate_examples_split_from_scored_invariant(&score, &t);
    assert_eq!(remaining.cex_traces.len(), 2);
    assert_eq!(remaining.bex_samples.len(), 1);
    assert_eq!(remaining.bex_samples[0].state_id, 4);
    assert_eq!(lhs.cex_traces.len(), 2);
    assert_eq!(rhs.cex_traces.len(), 0);
    assert_eq!(rhs.bex_samples.len(), 1);
    assert_eq!(rhs.bex_samples[0].state_id, 3);
}

#[test]
fn test_trace_covered_by_blocked_states() {
    let t = teacher();
    let blocked = BitSetWrapper::from_vec(vec![2]);
    assert!(t.cex_traces[0].is_covered_by_blocked_states(&blocked));
    assert!(!t.bex_traces[0].is_covered_by_blocked_states(&blocked));
}

use invariant_finder_rust::data_types::general_data_types::{FormulaScoreWeights, WaveFormSource};
use invariant_finder_rust::set_cover_instance::SetCoverInstance;

#[test]
fn test_new_from_teacher_and_predicates() {
    let mut t = teacher();
    t.bex_traces[1].file_source = Some(WaveFormSource::MustFulfill);
    let scored = vec![(BitSetWrapper::from_vec(vec![1, 3]), a_equals(5)), (BitSetWrapper::from_vec(vec![2]), a_equals(0))];
    let weights = FormulaScoreWeights { bex_multiplier: 2, predicate_base_cost: 1 };
    let inst = SetCoverInstance::new_from_teacher_and_predicates(&t, &scored, &vec![true, false], weights);
    assert_eq!(inst.predicates.len(), 2);
    assert_eq!(inst.predicates[&0].covered_states.collect(), vec![1, 3]);
    assert_eq!(inst.predicates[&1].id, 1);
    assert_eq!(inst.bex_samples.len(), 2);
    assert!(inst.bex_samples[&3].must_not_cover);
    assert!(!inst.bex_samples[&4].must_not_cover);
    assert_eq!(inst.cex_traces.len(), 2);
    assert_eq!(inst.cex_traces[&0].weight, 1);
    assert_eq!(inst.cex_traces[&0].states.len(), 2);
    assert_eq!(inst.bex_traces[&1].weight, 3);
    assert!(inst.bex_traces[&1].must_not_cover);
    assert!(!inst.bex_traces[&0].must_not_cover);
    let mut all: Vec<u64> = inst.all_states.iter().copied().collect();
    all.sort();
    assert_eq!(all, vec![1, 2, 3, 4]);
}
