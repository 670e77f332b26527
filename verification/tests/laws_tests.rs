use std::collections::HashMap;
use std::sync::Arc;

use invariant_finder_rust::predicates::{BasePredicate, Invariant, InvariantDisjunction, Operator, BaseFormula};
use invariant_finder_rust::samples::{CexTrace, ContainedState, StateMapping, Teacher};
use invariant_finder_rust::smt_solver::{evaluate_invariant_disjunction_on_sample, SMTSolver, Solver};
use invariant_finder_rust::data_types::general_data_types::BitSetWrapper;

fn state(id: u64, a: i64) -> StateMapping {
    let mut idx = HashMap::new();
    idx.insert(1u64, 0usize);
    StateMapping { signal_values: vec![a], signal_id_to_index: idx, string_to_id: vec![], state_id: id }
}

fn pred(op: Operator, v: i64) -> BasePredicate {
    BasePredicate::new_from_value("a".to_string(), op, 8, v, Some(1))
}

fn conj(preds: Vec<BasePredicate>) -> Invariant {
    let mut inv = Invariant::new();
    for p in preds {
        inv.add_predicate(p);
    }
    inv
}

fn holds(inv: &Invariant, s: &StateMapping) -> bool {
    let mut d = InvariantDisjunction::new();
    d.add_invariant(inv.clone());
    evaluate_invariant_disjunction_on_sample(s, &d).is_known_true()
}

fn teacher(values: &[i64]) -> Teacher {
    let states: Vec<Arc<StateMapping>> =
        values.iter().enumerate().map(|(i, v)| Arc::new(state(i as u64, *v))).collect();
    let traces = states
        .iter()
        .map(|s| CexTrace {
            contained_samples: vec![ContainedState { state_id: s.state_id, and_cycle: 0, state_pointer: s.clone() }],
            from_path: "t.vcd".to_string(),
            file_source: None,
            weight: 1,
        })
        .collect();
    Teacher { states, cex_traces: traces, bex_traces: vec![], bex_samples: vec![] }
}

#[test]
fn test_law_inverse_involution() {
    for op in [Operator::Equal, Operator::NotEqual, Operator::GreaterEqual, Operator::SmallerEqual] {
        let p = pred(op, 3);
        assert!(p.get_inverse().get_inverse() == p);
        assert_eq!(p.get_inverse().get_inverse().to_string(), p.to_string());
    }
}

#[test]
fn test_law_inverse_negates_and_covers() {
    for v in [2, 3, 4] {
        let s = state(0, v);
        let e = conj(vec![pred(Operator::Equal, 3)]);
        let ne = conj(vec![pred(Operator::Equal, 3).get_inverse()]);
        assert_ne!(holds(&e, &s), holds(&ne, &s));
        let ge = conj(vec![pred(Operator::GreaterEqual, 3)]);
        let le = conj(vec![pred(Operator::GreaterEqual, 3).get_inverse()]);
        assert!(holds(&ge, &s) || holds(&le, &s));
    }
    let s = state(0, 3);
    assert!(holds(&conj(vec![pred(Operator::GreaterEqual, 3)]), &s));
    assert!(holds(&conj(vec![pred(Operator::SmallerEqual, 3)]), &s));
}

#[test]
fn test_law_predicate_equality_and_containment() {
    let p = pred(Operator::Equal, 1);
    let q = BasePredicate::new_from_value("a".to_string(), Operator::Equal, 8, 1, Some(9));
    assert!(p == p);
    assert_eq!(p == q, q == p);
    let mut inv = conj(vec![pred(Operator::NotEqual, 5)]);
    assert!(inv == inv.clone());
    inv.add_predicate(p.clone());
    assert!(inv.contains_predicate(&p));
    assert!(!inv.should_add_predicate(&p));
}

#[test]
fn test_law_merged_conjunction_and_coverage() {
    let t = teacher(&[1, 2, 3, 4, 5]);
    let solver = SMTSolver::new_from_teacher(&t);
    let a = conj(vec![pred(Operator::GreaterEqual, 2)]);
    let b = conj(vec![pred(Operator::SmallerEqual, 4)]);
    let m = a.merge_invariant(&b);
    let ca = solver.get_covered_states(&a);
    let cb = solver.get_covered_states(&b);
    let cm = solver.get_covered_states(&m);
    assert_eq!(cm.collect(), ca.intersection(&cb).collect());
    assert_eq!(cm.collect(), vec![1, 2, 3]);
    for s in t.states.iter() {
        assert_eq!(holds(&m, s), holds(&a, s) && holds(&b, s));
    }
}

#[test]
fn test_law_added_disjunct_coverage_is_union() {
    let t = teacher(&[1, 2, 3, 4, 5]);
    let solver = SMTSolver::new_from_teacher(&t);
    let mut d = InvariantDisjunction::new();
    d.add_invariant(conj(vec![pred(Operator::Equal, 1)]));
    let before = solver.get_covered_states_disjunction(&d);
    let c = conj(vec![pred(Operator::GreaterEqual, 4)]);
    let cc = solver.get_covered_states(&c);
    d.add_invariant(c);
    let after = solver.get_covered_states_disjunction(&d);
    assert_eq!(after.collect(), before.union(&cc).collect());
    assert_eq!(after.collect(), vec![0, 3, 4]);
}

#[test]
fn test_law_split_is_partition() {
    let t = teacher(&[1, 2, 3, 4, 5]);
    let solver = SMTSolver::new_from_teacher(&t);
    let inv = conj(vec![pred(Operator::SmallerEqual, 2)]);
    let (_, lhs, rhs) = solver.calculate_examples_split(&inv);
    assert_eq!(lhs.cex_traces.len() + rhs.cex_traces.len(), t.cex_traces.len());
    let blocked: BitSetWrapper = solver.get_covered_states(&inv);
    assert!(lhs.cex_traces.iter().all(|tr| tr.is_covered_by_blocked_states(&blocked)));
    assert!(rhs.cex_traces.iter().all(|tr| !tr.is_covered_by_blocked_states(&blocked)));
    match &pred(Operator::Equal, 0).base_formula {
        BaseFormula::SignalToConst(f) => assert_eq!(f.get_value(), 0),
        _ => panic!("unexpected formula"),
    }
}
