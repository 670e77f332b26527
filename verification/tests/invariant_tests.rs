use invariant_finder_rust::constants::PredicateTakeLimits;
use invariant_finder_rust::predicates::{BasePredicate, Invariant, InvariantDisjunction, Operator, SeparatorFormula};

fn eq(name: &str, idx: u64, v: i64) -> BasePredicate {
    BasePredicate::new_from_value(name.to_string(), Operator::Equal, 8, v, Some(idx))
}

fn ne(name: &str, idx: u64, v: i64) -> BasePredicate {
    BasePredicate::new_from_value(name.to_string(), Operator::NotEqual, 8, v, Some(idx))
}

fn conj(preds: Vec<BasePredicate>) -> Invariant {
    let mut inv = Invariant::new();
    for p in preds {
        inv.add_predicate(p);
    }
    inv
}

#[test]
fn test_merge_and_contains() {
    let a = conj(vec![eq("a", 1, 1)]);
    let b = conj(vec![eq("b", 2, 2), ne("c", 3, 0)]);
    let m = a.merge_invariant(&b);
    assert_eq!(m.num_predicates(), 3);
    assert_eq!(m.to_string(), "a == 1 && b == 2 && c != 0");
    assert!(m.contains_predicate(&ne("c", 3, 0)));
    assert!(!m.contains_predicate(&ne("c", 3, 1)));
    assert!(a.subset_of(&m));
    assert!(!m.subset_of(&a));
    assert!(m.superset_of(&b));
}

#[test]
fn test_invariant_equality_ignores_order() {
    let x = conj(vec![eq("a", 1, 1), ne("b", 2, 3)]);
    let y = conj(vec![ne("b", 2, 3), eq("a", 1, 1)]);
    let z = conj(vec![eq("a", 1, 1)]);
    assert!(x == y);
    assert!(x != z);
}

#[test]
fn test_signal_names_and_indices() {
    let two = BasePredicate::new_from_two_signals("a".to_string(), "b".to_string(), Some(1), Some(2), Operator::Equal);
    let inv = conj(vec![eq("a", 1, 1), two, ne("c", 3, 0)]);
    assert_eq!(inv.get_signal_names(), vec!["a".to_string(), "b".to_string(), "c".to_string()]);
    let mut idx: Vec<u64> = inv.get_signal_idx().into_iter().collect();
    idx.sort();
    assert_eq!(idx, vec![1, 2, 3]);
    assert_eq!(inv.get_relevant_signal_idx(), vec![1, 1, 2, 3]);
    let mut d = InvariantDisjunction::new();
    d.add_invariant(inv.clone());
    d.add_invariant(conj(vec![eq("d", 4, 0)]));
    let mut didx: Vec<u64> = d.get_relevant_signal_idx().into_iter().collect();
    didx.sort();
    assert_eq!(didx, vec![1, 2, 3, 4]);
    let f = SeparatorFormula::InvariantDisjunction(d);
    assert_eq!(f.get_all_predicates().len(), 4);
}

#[test]
fn test_should_add_rules() {
    let inv = conj(vec![eq("a", 1, 1)]);
    assert!(inv.should_add_predicate(&eq("b", 2, 1)));
    assert!(!inv.should_add_predicate(&eq("a", 9, 1)));
    let two = BasePredicate::new_from_two_signals("a".to_string(), "b".to_string(), Some(1), Some(2), Operator::Equal);
    let inv2 = conj(vec![two]);
    let same_pair = BasePredicate::new_from_two_signals("a".to_string(), "b".to_string(), Some(1), Some(2), Operator::NotEqual);
    assert!(!inv2.should_add_predicate(&same_pair));
    let limits = PredicateTakeLimits { control_predicates: 1, regular_predicates: 1, not_equal_predicates: 1, signal_equal_predicates: 1 };
    let inv3 = conj(vec![ne("a", 1, 1)]);
    assert!(!inv3.should_add_predicate_with_limits(&ne("b", 2, 1), &limits));
    assert!(inv3.should_add_predicate_with_limits(&eq("b", 2, 1), &limits));
    assert!(inv3.should_add_predicate(&ne("b", 2, 1)));
    assert!(!inv3.should_add_other_invariant(&conj(vec![eq("c", 3, 0), ne("a", 1, 1)])));
}

#[test]
fn test_range_operator_detection() {
    assert!(!conj(vec![eq("a", 1, 1)]).uses_range_operator());
    let ge = BasePredicate::new_from_value("a".to_string(), Operator::GreaterEqual, 8, 1, Some(1));
    assert!(conj(vec![eq("b", 2, 1), ge]).uses_range_operator());
}
