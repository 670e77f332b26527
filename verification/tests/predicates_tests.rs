use invariant_finder_rust::predicates::BasePredicate;
use invariant_finder_rust::predicates::Invariant;
use invariant_finder_rust::predicates::Operator;

#[test]
fn test_should_add_predicate() {
    let mut inv = Invariant::new();
    let pred1 = BasePredicate::new_from_value("sig1".to_string(), Operator::GreaterEqual, 8, 5, Some(5));
    let pred2 = BasePredicate::new_from_value("sig1".to_string(), Operator::GreaterEqual, 8, 5, Some(6));
    let pred3 = BasePredicate::new_from_value("sig1".to_string(), Operator::GreaterEqual, 8, 6, Some(6));
    assert!(pred1 == pred2);

    inv.add_predicate(pred1.clone());
    assert!(!(inv.should_add_predicate(&pred2)));
    assert!(!(inv.should_add_predicate(&pred1)));
    println!("Will add predicate 3 {:?}", inv.should_add_predicate(&pred3));
}

#[test]
fn test_should_add() {}

#[test]
fn test_is_subset() {}

#[test]
fn test_invariant_equality_different_order() {}

#[test]
fn test_invariant_score_ordering() {}

#[test]
fn hashset_deduplication() {
    let mut set = std::collections::HashSet::new();
    let pred1 = BasePredicate::new_from_two_signals("sig1".to_string(), "sig2".to_string(), Some(5), Some(6), Operator::Equal);
    let pred2 = BasePredicate::new_from_two_signals("sig2".to_string(), "sig1".to_string(), Some(6), Some(5), Operator::NotEqual);
    set.insert(pred1.clone());
    set.insert(pred2.clone());
    assert_eq!(set.len(), 2);
    assert_ne!(pred1, pred2);
}

#[test]
fn test_equal_predicates_hash_alike() {
    let mut set = std::collections::HashSet::new();
    set.insert(BasePredicate::new_from_value("sig1".to_string(), Operator::GreaterEqual, 8, 5, Some(5)));
    set.insert(BasePredicate::new_from_value("sig1".to_string(), Operator::GreaterEqual, 8, 5, Some(6)));
    assert_eq!(set.len(), 1);
    set.insert(BasePredicate::new_from_value("sig1".to_string(), Operator::GreaterEqual, 8, 6, Some(6)));
    assert_eq!(set.len(), 2);
}
