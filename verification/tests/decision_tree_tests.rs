use invariant_finder_rust::decision_tree::{
    decision_tree_to_invariant_collection, decision_tree_to_logic_formula, format_tree_to_formula, DecisionTree,
};
use invariant_finder_rust::predicates::{BasePredicate, Invariant, Operator};

fn pred(name: &str, v: i64) -> BasePredicate {
    BasePredicate::new_from_value(name.to_string(), Operator::Equal, 8, v, None)
}

fn leaf() -> DecisionTree {
    DecisionTree::new()
}

fn split(p: BasePredicate, t: DecisionTree, f: DecisionTree) -> DecisionTree {
    let mut tree = DecisionTree::new();
    tree.split_predicate = Some(p);
    tree.add_branches(t, f);
    tree
}

#[test]
fn test_new_tree_is_empty() {
    let tree = DecisionTree::new();
    assert!(tree.split_predicate.is_none());
    assert!(tree.true_branch.is_none());
    assert!(tree.false_branch.is_none());
    assert_eq!(tree.to_logic_formula(), "true");
    assert_eq!(decision_tree_to_logic_formula(&tree), "true");
    assert_eq!(format_tree_to_formula(&tree), ")");
}

#[test]
fn test_logic_formula_texts() {
    let mut lone = DecisionTree::new();
    lone.split_predicate = Some(pred("a", 1));
    assert_eq!(lone.to_logic_formula(), "(a == 1 AND true) OR (NOT (a == 1 AND false))");
    assert_eq!(decision_tree_to_logic_formula(&lone), "a == 1");
    assert_eq!(format_tree_to_formula(&lone), "a == 1 && ()");

    let tree = split(pred("a", 1), split(pred("b", 2), leaf(), leaf()), leaf());
    assert_eq!(
        tree.to_logic_formula(),
        "(a == 1 AND (b == 2 AND true) OR (NOT (b == 2 AND true))) OR (NOT (a == 1 AND true))"
    );
    assert_eq!(decision_tree_to_logic_formula(&tree), "a == 1 && (b == 2 && (true || true) || true)");
    assert_eq!(format_tree_to_formula(&tree), "a == 1 && (b == 2 && () || )) || ))");
}

#[test]
fn test_display_listing() {
    let tree = split(pred("a", 1), leaf(), leaf());
    assert_eq!(
        tree.to_string(),
        "Predicate: a == 1\nTrue Branch:\n    Predicate: None\nFalse Branch:\n    Predicate: None\n"
    );
}

#[test]
fn test_used_predicates_and_signals() {
    let tree = split(pred("a", 1), split(pred("b", 2), leaf(), leaf()), split(pred("a", 1), leaf(), leaf()));
    let mut used: Vec<BasePredicate> = Vec::new();
    tree.get_used_predicate(&mut used);
    let texts: Vec<String> = used.iter().map(|p| p.to_string()).collect();
    assert_eq!(texts, vec!["a == 1", "a != 1", "b == 2", "b != 2"]);
    let mut names: Vec<String> = vec!["a".to_string()];
    tree.get_used_signals(&mut names);
    assert_eq!(names, vec!["a".to_string(), "b".to_string()]);
}

#[test]
fn test_invariant_collection_of_paths() {
    let tree = split(pred("a", 1), split(pred("b", 2), leaf(), leaf()), leaf());
    let mut collection: Vec<Invariant> = Vec::new();
    decision_tree_to_invariant_collection(&tree, &mut collection, None);
    let texts: Vec<String> = collection.iter().map(|i| i.to_string()).collect();
    assert_eq!(texts, vec!["b == 2 && a == 1", "a == 1 && b != 2", "a != 1"]);
}
