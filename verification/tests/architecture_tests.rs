use invariant_finder_rust::architecture_checker::{
    init_predicate_rules, initialize_rules, predicate_matches_ban_rules, should_consider_predicate,
    try_predicate_matches_ban_rules, try_should_consider_predicate, PredicateBanRule, RuleConsequence, RuleTrigger,
};
use invariant_finder_rust::predicates::{BasePredicate, Operator};

fn aliases(names: &[&str]) -> Vec<Vec<String>> {
    vec![names.iter().map(|s| s.to_string()).collect()]
}

#[test]
fn test_default_ban_rules() {
    let rules = init_predicate_rules();
    assert_eq!(rules.len(), 10);
    let PredicateBanRule::DisallowSignalOperationCombinationRegex(p, op, len) = &rules[9];
    assert_eq!(p, ".*data.*");
    assert_eq!(*op, Operator::NotEqual);
    assert_eq!(*len, 8);
}

#[test]
fn test_instruction_signal_not_equal_is_banned() {
    let pred = BasePredicate::new_from_value("x".to_string(), Operator::NotEqual, 32, 0, None);
    let rules = init_predicate_rules();
    assert!(predicate_matches_ban_rules(&pred, &rules, &vec![32], &aliases(&["core.decode.instr"])));
    assert!(!predicate_matches_ban_rules(&pred, &rules, &vec![16], &aliases(&["core.decode.instr"])));
    assert!(!should_consider_predicate(&pred, &vec![32], &aliases(&["core.decode.instr"])));
    assert_eq!(try_should_consider_predicate(&pred, &vec![32], &aliases(&["core.decode.instr"])), Some(false));
}

#[test]
fn test_instruction_signal_equal_is_allowed() {
    let pred = BasePredicate::new_from_value("x".to_string(), Operator::Equal, 32, 0, None);
    assert!(should_consider_predicate(&pred, &vec![32], &aliases(&["core.decode.instr"])));
}

#[test]
fn test_harness_signals_are_never_considered() {
    let pred = BasePredicate::new_from_value("x".to_string(), Operator::Equal, 1, 0, None);
    assert!(!should_consider_predicate(&pred, &vec![1], &aliases(&["other", "TOP.correctness.correct"])));
    assert!(should_consider_predicate(&pred, &vec![1], &aliases(&["other"])));
}

#[test]
fn test_invalid_pattern_is_reported() {
    let pred = BasePredicate::new_from_value("x".to_string(), Operator::NotEqual, 8, 0, None);
    let rules = vec![PredicateBanRule::DisallowSignalOperationCombinationRegex("(".to_string(), Operator::NotEqual, 8)];
    assert_eq!(try_predicate_matches_ban_rules(&pred, &rules, &vec![8], &aliases(&["data"])), None);
    let rules = vec![PredicateBanRule::DisallowSignalOperationCombinationRegex("^da".to_string(), Operator::NotEqual, 8)];
    assert_eq!(try_predicate_matches_ban_rules(&pred, &rules, &vec![8], &aliases(&["data"])), Some(true));
}

#[test]
fn test_architecture_rules() {
    let rules = initialize_rules();
    assert_eq!(rules.len(), 3);
    match &rules[0].trigger_operation {
        RuleTrigger::PredicateIsContained(p) => assert_eq!(p.to_string(), "TOP.correctness.opcode == 115"),
        _ => panic!("unexpected trigger"),
    }
    match &rules[2].consequence {
        RuleConsequence::DisallowOtherSignals(s) => assert_eq!(s.len(), 4),
        _ => panic!("unexpected consequence"),
    }
    match &rules[1].trigger_operation {
        RuleTrigger::SignalIsContained(s) => assert_eq!(s, "TOP.correctness.imm_u"),
        _ => panic!("unexpected trigger"),
    }
}

use invariant_finder_rust::architecture_checker::{architectural_invariant_check, rule_is_fullfilled, Rule};
use invariant_finder_rust::predicates::{Invariant, PredicateSet};

fn catalog() -> Vec<(String, u64)> {
    let mut entries = vec![("TOP.correctness.opcode".to_string(), 0u64)];
    let mut id_counter = 1u64;
    for signal in &[
        "TOP.correctness.commit_counter_sodor",
        "TOP.correctness.funct3",
        "TOP.correctness.rs1",
        "TOP.correctness.rd",
        "TOP.correctness.imm_i",
        "TOP.correctness.imm_u",
        "TOP.correctness.imm_s",
        "TOP.correctness.imm_b",
        "TOP.correctness.imm_j",
    ] {
        entries.push((signal.to_string(), id_counter));
        id_counter += 1;
    }
    entries
}

#[test]
fn test_basepredicate_with_value_xyz_returns_true() {
    let predicate = BasePredicate::new_from_value("TOP.correctness.opcode".to_string(), Operator::Equal, 7, 0x73, None);
    let imm_s_predicate = BasePredicate::new_from_value("TOP.correctness.imm_s".to_string(), Operator::Equal, 12, 1801, None);
    let invariant = Invariant { predicate_set: PredicateSet { predicates: vec![predicate.clone(), imm_s_predicate.clone()] } };
    let lengths = vec![vec![7usize], vec![12usize]];
    let signal_aliases = vec![aliases(&["TOP.correctness.opcode"]), aliases(&["TOP.correctness.imm_s"])];
    let result = architectural_invariant_check(&invariant, &catalog(), &lengths, &signal_aliases);
    assert_eq!(result, false);
}

#[test]
fn test_rules_on_signal_combinations() {
    let rules: Vec<Rule> = initialize_rules();
    let entries = catalog();
    let imm_i = BasePredicate::new_from_value("TOP.correctness.imm_i".to_string(), Operator::Equal, 12, 4, None);
    let imm_b = BasePredicate::new_from_value("TOP.correctness.imm_b".to_string(), Operator::Equal, 12, 4, None);
    let rd = BasePredicate::new_from_value("TOP.correctness.rd".to_string(), Operator::Equal, 5, 1, None);
    let clash = Invariant { predicate_set: PredicateSet { predicates: vec![imm_i.clone(), imm_b.clone()] } };
    let fine = Invariant { predicate_set: PredicateSet { predicates: vec![imm_i.clone(), rd.clone()] } };
    let untriggered = Invariant { predicate_set: PredicateSet { predicates: vec![imm_b.clone(), rd.clone()] } };
    assert!(!rule_is_fullfilled(&clash, &rules[2], &entries));
    assert!(rule_is_fullfilled(&fine, &rules[2], &entries));
    assert!(rule_is_fullfilled(&untriggered, &rules[2], &entries));
    assert!(rule_is_fullfilled(&clash, &rules[0], &entries));
}

#[test]
fn test_try_architectural_invariant_check() {
    use_try_check();
}

fn use_try_check() {
    let predicate = BasePredicate::new_from_value("TOP.correctness.opcode".to_string(), Operator::Equal, 7, 0x73, None);
    let imm_s_predicate = BasePredicate::new_from_value("TOP.correctness.imm_s".to_string(), Operator::Equal, 12, 1801, None);
    let invariant = Invariant { predicate_set: PredicateSet { predicates: vec![predicate, imm_s_predicate] } };
    let lengths = vec![vec![7usize], vec![12usize]];
    let signal_aliases = vec![aliases(&["TOP.correctness.opcode"]), aliases(&["TOP.correctness.imm_s"])];
    assert_eq!(
        invariant_finder_rust::architecture_checker::try_architectural_invariant_check(&invariant, &catalog(), &lengths, &signal_aliases),
        Some(false)
    );
    let rd = BasePredicate::new_from_value("TOP.correctness.rd".to_string(), Operator::Equal, 5, 1, None);
    let fine = Invariant { predicate_set: PredicateSet { predicates: vec![rd] } };
    assert_eq!(
        invariant_finder_rust::architecture_checker::try_architectural_invariant_check(
            &fine, &catalog(), &vec![vec![5usize]], &vec![aliases(&["TOP.correctness.rd"])]),
        Some(true)
    );
}
