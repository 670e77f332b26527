use std::collections::HashMap;

use invariant_finder_rust::predicates::{BasePredicate, Invariant, InvariantDisjunction, Operator, SeparatorFormula};
use invariant_finder_rust::text::{i64_to_decimal, join_decimals, str_contains, u64_to_decimal};

fn conj(preds: Vec<BasePredicate>) -> Invariant {
    let mut inv = Invariant::new();
    for p in preds {
        inv.add_predicate(p);
    }
    inv
}

#[test]
fn test_decimal_texts() {
    assert_eq!(u64_to_decimal(0), "0");
    assert_eq!(u64_to_decimal(18446744073709551615), "18446744073709551615");
    assert_eq!(i64_to_decimal(-42), "-42");
    assert_eq!(i64_to_decimal(i64::MIN), "-9223372036854775808");
    assert_eq!(join_decimals(&vec![1, -2, 30], ", "), "1, -2, 30");
    assert_eq!(join_decimals(&vec![], ", "), "");
}

#[test]
fn test_str_contains() {
    assert!(str_contains("TOP.core.instr", "core"));
    assert!(str_contains("abc", ""));
    assert!(!str_contains("abc", "abcd"));
    assert!(!str_contains("abc", "cb"));
}

#[test]
fn test_predicate_texts() {
    let p = BasePredicate::new_from_value("a".to_string(), Operator::SmallerEqual, 4, -3, Some(1));
    assert_eq!(p.to_string(), "a <= -3");
    let q = BasePredicate::new_from_value_set("b".to_string(), 4, vec![1, 2], Some(2), true);
    assert_eq!(q.to_string(), "b not in {1, 2}");
    let r = BasePredicate::new_from_value_set("b".to_string(), 4, vec![7], Some(2), false);
    assert_eq!(r.to_string(), "b in {7}");
    let s = BasePredicate::new_from_two_signals("a".to_string(), "b".to_string(), Some(1), Some(2), Operator::NotEqual);
    assert_eq!(s.to_string(), "a != b");
    assert_eq!(p.get_inverse().to_string(), "a >= -3");
    assert_eq!(q.get_inverse().to_string(), "b in {1, 2}");
}

#[test]
fn test_jg_texts() {
    let mut mapping: HashMap<u64, String> = HashMap::new();
    mapping.insert(1, "dut.a".to_string());
    mapping.insert(2, "dut.b".to_string());
    let p = BasePredicate::new_from_value("a".to_string(), Operator::Equal, 4, 5, Some(1));
    assert_eq!(p.to_jg_string_with_signal_mapping(&mapping), "dut.a == 5");
    let q = BasePredicate::new_from_value_set("b".to_string(), 4, vec![1, 2], Some(2), true);
    assert_eq!(q.to_jg_string_with_signal_mapping(&mapping), "dut.b != 1 && dut.b != 2");
    let r = BasePredicate::new_from_value_set("b".to_string(), 4, vec![1, 2], Some(2), false);
    assert_eq!(r.to_jg_string_with_signal_mapping(&mapping), "dut.b == 1 || dut.b == 2");
    let empty = BasePredicate::new_from_value_set("b".to_string(), 4, vec![], Some(2), false);
    assert_eq!(empty.to_jg_string_with_signal_mapping(&mapping), "false");
    let inv = conj(vec![p.clone(), q.clone()]);
    assert_eq!(inv.to_jg_string_with_signal_mapping(&mapping), "dut.a == 5 && dut.b != 1 && dut.b != 2");
    let mut d = InvariantDisjunction::new();
    d.add_invariant(conj(vec![p.clone()]));
    d.add_invariant(conj(vec![r.clone()]));
    assert_eq!(d.to_jg_string_with_signal_mapping(&mapping), "(dut.a == 5) || (dut.b == 1 || dut.b == 2)");
    assert_eq!(d.to_string(), "(a == 5) || (b in {1, 2})");
    let f = SeparatorFormula::InvariantDisjunction(d);
    assert_eq!(f.to_string(), "(a == 5) || (b in {1, 2})");
    let g = SeparatorFormula::Invariant(conj(vec![p, q]));
    assert_eq!(g.to_string(), "a == 5 && b not in {1, 2}");
}
