use std::collections::{HashMap, HashSet};

use invariant_finder_rust::data_types::signal_filters::{JGFilterInfo, SignalFilter, SignalFilters};
use invariant_finder_rust::data_types::signal_remap_info::{Expr, SignalRemappingInfo};
use invariant_finder_rust::jg_formatter::{
    format_invariant_with_signal_mapping, get_jg_assert_command, get_jg_assume_command,
    get_signal_mapping_between_jg_and_verilator, match_signal_names, matches_any_jg_signal,
    transform_jg_to_verilator_like,
};
use invariant_finder_rust::patterns::RegexList;
use invariant_finder_rust::predicates::{BasePredicate, Invariant, InvariantDisjunction, Operator, SeparatorFormula};

#[test]
fn test_match_signal_names() {
    assert!(match_signal_names("top.a.b", "top.a.b"));
    assert!(!match_signal_names("top.x", "top.y"));
    assert!(match_signal_names("top.inner.with.dot.sig", "top.\\inner.with.dot .sig"));
    assert!(!match_signal_names("top.inner.with.sig", "top.\\inner.with.dot .sig"));
    assert!(!match_signal_names("top.a", "top.a.b"));
}

#[test]
fn test_transform_jg_to_verilator_like() {
    assert_eq!(
        transform_jg_to_verilator_like("ibex.dut.cpu.cpu.\\u_ibex_core.data_addr_o"),
        "ibex.dut.cpu.cpu.u_ibex_core.data_addr_o"
    );
    assert_eq!(transform_jg_to_verilator_like("top.block.\\inner.with.dot .sig"), "top.block.inner.with.dot.sig");
    assert_eq!(transform_jg_to_verilator_like("a.b"), "a.b");
}

#[test]
fn test_matches_any_jg_signal() {
    let jg = vec!["core.a".to_string(), "correctness.x".to_string()];
    assert_eq!(matches_any_jg_signal(&"TOP.correctness.core.a".to_string(), &jg, None), Some("core.a".to_string()));
    assert_eq!(matches_any_jg_signal(&"correctness.x".to_string(), &jg, None), Some("x".to_string()));
    assert_eq!(matches_any_jg_signal(&"TOP.correctness.y".to_string(), &jg, None), None);
    let escaped = vec!["\\blk.inner .sig".to_string()];
    let transformed = vec!["blk.inner.sig".to_string()];
    assert_eq!(
        matches_any_jg_signal(&"TOP.correctness.blk.inner.sig".to_string(), &escaped, Some(&transformed)),
        Some("\\blk.inner .sig".to_string())
    );
    assert_eq!(matches_any_jg_signal(&"TOP.correctness.blk.inner.sig".to_string(), &escaped, None), None);
}

#[test]
fn test_signal_filters() {
    let jg = JGFilterInfo::new(vec!["\\blk.inner .sig".to_string(), "\\blk.inner .sig".to_string()]);
    assert_eq!(jg.len(), 1);
    let jg_filter = SignalFilter::JGFilter(jg);
    assert!(jg_filter.check_signal("TOP.correctness.blk.inner.sig", &0));
    assert!(!jg_filter.check_signal("TOP.correctness.blk.other", &0));
    let regexes = RegexList::new(vec!["^a.*".to_string()]).unwrap();
    assert!(RegexList::new(vec!["(".to_string()]).is_none());
    let regex_filter = SignalFilter::RegexFilter(regexes);
    assert!(regex_filter.check_signal("abc", &0));
    assert!(!regex_filter.check_signal("xbc", &0));
    assert_eq!(regex_filter.estimate_size(), 1);
    let ids: HashSet<u64> = [1u64, 2].into_iter().collect();
    let id_filter = SignalFilter::StrictSignalIdxFilter(ids);
    assert!(id_filter.check_signal("anything", &2));
    assert!(!id_filter.check_signal("anything", &3));
    let mut filters = SignalFilters::new();
    filters.add_filter(regex_filter);
    filters.add_filter(id_filter);
    assert!(filters.check_signal_any_filter("abc", &9));
    assert!(!filters.check_signal_all_filters("abc", &9));
    assert!(filters.check_signal_all_filters("abc", &1));
    assert_eq!(filters.estimate_max_length_matching_signals(), 0);
}

fn var(n: &str) -> Box<Expr> {
    Box::new(Expr::Var { name: n.to_string() })
}

#[test]
fn test_expressions() {
    let e = Expr::Binary { op: "add".to_string(), lhs: var("a"), rhs: Box::new(Expr::Const { value: "1".to_string() }) };
    assert_eq!(e.to_string(), "(a + 1)");
    let names = vec![("a".to_string(), 5u64)];
    let mut jg: HashMap<u64, String> = HashMap::new();
    jg.insert(5, "jg_a".to_string());
    assert_eq!(e.to_verilog(Some(&names), Some(&jg)), "(jg_a + 1)");
    let m = Expr::Mux { cond: var("c"), then_branch: var("t"), else_branch: var("e") };
    assert_eq!(m.to_string(), "(c ? t : e)");
    let sl = Expr::Slice { value: var("x"), lsb: Box::new(Expr::Const { value: "0".to_string() }), width: Some(4) };
    assert_eq!(sl.to_string(), "x[0 +: 4]");
    let rep = Expr::Replicate { count: Box::new(Expr::Const { value: "2".to_string() }), value: var("x") };
    assert_eq!(rep.to_string(), "{2{x}}");
    let cat = Expr::Concat { lhs: var("a"), rhs: var("b") };
    assert_eq!(cat.to_string(), "{a, b}");
    let un = Expr::Unary { op: "lnot".to_string(), arg: var("z") };
    assert_eq!(un.to_string(), "(!z)");
    let odd = Expr::Binary { op: "foo".to_string(), lhs: var("p"), rhs: var("q") };
    assert_eq!(odd.to_string(), "(p foo q)");
    let ashr = Expr::Binary { op: "ashr".to_string(), lhs: var("p"), rhs: var("q") };
    assert_eq!(ashr.to_string(), "(p >>> q)");
    assert_eq!(Expr::Unknown { node: "n".to_string() }.to_string(), "/* Unknown node: n */");
    let idx = Expr::Index { value: var("v"), index: var("i") };
    assert_eq!(idx.to_string(), "v[i]");
    let names = Expr::Binary { op: "and".to_string(), lhs: Box::new(cat), rhs: var("a") };
    assert_eq!(names.get_signal_names(), vec!["a".to_string(), "b".to_string()]);
    assert!(names.expression_okay_for_signal_list(&vec!["b".to_string(), "a".to_string()]));
    assert!(!names.expression_okay_for_signal_list(&vec!["a".to_string()]));
}

#[test]
fn test_assert_command() {
    assert_eq!(get_jg_assert_command(&Invariant::new(), None, &vec![]), "/* ASSERT COMMAND NOT IMPLEMENTED ANYMORE */");
}

fn entries() -> Vec<(String, u64)> {
    vec![
        ("TOP.correctness.core.a".to_string(), 1),
        ("TOP.correctness.core.a_alias".to_string(), 1),
        ("TOP.correctness.core.b".to_string(), 2),
        ("TOP.correctness.core.cond".to_string(), 3),
        ("TOP.correctness.core.other".to_string(), 4),
    ]
}

fn jg_names() -> Vec<String> {
    vec!["core.a".to_string(), "core.b".to_string()]
}

fn cond_map() -> Vec<(String, Expr)> {
    vec![
        (
            "TOP.correctness.core.cond".to_string(),
            Expr::Binary { op: "and".to_string(), lhs: var("TOP.correctness.core.a_alias"), rhs: var("TOP.correctness.core.b") },
        ),
        (
            "TOP.correctness.core.other".to_string(),
            Expr::Binary { op: "or".to_string(), lhs: var("TOP.correctness.core.a"), rhs: var("TOP.correctness.core.missing") },
        ),
        ("TOP.correctness.core.unknown".to_string(), *var("TOP.correctness.core.a")),
    ]
}

#[test]
fn test_signal_mapping_direct_and_conditions() {
    let direct = get_signal_mapping_between_jg_and_verilator(&jg_names(), &entries(), None);
    let mut expected: HashMap<u64, String> = HashMap::new();
    expected.insert(1, "core.a".to_string());
    expected.insert(2, "core.b".to_string());
    assert_eq!(direct, expected);

    let conds = cond_map();
    let with = get_signal_mapping_between_jg_and_verilator(&jg_names(), &entries(), Some(&conds));
    expected.insert(3, "(core.a & core.b)".to_string());
    assert_eq!(with, expected);
}

#[test]
fn test_format_with_and_without_mapping() {
    let mut inv = Invariant::new();
    inv.add_predicate(BasePredicate::new_from_value("TOP.correctness.core.a".to_string(), Operator::Equal, 1, 1, Some(1)));
    inv.add_predicate(BasePredicate::new_from_value("TOP.correctness.core.cond".to_string(), Operator::NotEqual, 1, 0, Some(3)));
    let f = SeparatorFormula::Invariant(inv);
    let info = SignalRemappingInfo::new(Some(jg_names()), Some(cond_map()));
    assert_eq!(
        format_invariant_with_signal_mapping(&f, Some(&info), &entries()),
        "core.a == 1 && (core.a & core.b) != 0"
    );
    assert_eq!(
        get_jg_assume_command(&f, Some(&info), &entries()),
        "assume {!(core.a == 1 && (core.a & core.b) != 0)}"
    );
    assert_eq!(
        format_invariant_with_signal_mapping(&f, None, &entries()),
        "TOP.correctness.core.a == 1 && TOP.correctness.core.cond != 0"
    );

    let mut d = InvariantDisjunction::new();
    let mut x = Invariant::new();
    x.add_predicate(BasePredicate::new_from_value("TOP.correctness.core.b".to_string(), Operator::Equal, 1, 2, Some(2)));
    d.add_invariant(x);
    let mut y = Invariant::new();
    y.add_predicate(BasePredicate::new_from_value("TOP.correctness.core.a".to_string(), Operator::NotEqual, 1, 3, Some(1)));
    d.add_invariant(y);
    let g = SeparatorFormula::InvariantDisjunction(d);
    assert_eq!(format_invariant_with_signal_mapping(&g, Some(&info), &entries()), "(core.b == 2) || (core.a != 3)");
}

#[test]
fn test_allowed_signal_list() {
    let all = SignalRemappingInfo::new(None, None).create_allowed_signal_list_from_name_to_code_map(&entries());
    let expected_all: HashSet<u64> = [1, 2, 3, 4].into_iter().collect();
    assert_eq!(all, expected_all);

    let jg_only = SignalRemappingInfo::new(Some(jg_names()), None).create_allowed_signal_list_from_name_to_code_map(&entries());
    let expected_jg: HashSet<u64> = [1, 2].into_iter().collect();
    assert_eq!(jg_only, expected_jg);

    let with_conds =
        SignalRemappingInfo::new(Some(jg_names()), Some(cond_map())).create_allowed_signal_list_from_name_to_code_map(&entries());
    let expected_conds: HashSet<u64> = [1, 2, 3].into_iter().collect();
    assert_eq!(with_conds, expected_conds);
}
