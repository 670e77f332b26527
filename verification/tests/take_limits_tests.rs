use invariant_finder_rust::constants::PredicateTakeLimits;
use invariant_finder_rust::invariant_searcher::{select_within_take_limits, TakeCandidate};

fn cand(unsat: bool, not_equal: bool, control: bool, two_signal_equal: bool) -> TakeCandidate {
    TakeCandidate { unsat, not_equal, control, two_signal_equal }
}

#[test]
fn test_select_within_take_limits() {
    let ordered = vec![
        cand(true, false, false, false),
        cand(false, true, false, false),
        cand(false, true, false, false),
        cand(false, false, true, false),
        cand(false, false, true, false),
        cand(false, false, false, true),
        cand(false, false, false, false),
    ];
    let limits = PredicateTakeLimits {
        control_predicates: 1,
        regular_predicates: 1,
        not_equal_predicates: 1,
        signal_equal_predicates: 1,
    };
    assert_eq!(select_within_take_limits(&ordered, &limits, true), vec![1, 3, 4, 5]);
    assert_eq!(select_within_take_limits(&ordered, &limits, false), vec![1, 3, 4]);
    let roomy = PredicateTakeLimits::default_limits();
    assert_eq!(select_within_take_limits(&ordered, &roomy, false), vec![1, 2, 3, 4, 5, 6]);
}

use invariant_finder_rust::data_types::general_data_types::{SignalInfo, SignalTypesSet};
use invariant_finder_rust::invariant_searcher::is_csr_formula;
use invariant_finder_rust::predicates::{BasePredicate, Invariant, Operator, SeparatorFormula};

fn info(alias: &str, id: u64) -> Option<SignalInfo> {
    Some(SignalInfo { aliases: vec![alias.to_string()], id, length: 8, signal_types: SignalTypesSet::new() })
}

fn formula(preds: Vec<BasePredicate>) -> SeparatorFormula {
    let mut inv = Invariant::new();
    for p in preds {
        inv.add_predicate(p);
    }
    SeparatorFormula::Invariant(inv)
}

#[test]
fn test_is_csr_formula() {
    let opcode = BasePredicate::new_from_value("TOP.opcode".to_string(), Operator::Equal, 7, 0x73, Some(1));
    let imm = BasePredicate::new_from_value("TOP.imm_i".to_string(), Operator::Equal, 12, 5, Some(2));
    let bitmap = BasePredicate::new_from_value("TOP.Csr_Written_Bitmap_Reg".to_string(), Operator::Equal, 1, 1, Some(3));
    let both = formula(vec![opcode.clone(), imm.clone()]);
    assert!(is_csr_formula(&both, &vec![info("TOP.opcode", 1), info("TOP.imm_i", 2)]));
    assert!(!is_csr_formula(&both, &vec![info("TOP.opcode", 1), None]));
    let only_opcode = formula(vec![opcode.clone()]);
    assert!(!is_csr_formula(&only_opcode, &vec![info("TOP.opcode", 1)]));
    let flagged = formula(vec![bitmap]);
    assert!(is_csr_formula(&flagged, &vec![info("TOP.Csr_Written_Bitmap_Reg", 3)]));
}
