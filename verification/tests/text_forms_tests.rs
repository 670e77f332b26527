use invariant_finder_rust::data_types::general_data_types::BitSetWrapper;
use invariant_finder_rust::predicates::{
    BaseFormula, BasePredicate, CoverInformation, Invariant, Operator, PriorityScores, ScoreAndFulfilledExample,
    ScoreResult, ScoredInvariantWithFulfilledExample,
};

#[test]
fn test_formula_text_forms() {
    let p = BasePredicate::new_from_value("TOP.a".to_string(), Operator::SmallerEqual, 8, -3, Some(1));
    match &p.base_formula {
        BaseFormula::SignalToConst(f) => assert_eq!(f.to_string(), "TOP.a <= -3"),
        _ => panic!("expected a comparison with a constant"),
    }
    let q = BasePredicate::new_from_two_signals("x".to_string(), "y".to_string(), None, None, Operator::Equal);
    match &q.base_formula {
        BaseFormula::TwoSignalEqual(f) => assert_eq!(f.to_string(), "x == y"),
        _ => panic!("expected a comparison of two signals"),
    }
}

#[test]
fn test_score_text_forms() {
    assert_eq!(ScoreResult::Sat(-7).to_debug_string(), "Sat(-7)");
    assert_eq!(ScoreResult::Unsat.to_debug_string(), format!("{:?}", ScoreResult::Unsat));
    let scores = PriorityScores {
        cex_only_score: ScoreResult::Sat(4),
        cex_with_bex_allow_score: ScoreResult::Unsat,
        cex_and_bex_score: ScoreResult::NotEvaluated,
    };
    assert_eq!(scores.to_string(), "cex_only_score: Sat(4), cex_with_bex_allow_score: Unsat, cex_and_bex_score: NotEvaluated");
    assert_eq!(scores.to_debug_string(), format!("{:?}", scores));
    let mut invariant = Invariant::new();
    invariant.add_predicate(BasePredicate::new_from_value("s".to_string(), Operator::Equal, 1, 1, None));
    let scored = ScoredInvariantWithFulfilledExample {
        invariant,
        score: ScoreAndFulfilledExample {
            score: scores,
            cover_info: CoverInformation {
                covered_states: BitSetWrapper::new(),
                blocked_cex_states: BitSetWrapper::new(),
                allowed_bex_states: BitSetWrapper::new(),
            },
        },
    };
    assert_eq!(
        scored.to_string(),
        "invariant: s == 1 score: PriorityScores { cex_only_score: Sat(4), cex_with_bex_allow_score: Unsat, cex_and_bex_score: NotEvaluated }"
    );
}
