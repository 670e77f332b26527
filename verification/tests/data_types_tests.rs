use invariant_finder_rust::data_types::signal_remap_info::signal_list_from_text;
use invariant_finder_rust::constants::{
    get_cex_and_bex_score_threshold, get_cex_fulfilled_threshold, min_num_bex_fulfilled, min_num_cex_fulfilled,
    PredicateTakeLimits, PredicateTakeLimitsAtomic,
};
use invariant_finder_rust::data_types::general_data_types::{SignalInfo, SignalType, SignalTypesSet, WaveFormSource};
use invariant_finder_rust::ordering::compare_text;
use invariant_finder_rust::predicates::{PriorityScores, ScoreResult, per_predicate_score};
use std::cmp::Ordering;

#[test]
fn test_thresholds() {
    assert_eq!(min_num_bex_fulfilled(7, 50), 4);
    assert_eq!(min_num_bex_fulfilled(10, 100), 10);
    assert_eq!(min_num_bex_fulfilled(3, 10), 0);
    assert_eq!(min_num_cex_fulfilled(1000), 0);
    assert_eq!(get_cex_and_bex_score_threshold(1000), 200);
    assert_eq!(get_cex_and_bex_score_threshold(-7), -1);
    assert_eq!(get_cex_fulfilled_threshold(1000), 1100);
    assert_eq!(get_cex_fulfilled_threshold(-9), -9);
}

#[test]
fn test_take_limits() {
    let d = PredicateTakeLimits::default_limits();
    assert_eq!((d.control_predicates, d.regular_predicates, d.not_equal_predicates, d.signal_equal_predicates), (50, 50, 30, 50));
    let a = PredicateTakeLimitsAtomic::new(1, 2, 3, 4);
    a.store_not_equal_predicates(9, std::sync::atomic::Ordering::Relaxed);
    let l = a.load(std::sync::atomic::Ordering::Relaxed);
    assert_eq!((l.control_predicates, l.regular_predicates, l.not_equal_predicates, l.signal_equal_predicates), (1, 2, 9, 4));
}

#[test]
fn test_signal_types_set() {
    let mut s = SignalTypesSet::new();
    assert!(s.is_empty());
    s.insert(SignalType::Control);
    s.insert(SignalType::Control);
    assert_eq!(s.iter().count(), 1);
    let s = s.with_type(SignalType::Register);
    assert!(s.contains(&SignalType::Register));
    assert!(!s.contains(&SignalType::Data));
    assert!(s.contains_any_type(&vec![SignalType::Data, SignalType::Control]));
    assert!(!s.contains_any_type(&vec![SignalType::Data]));
    assert!(SignalTypesSet::new_from_type(SignalType::Data).contains(&SignalType::Data));
}

#[test]
fn test_signal_info() {
    let info = SignalInfo { aliases: vec!["TOP.Core.Instr".to_string()], id: 7, length: 32, signal_types: SignalTypesSet::new() };
    assert_eq!(info.get_signal_name(), "TOP.Core.Instr");
    assert!(info.any_alias_contains("Core", true));
    assert!(!info.any_alias_contains("core", true));
    assert!(info.any_alias_contains("core.instr", false));
    let unnamed = SignalInfo { aliases: vec![], id: 42, length: 1, signal_types: SignalTypesSet::new() };
    assert_eq!(unnamed.get_signal_name(), "signal_42");
}

#[test]
fn test_scores_and_ordering() {
    assert_eq!(ScoreResult::Sat(5).get_inner_or_zero(), 5);
    assert_eq!(ScoreResult::Unsat.get_inner_or_zero(), 0);
    let mut s = ScoreResult::Sat(5);
    s.add_if_sat_or_ignore(3);
    assert_eq!(s, ScoreResult::Sat(8));
    let mut u = ScoreResult::NotEvaluated;
    u.add_if_sat_or_ignore(3);
    assert_eq!(u, ScoreResult::NotEvaluated);
    assert_eq!(per_predicate_score(-7, 2), -3);
    let a = PriorityScores { cex_only_score: ScoreResult::Sat(1), cex_with_bex_allow_score: ScoreResult::Sat(2), cex_and_bex_score: ScoreResult::Sat(0) };
    let b = PriorityScores { cex_only_score: ScoreResult::Sat(9), cex_with_bex_allow_score: ScoreResult::Sat(2), cex_and_bex_score: ScoreResult::Sat(1) };
    assert_eq!(a.cmp(&b), Ordering::Less);
    assert!(a < b);
    assert_eq!(compare_text(&"ab".to_string(), &"b".to_string()), Ordering::Less);
    assert_eq!(compare_text(&"ab".to_string(), &"a".to_string()), Ordering::Greater);
    assert_eq!(WaveFormSource::OriginalCex.cmp(&WaveFormSource::OriginalCex), Ordering::Equal);
}

#[test]
fn test_signal_list_from_text() {
    let names = signal_list_from_text("  top.a \n\ntop.b\r\n   \n top.c");
    assert_eq!(names, vec!["top.a".to_string(), "top.b".to_string(), "top.c".to_string()]);
    assert!(signal_list_from_text("").is_empty());
}

#[test]
fn test_source_names() {
    assert_eq!(WaveFormSource::from_source_name(None), Some(WaveFormSource::Unknown));
    assert_eq!(WaveFormSource::from_source_name(Some(&"FileSource.Seed".to_string())), Some(WaveFormSource::Seed));
    assert_eq!(
        WaveFormSource::from_source_name(Some(&"FileSource.MustFulfill".to_string())),
        Some(WaveFormSource::MustFulfill)
    );
    assert_eq!(WaveFormSource::from_source_name(Some(&"FileSource.Unknown".to_string())), Some(WaveFormSource::Unknown));
    assert_eq!(WaveFormSource::from_source_name(Some(&"Seed".to_string())), None);
}

#[test]
fn test_signal_list_trims_unicode_white_space() {
    let names = invariant_finder_rust::data_types::signal_remap_info::signal_list_from_text(
        "\u{a0} TOP.a \n\t TOP.b\u{3000}\n \u{2003}\nTOP.c d\r\n",
    );
    assert_eq!(names, vec!["TOP.a".to_string(), "TOP.b".to_string(), "TOP.c d".to_string()]);
}
