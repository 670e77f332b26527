use invariant_finder_rust::allowed_signal_config::{
    get_boom_predicate_generation_config, get_config_from_stage_filter, get_default_predicate_generation_config,
    get_kronos_predicate_generation_config, PredicateGenerationConfig, PredicateType, SignalTypePredicateConfig,
    SignalValueFilter,
};
use invariant_finder_rust::data_types::general_data_types::{CoreType, SignalInfo, SignalType, SignalTypesSet, StageFilter};
use invariant_finder_rust::patterns::RegexList;

fn info(length: usize) -> SignalInfo {
    SignalInfo { aliases: vec!["TOP.sig".to_string()], id: 3, length, signal_types: SignalTypesSet::new() }
}

fn stage(name: &str, keep: Vec<&str>) -> StageFilter {
    StageFilter {
        keep_patterns: RegexList::new(keep.into_iter().map(|p| p.to_string()).collect()).unwrap(),
        skip_patterns: RegexList::new(vec![]).unwrap(),
        core_type: CoreType::DutCore,
        stage_name: name.to_string(),
    }
}

#[test]
fn test_signal_equals_predicate_allowed() {
    let config = get_default_predicate_generation_config();
    let signal_type = SignalType::Register;
    assert_eq!(config.allows_predicate(&signal_type, &PredicateType::TwoSignalEqual), false);
    assert_eq!(config.allows_predicate(&signal_type, &PredicateType::NotEqual), true);
    assert_eq!(config.allows_predicate(&signal_type, &PredicateType::Equal), false);
    assert_eq!(config.allows_predicate(&SignalType::Data, &PredicateType::Equal), false);
}

#[test]
fn test_value_filters() {
    let config = get_default_predicate_generation_config();
    assert!(config.allows_value(&SignalType::Control, &PredicateType::Equal, 3, 5, &info(1)));
    assert!(!config.allows_value(&SignalType::Control, &PredicateType::NotEqual, 3, 5, &info(1)));
    assert!(config.allows_value(&SignalType::Control, &PredicateType::NotEqual, 3, 5, &info(4)));
    assert!(config.allows_value(&SignalType::Register, &PredicateType::NotEqual, 3, 0, &info(32)));
    assert!(!config.allows_value(&SignalType::Register, &PredicateType::NotEqual, 3, 1, &info(32)));
    assert!(!config.allows_value(&SignalType::Data, &PredicateType::Equal, 3, 0, &info(32)));
    let kronos = get_kronos_predicate_generation_config();
    assert!(kronos.allows_value(&SignalType::Funct7, &PredicateType::TwoSignalEqual, 3, 2, &info(7)));
    assert!(!kronos.allows_value(&SignalType::Funct7, &PredicateType::TwoSignalEqual, 3, 0, &info(7)));
    assert!(!kronos.allows_value(&SignalType::Funct7, &PredicateType::TwoSignalEqual, 3, 2, &info(1)));
    let boom = get_boom_predicate_generation_config();
    assert!(!boom.allows_type(&SignalType::Funct7));
    assert!(boom.allows_type(&SignalType::Immediate));
}

#[test]
fn test_type_sets() {
    let config = get_default_predicate_generation_config();
    let types = SignalTypesSet::new().with_type(SignalType::Data).with_type(SignalType::Immediate);
    assert!(config.allows_types(&types));
    assert!(config.allows_predicate_type_set(&types, &PredicateType::TwoSignalEqual));
    assert!(!config.allows_predicate_type_set(&types, &PredicateType::Equal));
    assert!(config.allows_value_type_set(&types, &PredicateType::TwoSignalEqual, 3, 9, &info(1)));
    let data_only = SignalTypesSet::new_from_type(SignalType::Data);
    assert!(!config.allows_types(&data_only));
    assert!(!config.allows_value_type_set(&data_only, &PredicateType::Equal, 3, 9, &info(8)));
}

#[test]
fn test_signal_type_config_builders() {
    let c = SignalTypePredicateConfig::with_predicates(vec![PredicateType::Equal, PredicateType::SmallerEqual]);
    assert!(c.allows_predicate(&PredicateType::Equal));
    assert!(c.allows_predicate(&PredicateType::SmallerEqual));
    assert!(!c.allows_predicate(&PredicateType::NotEqual));
    assert!(c.allows_value(&PredicateType::Equal, 3, -4, &info(1)));
    let c = c.with_value_filter_for_predicates(
        vec![PredicateType::Equal, PredicateType::GreaterEqual],
        SignalValueFilter::ZeroValue,
    );
    assert!(c.allows_predicate(&PredicateType::GreaterEqual));
    assert!(!c.allows_value(&PredicateType::Equal, 3, -4, &info(1)));
    assert!(c.allows_value(&PredicateType::Equal, 3, 0, &info(1)));
    assert!(c.allows_value(&PredicateType::SmallerEqual, 3, -4, &info(1)));
    let mut config = PredicateGenerationConfig::new();
    assert!(config.track_cycle_info);
    assert!(!config.allows_type(&SignalType::Counter));
    config.set_config_for_type(SignalType::Counter, c);
    assert!(config.allows_predicate(&SignalType::Counter, &PredicateType::GreaterEqual));
}

#[test]
fn test_config_from_stage_filter() {
    let decoder_stage = get_config_from_stage_filter(&stage("My_Decoder_stage", vec!["boom.*", "BOOM_x"]));
    assert!(decoder_stage.allows_type(&SignalType::RegisterFileAddress));
    let boom = get_config_from_stage_filter(&stage("stage1", vec!["TOP.Boom.core", "boom_lsu", "sodor_x"]));
    assert!(!boom.allows_type(&SignalType::RegisterFileAddress));
    assert!(!boom.allows_type(&SignalType::Funct7));
    let kronos = get_config_from_stage_filter(&stage("stage2", vec!["Kronos_core"]));
    assert!(kronos.allows_type(&SignalType::Funct7));
    let tie = get_config_from_stage_filter(&stage("stage3", vec!["kronos", "sodor"]));
    assert!(tie.allows_type(&SignalType::RegisterFileAddress));
    let none = get_config_from_stage_filter(&stage("stage4", vec!["TOP.core"]));
    assert!(none.allows_type(&SignalType::RegisterFileAddress));
}
