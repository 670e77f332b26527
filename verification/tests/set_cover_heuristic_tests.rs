use std::collections::{HashMap, HashSet};

use invariant_finder_rust::data_types::general_data_types::{BitSetWrapper, FormulaScoreWeights};
use invariant_finder_rust::predicates::{BasePredicate, BasePredicateCandidate, Operator};
use invariant_finder_rust::set_cover_heuristic::run_heuristic_trace_level;
use invariant_finder_rust::set_cover_instance::{
    SetCoverBEXTrace, SetCoverCEXSample, SetCoverCEXTrace, SetCoverInstance, SetCoverPredicate, UnweightedBEXSample,
};

fn predicate(id: usize, states: Vec<u32>) -> SetCoverPredicate {
    SetCoverPredicate {
        id,
        covered_states: BitSetWrapper::from_vec(states),
        predicate: BasePredicateCandidate {
            base_predicate: BasePredicate::new_from_value("sig".to_string(), Operator::Equal, 1, id as i64, Some(0)),
            only_in_cycles: None,
        },
    }
}

fn cex(id: usize, weight: u64, states: Vec<u64>) -> SetCoverCEXTrace {
    let mut m = HashMap::new();
    for s in states {
        m.insert(s, SetCoverCEXSample { state_id: s, cycle: 0 });
    }
    SetCoverCEXTrace { id, weight, states: m, from_path: "cex".to_string(), file_source: None }
}

fn bex(id: usize, weight: u64, states: Vec<u64>, must_not_cover: bool) -> SetCoverBEXTrace {
    let mut m = HashMap::new();
    for s in states {
        m.insert(s, UnweightedBEXSample { state_id: s, cycle: 0 });
    }
    SetCoverBEXTrace { id, weight, states: m, from_path: "bex".to_string(), file_source: None, must_not_cover }
}

fn instance(cex_traces: Vec<SetCoverCEXTrace>, bex_traces: Vec<SetCoverBEXTrace>) -> SetCoverInstance {
    let mut predicates = HashMap::new();
    predicates.insert(0, predicate(0, vec![1, 2]));
    predicates.insert(1, predicate(1, vec![2, 3]));
    SetCoverInstance {
        predicates,
        bex_samples: HashMap::new(),
        cex_traces: cex_traces.into_iter().map(|t| (t.id, t)).collect(),
        bex_traces: bex_traces.into_iter().map(|t| (t.id, t)).collect(),
        all_states: [1u64, 2, 3, 4].into_iter().collect(),
        formula_score_weights: FormulaScoreWeights { bex_multiplier: 1, predicate_base_cost: 1 },
    }
}

fn costs(c0: i64, c1: i64) -> HashMap<usize, i64> {
    [(0usize, c0), (1usize, c1)].into_iter().collect()
}

#[test]
fn test_heuristic_takes_best_gain_and_stops() {
    let inst = instance(vec![cex(0, 5, vec![2])], vec![bex(0, 1, vec![1], false), bex(1, 1, vec![4], false)]);
    let r = run_heuristic_trace_level(&inst, &HashSet::new(), 2, &costs(1, 1), &costs(3, 3)).unwrap();
    assert_eq!(r.selected_predicates, vec![1]);
    assert_eq!(r.covered_traces, 5);
    assert_eq!(r.b_penalty, 0);
    assert_eq!(r.score, 2);
}

#[test]
fn test_heuristic_frees_must_not_cover_trace() {
    let inst = instance(vec![cex(0, 5, vec![2])], vec![bex(0, 1, vec![1], true)]);
    let required: HashSet<usize> = [0usize].into_iter().collect();
    let r = run_heuristic_trace_level(&inst, &required, 2, &costs(10, 10), &costs(4, 7)).unwrap();
    assert_eq!(r.selected_predicates, vec![1]);
    assert_eq!(r.covered_traces, 5);
    assert_eq!(r.b_penalty, 0);
    assert_eq!(r.score, -2);
}

#[test]
fn test_heuristic_gives_up_when_nothing_frees_the_trace() {
    let inst = instance(vec![cex(0, 5, vec![2])], vec![bex(0, 1, vec![2], true)]);
    let required: HashSet<usize> = [0usize].into_iter().collect();
    assert!(run_heuristic_trace_level(&inst, &required, 2, &costs(1, 1), &costs(1, 1)).is_none());
}

#[test]
fn test_heuristic_without_predicates_keeps_all_states() {
    let mut inst = instance(vec![cex(0, 5, vec![2]), cex(1, 2, vec![9])], vec![bex(0, 3, vec![4], false)]);
    inst.predicates.clear();
    let r = run_heuristic_trace_level(&inst, &HashSet::new(), 2, &HashMap::new(), &HashMap::new()).unwrap();
    assert!(r.selected_predicates.is_empty());
    assert_eq!(r.covered_traces, 5);
    assert_eq!(r.b_penalty, 3);
    assert_eq!(r.score, -1);
}

use invariant_finder_rust::data_types::general_data_types::WaveFormSource;
use invariant_finder_rust::set_cover_solver::SetCoverSolver;

#[test]
fn test_collect_cex_state_ids() {
    let mut original = cex(3, 1, vec![7, 8]);
    original.file_source = Some(WaveFormSource::OriginalCex);
    let inst = instance(vec![cex(0, 5, vec![2]), original], vec![]);
    let mut ids = SetCoverSolver::collect_cex_state_ids(&inst);
    ids.sort();
    assert_eq!(ids, vec![7, 8]);
    let plain = instance(vec![cex(0, 5, vec![2])], vec![]);
    assert!(SetCoverSolver::collect_cex_state_ids(&plain).is_empty());
}

#[test]
fn test_heuristic_keeps_tightening_while_a_step_pays() {
    let inst = instance(
        vec![cex(0, 5, vec![2])],
        vec![bex(0, 1, vec![4], false), bex(1, 2, vec![3], false), bex(2, 1, vec![1], false)],
    );
    let r = run_heuristic_trace_level(&inst, &HashSet::new(), 2, &costs(1, 1), &costs(3, 3)).unwrap();
    let mut selected = r.selected_predicates.clone();
    selected.sort();
    assert_eq!(selected, vec![0, 1]);
    assert_eq!(r.covered_traces, 5);
    assert_eq!(r.b_penalty, 0);
    assert_eq!(r.score, -1);
}

use invariant_finder_rust::data_types::general_data_types::{SignalInfo, SignalType, SignalTypesSet};

fn pred_with(id: usize, base: BasePredicate) -> SetCoverPredicate {
    SetCoverPredicate {
        id,
        covered_states: BitSetWrapper::new(),
        predicate: BasePredicateCandidate { base_predicate: base, only_in_cycles: None },
    }
}

fn signal(alias: &str, types: Vec<SignalType>) -> SignalInfo {
    let mut set = SignalTypesSet::new();
    for t in types {
        set.insert(t);
    }
    SignalInfo { aliases: vec![alias.to_string()], id: 0, length: 8, signal_types: set }
}

fn sorted(mut v: Vec<usize>) -> Vec<usize> {
    v.sort();
    v
}

#[test]
fn test_architecture_groups() {
    let preds = vec![
        pred_with(0, BasePredicate::new_from_value("TOP.opcode".to_string(), Operator::Equal, 7, 0x73, Some(1))),
        pred_with(1, BasePredicate::new_from_value("TOP.imm_i".to_string(), Operator::Equal, 12, 5, Some(2))),
        pred_with(2, BasePredicate::new_from_value("TOP.Funct3".to_string(), Operator::NotEqual, 3, 0, Some(3))),
        pred_with(3, BasePredicate::new_from_value("TOP.foo".to_string(), Operator::GreaterEqual, 8, 4, Some(4))),
        pred_with(4, BasePredicate::new_from_value("TOP.opcode".to_string(), Operator::Equal, 7, 0x33, Some(1))),
    ];
    let infos = vec![
        signal("TOP.opcode", vec![]),
        signal("TOP.imm_i", vec![SignalType::Immediate]),
        signal("TOP.Funct3", vec![SignalType::Immediate]),
        signal("TOP.foo", vec![SignalType::Address]),
        signal("TOP.opcode", vec![]),
    ];
    let g = SetCoverSolver::architecture_groups(&preds, &infos);
    assert_eq!(sorted(g.not_equal), vec![2]);
    assert!(g.smaller_equal.is_empty());
    assert_eq!(sorted(g.greater_equal), vec![3]);
    assert_eq!(sorted(g.address_or_immediate), vec![1, 2, 3]);
    assert_eq!(sorted(g.immediate_funct3), vec![2]);
    assert!(g.immediate_funct7.is_empty());
    assert_eq!(sorted(g.immediate_imm_i), vec![1]);
    assert_eq!(sorted(g.immediate_rest), vec![3]);
    assert_eq!(sorted(g.allowed_funct3), vec![0, 4]);
    assert_eq!(sorted(g.allowed_funct7), vec![4]);
    assert_eq!(sorted(g.allowed_imm_i), vec![0]);
}
