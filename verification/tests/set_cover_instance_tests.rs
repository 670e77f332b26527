use invariant_finder_rust::set_cover_instance::{find_rep, init_representatives, merge_states_rep};

#[test]
fn test_merge_states_rep_points_group_at_first() {
    let mut rep = init_representatives(3);
    assert_eq!(rep, vec![0, 1, 2, 3]);
    merge_states_rep(&mut rep, &vec![1, 2, 3]);
    assert_eq!(rep, vec![0, 1, 1, 1]);
}

#[test]
fn test_find_rep_compresses_path() {
    let mut rep: Vec<u64> = vec![0, 0, 1, 2, 4];
    assert_eq!(find_rep(&mut rep, 3), 0);
    assert_eq!(rep, vec![0, 0, 0, 0, 4]);
    assert_eq!(find_rep(&mut rep, 4), 4);
}

#[test]
fn test_merge_states_rep_joins_classes() {
    let mut rep = init_representatives(5);
    merge_states_rep(&mut rep, &vec![4, 5]);
    merge_states_rep(&mut rep, &vec![2, 5, 0]);
    let roots: Vec<u64> = (0..6).map(|i| find_rep(&mut rep, i)).collect();
    assert_eq!(roots, vec![2, 1, 2, 3, 2, 2]);
    let before = rep.clone();
    merge_states_rep(&mut rep, &vec![2, 5, 0]);
    let again: Vec<u64> = (0..6).map(|i| find_rep(&mut rep, i)).collect();
    assert_eq!(again, roots);
    assert_eq!(rep, before);
    merge_states_rep(&mut rep, &vec![]);
    assert_eq!(rep, before);
}

use std::collections::{HashMap, HashSet};

use invariant_finder_rust::data_types::general_data_types::{BitSetWrapper, FormulaScoreWeights, WaveFormSource};
use invariant_finder_rust::predicates::{BasePredicate, BasePredicateCandidate, Operator};
use invariant_finder_rust::set_cover_instance::{
    SetCoverBEXSample, SetCoverCEXSample, SetCoverCEXTrace, SetCoverInstance, SetCoverPredicate,
};
use invariant_finder_rust::set_cover_preprocessing::{prune_b_states_unionfind_multiround, UnionFind};

fn predicate(id: usize, states: Vec<u32>) -> SetCoverPredicate {
    SetCoverPredicate {
        id,
        covered_states: BitSetWrapper::from_vec(states),
        predicate: BasePredicateCandidate {
            base_predicate: BasePredicate::new_from_value("sig".to_string(), Operator::Equal, 1, id as i64, Some(0)),
            only_in_cycles: None,
        },
    }
}

fn bex(state_id: u64, weight: u64, must_not_cover: bool) -> SetCoverBEXSample {
    SetCoverBEXSample { state_id, weight, from_path: format!("path{}", state_id), must_not_cover }
}

fn instance(preds: Vec<SetCoverPredicate>, samples: Vec<SetCoverBEXSample>) -> SetCoverInstance {
    let mut predicates = HashMap::new();
    for p in preds {
        predicates.insert(p.id, p);
    }
    let mut bex_samples = HashMap::new();
    let mut all_states = HashSet::new();
    for b in samples {
        all_states.insert(b.state_id);
        bex_samples.insert(b.state_id, b);
    }
    SetCoverInstance {
        predicates,
        bex_samples,
        cex_traces: HashMap::new(),
        bex_traces: HashMap::new(),
        all_states,
        formula_score_weights: FormulaScoreWeights { bex_multiplier: 1, predicate_base_cost: 1 },
    }
}

fn supports(pairs: Vec<(u64, Vec<u32>)>) -> HashMap<u64, BitSetWrapper> {
    pairs.into_iter().map(|(s, v)| (s, BitSetWrapper::from_vec(v))).collect()
}

#[test]
fn test_prune_merges_into_must_not_cover_state() {
    let inst = instance(
        vec![predicate(0, vec![1, 2]), predicate(1, vec![1, 3])],
        vec![bex(1, 5, true), bex(2, 2, false), bex(3, 1, false)],
    );
    let b_support = supports(vec![(1, vec![0, 1]), (2, vec![0]), (3, vec![1])]);
    for must_cover_only in [false, true] {
        let (kept, old_to_new) = prune_b_states_unionfind_multiround(&inst, &b_support, must_cover_only);
        assert_eq!(kept.len(), 1);
        assert_eq!(kept[&1].weight, 8);
        assert!(kept[&1].must_not_cover);
        assert_eq!(kept[&1].from_path, "path1");
        assert_eq!(old_to_new[&1], 1);
        assert_eq!(old_to_new[&2], 1);
        assert_eq!(old_to_new[&3], 1);
    }
}

#[test]
fn test_prune_merges_into_must_not_cover_state_only() {
    let inst = instance(vec![predicate(0, vec![1, 2]), predicate(1, vec![1])], vec![bex(1, 1, true), bex(2, 3, false)]);
    let b_support = supports(vec![(1, vec![0, 1]), (2, vec![0])]);
    let (kept, old_to_new) = prune_b_states_unionfind_multiround(&inst, &b_support, true);
    assert_eq!(kept.len(), 1);
    assert_eq!(kept[&1].state_id, 1);
    assert_eq!(kept[&1].weight, 4);
    assert!(kept[&1].must_not_cover);
    assert_eq!(old_to_new.len(), 2);
    assert_eq!(old_to_new[&1], 1);
    assert_eq!(old_to_new[&2], 1);
}

#[test]
fn test_prune_merges_lighter_state_with_same_support() {
    let inst = instance(vec![predicate(0, vec![4, 5])], vec![bex(4, 3, false), bex(5, 1, false)]);
    let b_support = supports(vec![(4, vec![0]), (5, vec![0])]);
    let (kept, old_to_new) = prune_b_states_unionfind_multiround(&inst, &b_support, false);
    assert_eq!(kept.len(), 1);
    assert_eq!(kept[&4].weight, 4);
    assert_eq!(old_to_new[&5], 4);
    let (kept, old_to_new) = prune_b_states_unionfind_multiround(&inst, &b_support, true);
    assert_eq!(kept.len(), 2);
    assert_eq!(kept[&4].weight, 3);
    assert_eq!(kept[&5].weight, 1);
    assert_eq!(old_to_new[&5], 5);
}

#[test]
fn test_prune_keeps_states_a_counterexample_tells_apart() {
    let inst = instance(
        vec![predicate(0, vec![1, 2]), predicate(1, vec![1, 3])],
        vec![bex(1, 5, false), bex(2, 2, false), bex(3, 1, false)],
    );
    let b_support = supports(vec![(1, vec![0, 1]), (2, vec![0]), (3, vec![1])]);
    let (kept, old_to_new) = prune_b_states_unionfind_multiround(&inst, &b_support, false);
    assert_eq!(kept.len(), 3);
    assert_eq!(old_to_new[&2], 2);
}

#[test]
fn test_union_find_classes() {
    let inst = instance(vec![], vec![bex(10, 1, false), bex(20, 2, true), bex(30, 4, false)]);
    let mut uf = UnionFind::new(&inst.bex_samples);
    assert_eq!(uf.find_non_mut(20), 20);
    uf.union(20, 10);
    assert_eq!(uf.find(10), 20);
    assert_eq!(uf.node(20), (3, true));
    uf.union(30, 10);
    assert_eq!(uf.find_non_mut(10), 30);
    assert_eq!(uf.find_non_mut(20), 30);
    assert_eq!(uf.node(30), (7, true));
    uf.union(20, 30);
    assert_eq!(uf.node(30), (7, true));
    let kept = uf.into_bex(&inst);
    assert_eq!(kept.len(), 1);
    assert_eq!(kept[&30].weight, 7);
}

#[test]
fn test_instance_merge_states() {
    let mut inst = instance(
        vec![predicate(0, vec![1, 2, 3]), predicate(1, vec![3])],
        vec![bex(1, 2, false), bex(2, 3, true), bex(4, 1, false)],
    );
    let mut states = HashMap::new();
    states.insert(2, SetCoverCEXSample { state_id: 2, cycle: 7 });
    states.insert(5, SetCoverCEXSample { state_id: 5, cycle: 8 });
    inst.cex_traces.insert(
        0,
        SetCoverCEXTrace { id: 0, weight: 1, states, from_path: "cex".to_string(), file_source: Some(WaveFormSource::OriginalCex) },
    );
    inst.all_states.insert(5);
    inst.merge_states(&vec![1, 2, 3]);
    assert_eq!(inst.bex_samples.len(), 2);
    assert_eq!(inst.bex_samples[&1].weight, 5);
    assert!(inst.bex_samples[&1].must_not_cover);
    assert!(!inst.all_states.contains(&2));
    assert!(inst.all_states.contains(&1));
    let trace = &inst.cex_traces[&0];
    assert_eq!(trace.states.len(), 2);
    assert_eq!(trace.states[&1].cycle, 7);
    assert!(!trace.states.contains_key(&2));
    assert_eq!(inst.predicates[&0].covered_states.collect(), vec![1]);
    assert!(inst.predicates[&1].covered_states.is_empty());
    inst.merge_states(&vec![4]);
    assert_eq!(inst.bex_samples.len(), 2);
}

use invariant_finder_rust::set_cover_preprocessing::{
    build_pred_index, classify_states, compute_b_supports, keep_nonempty_traces, remove_states_from_predicates,
    remove_unused_states,
};

fn cex_trace(id: usize, states: Vec<u64>) -> SetCoverCEXTrace {
    let mut m = HashMap::new();
    for s in states {
        m.insert(s, SetCoverCEXSample { state_id: s, cycle: 1 });
    }
    SetCoverCEXTrace { id, weight: 1, states: m, from_path: "cex".to_string(), file_source: None }
}

fn set_of(v: Vec<u64>) -> HashSet<u64> {
    v.into_iter().collect()
}

#[test]
fn test_classify_and_remove_states() {
    let mut inst = instance(
        vec![predicate(3, vec![1, 2, 7, 9]), predicate(8, vec![2, 9])],
        vec![bex(1, 1, false), bex(2, 1, false)],
    );
    inst.cex_traces.insert(0, cex_trace(0, vec![2, 7]));
    inst.cex_traces.insert(1, cex_trace(1, vec![5]));
    let (cex_only, bex_only, both) = classify_states(&inst);
    assert_eq!(cex_only, set_of(vec![5, 7]));
    assert_eq!(bex_only, set_of(vec![1]));
    assert_eq!(both, set_of(vec![2]));

    remove_states_from_predicates(&mut inst, &set_of(vec![1, 9]));
    assert_eq!(inst.predicates[&3].covered_states.collect(), vec![2, 7]);
    assert_eq!(inst.predicates[&8].covered_states.collect(), vec![2]);

    inst.predicates.get_mut(&3).unwrap().covered_states.insert(11);
    remove_unused_states(&mut inst);
    assert_eq!(inst.predicates[&3].covered_states.collect(), vec![2, 7]);
    assert_eq!(inst.all_states, set_of(vec![1, 2, 5, 7]));
}

#[test]
fn test_pred_index_and_supports() {
    let inst = instance(
        vec![predicate(7, vec![1, 2]), predicate(3, vec![2]), predicate(11, vec![4])],
        vec![bex(1, 1, false), bex(2, 1, false), bex(5, 1, false)],
    );
    let index = build_pred_index(&inst.predicates);
    assert_eq!(index[&3], 0);
    assert_eq!(index[&7], 1);
    assert_eq!(index[&11], 2);
    let supports = compute_b_supports(&inst, &index);
    assert_eq!(supports.len(), 3);
    assert_eq!(supports[&1].collect(), vec![1]);
    assert_eq!(supports[&2].collect(), vec![0, 1]);
    assert!(supports[&5].is_empty());
}

#[test]
fn test_keep_nonempty_traces() {
    let inst = instance(vec![], vec![]);
    let mut support = HashMap::new();
    support.insert(0usize, BitSetWrapper::from_vec(vec![1]));
    support.insert(1usize, BitSetWrapper::new());
    support.insert(2usize, BitSetWrapper::from_vec(vec![0, 2]));
    let kept = keep_nonempty_traces(&inst, &support, 0).unwrap();
    let expected: HashSet<usize> = [0, 2].into_iter().collect();
    assert_eq!(kept, expected);
    assert!(keep_nonempty_traces(&inst, &support, 1).is_err());
    assert!(keep_nonempty_traces(&inst, &support, 7).is_err());
}

use invariant_finder_rust::set_cover_instance::{SetCoverBEXTrace, UnweightedBEXSample};
use invariant_finder_rust::set_cover_preprocessing::{merge_traces_identical_bex_traces, merge_traces_identical_cex_traces};

fn cex_trace_from(id: usize, weight: u64, states: Vec<u64>, source: Option<WaveFormSource>) -> SetCoverCEXTrace {
    let mut t = cex_trace(id, states);
    t.weight = weight;
    t.file_source = source;
    t
}

fn bex_trace(id: usize, weight: u64, states: Vec<u64>, must_not_cover: bool) -> SetCoverBEXTrace {
    let mut m = HashMap::new();
    for s in states {
        m.insert(s, UnweightedBEXSample { state_id: s, cycle: 2 });
    }
    SetCoverBEXTrace { id, weight, states: m, from_path: "bex".to_string(), file_source: None, must_not_cover }
}

#[test]
fn test_merge_identical_cex_traces() {
    let mut inst = instance(vec![], vec![]);
    inst.cex_traces.insert(4, cex_trace_from(4, 2, vec![1, 2], Some(WaveFormSource::OriginalCex)));
    inst.cex_traces.insert(2, cex_trace_from(2, 3, vec![2, 1], Some(WaveFormSource::Mutations)));
    inst.cex_traces.insert(7, cex_trace_from(7, 5, vec![3], Some(WaveFormSource::Seed)));
    merge_traces_identical_cex_traces(&mut inst);
    assert_eq!(inst.cex_traces.len(), 2);
    assert_eq!(inst.cex_traces[&2].weight, 5);
    assert_eq!(inst.cex_traces[&2].file_source, Some(WaveFormSource::OriginalCex));
    assert_eq!(inst.cex_traces[&7].weight, 5);
    assert_eq!(inst.cex_traces[&7].file_source, Some(WaveFormSource::Seed));
    assert!(!inst.cex_traces.contains_key(&4));
}

#[test]
fn test_merge_identical_bex_traces() {
    let mut inst = instance(vec![], vec![]);
    inst.bex_traces.insert(3, bex_trace(3, 1, vec![5, 6], false));
    inst.bex_traces.insert(1, bex_trace(1, 2, vec![6, 5], false));
    inst.bex_traces.insert(9, bex_trace(9, 4, vec![5, 6], true));
    inst.bex_traces.insert(8, bex_trace(8, 7, vec![5], false));
    merge_traces_identical_bex_traces(&mut inst);
    assert_eq!(inst.bex_traces.len(), 2);
    assert_eq!(inst.bex_traces[&1].weight, 7);
    assert!(inst.bex_traces[&1].must_not_cover);
    assert_eq!(inst.bex_traces[&8].weight, 7);
    assert!(!inst.bex_traces[&8].must_not_cover);
}

use invariant_finder_rust::set_cover_preprocessing::{merge_b_states, merge_states};

#[test]
fn test_merge_states_with_same_support() {
    let mut inst = instance(
        vec![predicate(0, vec![1, 2, 5]), predicate(1, vec![1, 2])],
        vec![bex(1, 2, false), bex(2, 3, true), bex(3, 1, false)],
    );
    inst.all_states.insert(5);
    inst.cex_traces.insert(0, cex_trace(0, vec![2, 5]));
    inst.bex_traces.insert(4, bex_trace(4, 6, vec![1, 2], false));
    merge_states(&mut inst);
    assert_eq!(inst.all_states, set_of(vec![1, 3, 5]));
    assert_eq!(inst.predicates[&0].covered_states.collect(), vec![1, 5]);
    assert_eq!(inst.predicates[&1].covered_states.collect(), vec![1]);
    assert_eq!(inst.bex_samples.len(), 2);
    assert_eq!(inst.bex_samples[&1].weight, 5);
    assert!(inst.bex_samples[&1].must_not_cover);
    assert_eq!(inst.bex_samples[&1].state_id, 1);
    assert_eq!(inst.bex_samples[&3].weight, 1);
    assert!(!inst.bex_samples[&3].must_not_cover);
    let cex_states: HashSet<u64> = inst.cex_traces[&0].states.keys().copied().collect();
    assert_eq!(cex_states, set_of(vec![1, 5]));
    assert_eq!(inst.cex_traces[&0].states[&1].state_id, 1);
    let bex_states: HashSet<u64> = inst.bex_traces[&4].states.keys().copied().collect();
    assert_eq!(bex_states, set_of(vec![1]));
    assert_eq!(inst.bex_traces[&4].weight, 6);
}

#[test]
fn test_merge_b_states_with_same_support() {
    let mut inst = instance(vec![], vec![bex(1, 9, false)]);
    let mut kept = HashMap::new();
    kept.insert(4u64, bex(4, 2, false));
    kept.insert(6u64, bex(6, 3, true));
    kept.insert(8u64, bex(8, 5, false));
    let b_support = supports(vec![(4, vec![0, 1]), (6, vec![0, 1]), (8, vec![2]), (9, vec![2])]);
    let mut old_to_new = HashMap::new();
    old_to_new.insert(9u64, 8u64);
    inst.bex_traces.insert(0, bex_trace(0, 1, vec![6, 9], true));
    merge_b_states(&kept, &b_support, &old_to_new, &mut inst);
    assert_eq!(inst.bex_samples.len(), 2);
    assert_eq!(inst.bex_samples[&4].weight, 5);
    assert!(inst.bex_samples[&4].must_not_cover);
    assert_eq!(inst.bex_samples[&4].from_path, "path4");
    assert_eq!(inst.bex_samples[&8].weight, 5);
    assert!(!inst.bex_samples[&8].must_not_cover);
    let states: HashSet<u64> = inst.bex_traces[&0].states.keys().copied().collect();
    assert_eq!(states, set_of(vec![4, 8]));
    assert_eq!(inst.bex_traces[&0].states[&4].state_id, 4);
    assert!(inst.bex_traces[&0].must_not_cover);
}

use invariant_finder_rust::set_cover_preprocessing::{
    merge_traces_identical_supports, remove_already_covered_cex_states_and_empty_traces,
};

#[test]
fn test_calculate_allowed_by_map() {
    let inst = instance(
        vec![predicate(0, vec![1]), predicate(1, vec![1, 2]), predicate(2, vec![])],
        vec![bex(1, 1, false), bex(2, 1, false), bex(3, 1, false)],
    );
    let allowed = inst.calculate_allowed_by_map();
    assert_eq!(allowed.len(), 3);
    assert_eq!(allowed[&1].collect(), vec![2]);
    assert_eq!(allowed[&2].collect(), vec![0, 2]);
    assert_eq!(allowed[&3].collect(), vec![0, 1, 2]);
}

#[test]
fn test_merge_traces_identical_supports_prefers_required() {
    let mut inst = instance(vec![], vec![]);
    inst.cex_traces.insert(1, cex_trace_from(1, 2, vec![10], Some(WaveFormSource::Mutations)));
    inst.cex_traces.insert(3, cex_trace_from(3, 4, vec![11], Some(WaveFormSource::OriginalCex)));
    inst.cex_traces.insert(5, cex_trace_from(5, 1, vec![12], Some(WaveFormSource::Seed)));
    inst.cex_traces.insert(6, cex_trace_from(6, 7, vec![13], None));
    inst.cex_traces.insert(8, cex_trace_from(8, 3, vec![14], Some(WaveFormSource::Seed)));
    let mut support = HashMap::new();
    support.insert(1usize, BitSetWrapper::from_vec(vec![0, 1]));
    support.insert(3usize, BitSetWrapper::from_vec(vec![0, 1]));
    support.insert(5usize, BitSetWrapper::from_vec(vec![0, 1]));
    support.insert(6usize, BitSetWrapper::from_vec(vec![2]));
    support.insert(8usize, BitSetWrapper::from_vec(vec![2]));
    let kept: HashSet<usize> = [1, 3, 5, 6, 8].into_iter().collect();
    let merged = merge_traces_identical_supports(&inst, &kept, &support, 5);
    assert_eq!(merged.len(), 2);
    assert_eq!(merged[&5].weight, 7);
    assert_eq!(merged[&5].file_source, Some(WaveFormSource::OriginalCex));
    assert_eq!(merged[&5].states.len(), 1);
    assert!(merged[&5].states.contains_key(&12));
    assert_eq!(merged[&6].weight, 10);
    assert_eq!(merged[&6].file_source, None);
    let without_required = merge_traces_identical_supports(&inst, &kept, &support, 99);
    let ids: HashSet<usize> = without_required.keys().copied().collect();
    assert_eq!(ids, [1usize, 6].into_iter().collect());
    assert_eq!(without_required[&1].weight, 7);
}

#[test]
fn test_remove_already_covered_cex_states() {
    let mut inst = instance(
        vec![predicate(0, vec![2, 3, 4]), predicate(1, vec![3, 4, 5])],
        vec![bex(4, 1, false)],
    );
    inst.all_states.extend([2u64, 3, 5, 7]);
    inst.cex_traces.insert(0, cex_trace(0, vec![2, 3]));
    inst.cex_traces.insert(1, cex_trace(1, vec![5, 7]));
    inst.cex_traces.insert(2, cex_trace(2, vec![4]));
    let (removed_states, removed_traces) = remove_already_covered_cex_states_and_empty_traces(&mut inst);
    assert_eq!(removed_states, 1);
    assert_eq!(removed_traces, 1);
    assert_eq!(inst.all_states, set_of(vec![2, 4, 5, 7]));
    let ids: HashSet<usize> = inst.cex_traces.keys().copied().collect();
    assert_eq!(ids, [1usize, 2].into_iter().collect());
    assert_eq!(inst.predicates[&0].covered_states.collect(), vec![2, 4]);
    assert_eq!(inst.predicates[&1].covered_states.collect(), vec![4, 5]);
}

use invariant_finder_rust::set_cover_preprocessing::remove_dominated_predicates_fast;

#[test]
fn test_remove_dominated_predicates() {
    // States 1, 2, 3 occur in counterexamples; 4 and 5 are benign.
    let mut inst = instance(
        vec![
            predicate(0, vec![1, 4]),
            predicate(1, vec![1, 2]),
            predicate(2, vec![1, 2, 5]),
            predicate(3, vec![3, 4, 5]),
            predicate(4, vec![1, 2]),
        ],
        vec![bex(4, 1, false), bex(5, 1, false)],
    );
    inst.cex_traces.insert(0, cex_trace(0, vec![1, 2, 3]));
    let ranks: HashMap<usize, u64> = (0..5).map(|p| (p, 0)).collect();
    let removed = remove_dominated_predicates_fast(&mut inst, &ranks);
    // 0 and 2 are dominated by 1; of 1 and 4, which cover alike, one goes.
    assert_eq!(removed, 3);
    assert!(inst.predicates.contains_key(&3));
    assert!(!inst.predicates.contains_key(&0));
    assert!(!inst.predicates.contains_key(&2));
    assert!(inst.predicates.contains_key(&1) != inst.predicates.contains_key(&4));
}

#[test]
fn test_costlier_predicate_is_not_dominated_by_cheaper_one_only() {
    let mut inst = instance(vec![predicate(0, vec![1]), predicate(1, vec![1])], vec![]);
    inst.cex_traces.insert(0, cex_trace(0, vec![1]));
    let ranks: HashMap<usize, u64> = [(0usize, 5u64), (1usize, 2u64)].into_iter().collect();
    assert_eq!(remove_dominated_predicates_fast(&mut inst, &ranks), 1);
    assert!(inst.predicates.contains_key(&1));
    assert!(!inst.predicates.contains_key(&0));
}

use invariant_finder_rust::set_cover_preprocessing::merge_predicates;

fn predicate_in_cycles(id: usize, states: Vec<u32>, cycles: Option<Vec<usize>>) -> SetCoverPredicate {
    let mut p = predicate(id, states);
    p.predicate.only_in_cycles = cycles;
    p
}

#[test]
fn test_merge_predicates_keeps_cheapest() {
    let mut inst = instance(
        vec![
            predicate_in_cycles(0, vec![1, 2], Some(vec![1, 2])),
            predicate_in_cycles(1, vec![1, 2], Some(vec![3])),
            predicate_in_cycles(2, vec![3], None),
            predicate_in_cycles(3, vec![1, 2], Some(vec![2])),
            predicate_in_cycles(4, vec![4], Some(vec![7])),
            predicate_in_cycles(5, vec![4], None),
        ],
        vec![],
    );
    let cost: HashMap<usize, i64> = [(0usize, 5i64), (1, 3), (2, 1), (3, 3), (4, 2), (5, 2)].into_iter().collect();
    merge_predicates(&mut inst, &cost);
    let ids: HashSet<usize> = inst.predicates.keys().copied().collect();
    assert_eq!(ids, [1usize, 2, 4].into_iter().collect());
    let mut cycles = inst.predicates[&1].predicate.only_in_cycles.clone().unwrap();
    cycles.sort();
    cycles.dedup();
    assert_eq!(cycles, vec![1, 2, 3]);
    assert_eq!(inst.predicates[&1].covered_states.collect(), vec![1, 2]);
    assert_eq!(inst.predicates[&2].predicate.only_in_cycles, None);
    assert_eq!(inst.predicates[&4].predicate.only_in_cycles, None);
}

#[test]
fn test_merges_keep_total_weight() {
    let mut inst = instance(vec![], vec![]);
    inst.cex_traces.insert(4, cex_trace_from(4, 2, vec![1, 2], None));
    inst.cex_traces.insert(2, cex_trace_from(2, 3, vec![2, 1], None));
    inst.cex_traces.insert(7, cex_trace_from(7, 5, vec![3], None));
    inst.bex_traces.insert(3, bex_trace(3, 1, vec![5, 6], false));
    inst.bex_traces.insert(1, bex_trace(1, 2, vec![6, 5], false));
    inst.bex_traces.insert(8, bex_trace(8, 7, vec![5], false));
    merge_traces_identical_cex_traces(&mut inst);
    merge_traces_identical_bex_traces(&mut inst);
    assert_eq!(inst.cex_traces.values().map(|t| t.weight).sum::<u64>(), 10);
    assert_eq!(inst.bex_traces.values().map(|t| t.weight).sum::<u64>(), 10);

    let mut inst = instance(
        vec![predicate(0, vec![1, 2, 5]), predicate(1, vec![1, 2])],
        vec![bex(1, 2, false), bex(2, 3, true), bex(3, 1, false)],
    );
    inst.all_states.insert(5);
    merge_states(&mut inst);
    assert_eq!(inst.bex_samples.values().map(|b| b.weight).sum::<u64>(), 6);

    let mut inst = instance(vec![], vec![]);
    let mut kept = HashMap::new();
    kept.insert(4u64, bex(4, 2, false));
    kept.insert(6u64, bex(6, 3, true));
    kept.insert(8u64, bex(8, 5, false));
    let b_support = supports(vec![(4, vec![0, 1]), (6, vec![0, 1]), (8, vec![2])]);
    merge_b_states(&kept, &b_support, &HashMap::new(), &mut inst);
    assert_eq!(inst.bex_samples.values().map(|b| b.weight).sum::<u64>(), 10);
}
