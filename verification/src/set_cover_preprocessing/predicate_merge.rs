//! Merging the predicates that cover the same states.

use vstd::prelude::*;
use std::collections::HashMap;
use crate::set_cover_instance::{SetCoverInstance, SetCoverPredicate, usize_keys};

verus! {

broadcast use vstd::std_specs::hash::group_hash_axioms;

/// The predicates that cover the same states as `p`.
pub open spec fn pred_group(preds: Map<usize, SetCoverPredicate>, p: usize) -> Set<usize> {
    preds.dom().filter(|q: usize| preds[q].covered_states@ == preds[p].covered_states@)
}

/// `q` comes before `p`: it costs less, or as much with a smaller id.
pub open spec fn cheaper(cost_key: Map<usize, i64>, q: usize, p: usize) -> bool {
    cost_key[q] < cost_key[p] || (cost_key[q] == cost_key[p] && q < p)
}

/// `p` is the cheapest of its group (the smallest id among the cheapest).
pub open spec fn is_cheapest(preds: Map<usize, SetCoverPredicate>, cost_key: Map<usize, i64>, p: usize) -> bool {
    preds.contains_key(p) && forall|q: usize| #[trigger] pred_group(preds, p).contains(q) ==> !cheaper(cost_key, q, p)
}

/// Some predicate of the group of `p` holds in every cycle.
pub open spec fn group_unrestricted(preds: Map<usize, SetCoverPredicate>, p: usize) -> bool {
    exists|q: usize| #[trigger] pred_group(preds, p).contains(q) && preds[q].predicate.only_in_cycles is None
}

/// The cycles that some predicate of the group of `p` is restricted to.
pub open spec fn group_cycles(preds: Map<usize, SetCoverPredicate>, p: usize) -> Set<usize> {
    Set::new(|c: usize| exists|q: usize| #[trigger] pred_group(preds, p).contains(q)
        && preds[q].predicate.only_in_cycles.unwrap()@.contains(c))
}

/// The position `j` of `keys` holds a predicate of the group of `p`.
pub open spec fn in_group_at(preds: Map<usize, SetCoverPredicate>, keys: Seq<usize>, p: usize, j: int) -> bool {
    preds[keys[j]].covered_states@ == preds[p].covered_states@
}

/// Whether the predicate at position `i` is the cheapest of its group.
fn cheapest_at(inst: &SetCoverInstance, keys: &Vec<usize>, cost_key: &HashMap<usize, i64>, i: usize) -> (r: bool)
    requires
        i < keys@.len(),
        keys@.to_set() == inst.predicates@.dom(),
        forall|p: usize| #[trigger] inst.predicates@.contains_key(p) ==> cost_key@.contains_key(p),
    ensures
        r == is_cheapest(inst.predicates@, cost_key@, keys@[i as int]),
{
    let p = keys[i];
    assert(keys@.to_set().contains(p));
    let mine = inst.predicates.get(&p).unwrap();
    let my_cost = *cost_key.get(&p).unwrap();
    let n = keys.len();
    for j in 0..n
        invariant
            n == keys@.len(),
            p == keys@[i as int],
            keys@.to_set() == inst.predicates@.dom(),
            inst.predicates@.contains_key(p),
            *mine == inst.predicates@[p],
            my_cost == cost_key@[p],
            forall|p2: usize| #[trigger] inst.predicates@.contains_key(p2) ==> cost_key@.contains_key(p2),
            forall|k: int| 0 <= k < j ==> !(#[trigger] pred_group(inst.predicates@, p).contains(keys@[k])
                && cheaper(cost_key@, keys@[k], p)),
    {
        let q = keys[j];
        assert(keys@.to_set().contains(q));
        let other = inst.predicates.get(&q).unwrap();
        let same = other.covered_states.is_subset(&mine.covered_states) && mine.covered_states.is_subset(&other.covered_states);
        let q_cost = *cost_key.get(&q).unwrap();
        proof {
            if other.covered_states@.subset_of(mine.covered_states@) && mine.covered_states@.subset_of(other.covered_states@) {
                assert(other.covered_states@ =~= mine.covered_states@);
            }
            assert(pred_group(inst.predicates@, p).contains(q) == same);
        }
        if same && (q_cost < my_cost || (q_cost == my_cost && q < p)) {
            return false;
        }
    }
    proof {
        assert forall|q: usize| #[trigger] pred_group(inst.predicates@, p).contains(q) implies !cheaper(cost_key@, q, p) by {
            assert(keys@.to_set().contains(q));
            let k = choose|k: int| 0 <= k < keys@.len() && keys@[k] == q;
            assert(!(pred_group(inst.predicates@, p).contains(keys@[k]) && cheaper(cost_key@, keys@[k], p)));
        }
    }
    true
}

/// Appends the items of `v` to `acc`.
fn extend_with(acc: &mut Vec<usize>, v: &Vec<usize>)
    ensures
        final(acc)@ == old(acc)@ + v@,
{
    let n = v.len();
    for i in 0..n
        invariant
            n == v@.len(),
            acc@ == old(acc)@ + v@.take(i as int),
    {
        acc.push(v[i]);
        assert(acc@ =~= old(acc)@ + v@.take(i + 1));
    }
    assert(v@.take(n as int) =~= v@);
}

/// A copy of a cycle restriction.
fn copy_cycles(o: &Option<Vec<usize>>) -> (r: Option<Vec<usize>>)
    ensures
        r is None <==> o is None,
        r is Some ==> r->0@ == o->0@,
{
    match o {
        None => None,
        Some(v) => {
            let mut w: Vec<usize> = Vec::new();
            extend_with(&mut w, v);
            assert(w@ =~= v@);
            Some(w)
        },
    }
}

/// The cycles of the group of the predicate at position `i`: `None` where
/// one of them holds in every cycle, else all their cycles.
fn merged_cycles(inst: &SetCoverInstance, keys: &Vec<usize>, i: usize) -> (r: Option<Vec<usize>>)
    requires
        i < keys@.len(),
        keys@.to_set() == inst.predicates@.dom(),
    ensures
        r is None <==> group_unrestricted(inst.predicates@, keys@[i as int]),
        r is Some ==> r->0@.to_set() == group_cycles(inst.predicates@, keys@[i as int]),
{
    let ghost preds = inst.predicates@;
    let p = keys[i];
    assert(keys@.to_set().contains(p));
    let mine = inst.predicates.get(&p).unwrap();
    let n = keys.len();
    let mut acc: Vec<usize> = Vec::new();
    for j in 0..n
        invariant
            n == keys@.len(),
            p == keys@[i as int],
            preds == inst.predicates@,
            keys@.to_set() == preds.dom(),
            preds.contains_key(p),
            *mine == preds[p],
            forall|k: int| 0 <= k < j && #[trigger] in_group_at(preds, keys@, p, k) ==> preds[keys@[k]].predicate.only_in_cycles is Some,
            forall|c: usize| acc@.contains(c) <==> exists|k: int| 0 <= k < j && #[trigger] in_group_at(preds, keys@, p, k)
                && preds[keys@[k]].predicate.only_in_cycles.unwrap()@.contains(c),
    {
        let q = keys[j];
        assert(keys@.to_set().contains(q));
        let other = inst.predicates.get(&q).unwrap();
        let same = other.covered_states.is_subset(&mine.covered_states) && mine.covered_states.is_subset(&other.covered_states);
        proof {
            if other.covered_states@.subset_of(mine.covered_states@) && mine.covered_states@.subset_of(other.covered_states@) {
                assert(other.covered_states@ =~= mine.covered_states@);
            }
            assert(in_group_at(preds, keys@, p, j as int) == same);
        }
        if same {
            match &other.predicate.only_in_cycles {
                None => {
                    proof {
                        assert(pred_group(preds, p).contains(q));
                    }
                    return None;
                },
                Some(v) => {
                    let ghost a0 = acc@;
                    extend_with(&mut acc, v);
                    proof {
                        assert forall|c: usize| acc@.contains(c) <==> exists|k: int| 0 <= k < j + 1 && #[trigger] in_group_at(preds, keys@, p, k)
                            && preds[keys@[k]].predicate.only_in_cycles.unwrap()@.contains(c) by {
                            if acc@.contains(c) {
                                let x = choose|x: int| 0 <= x < acc@.len() && acc@[x] == c;
                                if x < a0.len() {
                                    assert(a0[x] == c);
                                    assert(a0.contains(c));
                                    let k = choose|k: int| 0 <= k < j && #[trigger] in_group_at(preds, keys@, p, k)
                                        && preds[keys@[k]].predicate.only_in_cycles.unwrap()@.contains(c);
                                    assert(0 <= k < j + 1);
                                } else {
                                    assert(v@[x - a0.len()] == c);
                                    assert(in_group_at(preds, keys@, p, j as int));
                                }
                            }
                            if exists|k: int| 0 <= k < j + 1 && #[trigger] in_group_at(preds, keys@, p, k)
                                && preds[keys@[k]].predicate.only_in_cycles.unwrap()@.contains(c) {
                                let k = choose|k: int| 0 <= k < j + 1 && #[trigger] in_group_at(preds, keys@, p, k)
                                    && preds[keys@[k]].predicate.only_in_cycles.unwrap()@.contains(c);
                                if k < j {
                                    assert(a0.contains(c));
                                    let x = choose|x: int| 0 <= x < a0.len() && a0[x] == c;
                                    assert(acc@[x] == c);
                                } else {
                                    let x = choose|x: int| 0 <= x < v@.len() && v@[x] == c;
                                    assert(acc@[a0.len() + x] == c);
                                }
                            }
                        }
                    }
                },
            }
        } else {
            proof {
                assert forall|c: usize| acc@.contains(c) <==> exists|k: int| 0 <= k < j + 1 && #[trigger] in_group_at(preds, keys@, p, k)
                    && preds[keys@[k]].predicate.only_in_cycles.unwrap()@.contains(c) by {
                    if exists|k: int| 0 <= k < j + 1 && #[trigger] in_group_at(preds, keys@, p, k)
                        && preds[keys@[k]].predicate.only_in_cycles.unwrap()@.contains(c) {
                        let k = choose|k: int| 0 <= k < j + 1 && #[trigger] in_group_at(preds, keys@, p, k)
                            && preds[keys@[k]].predicate.only_in_cycles.unwrap()@.contains(c);
                        assert(k < j);
                    }
                }
            }
        }
    }
    proof {
        assert(!group_unrestricted(preds, p)) by {
            if group_unrestricted(preds, p) {
                let q = choose|q: usize| #[trigger] pred_group(preds, p).contains(q) && preds[q].predicate.only_in_cycles is None;
                assert(keys@.to_set().contains(q));
                let k = choose|k: int| 0 <= k < keys@.len() && keys@[k] == q;
                assert(in_group_at(preds, keys@, p, k));
            }
        }
        assert forall|c: usize| acc@.to_set().contains(c) <==> group_cycles(preds, p).contains(c) by {
            if acc@.to_set().contains(c) {
                assert(acc@.contains(c));
                let k = choose|k: int| 0 <= k < n && #[trigger] in_group_at(preds, keys@, p, k)
                    && preds[keys@[k]].predicate.only_in_cycles.unwrap()@.contains(c);
                assert(keys@.to_set().contains(keys@[k]));
                assert(pred_group(preds, p).contains(keys@[k]));
            }
            if group_cycles(preds, p).contains(c) {
                let q = choose|q: usize| #[trigger] pred_group(preds, p).contains(q) && preds[q].predicate.only_in_cycles.unwrap()@.contains(c);
                assert(keys@.to_set().contains(q));
                let k = choose|k: int| 0 <= k < keys@.len() && keys@[k] == q;
                assert(in_group_at(preds, keys@, p, k));
                assert(acc@.contains(c));
            }
        }
        assert(acc@.to_set() =~= group_cycles(preds, p));
    }
    Some(acc)
}

/// Merges the predicates that cover the same states into the cheapest of
/// them by `cost_key` (the smallest id among equally cheap ones), which holds
/// in every cycle where one of them does, and else in all their cycles.
pub fn merge_predicates(inst: &mut SetCoverInstance, cost_key: &HashMap<usize, i64>)
    requires
        forall|p: usize| #[trigger] old(inst).predicates@.contains_key(p) ==> cost_key@.contains_key(p),
    ensures
        ({
            let before = old(inst).predicates@;
            let after = final(inst).predicates@;
            &&& forall|p: usize| #[trigger] after.contains_key(p) <==> is_cheapest(before, cost_key@, p)
            &&& forall|p: usize| #[trigger] after.contains_key(p) ==> {
                &&& after[p].id == before[p].id
                &&& after[p].covered_states@ == before[p].covered_states@
                &&& after[p].predicate.base_predicate == before[p].predicate.base_predicate
                &&& (after[p].predicate.only_in_cycles is None <==> group_unrestricted(before, p))
                &&& (after[p].predicate.only_in_cycles is Some
                    ==> after[p].predicate.only_in_cycles.unwrap()@.to_set() == group_cycles(before, p))
            }
            &&& final(inst).bex_samples == old(inst).bex_samples
            &&& final(inst).cex_traces == old(inst).cex_traces
            &&& final(inst).bex_traces == old(inst).bex_traces
            &&& final(inst).all_states == old(inst).all_states
            &&& final(inst).formula_score_weights == old(inst).formula_score_weights
        }),
{
    let ghost start = *inst;
    let ghost before = inst.predicates@;
    let keys = usize_keys(&inst.predicates);
    let n = keys.len();
    // Decide, for each predicate, whether it stays and with which cycles.
    let mut keep: Vec<bool> = Vec::new();
    let mut cycles: Vec<Option<Vec<usize>>> = Vec::new();
    for i in 0..n
        invariant
            n == keys@.len(),
            keys@.to_set() == before.dom(),
            *inst == start,
            before == start.predicates@,
            forall|p: usize| #[trigger] before.contains_key(p) ==> cost_key@.contains_key(p),
            keep@.len() == i && cycles@.len() == i,
            forall|k: int| 0 <= k < i ==> #[trigger] keep@[k] == is_cheapest(before, cost_key@, keys@[k]),
            forall|k: int| 0 <= k < i ==> ((#[trigger] cycles@[k]) is None <==> group_unrestricted(before, keys@[k])),
            forall|k: int| 0 <= k < i ==> (#[trigger] cycles@[k]) is Some ==> cycles@[k]->0@.to_set() == group_cycles(before, keys@[k]),
    {
        let ghost (k0, c0) = (keep@, cycles@);
        keep.push(cheapest_at(inst, &keys, cost_key, i));
        cycles.push(merged_cycles(inst, &keys, i));
        proof {
            assert forall|k: int| 0 <= k < i + 1 implies #[trigger] keep@[k] == is_cheapest(before, cost_key@, keys@[k]) by {
                if k < i {
                    assert(keep@[k] == k0[k]);
                }
            }
            assert forall|k: int| 0 <= k < i + 1 implies ((#[trigger] cycles@[k]) is None <==> group_unrestricted(before, keys@[k])) by {
                if k < i {
                    assert(cycles@[k] == c0[k]);
                }
            }
            assert forall|k: int| 0 <= k < i + 1 implies (#[trigger] cycles@[k]) is Some ==> cycles@[k]->0@.to_set() == group_cycles(before, keys@[k]) by {
                if k < i {
                    assert(cycles@[k] == c0[k]);
                }
            }
        }
    }
    // Take the representatives out with their merged cycles.
    let mut new_preds: HashMap<usize, SetCoverPredicate> = HashMap::new();
    let mut i: usize = 0;
    while i < n
        invariant
            0 <= i <= n,
            n == keys@.len(),
            keys@.to_set() == before.dom(),
            keys@.no_duplicates(),
            keep@.len() == n && cycles@.len() == n,
            forall|k: int| 0 <= k < n ==> #[trigger] keep@[k] == is_cheapest(before, cost_key@, keys@[k]),
            forall|k: int| 0 <= k < n ==> ((#[trigger] cycles@[k]) is None <==> group_unrestricted(before, keys@[k])),
            forall|k: int| 0 <= k < n ==> (#[trigger] cycles@[k]) is Some ==> cycles@[k]->0@.to_set() == group_cycles(before, keys@[k]),
            forall|k: int| i <= k < n ==> #[trigger] inst.predicates@.contains_key(keys@[k]),
            forall|p: usize| #[trigger] inst.predicates@.contains_key(p) ==> before.contains_key(p) && inst.predicates@[p] == before[p],
            forall|p: usize| #[trigger] new_preds@.contains_key(p) <==> exists|k: int| 0 <= k < i && keys@[k] == p && keep@[k],
            forall|p: usize| #[trigger] new_preds@.contains_key(p) ==> {
                &&& new_preds@[p].id == before[p].id
                &&& new_preds@[p].covered_states@ == before[p].covered_states@
                &&& new_preds@[p].predicate.base_predicate == before[p].predicate.base_predicate
                &&& (new_preds@[p].predicate.only_in_cycles is None <==> group_unrestricted(before, p))
                &&& (new_preds@[p].predicate.only_in_cycles is Some
                    ==> new_preds@[p].predicate.only_in_cycles.unwrap()@.to_set() == group_cycles(before, p))
            },
            inst.bex_samples == start.bex_samples,
            inst.cex_traces == start.cex_traces,
            inst.bex_traces == start.bex_traces,
            inst.all_states == start.all_states,
            inst.formula_score_weights == start.formula_score_weights,
        decreases n - i,
    {
        let p = keys[i];
        if keep[i] {
            let mut predicate = inst.predicates.remove(&p).unwrap();
            let merged = copy_cycles(&cycles[i]);
            predicate.predicate.only_in_cycles = merged;
            new_preds.insert(p, predicate);
        } else {
            inst.predicates.remove(&p);
        }
        proof {
            assert forall|k: int| i + 1 <= k < n implies #[trigger] inst.predicates@.contains_key(keys@[k]) by {
                assert(keys@[k] != keys@[i as int]);
            }
            assert forall|q: usize| #[trigger] new_preds@.contains_key(q) <==> exists|k: int| 0 <= k < i + 1 && keys@[k] == q && keep@[k] by {
                if new_preds@.contains_key(q) && q != p {
                    let k = choose|k: int| 0 <= k < i && keys@[k] == q && keep@[k];
                    assert(0 <= k < i + 1);
                }
                if exists|k: int| 0 <= k < i + 1 && keys@[k] == q && keep@[k] {
                    let k = choose|k: int| 0 <= k < i + 1 && keys@[k] == q && keep@[k];
                    if k < i {
                        assert(exists|k2: int| 0 <= k2 < i && keys@[k2] == q && keep@[k2]);
                    }
                }
            }
        }
        i = i + 1;
    }
    proof {
        assert forall|p: usize| #[trigger] new_preds@.contains_key(p) <==> is_cheapest(before, cost_key@, p) by {
            if new_preds@.contains_key(p) {
                let k = choose|k: int| 0 <= k < n && keys@[k] == p && keep@[k];
            }
            if is_cheapest(before, cost_key@, p) {
                assert(keys@.to_set().contains(p));
                let k = choose|k: int| 0 <= k < keys@.len() && keys@[k] == p;
                assert(keep@[k]);
            }
        }
    }
    inst.predicates = new_preds;
}

} // verus!
