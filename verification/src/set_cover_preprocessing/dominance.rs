//! Removing the predicates that another predicate dominates.

use vstd::prelude::*;
use std::collections::{HashMap, HashSet};
use crate::data_types::general_data_types::BitSetWrapper;
use crate::set_cover_instance::{SetCoverInstance, u64_keys, usize_keys};
use crate::set_cover_preprocessing::{cex_state_set, collect_cex_states, set_elems, usize_set_elems};

verus! {

broadcast use vstd::std_specs::hash::group_hash_axioms;

/// The states of the counterexample traces, as bits.
pub open spec fn cex_state_bits(inst: &SetCoverInstance) -> Set<u32> {
    Set::new(|x: u32| exists|s: u64| #[trigger] cex_state_set(inst.cex_traces@).contains(s) && s as u32 == x)
}

/// The benign states, as bits.
pub open spec fn bex_state_bits(inst: &SetCoverInstance) -> Set<u32> {
    Set::new(|x: u32| exists|s: u64| #[trigger] inst.bex_samples@.contains_key(s) && s as u32 == x)
}

/// The counterexample states that predicate `p` covers.
pub open spec fn cex_cover(inst: &SetCoverInstance, p: usize) -> Set<u32> {
    inst.predicates@[p].covered_states@.intersect(cex_state_bits(inst))
}

/// The benign states that predicate `p` covers.
pub open spec fn bex_cover(inst: &SetCoverInstance, p: usize) -> Set<u32> {
    inst.predicates@[p].covered_states@.intersect(bex_state_bits(inst))
}

/// Predicate `q` dominates predicate `p`: it covers every counterexample
/// state that `p` covers, no benign state that `p` leaves alone, and its
/// cost ranks no higher.
pub open spec fn dominates(inst: &SetCoverInstance, cost_rank: Map<usize, u64>, q: usize, p: usize) -> bool {
    &&& cex_cover(inst, p).subset_of(cex_cover(inst, q))
    &&& bex_cover(inst, q).subset_of(bex_cover(inst, p))
    &&& cost_rank[p] >= cost_rank[q]
}

proof fn lemma_dominates_transitive(inst: &SetCoverInstance, cost_rank: Map<usize, u64>, a: usize, b: usize, c: usize)
    requires
        dominates(inst, cost_rank, a, b),
        dominates(inst, cost_rank, b, c),
    ensures
        dominates(inst, cost_rank, a, c),
{
}

/// The ids of `set`, cut to 32 bits.
fn low_bits(ids: &Vec<u64>) -> (r: HashSet<u32>)
    ensures
        r@ == Set::new(|x: u32| exists|k: int| 0 <= k < ids@.len() && #[trigger] ids@[k] as u32 == x),
{
    let n = ids.len();
    let mut r: HashSet<u32> = HashSet::new();
    for i in 0..n
        invariant
            n == ids@.len(),
            r@ == Set::new(|x: u32| exists|k: int| 0 <= k < i && #[trigger] ids@[k] as u32 == x),
    {
        let ghost r0 = r@;
        r.insert(ids[i] as u32);
        proof {
            assert forall|x: u32| r@.contains(x) <==> exists|k: int| 0 <= k < i + 1 && #[trigger] ids@[k] as u32 == x by {
                if r@.contains(x) && x != ids@[i as int] as u32 {
                    assert(r0.contains(x));
                    let k = choose|k: int| 0 <= k < i && #[trigger] ids@[k] as u32 == x;
                    assert(0 <= k < i + 1 && ids@[k] as u32 == x);
                }
                if exists|k: int| 0 <= k < i + 1 && #[trigger] ids@[k] as u32 == x {
                    let k = choose|k: int| 0 <= k < i + 1 && #[trigger] ids@[k] as u32 == x;
                    if k < i {
                        assert(exists|k2: int| 0 <= k2 < i && #[trigger] ids@[k2] as u32 == x);
                    }
                }
            }
        }
        assert(r@ =~= Set::new(|x: u32| exists|k: int| 0 <= k < i + 1 && #[trigger] ids@[k] as u32 == x));
    }
    r
}

/// The states of `covered` that are counterexample states, and those that are benign.
fn split_cover(covered: &BitSetWrapper, cex_states: &HashSet<u32>, bex_states: &HashSet<u32>) -> (r: (BitSetWrapper, BitSetWrapper))
    ensures
        r.0@ == covered@.intersect(cex_states@),
        r.1@ == covered@.intersect(bex_states@),
{
    let members = covered.collect();
    let n = members.len();
    let mut cex_bs = BitSetWrapper::new();
    let mut bex_bs = BitSetWrapper::new();
    for i in 0..n
        invariant
            n == members@.len(),
            members@.to_set() == covered@,
            forall|x: u32| #[trigger] covered@.contains(x) ==> crate::data_types::general_data_types::bitset_index_ok(x),
            cex_bs@ == members@.take(i as int).to_set().intersect(cex_states@),
            bex_bs@ == members@.take(i as int).to_set().intersect(bex_states@),
    {
        let s = members[i];
        assert(members@.to_set().contains(s));
        if cex_states.contains(&s) {
            cex_bs.insert(s);
        }
        if bex_states.contains(&s) {
            bex_bs.insert(s);
        }
        proof {
            assert(members@.take(i + 1) =~= members@.take(i as int).push(s));
            members@.take(i as int).lemma_push_to_set_commute(s);
        }
        assert(cex_bs@ =~= members@.take(i + 1).to_set().intersect(cex_states@));
        assert(bex_bs@ =~= members@.take(i + 1).to_set().intersect(bex_states@));
    }
    assert(members@.take(n as int) =~= members@);
    (cex_bs, bex_bs)
}

/// The positions `0..n` ordered by `lens`, positions of equal length in their order.
fn order_by_len(lens: &Vec<usize>) -> (r: Vec<usize>)
    ensures
        r@.len() == lens@.len(),
        r@.no_duplicates(),
        forall|k: int| 0 <= k < r@.len() ==> #[trigger] r@[k] < lens@.len(),
        forall|j: usize| j < lens@.len() ==> #[trigger] r@.contains(j),
        forall|a: int, b: int| 0 <= a < b < r@.len() ==> lens@[#[trigger] r@[a] as int] <= lens@[#[trigger] r@[b] as int],
{
    let n = lens.len();
    let mut r: Vec<usize> = Vec::new();
    for i in 0..n
        invariant
            n == lens@.len(),
            r@.len() == i,
            r@.no_duplicates(),
            forall|k: int| 0 <= k < r@.len() ==> #[trigger] r@[k] < i,
            forall|j: usize| j < i ==> #[trigger] r@.contains(j),
            forall|a: int, b: int| 0 <= a < b < r@.len() ==> lens@[#[trigger] r@[a] as int] <= lens@[#[trigger] r@[b] as int],
    {
        let mut pos: usize = 0;
        while pos < r.len() && lens[r[pos]] <= lens[i]
            invariant
                pos <= r@.len(),
                n == lens@.len(),
                i < n,
                forall|k: int| 0 <= k < r@.len() ==> #[trigger] r@[k] < i,
                forall|a: int| 0 <= a < pos ==> lens@[#[trigger] r@[a] as int] <= lens@[i as int],
            decreases r@.len() - pos,
        {
            pos = pos + 1;
        }
        let ghost r0 = r@;
        r.insert(pos, i);
        proof {
            assert(r@ =~= r0.take(pos as int).push(i) + r0.skip(pos as int));
            assert forall|k: int| 0 <= k < r@.len() implies #[trigger] r@[k] < i + 1 by {
                if k < pos {
                    assert(r@[k] == r0[k]);
                } else if k > pos {
                    assert(r@[k] == r0[k - 1]);
                }
            }
            assert forall|j: usize| j < i + 1 implies #[trigger] r@.contains(j) by {
                if j == i {
                    assert(r@[pos as int] == i);
                } else {
                    assert(r0.contains(j));
                    let k = choose|k: int| 0 <= k < r0.len() && r0[k] == j;
                    if k < pos {
                        assert(r@[k] == j);
                    } else {
                        assert(r@[k + 1] == j);
                    }
                }
            }
            assert forall|a: int, b: int| 0 <= a < b < r@.len() implies r@[a] != r@[b] by {
                if a < pos && b < pos {
                    assert(r0[a] != r0[b]);
                } else if a < pos && b > pos {
                    assert(r0[a] != r0[b - 1]);
                } else if a > pos && b > pos {
                    assert(r0[a - 1] != r0[b - 1]);
                } else if a == pos {
                    if b > pos {
                        assert(r0[b - 1] < i);
                    }
                } else {
                    assert(r0[a] < i);
                }
            }
            assert forall|a: int, b: int| 0 <= a < b < r@.len() implies lens@[#[trigger] r@[a] as int] <= lens@[#[trigger] r@[b] as int] by {
                if a < pos && b < pos {
                    assert(r@[a] == r0[a] && r@[b] == r0[b]);
                } else if a < pos && b == pos {
                    assert(r@[a] == r0[a]);
                } else if a < pos && b > pos {
                    assert(r@[a] == r0[a] && r@[b] == r0[b - 1]);
                    if b - 1 > a {
                        assert(lens@[r0[a] as int] <= lens@[r0[b - 1] as int]);
                    }
                } else if a == pos {
                    assert(r@[b] == r0[b - 1]);
                    assert(!(lens@[r0[pos as int] as int] <= lens@[i as int]));
                    if b - 1 > pos {
                        assert(lens@[r0[pos as int] as int] <= lens@[r0[b - 1] as int]);
                    }
                } else {
                    assert(r@[a] == r0[a - 1] && r@[b] == r0[b - 1]);
                    assert(lens@[r0[a - 1] as int] <= lens@[r0[b - 1] as int]);
                }
            }
        }
    }
    r
}

/// What is known of the predicate tables: the ids, their counterexample and
/// benign covers, and their cost ranks, position by position.
pub open spec fn tables_of(
    inst: &SetCoverInstance,
    cost_rank: Map<usize, u64>,
    pids: Seq<usize>,
    cexs: Seq<BitSetWrapper>,
    bexs: Seq<BitSetWrapper>,
    ranks: Seq<u64>,
) -> bool {
    &&& pids.to_set() == inst.predicates@.dom()
    &&& pids.no_duplicates()
    &&& cexs.len() == pids.len() && bexs.len() == pids.len() && ranks.len() == pids.len()
    &&& forall|k: int| 0 <= k < pids.len() ==> (#[trigger] cexs[k])@ == cex_cover(inst, pids[k])
    &&& forall|k: int| 0 <= k < pids.len() ==> (#[trigger] bexs[k])@ == bex_cover(inst, pids[k])
    &&& forall|k: int| 0 <= k < pids.len() ==> #[trigger] ranks[k] == cost_rank[pids[k]]
}

/// Every dominated predicate is dominated by a predicate that is not.
pub open spec fn dominated_by_live(inst: &SetCoverInstance, cost_rank: Map<usize, u64>, dominated: Set<usize>) -> bool {
    forall|d: usize| #[trigger] dominated.contains(d) ==> exists|q: usize| #[trigger] inst.predicates@.contains_key(q)
        && !dominated.contains(q) && dominates(inst, cost_rank, q, d)
}

/// Of two live predicates, neither dominates the other.
pub open spec fn live_pair_apart(inst: &SetCoverInstance, cost_rank: Map<usize, u64>, dominated: Set<usize>, p: usize, q: usize) -> bool {
    !dominated.contains(p) && !dominated.contains(q) ==> !dominates(inst, cost_rank, q, p) && !dominates(inst, cost_rank, p, q)
}

/// Marking `p`, dominated by the live `q`, keeps every dominated predicate dominated by a live one.
proof fn lemma_mark_dominated(inst: &SetCoverInstance, cost_rank: Map<usize, u64>, dominated: Set<usize>, p: usize, q: usize)
    requires
        dominated_by_live(inst, cost_rank, dominated),
        inst.predicates@.contains_key(q),
        !dominated.contains(q),
        p != q,
        dominates(inst, cost_rank, q, p),
    ensures
        dominated_by_live(inst, cost_rank, dominated.insert(p)),
{
    let nd = dominated.insert(p);
    assert forall|d: usize| #[trigger] nd.contains(d) implies exists|w: usize| #[trigger] inst.predicates@.contains_key(w)
        && !nd.contains(w) && dominates(inst, cost_rank, w, d) by {
        if d == p {
            assert(inst.predicates@.contains_key(q) && !nd.contains(q) && dominates(inst, cost_rank, q, d));
        } else {
            let w = choose|w: usize| #[trigger] inst.predicates@.contains_key(w) && !dominated.contains(w) && dominates(inst, cost_rank, w, d);
            if w == p {
                lemma_dominates_transitive(inst, cost_rank, q, p, d);
                assert(inst.predicates@.contains_key(q) && !nd.contains(q) && dominates(inst, cost_rank, q, d));
            } else {
                assert(inst.predicates@.contains_key(w) && !nd.contains(w) && dominates(inst, cost_rank, w, d));
            }
        }
    }
}

/// Removes each predicate that another predicate dominates (see `dominates`,
/// costs compared by `cost_rank`), taking the predicates by increasing number
/// of counterexample states covered; of two predicates that dominate each
/// other the one taken first goes. Returns how many went.
pub fn remove_dominated_predicates_fast(this_instance: &mut SetCoverInstance, cost_rank: &HashMap<usize, u64>) -> (r: usize)
    requires
        forall|p: usize| #[trigger] old(this_instance).predicates@.contains_key(p) ==> cost_rank@.contains_key(p),
    ensures
        ({
            let before = old(this_instance).predicates@;
            let after = final(this_instance).predicates@;
            &&& after.dom().subset_of(before.dom())
            &&& forall|p: usize| #[trigger] after.contains_key(p) ==> after[p] == before[p]
            &&& forall|p: usize, q: usize| after.contains_key(p) && after.contains_key(q) && p != q
                ==> !#[trigger] dominates(old(this_instance), cost_rank@, q, p)
            &&& forall|p: usize| #[trigger] before.contains_key(p) && !after.contains_key(p)
                ==> exists|q: usize| #[trigger] after.contains_key(q) && dominates(old(this_instance), cost_rank@, q, p)
            &&& r == before.len() - after.len()
            &&& final(this_instance).bex_samples == old(this_instance).bex_samples
            &&& final(this_instance).cex_traces == old(this_instance).cex_traces
            &&& final(this_instance).bex_traces == old(this_instance).bex_traces
            &&& final(this_instance).all_states == old(this_instance).all_states
            &&& final(this_instance).formula_score_weights == old(this_instance).formula_score_weights
        }),
{
    let ghost start = *this_instance;
    let ghost rank = cost_rank@;
    let bex_ids = u64_keys(&this_instance.bex_samples);
    let bex_states = low_bits(&bex_ids);
    let cex_set = collect_cex_states(this_instance);
    let cex_ids = set_elems(&cex_set);
    let cex_states = low_bits(&cex_ids);
    proof {
        assert(bex_states@ =~= bex_state_bits(&start)) by {
            assert forall|x: u32| bex_states@.contains(x) <==> bex_state_bits(&start).contains(x) by {
                if bex_states@.contains(x) {
                    let k = choose|k: int| 0 <= k < bex_ids@.len() && #[trigger] bex_ids@[k] as u32 == x;
                    assert(bex_ids@.to_set().contains(bex_ids@[k]));
                }
                if bex_state_bits(&start).contains(x) {
                    let s = choose|s: u64| #[trigger] start.bex_samples@.contains_key(s) && s as u32 == x;
                    assert(bex_ids@.to_set().contains(s));
                    let k = choose|k: int| 0 <= k < bex_ids@.len() && bex_ids@[k] == s;
                    assert(bex_ids@[k] as u32 == x);
                }
            }
        }
        assert(cex_states@ =~= cex_state_bits(&start)) by {
            assert forall|x: u32| cex_states@.contains(x) <==> cex_state_bits(&start).contains(x) by {
                if cex_states@.contains(x) {
                    let k = choose|k: int| 0 <= k < cex_ids@.len() && #[trigger] cex_ids@[k] as u32 == x;
                    assert(cex_ids@.to_set().contains(cex_ids@[k]));
                }
                if cex_state_bits(&start).contains(x) {
                    let s = choose|s: u64| #[trigger] cex_state_set(start.cex_traces@).contains(s) && s as u32 == x;
                    assert(cex_ids@.to_set().contains(s));
                    let k = choose|k: int| 0 <= k < cex_ids@.len() && cex_ids@[k] == s;
                    assert(cex_ids@[k] as u32 == x);
                }
            }
        }
    }
    // The covers and cost ranks of the predicates.
    let pids = usize_keys(&this_instance.predicates);
    let n = pids.len();
    let mut cexs: Vec<BitSetWrapper> = Vec::new();
    let mut bexs: Vec<BitSetWrapper> = Vec::new();
    let mut ranks: Vec<u64> = Vec::new();
    let mut lens: Vec<usize> = Vec::new();
    for i in 0..n
        invariant
            n == pids@.len(),
            pids@.to_set() == start.predicates@.dom(),
            *this_instance == start,
            rank == cost_rank@,
            forall|p: usize| #[trigger] start.predicates@.contains_key(p) ==> cost_rank@.contains_key(p),
            bex_states@ == bex_state_bits(&start),
            cex_states@ == cex_state_bits(&start),
            cexs@.len() == i && bexs@.len() == i && ranks@.len() == i && lens@.len() == i,
            forall|k: int| 0 <= k < i ==> (#[trigger] cexs@[k])@ == cex_cover(&start, pids@[k]),
            forall|k: int| 0 <= k < i ==> (#[trigger] bexs@[k])@ == bex_cover(&start, pids@[k]),
            forall|k: int| 0 <= k < i ==> #[trigger] ranks@[k] == rank[pids@[k]],
    {
        let pid = pids[i];
        assert(pids@.to_set().contains(pid));
        let p = this_instance.predicates.get(&pid).unwrap();
        let (cex_bs, bex_bs) = split_cover(&p.covered_states, &cex_states, &bex_states);
        let ghost (c0, b0, r0) = (cexs@, bexs@, ranks@);
        lens.push(cex_bs.len());
        cexs.push(cex_bs);
        bexs.push(bex_bs);
        ranks.push(*cost_rank.get(&pid).unwrap());
        proof {
            assert forall|k: int| 0 <= k < i + 1 implies (#[trigger] cexs@[k])@ == cex_cover(&start, pids@[k]) by {
                if k < i {
                    assert(cexs@[k] == c0[k]);
                }
            }
            assert forall|k: int| 0 <= k < i + 1 implies (#[trigger] bexs@[k])@ == bex_cover(&start, pids@[k]) by {
                if k < i {
                    assert(bexs@[k] == b0[k]);
                }
            }
            assert forall|k: int| 0 <= k < i + 1 implies #[trigger] ranks@[k] == rank[pids@[k]] by {
                if k < i {
                    assert(ranks@[k] == r0[k]);
                }
            }
        }
    }
    let order = order_by_len(&lens);
    // Pairwise dominance, in order of counterexample coverage.
    let mut dominated: HashSet<usize> = HashSet::new();
    for i in 0..n
        invariant
            n == pids@.len(),
            *this_instance == start,
            rank == cost_rank@,
            tables_of(&start, rank, pids@, cexs@, bexs@, ranks@),
            order@.len() == n,
            order@.no_duplicates(),
            forall|k: int| 0 <= k < n ==> #[trigger] order@[k] < n,
            forall|j: usize| j < n ==> #[trigger] order@.contains(j),
            dominated@.subset_of(start.predicates@.dom()),
            dominated_by_live(&start, rank, dominated@),
            forall|a: int, b: int| 0 <= a < i && a < b < n
                ==> live_pair_apart(&start, rank, dominated@, #[trigger] pids@[order@[a] as int], #[trigger] pids@[order@[b] as int]),
    {
        let x = order[i];
        let p1 = pids[x];
        proof {
            assert(pids@.to_set().contains(p1));
        }
        if !dominated.contains(&p1) {
            let mut j = i + 1;
            while j < n
                invariant_except_break
                    !dominated@.contains(p1),
                    forall|b: int| i < b < j
                        ==> live_pair_apart(&start, rank, dominated@, p1, #[trigger] pids@[order@[b] as int]),
                invariant
                    n == pids@.len(),
                    i < j <= n,
                    x == order@[i as int],
                    p1 == pids@[x as int],
                    x < n,
                    start.predicates@.contains_key(p1),
                    rank == cost_rank@,
                    tables_of(&start, rank, pids@, cexs@, bexs@, ranks@),
                    order@.len() == n,
                    order@.no_duplicates(),
                    forall|k: int| 0 <= k < n ==> #[trigger] order@[k] < n,
                    dominated@.subset_of(start.predicates@.dom()),
                    dominated_by_live(&start, rank, dominated@),
                    forall|a: int, b: int| 0 <= a < i && a < b < n
                        ==> live_pair_apart(&start, rank, dominated@, #[trigger] pids@[order@[a] as int], #[trigger] pids@[order@[b] as int]),
                ensures
                    dominated@.contains(p1) || forall|b: int| i < b < n
                        ==> live_pair_apart(&start, rank, dominated@, p1, #[trigger] pids@[order@[b] as int]),
                decreases n - j,
            {
                let y = order[j];
                let p2 = pids[y];
                proof {
                    assert(pids@.to_set().contains(p2));
                    assert(order@[i as int] != order@[j as int]);
                    assert(p1 != p2) by {
                        if p1 == p2 {
                            assert(pids@[x as int] == pids@[y as int]);
                        }
                    }
                }
                if !dominated.contains(&p2) {
                    let ghost d0 = dominated@;
                    if cexs[x].is_subset(&cexs[y]) && bexs[x].is_superset(&bexs[y]) && ranks[x] >= ranks[y] {
                        assert(dominates(&start, rank, p2, p1));
                        proof {
                            lemma_mark_dominated(&start, rank, d0, p1, p2);
                        }
                        dominated.insert(p1);
                        proof {
                            assert forall|a: int, b: int| 0 <= a < i && a < b < n
                                implies live_pair_apart(&start, rank, dominated@, #[trigger] pids@[order@[a] as int], #[trigger] pids@[order@[b] as int]) by {
                                assert(live_pair_apart(&start, rank, d0, pids@[order@[a] as int], pids@[order@[b] as int]));
                            }
                        }
                        break;
                    }
                    if cexs[y].is_subset(&cexs[x]) && bexs[y].is_superset(&bexs[x]) && ranks[y] >= ranks[x] {
                        assert(dominates(&start, rank, p1, p2));
                        proof {
                            lemma_mark_dominated(&start, rank, d0, p2, p1);
                        }
                        dominated.insert(p2);
                    }
                    proof {
                        assert forall|a: int, b: int| 0 <= a < i && a < b < n
                            implies live_pair_apart(&start, rank, dominated@, #[trigger] pids@[order@[a] as int], #[trigger] pids@[order@[b] as int]) by {
                            assert(live_pair_apart(&start, rank, d0, pids@[order@[a] as int], pids@[order@[b] as int]));
                        }
                        assert forall|b: int| i < b < j + 1
                            implies live_pair_apart(&start, rank, dominated@, p1, #[trigger] pids@[order@[b] as int]) by {
                            if b < j {
                                assert(live_pair_apart(&start, rank, d0, p1, pids@[order@[b] as int]));
                            }
                        }
                    }
                }
                j = j + 1;
            }
        }
        proof {
            assert forall|a: int, b: int| 0 <= a < i + 1 && a < b < n
                implies live_pair_apart(&start, rank, dominated@, #[trigger] pids@[order@[a] as int], #[trigger] pids@[order@[b] as int]) by {
                if a == i {
                    assert(pids@[order@[a] as int] == p1);
                }
            }
        }
    }
    // Drop the dominated predicates.
    let dom_ids = usize_set_elems(&dominated);
    let m = dom_ids.len();
    for k in 0..m
        invariant
            m == dom_ids@.len(),
            dom_ids@.to_set() == dominated@,
            dom_ids@.no_duplicates(),
            dominated@.subset_of(start.predicates@.dom()),
            this_instance.predicates@ == start.predicates@.remove_keys(dom_ids@.take(k as int).to_set()),
            this_instance.predicates@.len() + k == start.predicates@.len(),
            this_instance.bex_samples == start.bex_samples,
            this_instance.cex_traces == start.cex_traces,
            this_instance.bex_traces == start.bex_traces,
            this_instance.all_states == start.all_states,
            this_instance.formula_score_weights == start.formula_score_weights,
    {
        let pid = dom_ids[k];
        proof {
            assert(dom_ids@.to_set().contains(pid));
            assert(!dom_ids@.take(k as int).to_set().contains(pid)) by {
                if dom_ids@.take(k as int).to_set().contains(pid) {
                    let a = choose|a: int| 0 <= a < k && dom_ids@.take(k as int)[a] == pid;
                    assert(dom_ids@[a] == dom_ids@[k as int]);
                }
            }
            assert(this_instance.predicates@.contains_key(pid));
        }
        this_instance.predicates.remove(&pid);
        proof {
            assert(dom_ids@.take(k + 1) =~= dom_ids@.take(k as int).push(pid));
            dom_ids@.take(k as int).lemma_push_to_set_commute(pid);
        }
        assert(this_instance.predicates@ =~= start.predicates@.remove_keys(dom_ids@.take(k + 1).to_set()));
    }
    assert(dom_ids@.take(m as int) =~= dom_ids@);
    proof {
        let after = this_instance.predicates@;
        assert forall|p: usize, q: usize| after.contains_key(p) && after.contains_key(q) && p != q
            implies !#[trigger] dominates(&start, rank, q, p) by {
            assert(pids@.to_set().contains(p) && pids@.to_set().contains(q));
            let xp = choose|k: int| 0 <= k < pids@.len() && pids@[k] == p;
            let xq = choose|k: int| 0 <= k < pids@.len() && pids@[k] == q;
            assert(order@.contains(xp as usize));
            assert(order@.contains(xq as usize));
            let a = choose|a: int| 0 <= a < order@.len() && order@[a] == xp as usize;
            let b = choose|b: int| 0 <= b < order@.len() && order@[b] == xq as usize;
            if a < b {
                assert(live_pair_apart(&start, rank, dominated@, pids@[order@[a] as int], pids@[order@[b] as int]));
            } else {
                assert(a != b);
                assert(live_pair_apart(&start, rank, dominated@, pids@[order@[b] as int], pids@[order@[a] as int]));
            }
        }
        assert forall|p: usize| #[trigger] start.predicates@.contains_key(p) && !after.contains_key(p)
            implies exists|q: usize| #[trigger] after.contains_key(q) && dominates(&start, rank, q, p) by {
            assert(dominated@.contains(p));
            let q = choose|q: usize| #[trigger] start.predicates@.contains_key(q) && !dominated@.contains(q) && dominates(&start, rank, q, p);
            assert(after.contains_key(q));
        }
    }
    m
}

} // verus!
