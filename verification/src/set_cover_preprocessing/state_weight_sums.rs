//! Sums of weights over groups of benign states with the same support.

use vstd::prelude::*;
use crate::set_cover_instance::SetCoverBEXSample;
use crate::set_cover_preprocessing::{add_state_weight, add_weight, bex_total, state_group_of, state_group_weight, lemma_min_of};

verus! {

/// The summing step of `f` over state ids.
pub open spec fn add_each_state(f: spec_fn(u64) -> int) -> spec_fn(int, u64) -> int {
    |acc: int, u: u64| acc + f(u)
}

/// `f` summed over `s`.
pub open spec fn sum_over_states(s: Set<u64>, f: spec_fn(u64) -> int) -> int {
    s.fold(0int, add_each_state(f))
}

/// The states that are the smallest of their group.
pub open spec fn state_group_reps(keys: Map<u64, Set<u32>>) -> Set<u64> {
    Set::new(|t: u64| keys.contains_key(t) && forall|u: u64| #[trigger] state_group_of(keys, t).contains(u) ==> t <= u)
}

proof fn lemma_add_each_state_commutative(f: spec_fn(u64) -> int)
    ensures
        vstd::set::fold::is_fun_commutative(add_each_state(f)),
{
    assert forall|a1: u64, a2: u64, b: int| #[trigger] add_each_state(f)(add_each_state(f)(b, a1), a2)
        == add_each_state(f)(add_each_state(f)(b, a2), a1) by {
    }
}

pub(crate) proof fn lemma_sum_states_empty(f: spec_fn(u64) -> int)
    ensures
        sum_over_states(Set::empty(), f) == 0,
{
    vstd::set::fold::lemma_fold_empty(0int, add_each_state(f));
}

pub(crate) proof fn lemma_sum_states_insert(s: Set<u64>, f: spec_fn(u64) -> int, x: u64)
    requires
        s.finite(),
        !s.contains(x),
    ensures
        sum_over_states(s.insert(x), f) == sum_over_states(s, f) + f(x),
{
    lemma_add_each_state_commutative(f);
    vstd::set::fold::lemma_fold_insert(s, 0int, add_each_state(f), x);
}

/// Sums of functions that agree on the set agree.
pub proof fn lemma_sum_states_agree(s: Set<u64>, f: spec_fn(u64) -> int, g: spec_fn(u64) -> int)
    requires
        s.finite(),
        forall|u: u64| #[trigger] s.contains(u) ==> f(u) == g(u),
    ensures
        sum_over_states(s, f) == sum_over_states(s, g),
    decreases s.len(),
{
    if s.len() == 0 {
        assert(s =~= Set::<u64>::empty());
        lemma_sum_states_empty(f);
        lemma_sum_states_empty(g);
    } else {
        let x = s.choose();
        let r = s.remove(x);
        assert(r.insert(x) =~= s);
        lemma_sum_states_agree(r, f, g);
        lemma_sum_states_insert(r, f, x);
        lemma_sum_states_insert(r, g, x);
    }
}

pub proof fn lemma_sum_states_disjoint_union(a: Set<u64>, b: Set<u64>, f: spec_fn(u64) -> int)
    requires
        a.finite(),
        b.finite(),
        a.disjoint(b),
    ensures
        sum_over_states(a.union(b), f) == sum_over_states(a, f) + sum_over_states(b, f),
    decreases b.len(),
{
    if b.len() == 0 {
        assert(b =~= Set::<u64>::empty());
        assert(a.union(b) =~= a);
        lemma_sum_states_empty(f);
    } else {
        let x = b.choose();
        let b2 = b.remove(x);
        assert(b2.insert(x) =~= b);
        lemma_sum_states_disjoint_union(a, b2, f);
        assert(a.union(b) =~= a.union(b2).insert(x));
        lemma_sum_states_insert(a.union(b2), f, x);
        lemma_sum_states_insert(b2, f, x);
    }
}

/// The total weight of the samples is the sum of their weights.
pub proof fn lemma_bex_total_is_sum(m: Map<u64, SetCoverBEXSample>)
    ensures
        bex_total(m) == sum_over_states(m.dom(), |x: u64| m[x].weight as int),
{
    assert(add_weight(m) =~= add_each_state(|x: u64| m[x].weight as int));
}

/// Over groups of states with equal keys, the weights of the groups, summed
/// at their smallest members, are the weights of all states.
pub proof fn lemma_state_group_weights_add_up(keys: Map<u64, Set<u32>>, w: Map<u64, u64>)
    requires
        keys.dom().finite(),
    ensures
        state_group_reps(keys).finite(),
        sum_over_states(state_group_reps(keys), |r: u64| state_group_weight(keys, w, r))
            == sum_over_states(keys.dom(), |u: u64| w[u] as int),
    decreases keys.dom().len(),
{
    let reps = state_group_reps(keys);
    let fw = |u: u64| w[u] as int;
    assert(reps.subset_of(keys.dom()));
    vstd::set_lib::lemma_len_subset(reps, keys.dom());
    if keys.dom().len() == 0 {
        assert(keys.dom() =~= Set::<u64>::empty());
        assert(reps =~= Set::<u64>::empty());
        lemma_sum_states_empty(fw);
        lemma_sum_states_empty(|r: u64| state_group_weight(keys, w, r));
    } else {
        let t = keys.dom().choose();
        let g0 = state_group_of(keys, t);
        assert(g0.subset_of(keys.dom()));
        vstd::set_lib::lemma_len_subset(g0, keys.dom());
        assert(g0.contains(t));
        let r = lemma_min_of(g0);
        let g = state_group_of(keys, r);
        assert(g =~= g0);
        assert(reps.contains(r));
        let keys2 = keys.remove_keys(g);
        let dom2 = keys2.dom();
        assert(dom2 =~= keys.dom().difference(g));
        assert(dom2.len() < keys.dom().len()) by {
            assert(dom2.subset_of(keys.dom().remove(r)));
            vstd::set_lib::lemma_len_subset(dom2, keys.dom().remove(r));
        }
        lemma_state_group_weights_add_up(keys2, w);
        let reps2 = state_group_reps(keys2);
        assert forall|u: u64| #[trigger] reps2.contains(u) implies state_group_of(keys2, u) == state_group_of(keys, u)
            && state_group_weight(keys2, w, u) == state_group_weight(keys, w, u) by {
            assert(state_group_of(keys2, u) =~= state_group_of(keys, u)) by {
                assert forall|v: u64| state_group_of(keys, u).contains(v) implies state_group_of(keys2, u).contains(v) by {
                    assert(!g.contains(v));
                }
            }
        }
        assert(reps =~= reps2.insert(r)) by {
            assert forall|u: u64| reps.contains(u) implies reps2.contains(u) || u == r by {
                if u != r {
                    if g.contains(u) {
                        assert(state_group_of(keys, u).contains(r));
                        assert(state_group_of(keys, r).contains(u));
                        assert(u <= r && r <= u);
                    }
                    assert(dom2.contains(u));
                    assert(state_group_of(keys2, u) =~= state_group_of(keys, u)) by {
                        assert forall|v: u64| state_group_of(keys, u).contains(v) implies state_group_of(keys2, u).contains(v) by {
                            assert(!g.contains(v));
                        }
                    }
                }
            }
            assert forall|u: u64| reps2.contains(u) implies reps.contains(u) by {
                assert(state_group_of(keys2, u) == state_group_of(keys, u));
            }
        }
        assert(!reps2.contains(r));
        assert(reps2.subset_of(dom2));
        vstd::set_lib::lemma_len_subset(reps2, dom2);
        lemma_sum_states_insert(reps2, |x: u64| state_group_weight(keys, w, x), r);
        lemma_sum_states_agree(reps2, |x: u64| state_group_weight(keys, w, x), |x: u64| state_group_weight(keys2, w, x));
        assert(keys.dom() =~= dom2.union(g));
        lemma_sum_states_disjoint_union(dom2, g, fw);
        assert(add_state_weight(w) =~= add_each_state(fw));
    }
}

/// A function that is zero on the set sums to zero over it.
pub proof fn lemma_sum_states_zero(s: Set<u64>, f: spec_fn(u64) -> int)
    requires
        s.finite(),
        forall|u: u64| #[trigger] s.contains(u) ==> f(u) == 0,
    ensures
        sum_over_states(s, f) == 0,
    decreases s.len(),
{
    if s.len() == 0 {
        assert(s =~= Set::<u64>::empty());
        lemma_sum_states_empty(f);
    } else {
        let x = s.choose();
        let r = s.remove(x);
        assert(r.insert(x) =~= s);
        lemma_sum_states_zero(r, f);
        lemma_sum_states_insert(r, f, x);
    }
}

} // verus!
