//! Sums of weights over groups of traces with the same states.

use vstd::prelude::*;
use crate::set_cover_preprocessing::{add_id_weight, group_of, group_weight, is_group_rep};

verus! {

/// The summing step of `f` over ids.
pub open spec fn add_each(f: spec_fn(usize) -> int) -> spec_fn(int, usize) -> int {
    |acc: int, u: usize| acc + f(u)
}

/// `f` summed over `s`.
pub open spec fn sum_over(s: Set<usize>, f: spec_fn(usize) -> int) -> int {
    s.fold(0int, add_each(f))
}

/// The ids that stand for their group.
pub open spec fn group_reps(keys: Map<usize, Set<u32>>) -> Set<usize> {
    Set::new(|t: usize| is_group_rep(keys, t))
}

proof fn lemma_add_each_commutative(f: spec_fn(usize) -> int)
    ensures
        vstd::set::fold::is_fun_commutative(add_each(f)),
{
    assert forall|a1: usize, a2: usize, b: int| #[trigger] add_each(f)(add_each(f)(b, a1), a2)
        == add_each(f)(add_each(f)(b, a2), a1) by {
    }
}

proof fn lemma_sum_empty(f: spec_fn(usize) -> int)
    ensures
        sum_over(Set::empty(), f) == 0,
{
    vstd::set::fold::lemma_fold_empty(0int, add_each(f));
}

proof fn lemma_sum_insert(s: Set<usize>, f: spec_fn(usize) -> int, x: usize)
    requires
        s.finite(),
        !s.contains(x),
    ensures
        sum_over(s.insert(x), f) == sum_over(s, f) + f(x),
{
    lemma_add_each_commutative(f);
    vstd::set::fold::lemma_fold_insert(s, 0int, add_each(f), x);
}

/// Sums of functions that agree on the set agree.
pub proof fn lemma_sum_agree(s: Set<usize>, f: spec_fn(usize) -> int, g: spec_fn(usize) -> int)
    requires
        s.finite(),
        forall|u: usize| #[trigger] s.contains(u) ==> f(u) == g(u),
    ensures
        sum_over(s, f) == sum_over(s, g),
    decreases s.len(),
{
    if s.len() == 0 {
        assert(s =~= Set::<usize>::empty());
        lemma_sum_empty(f);
        lemma_sum_empty(g);
    } else {
        let x = s.choose();
        let r = s.remove(x);
        assert(r.insert(x) =~= s);
        lemma_sum_agree(r, f, g);
        lemma_sum_insert(r, f, x);
        lemma_sum_insert(r, g, x);
    }
}

/// The sum over a union of disjoint sets is the sum of the sums.
proof fn lemma_sum_disjoint_union(a: Set<usize>, b: Set<usize>, f: spec_fn(usize) -> int)
    requires
        a.finite(),
        b.finite(),
        a.disjoint(b),
    ensures
        sum_over(a.union(b), f) == sum_over(a, f) + sum_over(b, f),
    decreases b.len(),
{
    if b.len() == 0 {
        assert(b =~= Set::<usize>::empty());
        assert(a.union(b) =~= a);
        lemma_sum_empty(f);
    } else {
        let x = b.choose();
        let b2 = b.remove(x);
        assert(b2.insert(x) =~= b);
        lemma_sum_disjoint_union(a, b2, f);
        assert(a.union(b) =~= a.union(b2).insert(x));
        lemma_sum_insert(a.union(b2), f, x);
        lemma_sum_insert(b2, f, x);
    }
}

/// The weight of a group is the sum of its members' weights.
proof fn lemma_group_weight_is_sum(keys: Map<usize, Set<u32>>, w: Map<usize, u64>, t: usize)
    ensures
        group_weight(keys, w, t) == sum_over(group_of(keys, t), |u: usize| w[u] as int),
{
    assert(add_id_weight(w) =~= add_each(|u: usize| w[u] as int));
}

proof fn lemma_min_usize(g: Set<usize>) -> (m: usize)
    requires
        g.finite(),
        g.len() > 0,
    ensures
        g.contains(m),
        forall|u: usize| #[trigger] g.contains(u) ==> m <= u,
    decreases g.len(),
{
    let x = g.choose();
    let rest = g.remove(x);
    if rest.len() == 0 {
        assert forall|u: usize| #[trigger] g.contains(u) implies x <= u by {
            if u != x {
                assert(rest.contains(u));
            }
        }
        x
    } else {
        let m1 = lemma_min_usize(rest);
        if x < m1 {
            assert forall|u: usize| #[trigger] g.contains(u) implies x <= u by {
                if u != x {
                    assert(rest.contains(u));
                }
            }
            x
        } else {
            assert forall|u: usize| #[trigger] g.contains(u) implies m1 <= u by {
                if u != x {
                    assert(rest.contains(u));
                }
            }
            m1
        }
    }
}

/// Over groups of ids with equal keys, the weights of the groups, summed at
/// their representatives, are the weights of all ids.
pub proof fn lemma_group_weights_add_up(keys: Map<usize, Set<u32>>, w: Map<usize, u64>)
    requires
        keys.dom().finite(),
    ensures
        group_reps(keys).finite(),
        sum_over(group_reps(keys), |r: usize| group_weight(keys, w, r)) == sum_over(keys.dom(), |u: usize| w[u] as int),
    decreases keys.dom().len(),
{
    let reps = group_reps(keys);
    let fw = |u: usize| w[u] as int;
    assert(reps.subset_of(keys.dom()));
    vstd::set_lib::lemma_len_subset(reps, keys.dom());
    if keys.dom().len() == 0 {
        assert(keys.dom() =~= Set::<usize>::empty());
        assert(reps =~= Set::<usize>::empty());
        lemma_sum_empty(fw);
        lemma_sum_empty(|r: usize| group_weight(keys, w, r));
    } else {
        let t = keys.dom().choose();
        let g0 = group_of(keys, t);
        assert(g0.subset_of(keys.dom()));
        vstd::set_lib::lemma_len_subset(g0, keys.dom());
        assert(g0.contains(t));
        let r = lemma_min_usize(g0);
        let g = group_of(keys, r);
        assert(g =~= g0);
        assert(is_group_rep(keys, r));
        let keys2 = keys.remove_keys(g);
        let dom2 = keys2.dom();
        assert(dom2 =~= keys.dom().difference(g));
        vstd::set_lib::lemma_len_subset(dom2, keys.dom());
        assert(dom2.len() < keys.dom().len()) by {
            assert(dom2.subset_of(keys.dom().remove(r)));
            vstd::set_lib::lemma_len_subset(dom2, keys.dom().remove(r));
        }
        lemma_group_weights_add_up(keys2, w);
        let reps2 = group_reps(keys2);
        // The other groups are untouched by removing this one.
        assert forall|u: usize| #[trigger] reps2.contains(u) implies group_of(keys2, u) == group_of(keys, u)
            && group_weight(keys2, w, u) == group_weight(keys, w, u) by {
            assert(group_of(keys2, u) =~= group_of(keys, u)) by {
                assert forall|v: usize| group_of(keys, u).contains(v) implies group_of(keys2, u).contains(v) by {
                    assert(!g.contains(v));
                }
            }
        }
        assert(reps =~= reps2.insert(r)) by {
            assert forall|u: usize| reps.contains(u) implies reps2.contains(u) || u == r by {
                if u != r {
                    if g.contains(u) {
                        assert(group_of(keys, u).contains(r));
                        assert(group_of(keys, r).contains(u));
                        assert(u <= r && r <= u);
                    }
                    assert(dom2.contains(u));
                    assert(group_of(keys2, u) =~= group_of(keys, u)) by {
                        assert forall|v: usize| group_of(keys, u).contains(v) implies group_of(keys2, u).contains(v) by {
                            assert(!g.contains(v));
                        }
                    }
                }
            }
            assert forall|u: usize| reps2.contains(u) implies reps.contains(u) by {
                assert(group_of(keys2, u) == group_of(keys, u));
            }
        }
        assert(!reps2.contains(r));
        assert(reps2.subset_of(dom2));
        vstd::set_lib::lemma_len_subset(reps2, dom2);
        lemma_sum_insert(reps2, |x: usize| group_weight(keys, w, x), r);
        lemma_sum_agree(reps2, |x: usize| group_weight(keys, w, x), |x: usize| group_weight(keys2, w, x));
        assert(keys.dom() =~= dom2.union(g));
        lemma_sum_disjoint_union(dom2, g, fw);
        lemma_group_weight_is_sum(keys, w, r);
        assert(sum_over(g, |u: usize| w[u] as int) == sum_over(g, fw));
    }
}

} // verus!
