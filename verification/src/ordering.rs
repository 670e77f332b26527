//! The orders in which scores, scored conjunctions, formulas and waveform
//! sources are ranked.
use vstd::prelude::*;
use std::cmp::Ordering;
use vstd::std_specs::cmp::PartialOrdSpecImpl;
use crate::predicates::{PriorityScores, ScoredInvariant, BaseFormula, FormulaView, spec_inner_or_zero,
    spec_kind_rank, per_predicate_score, has_range_operator};
use crate::data_types::general_data_types::{WaveFormSource, spec_source_rank};
use crate::constants::{trunc_div, i64_val, u32_val, u8_val, usize_val, nat_val};

verus! {

/// The order of two integers.
pub open spec fn int_order(a: int, b: int) -> Ordering {
    if a < b {
        Ordering::Less
    } else if a == b {
        Ordering::Equal
    } else {
        Ordering::Greater
    }
}

/// The opposite order.
pub open spec fn reversed_order(o: Ordering) -> Ordering {
    match o {
        Ordering::Less => Ordering::Greater,
        Ordering::Equal => Ordering::Equal,
        Ordering::Greater => Ordering::Less,
    }
}

/// `first`, unless it is `Equal`, then `second`.
pub open spec fn then_order(first: Ordering, second: Ordering) -> Ordering {
    if first == Ordering::Equal { second } else { first }
}

pub fn i64_order(a: i64, b: i64) -> (r: Ordering)
    ensures
        r == int_order(i64_val(a), i64_val(b)),
{
    if a < b {
        Ordering::Less
    } else if a == b {
        Ordering::Equal
    } else {
        Ordering::Greater
    }
}

pub fn usize_order(a: usize, b: usize) -> (r: Ordering)
    ensures
        r == int_order(usize_val(a), usize_val(b)),
{
    if a < b {
        Ordering::Less
    } else if a == b {
        Ordering::Equal
    } else {
        Ordering::Greater
    }
}

pub fn reverse(o: Ordering) -> (r: Ordering)
    ensures
        r == reversed_order(o),
{
    match o {
        Ordering::Less => Ordering::Greater,
        Ordering::Equal => Ordering::Equal,
        Ordering::Greater => Ordering::Less,
    }
}

/// Scores are ranked by the counterexample score with benign examples
/// allowed, then by the combined score.
pub open spec fn priority_order(a: PriorityScores, b: PriorityScores) -> Ordering {
    then_order(
        int_order(i64_val(spec_inner_or_zero(a.cex_with_bex_allow_score)), i64_val(spec_inner_or_zero(b.cex_with_bex_allow_score))),
        int_order(i64_val(spec_inner_or_zero(a.cex_and_bex_score)), i64_val(spec_inner_or_zero(b.cex_and_bex_score))),
    )
}

impl PriorityScores {
    pub fn cmp(&self, other: &Self) -> (r: Ordering)
        ensures
            r == priority_order(*self, *other),
    {
        let first = i64_order(self.cex_with_bex_allow_score.get_inner_or_zero(), other.cex_with_bex_allow_score.get_inner_or_zero());
        match first {
            Ordering::Equal => {},
            _ => { return first; },
        }
        i64_order(self.cex_and_bex_score.get_inner_or_zero(), other.cex_and_bex_score.get_inner_or_zero())
    }
}

impl PartialOrd for PriorityScores {
    fn partial_cmp(&self, other: &Self) -> (r: Option<Ordering>) {
        Some(self.cmp(other))
    }
}

impl PartialOrdSpecImpl for PriorityScores {
    open spec fn obeys_partial_cmp_spec() -> bool {
        true
    }

    open spec fn partial_cmp_spec(&self, other: &Self) -> Option<Ordering> {
        Some(priority_order(*self, *other))
    }
}

/// Scored conjunctions are ranked by, in turn: the score with benign
/// examples allowed; the combined score per predicate; the counterexample
/// score per predicate; fewer predicates; not using `>=` or `<=`.
pub open spec fn scored_invariant_order(a: ScoredInvariant, b: ScoredInvariant) -> Ordering {
    let na = nat_val(a.invariant@.len());
    let nb = nat_val(b.invariant@.len());
    then_order(
        int_order(i64_val(spec_inner_or_zero(a.score.cex_with_bex_allow_score)), i64_val(spec_inner_or_zero(b.score.cex_with_bex_allow_score))),
    then_order(
        int_order(trunc_div(i64_val(spec_inner_or_zero(a.score.cex_and_bex_score)), na),
                  trunc_div(i64_val(spec_inner_or_zero(b.score.cex_and_bex_score)), nb)),
    then_order(
        int_order(trunc_div(i64_val(spec_inner_or_zero(a.score.cex_only_score)), na),
                  trunc_div(i64_val(spec_inner_or_zero(b.score.cex_only_score)), nb)),
    then_order(
        reversed_order(int_order(na, nb)),
        reversed_order(int_order(
            if has_range_operator(a.invariant@) { 1 } else { 0 },
            if has_range_operator(b.invariant@) { 1 } else { 0 })),
    ))))
}

impl ScoredInvariant {
    /// Ranks two scored conjunctions; both must have predicates, since
    /// scores are divided by their number.
    pub fn cmp(&self, other: &Self) -> (r: Ordering)
        requires
            0 < self.invariant@.len() <= i64::MAX,
            0 < other.invariant@.len() <= i64::MAX,
        ensures
            r == scored_invariant_order(*self, *other),
    {
        let na = self.invariant.num_predicates();
        let nb = other.invariant.num_predicates();
        let c1 = i64_order(self.score.cex_with_bex_allow_score.get_inner_or_zero(),
            other.score.cex_with_bex_allow_score.get_inner_or_zero());
        match c1 {
            Ordering::Equal => {},
            _ => { return c1; },
        }
        let c2 = i64_order(per_predicate_score(self.score.cex_and_bex_score.get_inner_or_zero(), na),
            per_predicate_score(other.score.cex_and_bex_score.get_inner_or_zero(), nb));
        match c2 {
            Ordering::Equal => {},
            _ => { return c2; },
        }
        let c3 = i64_order(per_predicate_score(self.score.cex_only_score.get_inner_or_zero(), na),
            per_predicate_score(other.score.cex_only_score.get_inner_or_zero(), nb));
        match c3 {
            Ordering::Equal => {},
            _ => { return c3; },
        }
        let c4 = reverse(usize_order(na, nb));
        match c4 {
            Ordering::Equal => {},
            _ => { return c4; },
        }
        let ha: usize = if self.invariant.uses_range_operator() { 1 } else { 0 };
        let hb: usize = if other.invariant.uses_range_operator() { 1 } else { 0 };
        reverse(usize_order(ha, hb))
    }
}

/// Sources are ranked by their priority rank.
pub open spec fn source_order(a: WaveFormSource, b: WaveFormSource) -> Ordering {
    int_order(u8_val(spec_source_rank(a)), u8_val(spec_source_rank(b)))
}

impl WaveFormSource {
    pub fn cmp(&self, other: &Self) -> (r: Ordering)
        ensures
            r == source_order(*self, *other),
    {
        let a = self.rank();
        let b = other.rank();
        if a < b {
            Ordering::Less
        } else if a == b {
            Ordering::Equal
        } else {
            Ordering::Greater
        }
    }
}

impl PartialOrd for WaveFormSource {
    fn partial_cmp(&self, other: &Self) -> (r: Option<Ordering>) {
        Some(self.cmp(other))
    }
}

impl PartialOrdSpecImpl for WaveFormSource {
    open spec fn obeys_partial_cmp_spec() -> bool {
        true
    }

    open spec fn partial_cmp_spec(&self, other: &Self) -> Option<Ordering> {
        Some(source_order(*self, *other))
    }
}

/// Lexicographic order of two texts, character by character.
pub open spec fn text_order(a: Seq<char>, b: Seq<char>) -> Ordering
    decreases a.len(),
{
    if a.len() == 0 && b.len() == 0 {
        Ordering::Equal
    } else if a.len() == 0 {
        Ordering::Less
    } else if b.len() == 0 {
        Ordering::Greater
    } else if a[0] < b[0] {
        Ordering::Less
    } else if a[0] > b[0] {
        Ordering::Greater
    } else {
        text_order(a.drop_first(), b.drop_first())
    }
}

proof fn lemma_text_order_skip(a: Seq<char>, b: Seq<char>, i: int)
    requires
        0 <= i <= a.len(),
        i <= b.len(),
        forall|k: int| 0 <= k < i ==> a[k] == b[k],
    ensures
        text_order(a, b) == text_order(a.skip(i), b.skip(i)),
    decreases i,
{
    if i > 0 {
        assert(a.len() > 0 && b.len() > 0);
        lemma_text_order_skip(a.drop_first(), b.drop_first(), i - 1);
        assert(a.drop_first().skip(i - 1) =~= a.skip(i));
        assert(b.drop_first().skip(i - 1) =~= b.skip(i));
    } else {
        assert(a.skip(0) =~= a);
        assert(b.skip(0) =~= b);
    }
}

/// Compares two strings as `Ord` on `str` does: byte order of UTF-8, which
/// is the order of the characters' code points.
pub fn compare_text(a: &String, b: &String) -> (r: Ordering)
    ensures
        r == text_order(a@, b@),
{
    let av = crate::text::chars_of(a.as_str());
    let bv = crate::text::chars_of(b.as_str());
    let n = av.len();
    let m = bv.len();
    let mut i: usize = 0;
    while i < n && i < m
        invariant
            av@ == a@,
            bv@ == b@,
            n == a@.len(),
            m == b@.len(),
            i <= n,
            i <= m,
            forall|k: int| 0 <= k < i ==> a@[k] == b@[k],
        decreases n - i,
    {
        let x = av[i];
        let y = bv[i];
        if x < y {
            proof {
                lemma_text_order_skip(a@, b@, usize_val(i));
                assert(a@.skip(usize_val(i))[0] == x);
                assert(b@.skip(usize_val(i))[0] == y);
            }
            return Ordering::Less;
        }
        if x > y {
            proof {
                lemma_text_order_skip(a@, b@, usize_val(i));
                assert(a@.skip(usize_val(i))[0] == x);
                assert(b@.skip(usize_val(i))[0] == y);
            }
            return Ordering::Greater;
        }
        i = i + 1;
    }
    proof {
        lemma_text_order_skip(a@, b@, usize_val(i));
    }
    if n == m {
        assert(a@.skip(usize_val(i)).len() == 0 && b@.skip(usize_val(i)).len() == 0);
        Ordering::Equal
    } else if i == n {
        Ordering::Less
    } else {
        Ordering::Greater
    }
}

/// Formulas are ranked by kind (constant comparison, exclusion, membership,
/// two-signal comparison), then within a kind by signal length, or for
/// two-signal comparisons by the first signal's name.
pub open spec fn formula_order(a: FormulaView, b: FormulaView) -> Ordering {
    then_order(
        int_order(u8_val(spec_kind_rank(a)), u8_val(spec_kind_rank(b))),
        match (a, b) {
            (FormulaView::SignalToConst(x), FormulaView::SignalToConst(y)) => int_order(u32_val(x.signal_length), u32_val(y.signal_length)),
            (FormulaView::ValueNotIn(x), FormulaView::ValueNotIn(y)) => int_order(u32_val(x.signal_length), u32_val(y.signal_length)),
            (FormulaView::ValueIn(x), FormulaView::ValueIn(y)) => int_order(u32_val(x.signal_length), u32_val(y.signal_length)),
            (FormulaView::TwoSignalEqual(x), FormulaView::TwoSignalEqual(y)) => text_order(x.signal_name1, y.signal_name1),
            _ => Ordering::Equal,
        },
    )
}

fn u32_order(a: u32, b: u32) -> (r: Ordering)
    ensures
        r == int_order(u32_val(a), u32_val(b)),
{
    if a < b {
        Ordering::Less
    } else if a == b {
        Ordering::Equal
    } else {
        Ordering::Greater
    }
}

impl BaseFormula {
    pub fn cmp(&self, other: &Self) -> (r: Ordering)
        ensures
            r == formula_order(self@, other@),
    {
        let ra = self.kind_rank();
        let rb = other.kind_rank();
        if ra < rb {
            return Ordering::Less;
        }
        if ra > rb {
            return Ordering::Greater;
        }
        match (self, other) {
            (BaseFormula::SignalToConst(x), BaseFormula::SignalToConst(y)) => u32_order(x.signal_length, y.signal_length),
            (BaseFormula::ValueNotIn(x), BaseFormula::ValueNotIn(y)) => u32_order(x.signal_length, y.signal_length),
            (BaseFormula::ValueIn(x), BaseFormula::ValueIn(y)) => u32_order(x.signal_length, y.signal_length),
            (BaseFormula::TwoSignalEqual(x), BaseFormula::TwoSignalEqual(y)) => compare_text(&x.signal_name1, &y.signal_name1),
            _ => Ordering::Equal,
        }
    }
}

impl PartialOrd for BaseFormula {
    fn partial_cmp(&self, other: &Self) -> (r: Option<Ordering>) {
        Some(self.cmp(other))
    }
}

impl PartialOrdSpecImpl for BaseFormula {
    open spec fn obeys_partial_cmp_spec() -> bool {
        true
    }

    open spec fn partial_cmp_spec(&self, other: &Self) -> Option<Ordering> {
        Some(formula_order(self@, other@))
    }
}


/// `a` comes strictly before `b` in text order.
pub open spec fn text_less(a: Seq<char>, b: Seq<char>) -> bool {
    text_order(a, b) == Ordering::Less
}

/// Text order is a strict total order: exactly one of less, equal and
/// greater holds, and swapping the texts swaps less and greater.
pub proof fn lemma_text_order_total(a: Seq<char>, b: Seq<char>)
    ensures
        (text_order(a, b) == Ordering::Equal) == (a == b),
        (text_order(a, b) == Ordering::Less) == (text_order(b, a) == Ordering::Greater),
    decreases a.len(),
{
    if a.len() > 0 && b.len() > 0 && a[0] == b[0] {
        lemma_text_order_total(a.drop_first(), b.drop_first());
        if a.drop_first() == b.drop_first() {
            assert(a =~= seq![a[0]] + a.drop_first());
            assert(b =~= seq![b[0]] + b.drop_first());
        }
    } else if a.len() == 0 && b.len() == 0 {
        assert(a =~= b);
    }
}

/// Text order is transitive.
pub proof fn lemma_text_less_transitive(a: Seq<char>, b: Seq<char>, c: Seq<char>)
    requires
        text_less(a, b),
        text_less(b, c),
    ensures
        text_less(a, c),
    decreases a.len(),
{
    if a.len() > 0 && b.len() > 0 && c.len() > 0 && a[0] == b[0] && b[0] == c[0] {
        lemma_text_less_transitive(a.drop_first(), b.drop_first(), c.drop_first());
    }
}


/// Whether `a` comes strictly before `b` in text order.
pub fn text_lt(a: &String, b: &String) -> (r: bool)
    ensures
        r == text_less(a@, b@),
{
    match compare_text(a, b) {
        Ordering::Less => true,
        Ordering::Equal => false,
        Ordering::Greater => false,
    }
}


/// Of two texts, exactly one comes first, or they are equal.
pub proof fn lemma_text_less_trichotomy(a: Seq<char>, b: Seq<char>)
    ensures
        text_less(a, b) || a == b || text_less(b, a),
        !(text_less(a, b) && text_less(b, a)),
        !(text_less(a, b) && a == b),
{
    lemma_text_order_total(a, b);
    lemma_text_order_total(b, a);
}

/// Where the three scores of two scored conjunctions compare equal (the
/// score with benign examples allowed, and the two scores per predicate),
/// the conjunction with fewer predicates ranks higher, whichever side it
/// stands on.
pub proof fn law_fewer_predicates_rank_higher_on_tied_scores(a: ScoredInvariant, b: ScoredInvariant)
    requires
        0 < a.invariant@.len() < b.invariant@.len(),
        spec_inner_or_zero(a.score.cex_with_bex_allow_score) == spec_inner_or_zero(b.score.cex_with_bex_allow_score),
        trunc_div(i64_val(spec_inner_or_zero(a.score.cex_and_bex_score)), nat_val(a.invariant@.len()))
            == trunc_div(i64_val(spec_inner_or_zero(b.score.cex_and_bex_score)), nat_val(b.invariant@.len())),
        trunc_div(i64_val(spec_inner_or_zero(a.score.cex_only_score)), nat_val(a.invariant@.len()))
            == trunc_div(i64_val(spec_inner_or_zero(b.score.cex_only_score)), nat_val(b.invariant@.len())),
    ensures
        scored_invariant_order(a, b) == Ordering::Greater,
        scored_invariant_order(b, a) == Ordering::Less,
{
}

/// Of two conjunctions with the same scores, none of them negative, the one
/// with fewer predicates ranks higher: it is never behind on a score per
/// predicate, and where those tie its length decides.
pub proof fn law_same_scores_fewer_predicates_rank_higher(a: ScoredInvariant, b: ScoredInvariant)
    requires
        0 < a.invariant@.len() < b.invariant@.len(),
        a.score == b.score,
        0 <= spec_inner_or_zero(a.score.cex_and_bex_score),
        0 <= spec_inner_or_zero(a.score.cex_only_score),
    ensures
        scored_invariant_order(a, b) == Ordering::Greater,
        scored_invariant_order(b, a) == Ordering::Less,
{
    let na = nat_val(a.invariant@.len());
    let nb = nat_val(b.invariant@.len());
    let s1 = i64_val(spec_inner_or_zero(a.score.cex_and_bex_score));
    let s2 = i64_val(spec_inner_or_zero(a.score.cex_only_score));
    vstd::arithmetic::div_mod::lemma_div_is_ordered_by_denominator(s1, na, nb);
    vstd::arithmetic::div_mod::lemma_div_is_ordered_by_denominator(s2, na, nb);
    assert(trunc_div(s1, na) == s1 / na);
    assert(trunc_div(s1, nb) == s1 / nb);
    assert(trunc_div(s2, na) == s2 / na);
    assert(trunc_div(s2, nb) == s2 / nb);
}

/// The ranking of scored conjunctions is antisymmetric: comparing the other
/// way round gives the opposite order.
pub proof fn law_scored_invariant_order_antisymmetric(a: ScoredInvariant, b: ScoredInvariant)
    ensures
        scored_invariant_order(a, b) == reversed_order(scored_invariant_order(b, a)),
{
}

/// The score with benign examples allowed decides first: a conjunction
/// ahead on it ranks higher, whatever its other scores and length.
pub proof fn law_allow_score_decides_first(a: ScoredInvariant, b: ScoredInvariant)
    requires
        spec_inner_or_zero(a.score.cex_with_bex_allow_score) > spec_inner_or_zero(b.score.cex_with_bex_allow_score),
    ensures
        scored_invariant_order(a, b) == Ordering::Greater,
        scored_invariant_order(b, a) == Ordering::Less,
{
}

/// Of two conjunctions of the same length whose scores compare equal, one
/// that uses `>=` or `<=` ranks below one that does not.
pub proof fn law_range_operator_ranks_lower(a: ScoredInvariant, b: ScoredInvariant)
    requires
        a.invariant@.len() == b.invariant@.len(),
        a.score == b.score,
        has_range_operator(a.invariant@),
        !has_range_operator(b.invariant@),
    ensures
        scored_invariant_order(a, b) == Ordering::Less,
        scored_invariant_order(b, a) == Ordering::Greater,
{
}

} // verus!
