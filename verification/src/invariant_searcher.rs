//! Descriptions of the counterexamples a search explains.

use vstd::prelude::*;
use crate::constants::{PredicateTakeLimits, OPCODE_CSR};
use crate::data_types::general_data_types::{SignalInfo, lowercase_text};
use crate::predicates::{SeparatorFormula, BaseFormula, FormulaView, disj_preds_flat, separator_as_disjunction, preds_view, is_two_signal};
use crate::text::seq_contains_text;

verus! {

/// What is known of the counterexample a search started from.
#[derive(Debug, Clone)]
pub struct InputCexDescription {
    pub bug_type: Option<String>,
    pub instructions: Option<Vec<String>>,
    pub minimized_instructions: Option<Vec<String>>,
}


/// What the choice of predicates within the take limits reads of a scored
/// predicate: whether its score on the counterexamples is unsatisfiable,
/// whether its operator is `NotEqual`, whether it reads a control signal,
/// and whether it compares two signals.
#[derive(Debug, Clone, Copy)]
pub struct TakeCandidate {
    pub unsat: bool,
    pub not_equal: bool,
    pub control: bool,
    pub two_signal_equal: bool,
}

/// How many predicates were taken of each kind: `NotEqual`, control,
/// regular, two-signal.
pub type TakeCounts = (nat, nat, nat, nat);

/// Which count taking `x` raises (0 to 3, in the order of `TakeCounts`), or
/// `None` where `x` is not taken: a `NotEqual` predicate while that limit is
/// not reached; else a control one while that limit is not reached; else any
/// while the regular limit is not reached; else, where two-signal predicates
/// are counted, a two-signal one while that limit is not reached.
pub open spec fn take_kind(c: TakeCounts, x: TakeCandidate, lim: PredicateTakeLimits, with_signal_equal: bool) -> Option<nat> {
    if x.unsat {
        None
    } else if x.not_equal {
        if c.0 < lim.not_equal_predicates { Some(0nat) } else { None }
    } else if x.control && c.1 < lim.control_predicates {
        Some(1nat)
    } else if c.2 < lim.regular_predicates {
        Some(2nat)
    } else if with_signal_equal && c.3 < lim.signal_equal_predicates && x.two_signal_equal {
        Some(3nat)
    } else {
        None
    }
}

/// The counts after raising the one of kind `k`.
pub open spec fn raise_count(c: TakeCounts, k: nat) -> TakeCounts {
    if k == 0 { (c.0 + 1, c.1, c.2, c.3) }
    else if k == 1 { (c.0, c.1 + 1, c.2, c.3) }
    else if k == 2 { (c.0, c.1, c.2 + 1, c.3) }
    else { (c.0, c.1, c.2, c.3 + 1) }
}

/// Every limit is reached (the two-signal one only where it is counted).
pub open spec fn limits_reached(c: TakeCounts, lim: PredicateTakeLimits, with_signal_equal: bool) -> bool {
    &&& (with_signal_equal ==> c.3 >= lim.signal_equal_predicates)
    &&& c.2 >= lim.regular_predicates
    &&& c.0 >= lim.not_equal_predicates
    &&& c.1 >= lim.control_predicates
}

/// Going through `s` in order: the positions taken, the counts, and whether
/// every limit was reached, after which nothing more is looked at. An
/// unsatisfiable predicate is passed over without looking at the limits.
pub open spec fn take_run(s: Seq<TakeCandidate>, lim: PredicateTakeLimits, with_signal_equal: bool) -> (Seq<usize>, TakeCounts, bool)
    decreases s.len(),
{
    if s.len() == 0 {
        (Seq::empty(), (0nat, 0nat, 0nat, 0nat), false)
    } else {
        let (taken, c, done) = take_run(s.drop_last(), lim, with_signal_equal);
        let x = s.last();
        if done || x.unsat {
            (taken, c, done)
        } else {
            match take_kind(c, x, lim, with_signal_equal) {
                Some(k) => {
                    let c2 = raise_count(c, k);
                    (taken.push((s.len() - 1) as usize), c2, limits_reached(c2, lim, with_signal_equal))
                },
                None => (taken, c, limits_reached(c, lim, with_signal_equal)),
            }
        }
    }
}

/// The positions of the predicates of `ordered` (best first) taken within
/// the take limits: see `take_run`. With `with_signal_equal`, two-signal
/// predicates beyond the regular limit are taken up to their own limit.
pub fn select_within_take_limits(
    ordered: &Vec<TakeCandidate>,
    limits: &PredicateTakeLimits,
    with_signal_equal: bool,
) -> (r: Vec<usize>)
    ensures
        r@ == take_run(ordered@, *limits, with_signal_equal).0,
{
    let mut taken: Vec<usize> = Vec::new();
    let mut ne: usize = 0;
    let mut control: usize = 0;
    let mut regular: usize = 0;
    let mut se: usize = 0;
    let n = ordered.len();
    let mut i: usize = 0;
    assert(ordered@.take(n as int) =~= ordered@);
    while i < n
        invariant_except_break
            take_run(ordered@.take(i as int), *limits, with_signal_equal)
                == (taken@, (ne as nat, control as nat, regular as nat, se as nat), false),
        invariant
            n == ordered@.len(),
            ordered@.take(n as int) == ordered@,
            i <= n,
            ne + control + regular + se <= i,
        ensures
            taken@ == take_run(ordered@, *limits, with_signal_equal).0,
        decreases n - i,
    {
        let x = ordered[i];
        let ghost s1 = ordered@.take(i + 1);
        proof {
            assert(s1.drop_last() =~= ordered@.take(i as int));
            assert(s1.last() == x);
            lemma_take_run_done_stays(ordered@, *limits, with_signal_equal, i as int + 1);
        }
        i = i + 1;
        if x.unsat {
            continue;
        }
        if x.not_equal {
            if ne < limits.not_equal_predicates {
                taken.push(i - 1);
                ne = ne + 1;
            }
        } else if x.control && control < limits.control_predicates {
            control = control + 1;
            taken.push(i - 1);
        } else if regular < limits.regular_predicates {
            regular = regular + 1;
            taken.push(i - 1);
        } else if with_signal_equal && se < limits.signal_equal_predicates && x.two_signal_equal {
            se = se + 1;
            taken.push(i - 1);
        }
        if (!with_signal_equal || se >= limits.signal_equal_predicates) && regular >= limits.regular_predicates
            && ne >= limits.not_equal_predicates && control >= limits.control_predicates {
            break;
        }
    }
    taken
}

/// Without two-signal or `NotEqual` candidates, what is taken is taken as a
/// control or a regular predicate: at most `control_predicates +
/// regular_predicates` positions, and at most `regular_predicates` where no
/// candidate reads a control signal. A predicate that compares no two
/// signals is never taken under the two-signal limit.
pub proof fn law_single_signal_candidates_within_regular_limits(
    s: Seq<TakeCandidate>,
    lim: PredicateTakeLimits,
    with_signal_equal: bool,
)
    requires
        forall|i: int| 0 <= i < s.len() ==> !(#[trigger] s[i]).two_signal_equal && !s[i].not_equal,
    ensures
        take_run(s, lim, with_signal_equal).0.len() <= lim.control_predicates + lim.regular_predicates,
        (forall|i: int| 0 <= i < s.len() ==> !(#[trigger] s[i]).control)
            ==> take_run(s, lim, with_signal_equal).0.len() <= lim.regular_predicates,
{
    lemma_single_signal_counts(s, lim, with_signal_equal);
}

/// The counts of a run over candidates that compare no two signals and are
/// not `NotEqual`: only the control and regular counts rise, each within its
/// limit, and they count what is taken.
proof fn lemma_single_signal_counts(s: Seq<TakeCandidate>, lim: PredicateTakeLimits, with_signal_equal: bool)
    requires
        forall|i: int| 0 <= i < s.len() ==> !(#[trigger] s[i]).two_signal_equal && !s[i].not_equal,
    ensures
        ({
            let (taken, c, done) = take_run(s, lim, with_signal_equal);
            &&& c.0 == 0
            &&& c.3 == 0
            &&& c.1 <= lim.control_predicates
            &&& c.2 <= lim.regular_predicates
            &&& taken.len() == c.1 + c.2
            &&& (forall|i: int| 0 <= i < s.len() ==> !(#[trigger] s[i]).control) ==> c.1 == 0
        }),
    decreases s.len(),
{
    if s.len() > 0 {
        let t = s.drop_last();
        assert forall|i: int| 0 <= i < t.len() implies !(#[trigger] t[i]).two_signal_equal && !t[i].not_equal by {
            assert(t[i] == s[i]);
        }
        lemma_single_signal_counts(t, lim, with_signal_equal);
        assert((forall|i: int| 0 <= i < s.len() ==> !(#[trigger] s[i]).control)
            ==> (forall|i: int| 0 <= i < t.len() ==> !(#[trigger] t[i]).control)) by {
            if forall|i: int| 0 <= i < s.len() ==> !(#[trigger] s[i]).control {
                assert forall|i: int| 0 <= i < t.len() implies !(#[trigger] t[i]).control by {
                    assert(t[i] == s[i]);
                }
            }
        }
        let x = s.last();
        assert(x == s[s.len() - 1]);
    }
}

/// Candidates that are all satisfiable single-signal comparisons, neither
/// `NotEqual` nor on a control signal, are taken greedily in order: the
/// first `regular_predicates` of them, and no more.
pub proof fn law_plain_candidates_take_first_regular(s: Seq<TakeCandidate>, lim: PredicateTakeLimits, with_signal_equal: bool)
    requires
        s.len() <= usize::MAX,
        forall|i: int| 0 <= i < s.len() ==> {
            let x = #[trigger] s[i];
            !x.unsat && !x.not_equal && !x.control && !x.two_signal_equal
        },
    ensures
        take_run(s, lim, with_signal_equal).0 == Seq::new(
            if s.len() < lim.regular_predicates { s.len() } else { lim.regular_predicates as nat },
            |i: int| i as usize),
{
    lemma_plain_run(s, lim, with_signal_equal);
}

proof fn lemma_plain_run(s: Seq<TakeCandidate>, lim: PredicateTakeLimits, with_signal_equal: bool)
    requires
        s.len() <= usize::MAX,
        forall|i: int| 0 <= i < s.len() ==> {
            let x = #[trigger] s[i];
            !x.unsat && !x.not_equal && !x.control && !x.two_signal_equal
        },
    ensures
        ({
            let m = if s.len() < lim.regular_predicates { s.len() } else { lim.regular_predicates as nat };
            let (taken, c, done) = take_run(s, lim, with_signal_equal);
            &&& taken == Seq::new(m, |i: int| i as usize)
            &&& c == (0nat, 0nat, m, 0nat)
            &&& done ==> m >= lim.regular_predicates
        }),
    decreases s.len(),
{
    if s.len() > 0 {
        let t = s.drop_last();
        assert forall|i: int| 0 <= i < t.len() implies {
            let x = #[trigger] t[i];
            !x.unsat && !x.not_equal && !x.control && !x.two_signal_equal
        } by {
            assert(t[i] == s[i]);
        }
        lemma_plain_run(t, lim, with_signal_equal);
        let x = s.last();
        assert(x == s[s.len() - 1]);
        let m0 = if t.len() < lim.regular_predicates { t.len() } else { lim.regular_predicates as nat };
        let m = if s.len() < lim.regular_predicates { s.len() } else { lim.regular_predicates as nat };
        let (taken0, c0, done0) = take_run(t, lim, with_signal_equal);
        if !done0 && m0 < lim.regular_predicates {
            assert(m == m0 + 1);
            assert(taken0.push((s.len() - 1) as usize) =~= Seq::new(m, |i: int| i as usize));
        } else {
            assert(m == m0);
        }
    }
}

/// What is taken stays within the limits: at most `not_equal_predicates +
/// control_predicates + regular_predicates` positions, plus
/// `signal_equal_predicates` where two-signal predicates are counted. The
/// positions taken are increasing positions of `s` (a sequence a `Vec` can
/// hold), and none of them holds an unsatisfiable candidate.
pub proof fn law_taken_within_limits(s: Seq<TakeCandidate>, lim: PredicateTakeLimits, with_signal_equal: bool)
    requires
        s.len() <= usize::MAX,
    ensures
        ({
            let taken = take_run(s, lim, with_signal_equal).0;
            &&& taken.len() <= lim.not_equal_predicates + lim.control_predicates + lim.regular_predicates
                + if with_signal_equal { lim.signal_equal_predicates as int } else { 0 }
            &&& forall|k: int| 0 <= k < taken.len() ==> (#[trigger] taken[k]) < s.len() && !s[taken[k] as int].unsat
            &&& forall|k: int, l: int| 0 <= k < l < taken.len() ==> #[trigger] taken[k] < #[trigger] taken[l]
        }),
{
    lemma_run_counts(s, lim, with_signal_equal);
}

/// The counts of a run rise each within its limit (the two-signal one only
/// where it is counted), they count what is taken, and what is taken are
/// increasing positions of satisfiable candidates.
proof fn lemma_run_counts(s: Seq<TakeCandidate>, lim: PredicateTakeLimits, with_signal_equal: bool)
    requires
        s.len() <= usize::MAX,
    ensures
        ({
            let (taken, c, done) = take_run(s, lim, with_signal_equal);
            &&& c.0 <= lim.not_equal_predicates
            &&& c.1 <= lim.control_predicates
            &&& c.2 <= lim.regular_predicates
            &&& c.3 <= lim.signal_equal_predicates
            &&& (!with_signal_equal ==> c.3 == 0)
            &&& taken.len() == c.0 + c.1 + c.2 + c.3
            &&& forall|k: int| 0 <= k < taken.len() ==> (#[trigger] taken[k]) < s.len() && !s[taken[k] as int].unsat
            &&& forall|k: int, l: int| 0 <= k < l < taken.len() ==> #[trigger] taken[k] < #[trigger] taken[l]
        }),
    decreases s.len(),
{
    if s.len() > 0 {
        let t = s.drop_last();
        lemma_run_counts(t, lim, with_signal_equal);
        let (taken0, c0, done0) = take_run(t, lim, with_signal_equal);
        assert forall|k: int| 0 <= k < taken0.len() implies s[#[trigger] taken0[k] as int] == t[taken0[k] as int] by {}
        let x = s.last();
        assert(x == s[s.len() - 1]);
        if !done0 && !x.unsat {
            if let Some(kind) = take_kind(c0, x, lim, with_signal_equal) {
                let taken = taken0.push((s.len() - 1) as usize);
                assert(take_run(s, lim, with_signal_equal).0 == taken);
                assert forall|k: int| 0 <= k < taken.len() implies (#[trigger] taken[k]) < s.len() && !s[taken[k] as int].unsat by {
                    if k < taken0.len() {
                        assert(taken[k] == taken0[k]);
                    }
                }
                assert forall|k: int, l: int| 0 <= k < l < taken.len() implies #[trigger] taken[k] < #[trigger] taken[l] by {
                    assert(taken[k] == taken0[k]);
                    if l < taken0.len() {
                        assert(taken[l] == taken0[l]);
                    }
                }
            }
        }
    }
}

/// Once every limit is reached, the rest of the sequence changes nothing.
proof fn lemma_take_run_done_stays(s: Seq<TakeCandidate>, lim: PredicateTakeLimits, with_signal_equal: bool, k: int)
    requires
        0 <= k <= s.len(),
    ensures
        take_run(s.take(k), lim, with_signal_equal).2 ==> take_run(s, lim, with_signal_equal) == take_run(s.take(k), lim, with_signal_equal),
    decreases s.len() - k,
{
    if k < s.len() {
        lemma_take_run_done_stays(s, lim, with_signal_equal, k + 1);
        let t = s.take(k + 1);
        assert(t.drop_last() =~= s.take(k));
    } else {
        assert(s.take(k) =~= s);
    }
}


/// Some alias of the signal contains `sub` (compared in lower case unless
/// `case_sensitive`).
pub open spec fn alias_has(info: SignalInfo, sub: Seq<char>, case_sensitive: bool) -> bool {
    if case_sensitive {
        exists|i: int| 0 <= i < info.aliases@.len() && seq_contains_text(#[trigger] info.aliases@[i]@, sub)
    } else {
        exists|i: int| 0 <= i < info.aliases@.len() && seq_contains_text(lowercase_text(#[trigger] info.aliases@[i]@), lowercase_text(sub))
    }
}

/// The predicate compares a known signal to the constant `v`, and some alias
/// of the signal contains `sub` (in lower case).
pub open spec fn const_on_alias(p: FormulaView, info: Option<SignalInfo>, sub: Seq<char>, v: i64) -> bool {
    &&& info is Some
    &&& alias_has(info->0, sub, false)
    &&& p matches FormulaView::SignalToConst(x) && x.value == v
}

/// The predicate reads a known signal one of whose aliases contains `imm_i`.
pub open spec fn reads_imm_i(p: FormulaView, info: Option<SignalInfo>) -> bool {
    &&& !is_two_signal(p)
    &&& info is Some
    &&& alias_has(info->0, "imm_i"@, true)
}

/// Whether the formula describes a CSR instruction: one of its predicates
/// sets the CSR-written bitmap register to 1; or one sets the opcode to the
/// CSR opcode and one reads the I-type immediate. `signal_infos[k]` is what is
/// known of the signal of the `k`-th predicate of `formula.get_all_predicates()`.
pub fn is_csr_formula(formula: &SeparatorFormula, signal_infos: &Vec<Option<SignalInfo>>) -> (r: bool)
    requires
        signal_infos@.len() == disj_preds_flat(separator_as_disjunction(formula)).len(),
    ensures
        ({
            let ps = disj_preds_flat(separator_as_disjunction(formula));
            let infos = signal_infos@;
            r == ((exists|k: int| 0 <= k < ps.len() && #[trigger] const_on_alias(ps[k], infos[k], "csr_written_bitmap_reg"@, 1))
                || ((exists|k: int| 0 <= k < ps.len() && #[trigger] const_on_alias(ps[k], infos[k], "opcode"@, OPCODE_CSR))
                    && (exists|k: int| 0 <= k < ps.len() && #[trigger] reads_imm_i(ps[k], infos[k]))))
        }),
{
    let predicates = formula.get_all_predicates();
    let ghost ps = disj_preds_flat(separator_as_disjunction(formula));
    let mut csr_opcode_predicate_contained = false;
    let mut contains_imm_i = false;
    let n = predicates.len();
    for i in 0..n
        invariant
            n == predicates@.len(),
            preds_view(predicates@) == ps,
            ps == disj_preds_flat(separator_as_disjunction(formula)),
            signal_infos@.len() == ps.len(),
            forall|k: int| 0 <= k < i ==> !#[trigger] const_on_alias(ps[k], signal_infos@[k], "csr_written_bitmap_reg"@, 1),
            csr_opcode_predicate_contained == exists|k: int| 0 <= k < i && #[trigger] const_on_alias(ps[k], signal_infos@[k], "opcode"@, OPCODE_CSR),
            contains_imm_i == exists|k: int| 0 <= k < i && #[trigger] reads_imm_i(ps[k], signal_infos@[k]),
    {
        let predicate = &predicates[i];
        assert(ps[i as int] == predicate@);
        let ghost imm_before = contains_imm_i;
        let ghost opcode_before = csr_opcode_predicate_contained;
        let is_two = predicate.is_two_signal_equal();
        let value: Option<i64> = match &predicate.base_formula {
            BaseFormula::SignalToConst(f) => Some(f.get_value()),
            _ => None,
        };
        match &signal_infos[i] {
            None => {},
            Some(signal_info) => {
                if !is_two {
                    if signal_info.any_alias_contains("csr_written_bitmap_reg", false) {
                        if value == Some(1i64) {
                            assert(const_on_alias(ps[i as int], signal_infos@[i as int], "csr_written_bitmap_reg"@, 1));
                            assert(disj_preds_flat(separator_as_disjunction(formula)) == ps);
                            assert(exists|k: int| 0 <= k < ps.len()
                                && #[trigger] const_on_alias(ps[k], signal_infos@[k], "csr_written_bitmap_reg"@, 1));
                            return true;
                        }
                    }
                    if signal_info.any_alias_contains("opcode", false) {
                        if value == Some(OPCODE_CSR) {
                            csr_opcode_predicate_contained = true;
                        }
                    }
                    if signal_info.any_alias_contains("imm_i", true) {
                        contains_imm_i = true;
                    }
                }
            },
        }
        proof {
            assert(const_on_alias(ps[i as int], signal_infos@[i as int], "opcode"@, OPCODE_CSR) ==> csr_opcode_predicate_contained);
            assert(reads_imm_i(ps[i as int], signal_infos@[i as int]) ==> contains_imm_i);
            assert(contains_imm_i ==> imm_before || reads_imm_i(ps[i as int], signal_infos@[i as int]));
            assert(csr_opcode_predicate_contained ==> opcode_before
                || const_on_alias(ps[i as int], signal_infos@[i as int], "opcode"@, OPCODE_CSR));
        }
    }
    contains_imm_i && csr_opcode_predicate_contained
}

} // verus!
