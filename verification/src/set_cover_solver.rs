//! The set-cover formulation of the separator search.

use vstd::prelude::*;
use crate::samples::Teacher;
use crate::data_types::general_data_types::{FormulaScoreWeights, WaveFormSource};
use crate::set_cover_instance::{SetCoverInstance, SetCoverPredicate, u64_keys, usize_keys};
use crate::data_types::general_data_types::{SignalInfo, SignalType, lowercase_text};
use crate::predicates::{Operator, FormulaView, BaseFormula, spec_pred_operator, spec_pred_signal_idx, is_two_signal};
use crate::constants::{OPCODE_CSR, OPCODE_RTYPE, OPCODE_ITYPE_ARITHMETIC, OPCODE_STYPE, OPCODE_BTYPE};
use crate::text::seq_contains_text;

verus! {

/// Chooses predicates that together block the counterexamples, over a set of
/// examples and with the given score weights.
pub struct SetCoverSolver {
    teacher: Teacher,
    formula_score_weights: FormulaScoreWeights,
}

impl SetCoverSolver {
    pub fn new(teacher: Teacher, formula_score_weights: FormulaScoreWeights) -> (r: Self)
        ensures
            r.examples() == teacher,
            r.weights() == formula_score_weights,
    {
        SetCoverSolver { teacher, formula_score_weights }
    }

    /// The examples the solver works on.
    pub closed spec fn examples(&self) -> Teacher {
        self.teacher
    }

    /// The score weights the solver uses.
    pub closed spec fn weights(&self) -> FormulaScoreWeights {
        self.formula_score_weights
    }

    /// The states of one original counterexample trace (all of them must be
    /// covered, so one stands for the others), or none where there is none.
    pub fn collect_cex_state_ids(set_cover_instance: &SetCoverInstance) -> (r: Vec<u64>)
        ensures
            r@.no_duplicates(),
            (exists|t: usize| #[trigger] set_cover_instance.cex_traces@.contains_key(t)
                && set_cover_instance.cex_traces@[t].file_source == Some(WaveFormSource::OriginalCex))
            ==> exists|t: usize| #[trigger] set_cover_instance.cex_traces@.contains_key(t)
                && set_cover_instance.cex_traces@[t].file_source == Some(WaveFormSource::OriginalCex)
                && r@.to_set() == set_cover_instance.cex_traces@[t].states@.dom(),
            (forall|t: usize| #[trigger] set_cover_instance.cex_traces@.contains_key(t)
                ==> set_cover_instance.cex_traces@[t].file_source != Some(WaveFormSource::OriginalCex))
            ==> r@.len() == 0,
    {
        let tids = usize_keys(&set_cover_instance.cex_traces);
        let n = tids.len();
        for i in 0..n
            invariant
                n == tids@.len(),
                tids@.to_set() == set_cover_instance.cex_traces@.dom(),
                forall|k: int| 0 <= k < i ==> set_cover_instance.cex_traces@[#[trigger] tids@[k]].file_source
                    != Some(WaveFormSource::OriginalCex),
        {
            let tid = tids[i];
            assert(tids@.to_set().contains(tid));
            let trace = set_cover_instance.cex_traces.get(&tid).unwrap();
            if trace.file_source == Some(WaveFormSource::OriginalCex) {
                let states = u64_keys(&trace.states);
                return states;
            }
        }
        proof {
            assert forall|t: usize| #[trigger] set_cover_instance.cex_traces@.contains_key(t)
                implies set_cover_instance.cex_traces@[t].file_source != Some(WaveFormSource::OriginalCex) by {
                assert(tids@.to_set().contains(t));
                let k = choose|k: int| 0 <= k < tids@.len() && tids@[k] == t;
                assert(set_cover_instance.cex_traces@[tids@[k]].file_source != Some(WaveFormSource::OriginalCex));
            }
        }
        Vec::new()
    }
}


/// The groups of predicates the architecture constraints of the integer
/// program are built from.
#[derive(PartialEq, Eq, Debug, Clone, Copy, Structural)]
pub enum GroupKind {
    NotEqual,
    SmallerEqual,
    GreaterEqual,
    AddressOrImmediate,
    ImmediateFunct3,
    ImmediateFunct7,
    ImmediateImmI,
    ImmediateRest,
    AllowFunct3,
    AllowFunct7,
    AllowImmI,
}

/// The signal has an address, immediate or register-file-address type.
pub open spec fn address_or_immediate(info: SignalInfo) -> bool {
    info.signal_types@.contains(SignalType::Address) || info.signal_types@.contains(SignalType::Immediate)
        || info.signal_types@.contains(SignalType::RegisterFileAddress)
}

/// Some alias of the signal contains `key`, compared in lower case.
pub open spec fn alias_holds(info: SignalInfo, key: Seq<char>) -> bool {
    exists|i: int| 0 <= i < info.aliases@.len() && seq_contains_text(lowercase_text(#[trigger] info.aliases@[i]@), lowercase_text(key))
}

/// Some alias of the signal contains `key`, as written.
pub open spec fn alias_holds_exactly(info: SignalInfo, key: Seq<char>) -> bool {
    exists|i: int| 0 <= i < info.aliases@.len() && seq_contains_text(#[trigger] info.aliases@[i]@, key)
}

/// An address or immediate predicate on one signal, by its aliases: in the
/// group of each key `funct3`, `funct7`, `imm_i`, `rest` some alias contains,
/// and in `rest` where none does.
pub open spec fn immediate_member(p: SetCoverPredicate, info: SignalInfo, key: Seq<char>) -> bool {
    let none = !alias_holds(info, "funct3"@) && !alias_holds(info, "funct7"@) && !alias_holds(info, "imm_i"@)
        && !alias_holds(info, "rest"@);
    &&& address_or_immediate(info)
    &&& !is_two_signal(p.predicate.base_predicate@)
    &&& (alias_holds(info, key) || (key == "rest"@ && none))
}

/// An equality of one opcode (or CSR-written-bitmap) signal to a constant
/// that allows pairing with immediates: the CSR opcode, or the value 1 on a
/// signal an alias of which contains `csr_written_bitmap_reg_`, allows
/// `funct3` and `imm_i`; an R-, arithmetic I-, S- or B-type opcode allows
/// `funct3`; the R-type opcode also `funct7`.
pub open spec fn allows(p: SetCoverPredicate, info: SignalInfo, key: Seq<char>) -> bool {
    let f = p.predicate.base_predicate@;
    &&& spec_pred_operator(f) == Operator::Equal
    &&& spec_pred_signal_idx(f).len() == 1
    &&& (alias_holds(info, "opcode"@) || alias_holds(info, "csr_written_bitmap_reg_"@))
    &&& f matches FormulaView::SignalToConst(x) && {
        let v = x.value;
        if v == OPCODE_CSR {
            key == "funct3"@ || key == "imm_i"@
        } else if alias_holds_exactly(info, "csr_written_bitmap_reg_"@) {
            v == 1 && (key == "funct3"@ || key == "imm_i"@)
        } else if v == OPCODE_RTYPE {
            key == "funct3"@ || key == "funct7"@
        } else if v == OPCODE_ITYPE_ARITHMETIC || v == OPCODE_STYPE || v == OPCODE_BTYPE {
            key == "funct3"@
        } else {
            false
        }
    }
}

/// Whether predicate `p`, whose signal is described by `info`, belongs to
/// the group.
pub open spec fn in_group(kind: GroupKind, p: SetCoverPredicate, info: SignalInfo) -> bool {
    let op = spec_pred_operator(p.predicate.base_predicate@);
    match kind {
        GroupKind::NotEqual => op == Operator::NotEqual,
        GroupKind::SmallerEqual => op == Operator::SmallerEqual,
        GroupKind::GreaterEqual => op == Operator::GreaterEqual,
        GroupKind::AddressOrImmediate => address_or_immediate(info),
        GroupKind::ImmediateFunct3 => immediate_member(p, info, "funct3"@),
        GroupKind::ImmediateFunct7 => immediate_member(p, info, "funct7"@),
        GroupKind::ImmediateImmI => immediate_member(p, info, "imm_i"@),
        GroupKind::ImmediateRest => immediate_member(p, info, "rest"@),
        GroupKind::AllowFunct3 => allows(p, info, "funct3"@),
        GroupKind::AllowFunct7 => allows(p, info, "funct7"@),
        GroupKind::AllowImmI => allows(p, info, "imm_i"@),
    }
}

/// The ids of the predicates of the group.
pub open spec fn group_ids(preds: Seq<SetCoverPredicate>, infos: Seq<SignalInfo>, kind: GroupKind) -> Set<usize> {
    Set::new(|id: usize| exists|k: int| 0 <= k < preds.len() && (#[trigger] preds[k]).id == id && in_group(kind, preds[k], infos[k]))
}

fn any_alias(info: &SignalInfo, key: &str) -> (r: bool)
    ensures
        r == alias_holds(*info, key@),
{
    info.any_alias_contains(key, false)
}

/// Whether the predicate belongs to the group.
fn belongs(kind: GroupKind, p: &SetCoverPredicate, info: &SignalInfo) -> (r: bool)
    ensures
        r == in_group(kind, *p, *info),
{
    proof {
        reveal_strlit("funct3");
        reveal_strlit("funct7");
        reveal_strlit("imm_i");
        reveal_strlit("rest");
        assert("funct3"@ != "rest"@) by { assert("funct3"@.len() != "rest"@.len()); }
        assert("funct7"@ != "rest"@) by { assert("funct7"@.len() != "rest"@.len()); }
        assert("imm_i"@ != "rest"@) by { assert("imm_i"@.len() != "rest"@.len()); }
        assert("imm_i"@ != "funct3"@) by { assert("imm_i"@.len() != "funct3"@.len()); }
        assert("imm_i"@ != "funct7"@) by { assert("imm_i"@.len() != "funct7"@.len()); }
        assert("funct7"@ != "funct3"@) by { assert("funct7"@[5] != "funct3"@[5]); }
    }
    let op = p.predicate.get_operator();
    let types = vec![SignalType::Address, SignalType::Immediate, SignalType::RegisterFileAddress];
    let addr = info.signal_types.contains_any_type(&types);
    proof {
        assert(addr == address_or_immediate(*info)) by {
            if address_or_immediate(*info) {
                if info.signal_types@.contains(SignalType::Address) {
                    assert(types@[0] == SignalType::Address);
                } else if info.signal_types@.contains(SignalType::Immediate) {
                    assert(types@[1] == SignalType::Immediate);
                } else {
                    assert(types@[2] == SignalType::RegisterFileAddress);
                }
            }
        }
    }
    match kind {
        GroupKind::NotEqual => op == Operator::NotEqual,
        GroupKind::SmallerEqual => op == Operator::SmallerEqual,
        GroupKind::GreaterEqual => op == Operator::GreaterEqual,
        GroupKind::AddressOrImmediate => addr,
        GroupKind::ImmediateFunct3 | GroupKind::ImmediateFunct7 | GroupKind::ImmediateImmI | GroupKind::ImmediateRest => {
            if !addr || p.predicate.base_predicate.is_two_signal_equal() {
                return false;
            }
            let f3 = any_alias(info, "funct3");
            let f7 = any_alias(info, "funct7");
            let ii = any_alias(info, "imm_i");
            let rest = any_alias(info, "rest");
            assert(!is_two_signal(p.predicate.base_predicate@));
            assert(address_or_immediate(*info));
            let b = match kind {
                GroupKind::ImmediateFunct3 => f3,
                GroupKind::ImmediateFunct7 => f7,
                GroupKind::ImmediateImmI => ii,
                _ => rest || (!f3 && !f7 && !ii && !rest),
            };
            assert(b == in_group(kind, *p, *info));
            b
        },
        GroupKind::AllowFunct3 | GroupKind::AllowFunct7 | GroupKind::AllowImmI => {
            if op != Operator::Equal {
                return false;
            }
            if p.predicate.base_predicate.get_signal_idx().len() != 1 {
                return false;
            }
            if !any_alias(info, "opcode") && !any_alias(info, "csr_written_bitmap_reg_") {
                return false;
            }
            let v = match &p.predicate.base_predicate.base_formula {
                BaseFormula::SignalToConst(f) => f.get_value(),
                _ => {
                    return false;
                },
            };
            let want_f3 = kind == GroupKind::AllowFunct3;
            let want_f7 = kind == GroupKind::AllowFunct7;
            let want_ii = kind == GroupKind::AllowImmI;
            assert(spec_pred_operator(p.predicate.base_predicate@) == Operator::Equal);
            assert(spec_pred_signal_idx(p.predicate.base_predicate@).len() == 1);
            assert(alias_holds(*info, "opcode"@) || alias_holds(*info, "csr_written_bitmap_reg_"@));
            assert(p.predicate.base_predicate@ matches FormulaView::SignalToConst(x) && x.value == v);
            let b = if v == OPCODE_CSR {
                want_f3 || want_ii
            } else if info.any_alias_contains("csr_written_bitmap_reg_", true) {
                v == 1 && (want_f3 || want_ii)
            } else if v == OPCODE_RTYPE {
                want_f3 || want_f7
            } else if v == OPCODE_ITYPE_ARITHMETIC || v == OPCODE_STYPE || v == OPCODE_BTYPE {
                want_f3
            } else {
                false
            };
            assert(b == in_group(kind, *p, *info));
            b
        },
    }
}

/// The ids of the first `n` predicates that belong to the group, in order.
pub open spec fn group_seq(preds: Seq<SetCoverPredicate>, infos: Seq<SignalInfo>, kind: GroupKind, n: nat) -> Seq<usize>
    decreases n,
{
    if n == 0 {
        Seq::empty()
    } else {
        let r = group_seq(preds, infos, kind, (n - 1) as nat);
        if in_group(kind, preds[n - 1], infos[n - 1]) { r.push(preds[n - 1].id) } else { r }
    }
}

/// No two predicates share an id.
pub open spec fn ids_distinct(preds: Seq<SetCoverPredicate>) -> bool {
    forall|a: int, b: int| 0 <= a < preds.len() && 0 <= b < preds.len() && a != b ==> (#[trigger] preds[a]).id != (#[trigger] preds[b]).id
}

/// The ids of the predicates of the group, in the order of `preds`.
fn ids_in_group(preds: &Vec<SetCoverPredicate>, infos: &Vec<SignalInfo>, kind: GroupKind) -> (r: Vec<usize>)
    requires
        infos@.len() == preds@.len(),
    ensures
        r@.to_set() == group_ids(preds@, infos@, kind),
        r@ == group_seq(preds@, infos@, kind, preds@.len()),
        ids_distinct(preds@) ==> r@.no_duplicates(),
{
    let mut r: Vec<usize> = Vec::new();
    let n = preds.len();
    for i in 0..n
        invariant
            n == preds@.len(),
            infos@.len() == n,
            r@.to_set() == group_ids(preds@.take(i as int), infos@.take(i as int), kind),
            r@ == group_seq(preds@, infos@, kind, i as nat),
            forall|j: int| #![trigger r@[j]] 0 <= j < r@.len() ==> exists|k: int| 0 <= k < i && #[trigger] preds@[k].id == r@[j],
            ids_distinct(preds@) ==> r@.no_duplicates(),
    {
        let ghost r0 = r@;
        let b = belongs(kind, &preds[i], &infos[i]);
        if b {
            r.push(preds[i].id);
        }
        proof {
            assert(r@ == group_seq(preds@, infos@, kind, (i + 1) as nat));
            assert forall|j: int| #![trigger r@[j]] 0 <= j < r@.len() implies exists|k: int| 0 <= k < i + 1 && #[trigger] preds@[k].id == r@[j] by {
                if j < r0.len() {
                    let k = choose|k: int| 0 <= k < i && #[trigger] preds@[k].id == r0[j];
                    assert(preds@[k].id == r@[j]);
                } else {
                    assert(preds@[i as int].id == r@[j]);
                }
            }
            if ids_distinct(preds@) && b {
                assert forall|a: int, c: int| 0 <= a < r@.len() && 0 <= c < r@.len() && a != c implies r@[a] != r@[c] by {
                    if a < r0.len() && c < r0.len() {
                    } else if a < r0.len() {
                        let k = choose|k: int| 0 <= k < i && #[trigger] preds@[k].id == r0[a];
                        assert(preds@[k].id != preds@[i as int].id);
                    } else {
                        let k = choose|k: int| 0 <= k < i && #[trigger] preds@[k].id == r0[c];
                        assert(preds@[k].id != preds@[i as int].id);
                    }
                }
            }
        }
        proof {
            let p1 = preds@.take(i + 1);
            let f1 = infos@.take(i + 1);
            assert forall|id: usize| r@.to_set().contains(id) <==> group_ids(p1, f1, kind).contains(id) by {
                if r@.to_set().contains(id) {
                    if r0.to_set().contains(id) {
                        let k = choose|k: int| 0 <= k < i && (#[trigger] preds@.take(i as int)[k]).id == id
                            && in_group(kind, preds@.take(i as int)[k], infos@.take(i as int)[k]);
                        assert(p1[k] == preds@.take(i as int)[k]);
                    } else {
                        assert(p1[i as int] == preds@[i as int]);
                    }
                }
                if group_ids(p1, f1, kind).contains(id) {
                    let k = choose|k: int| 0 <= k < i + 1 && (#[trigger] p1[k]).id == id && in_group(kind, p1[k], f1[k]);
                    if k < i {
                        assert(preds@.take(i as int)[k] == p1[k]);
                        assert(group_ids(preds@.take(i as int), infos@.take(i as int), kind).contains(id));
                        assert(r0.to_set().contains(id));
                        let j = choose|j: int| 0 <= j < r0.len() && r0[j] == id;
                        assert(r@[j] == id);
                        assert(r@.to_set().contains(id));
                    } else {
                        assert(r@[r@.len() - 1] == id);
                    }
                }
            }
            assert(r@.to_set() =~= group_ids(p1, f1, kind));
        }
    }
    assert(preds@.take(n as int) =~= preds@);
    assert(infos@.take(n as int) =~= infos@);
    r
}

/// The predicate groups behind the architecture constraints of the
/// integer program: the `NotEqual`, `<=` and `>=` predicates, those on
/// address or immediate signals, those grouped by the immediate they read
/// (`funct3`, `funct7`, `imm_i`, `rest`), and the opcode predicates that
/// allow each immediate group. `signal_infos[k]` describes the signal of
/// `predicates[k]`.
pub struct ArchitectureGroups {
    pub not_equal: Vec<usize>,
    pub smaller_equal: Vec<usize>,
    pub greater_equal: Vec<usize>,
    pub address_or_immediate: Vec<usize>,
    pub immediate_funct3: Vec<usize>,
    pub immediate_funct7: Vec<usize>,
    pub immediate_imm_i: Vec<usize>,
    pub immediate_rest: Vec<usize>,
    pub allowed_funct3: Vec<usize>,
    pub allowed_funct7: Vec<usize>,
    pub allowed_imm_i: Vec<usize>,
}

impl SetCoverSolver {
    pub fn architecture_groups(predicates: &Vec<SetCoverPredicate>, signal_infos: &Vec<SignalInfo>) -> (r: ArchitectureGroups)
        requires
            signal_infos@.len() == predicates@.len(),
        ensures
            r.not_equal@.to_set() == group_ids(predicates@, signal_infos@, GroupKind::NotEqual),
            r.smaller_equal@.to_set() == group_ids(predicates@, signal_infos@, GroupKind::SmallerEqual),
            r.greater_equal@.to_set() == group_ids(predicates@, signal_infos@, GroupKind::GreaterEqual),
            r.address_or_immediate@.to_set() == group_ids(predicates@, signal_infos@, GroupKind::AddressOrImmediate),
            r.immediate_funct3@.to_set() == group_ids(predicates@, signal_infos@, GroupKind::ImmediateFunct3),
            r.immediate_funct7@.to_set() == group_ids(predicates@, signal_infos@, GroupKind::ImmediateFunct7),
            r.immediate_imm_i@.to_set() == group_ids(predicates@, signal_infos@, GroupKind::ImmediateImmI),
            r.immediate_rest@.to_set() == group_ids(predicates@, signal_infos@, GroupKind::ImmediateRest),
            r.allowed_funct3@.to_set() == group_ids(predicates@, signal_infos@, GroupKind::AllowFunct3),
            r.allowed_funct7@.to_set() == group_ids(predicates@, signal_infos@, GroupKind::AllowFunct7),
            r.allowed_imm_i@.to_set() == group_ids(predicates@, signal_infos@, GroupKind::AllowImmI),
            r.not_equal@ == group_seq(predicates@, signal_infos@, GroupKind::NotEqual, predicates@.len()),
            r.smaller_equal@ == group_seq(predicates@, signal_infos@, GroupKind::SmallerEqual, predicates@.len()),
            r.greater_equal@ == group_seq(predicates@, signal_infos@, GroupKind::GreaterEqual, predicates@.len()),
            r.address_or_immediate@ == group_seq(predicates@, signal_infos@, GroupKind::AddressOrImmediate, predicates@.len()),
            r.immediate_funct3@ == group_seq(predicates@, signal_infos@, GroupKind::ImmediateFunct3, predicates@.len()),
            r.immediate_funct7@ == group_seq(predicates@, signal_infos@, GroupKind::ImmediateFunct7, predicates@.len()),
            r.immediate_imm_i@ == group_seq(predicates@, signal_infos@, GroupKind::ImmediateImmI, predicates@.len()),
            r.immediate_rest@ == group_seq(predicates@, signal_infos@, GroupKind::ImmediateRest, predicates@.len()),
            r.allowed_funct3@ == group_seq(predicates@, signal_infos@, GroupKind::AllowFunct3, predicates@.len()),
            r.allowed_funct7@ == group_seq(predicates@, signal_infos@, GroupKind::AllowFunct7, predicates@.len()),
            r.allowed_imm_i@ == group_seq(predicates@, signal_infos@, GroupKind::AllowImmI, predicates@.len()),
            ids_distinct(predicates@) ==> {
                &&& r.not_equal@.no_duplicates()
                &&& r.smaller_equal@.no_duplicates()
                &&& r.greater_equal@.no_duplicates()
                &&& r.address_or_immediate@.no_duplicates()
                &&& r.immediate_funct3@.no_duplicates()
                &&& r.immediate_funct7@.no_duplicates()
                &&& r.immediate_imm_i@.no_duplicates()
                &&& r.immediate_rest@.no_duplicates()
                &&& r.allowed_funct3@.no_duplicates()
                &&& r.allowed_funct7@.no_duplicates()
                &&& r.allowed_imm_i@.no_duplicates()
            },
    {
        ArchitectureGroups {
            not_equal: ids_in_group(predicates, signal_infos, GroupKind::NotEqual),
            smaller_equal: ids_in_group(predicates, signal_infos, GroupKind::SmallerEqual),
            greater_equal: ids_in_group(predicates, signal_infos, GroupKind::GreaterEqual),
            address_or_immediate: ids_in_group(predicates, signal_infos, GroupKind::AddressOrImmediate),
            immediate_funct3: ids_in_group(predicates, signal_infos, GroupKind::ImmediateFunct3),
            immediate_funct7: ids_in_group(predicates, signal_infos, GroupKind::ImmediateFunct7),
            immediate_imm_i: ids_in_group(predicates, signal_infos, GroupKind::ImmediateImmI),
            immediate_rest: ids_in_group(predicates, signal_infos, GroupKind::ImmediateRest),
            allowed_funct3: ids_in_group(predicates, signal_infos, GroupKind::AllowFunct3),
            allowed_funct7: ids_in_group(predicates, signal_infos, GroupKind::AllowFunct7),
            allowed_imm_i: ids_in_group(predicates, signal_infos, GroupKind::AllowImmI),
        }
    }
}

/// Only an equality of an opcode signal with the R-type opcode allows
/// `funct7`: every predicate of the `funct7` group compares its one signal
/// with `OPCODE_RTYPE`, so a B-, S-, arithmetic I-type or CSR opcode pairs
/// with `funct3` (and `imm_i`) alone.
pub proof fn law_funct7_only_with_rtype_opcode(p: SetCoverPredicate, info: SignalInfo)
    requires
        in_group(GroupKind::AllowFunct7, p, info),
    ensures
        spec_pred_operator(p.predicate.base_predicate@) == Operator::Equal,
        p.predicate.base_predicate@ matches FormulaView::SignalToConst(x) && x.value == OPCODE_RTYPE,
{
    lemma_allow_keys_distinct();
}

/// What each opcode allows: `imm_i` only the CSR opcode, or the value 1 on a
/// CSR-written-bitmap signal; `funct3` only those and the R-, arithmetic
/// I-, S- and B-type opcodes; and what allows `funct7` allows `funct3` too.
pub proof fn law_allow_groups_by_opcode(p: SetCoverPredicate, info: SignalInfo)
    ensures
        in_group(GroupKind::AllowImmI, p, info) ==> (p.predicate.base_predicate@ matches FormulaView::SignalToConst(x)
            && (x.value == OPCODE_CSR || x.value == 1)),
        in_group(GroupKind::AllowFunct3, p, info) ==> (p.predicate.base_predicate@ matches FormulaView::SignalToConst(x)
            && (x.value == OPCODE_CSR || x.value == 1 || x.value == OPCODE_RTYPE || x.value == OPCODE_ITYPE_ARITHMETIC
                || x.value == OPCODE_STYPE || x.value == OPCODE_BTYPE)),
        in_group(GroupKind::AllowFunct7, p, info) ==> in_group(GroupKind::AllowFunct3, p, info),
{
    lemma_allow_keys_distinct();
}

/// Every single-signal predicate on an address or immediate signal lands in
/// at least one of the immediate groups (`funct3`, `funct7`, `imm_i`,
/// `rest`), and every member of those groups is such a predicate.
pub proof fn law_immediate_groups_cover_address_predicates(p: SetCoverPredicate, info: SignalInfo)
    ensures
        (in_group(GroupKind::AddressOrImmediate, p, info) && !is_two_signal(p.predicate.base_predicate@))
            <==> (in_group(GroupKind::ImmediateFunct3, p, info) || in_group(GroupKind::ImmediateFunct7, p, info)
                || in_group(GroupKind::ImmediateImmI, p, info) || in_group(GroupKind::ImmediateRest, p, info)),
{
}

/// Every id in the `funct7` group of `architecture_groups` belongs to a
/// predicate that compares its signal with the R-type opcode.
pub proof fn law_funct7_group_ids_are_rtype(preds: Seq<SetCoverPredicate>, infos: Seq<SignalInfo>, id: usize)
    requires
        group_ids(preds, infos, GroupKind::AllowFunct7).contains(id),
    ensures
        exists|k: int| 0 <= k < preds.len() && (#[trigger] preds[k]).id == id
            && (preds[k].predicate.base_predicate@ matches FormulaView::SignalToConst(x) && x.value == OPCODE_RTYPE),
{
    let k = choose|k: int| 0 <= k < preds.len() && (#[trigger] preds[k]).id == id && in_group(GroupKind::AllowFunct7, preds[k], infos[k]);
    law_funct7_only_with_rtype_opcode(preds[k], infos[k]);
}

/// The keys of the allow groups are distinct texts.
proof fn lemma_allow_keys_distinct()
    ensures
        "funct7"@ != "funct3"@,
        "funct7"@ != "imm_i"@,
        "funct3"@ != "imm_i"@,
{
    reveal_strlit("funct3");
    reveal_strlit("funct7");
    reveal_strlit("imm_i");
    assert("funct7"@[5] != "funct3"@[5]);
    assert("imm_i"@.len() != "funct7"@.len());
    assert("imm_i"@.len() != "funct3"@.len());
}

} // verus!
