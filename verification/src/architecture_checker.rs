//! Architectural rules that restrict which predicates, and which combinations
//! of signals, a separator may use.

use vstd::prelude::*;
use vstd::string::*;
use crate::patterns::{regex_valid, regex_matches, regex_compiles, regex_is_match};
use crate::predicates::{BasePredicate, Operator, FormulaView, ConstFormulaView, spec_pred_operator,
    spec_pred_signal_names, names_view, SetFormulaView, TwoSignalView, pred_eq, BaseFormula, Invariant, preds_view};
use crate::samples::{first_id, first_id_of};

verus! {

/// The name of the signal that records whether the cores agree.
pub const INCORRECTNESS_SIGNAL: &'static str = "TOP.correctness.correct";
/// The name of the cycle counter of the comparison harness.
pub const COUNTER_SIGNAL: &'static str = "TOP.correctness.correctness_inst.counter";
/// The name of the signal marking the mismatching cycle of the reference core.
pub const MISMATCH_CYCLE_REF_CORE_SIGNAL: &'static str = "TOP.correctness.mismatch_cycle_ref_core";
/// The name of the signal marking the mismatching cycle of the core under test.
pub const MISMATCH_CYCLE_DUT_CORE_SIGNAL: &'static str = "TOP.correctness.mismatch_cycle_dut_core";

// ----------------------------------------------------------------------------
// Rules
// ----------------------------------------------------------------------------

/// What makes a rule apply to a conjunction.
#[derive(Debug, Clone)]
pub enum RuleTrigger {
    PredicateIsContained(BasePredicate),
    SignalIsContained(String),
    SignalFulfillsRegex(String),
}

/// What a rule forbids once it applies.
#[derive(Debug, Clone)]
pub enum RuleConsequence {
    DisallowOtherSignals(Vec<String>),
    OnlyAllowOtherSignals(Vec<String>),
}

/// A rule on the signals a conjunction may combine.
#[derive(Debug, Clone)]
pub struct Rule {
    pub trigger_operation: RuleTrigger,
    pub consequence: RuleConsequence,
}

/// A predicate is banned when it uses the operator on a signal of the length
/// one of whose aliases matches the pattern.
pub enum PredicateBanRule {
    DisallowSignalOperationCombinationRegex(String, Operator, usize),
}

/// Pattern, operator and signal length of a ban rule.
pub open spec fn ban_rule_parts(rule: PredicateBanRule) -> (Seq<char>, Operator, usize) {
    match rule {
        PredicateBanRule::DisallowSignalOperationCombinationRegex(p, op, len) => (p@, op, len),
    }
}

/// The ban rules every search applies.
pub open spec fn default_ban_rules() -> Seq<(Seq<char>, Operator, usize)> {
    seq![
        (".*instr$"@, Operator::NotEqual, 32usize),
        (".*instr$"@, Operator::GreaterEqual, 32usize),
        (".*instr$"@, Operator::SmallerEqual, 32usize),
        (".*instruction$"@, Operator::NotEqual, 32usize),
        (".*instruction$"@, Operator::GreaterEqual, 32usize),
        (".*instruction$"@, Operator::SmallerEqual, 32usize),
        (".*instr_data$"@, Operator::NotEqual, 32usize),
        (".*instr_data$"@, Operator::GreaterEqual, 32usize),
        (".*instr_data$"@, Operator::SmallerEqual, 32usize),
        (".*data.*"@, Operator::NotEqual, 8usize),
    ]
}

fn ban_rule(pattern: &str, operator: Operator, signal_length: usize) -> (r: PredicateBanRule)
    ensures
        ban_rule_parts(r) == (pattern@, operator, signal_length),
{
    PredicateBanRule::DisallowSignalOperationCombinationRegex(String::from_str(pattern), operator, signal_length)
}

pub fn init_predicate_rules() -> (r: Vec<PredicateBanRule>)
    ensures
        r@.len() == default_ban_rules().len(),
        forall|i: int| 0 <= i < r@.len() ==> ban_rule_parts(#[trigger] r@[i]) == default_ban_rules()[i],
{
    let mut rule_vec: Vec<PredicateBanRule> = Vec::new();
    rule_vec.push(ban_rule(".*instr$", Operator::NotEqual, 32));
    rule_vec.push(ban_rule(".*instr$", Operator::GreaterEqual, 32));
    rule_vec.push(ban_rule(".*instr$", Operator::SmallerEqual, 32));
    rule_vec.push(ban_rule(".*instruction$", Operator::NotEqual, 32));
    rule_vec.push(ban_rule(".*instruction$", Operator::GreaterEqual, 32));
    rule_vec.push(ban_rule(".*instruction$", Operator::SmallerEqual, 32));
    rule_vec.push(ban_rule(".*instr_data$", Operator::NotEqual, 32));
    rule_vec.push(ban_rule(".*instr_data$", Operator::GreaterEqual, 32));
    rule_vec.push(ban_rule(".*instr_data$", Operator::SmallerEqual, 32));
    rule_vec.push(ban_rule(".*data.*", Operator::NotEqual, 8));
    rule_vec
}

/// Every pattern of the rules compiles.
pub open spec fn ban_patterns_valid(rules: Seq<PredicateBanRule>) -> bool {
    forall|j: int| 0 <= j < rules.len() ==> regex_valid(#[trigger] ban_rule_parts(rules[j]).0)
}

pub open spec fn aliases_view(v: Seq<Vec<String>>) -> Seq<Seq<Seq<char>>> {
    v.map_values(|a: Vec<String>| names_view(a@))
}

/// Some alias of some signal of the right length matches the pattern.
pub open spec fn alias_matches(pattern: Seq<char>, signal_length: usize, lengths: Seq<usize>, aliases: Seq<Seq<Seq<char>>>) -> bool {
    exists|i: int, k: int| 0 <= i < lengths.len() && lengths[i] == signal_length && 0 <= k < aliases[i].len()
        && #[trigger] regex_matches(pattern, aliases[i][k])
}

/// The rule bans a predicate with operator `op` over signals of the given lengths and aliases.
pub open spec fn ban_rule_hits(rule: (Seq<char>, Operator, usize), op: Operator, lengths: Seq<usize>, aliases: Seq<Seq<Seq<char>>>) -> bool {
    op == rule.1 && alias_matches(rule.0, rule.2, lengths, aliases)
}

/// Some rule bans the predicate.
pub open spec fn banned_by(rules: Seq<PredicateBanRule>, op: Operator, lengths: Seq<usize>, aliases: Seq<Seq<Seq<char>>>) -> bool {
    exists|j: int| 0 <= j < rules.len() && ban_rule_hits(#[trigger] ban_rule_parts(rules[j]), op, lengths, aliases)
}

fn alias_hits(pattern: &String, signal_length: usize, signal_lengths: &Vec<usize>, signal_aliases: &Vec<Vec<String>>) -> (r: bool)
    requires
        regex_valid(pattern@),
        signal_lengths@.len() == signal_aliases@.len(),
    ensures
        r == alias_matches(pattern@, signal_length, signal_lengths@, aliases_view(signal_aliases@)),
{
    let ghost al = aliases_view(signal_aliases@);
    let n = signal_lengths.len();
    for i in 0..n
        invariant
            n == signal_lengths@.len(),
            n == signal_aliases@.len(),
            regex_valid(pattern@),
            al == aliases_view(signal_aliases@),
            forall|i2: int, k: int| 0 <= i2 < i && signal_lengths@[i2] == signal_length && 0 <= k < al[i2].len()
                ==> !#[trigger] regex_matches(pattern@, al[i2][k]),
    {
        if signal_lengths[i] == signal_length {
            let aliases = &signal_aliases[i];
            let m = aliases.len();
            assert(al[i as int] == names_view(aliases@));
            for k in 0..m
                invariant
                    n == signal_lengths@.len(),
                    n == signal_aliases@.len(),
                    i < n,
                    m == aliases@.len(),
                    aliases@ == signal_aliases@[i as int]@,
                    regex_valid(pattern@),
                    al == aliases_view(signal_aliases@),
                    al[i as int] == names_view(aliases@),
                    signal_lengths@[i as int] == signal_length,
                    forall|i2: int, k2: int| 0 <= i2 < i && signal_lengths@[i2] == signal_length && 0 <= k2 < al[i2].len()
                        ==> !#[trigger] regex_matches(pattern@, al[i2][k2]),
                    forall|k2: int| 0 <= k2 < k ==> !#[trigger] regex_matches(pattern@, al[i as int][k2]),
            {
                assert(al[i as int][k as int] == aliases@[k as int]@);
                if regex_is_match(pattern.as_str(), aliases[k].as_str()) {
                    assert(regex_matches(pattern@, al[i as int][k as int]));
                    return true;
                }
            }
        }
    }
    false
}

/// Whether a ban rule bans the predicate. `signal_lengths[i]` and
/// `signal_aliases[i]` are the length and the aliases of the `i`-th signal the
/// predicate reads.
pub fn predicate_matches_ban_rules(
    predicate: &BasePredicate,
    rules: &Vec<PredicateBanRule>,
    signal_lengths: &Vec<usize>,
    signal_aliases: &Vec<Vec<String>>,
) -> (r: bool)
    requires
        ban_patterns_valid(rules@),
        signal_lengths@.len() == signal_aliases@.len(),
    ensures
        r == banned_by(rules@, spec_pred_operator(predicate@), signal_lengths@, aliases_view(signal_aliases@)),
{
    let operator = predicate.get_operator();
    let n = rules.len();
    for j in 0..n
        invariant
            n == rules@.len(),
            ban_patterns_valid(rules@),
            operator == spec_pred_operator(predicate@),
            signal_lengths@.len() == signal_aliases@.len(),
            forall|j2: int| 0 <= j2 < j ==> !ban_rule_hits(#[trigger] ban_rule_parts(rules@[j2]), operator,
                signal_lengths@, aliases_view(signal_aliases@)),
    {
        match &rules[j] {
            PredicateBanRule::DisallowSignalOperationCombinationRegex(pattern, rule_operator, signal_length) => {
                assert(regex_valid(ban_rule_parts(rules@[j as int]).0));
                if operator == *rule_operator {
                    if alias_hits(pattern, *signal_length, signal_lengths, signal_aliases) {
                        assert(ban_rule_hits(ban_rule_parts(rules@[j as int]), operator, signal_lengths@,
                            aliases_view(signal_aliases@)));
                        return true;
                    }
                }
            },
        }
    }
    false
}

/// `predicate_matches_ban_rules` where every pattern compiles, and `None`
/// where one does not.
pub fn try_predicate_matches_ban_rules(
    predicate: &BasePredicate,
    rules: &Vec<PredicateBanRule>,
    signal_lengths: &Vec<usize>,
    signal_aliases: &Vec<Vec<String>>,
) -> (r: Option<bool>)
    requires
        signal_lengths@.len() == signal_aliases@.len(),
    ensures
        r.is_some() == ban_patterns_valid(rules@),
        r.is_some() ==> r.unwrap() == banned_by(rules@, spec_pred_operator(predicate@), signal_lengths@,
            aliases_view(signal_aliases@)),
{
    let n = rules.len();
    for j in 0..n
        invariant
            n == rules@.len(),
            forall|j2: int| 0 <= j2 < j ==> regex_valid(#[trigger] ban_rule_parts(rules@[j2]).0),
    {
        match &rules[j] {
            PredicateBanRule::DisallowSignalOperationCombinationRegex(pattern, _, _) => {
                if !regex_compiles(pattern.as_str()) {
                    assert(!regex_valid(ban_rule_parts(rules@[j as int]).0));
                    return None;
                }
            },
        }
    }
    Some(predicate_matches_ban_rules(predicate, rules, signal_lengths, signal_aliases))
}

/// A signal the comparison harness itself drives.
pub open spec fn harness_signal(alias: Seq<char>) -> bool {
    alias == INCORRECTNESS_SIGNAL@ || alias == COUNTER_SIGNAL@ || alias == MISMATCH_CYCLE_REF_CORE_SIGNAL@
        || alias == MISMATCH_CYCLE_DUT_CORE_SIGNAL@
}

/// Some alias of some signal is a harness signal.
pub open spec fn reads_harness_signal(aliases: Seq<Seq<Seq<char>>>) -> bool {
    exists|i: int, k: int| 0 <= i < aliases.len() && 0 <= k < aliases[i].len() && harness_signal(#[trigger] aliases[i][k])
}

/// Every pattern of the default ban rules compiles.
pub open spec fn default_ban_patterns_valid() -> bool {
    forall|j: int| 0 <= j < default_ban_rules().len() ==> regex_valid(#[trigger] default_ban_rules()[j].0)
}

fn is_harness_signal(alias: &String) -> (r: bool)
    ensures
        r == harness_signal(alias@),
{
    let a = String::from_str(INCORRECTNESS_SIGNAL);
    let b = String::from_str(COUNTER_SIGNAL);
    let c = String::from_str(MISMATCH_CYCLE_REF_CORE_SIGNAL);
    let d = String::from_str(MISMATCH_CYCLE_DUT_CORE_SIGNAL);
    *alias == a || *alias == b || *alias == c || *alias == d
}

fn any_harness_alias(signal_aliases: &Vec<Vec<String>>) -> (r: bool)
    ensures
        r == reads_harness_signal(aliases_view(signal_aliases@)),
{
    let ghost al = aliases_view(signal_aliases@);
    let n = signal_aliases.len();
    for i in 0..n
        invariant
            n == signal_aliases@.len(),
            al == aliases_view(signal_aliases@),
            forall|i2: int, k: int| 0 <= i2 < i && 0 <= k < al[i2].len() ==> !#[trigger] harness_signal(al[i2][k]),
    {
        let aliases = &signal_aliases[i];
        let m = aliases.len();
        assert(al[i as int] == names_view(aliases@));
        for k in 0..m
            invariant
                n == signal_aliases@.len(),
                i < n,
                m == aliases@.len(),
                aliases@ == signal_aliases@[i as int]@,
                al == aliases_view(signal_aliases@),
                al[i as int] == names_view(aliases@),
                forall|i2: int, k2: int| 0 <= i2 < i && 0 <= k2 < al[i2].len() ==> !#[trigger] harness_signal(al[i2][k2]),
                forall|k2: int| 0 <= k2 < k ==> !#[trigger] harness_signal(al[i as int][k2]),
        {
            assert(al[i as int][k as int] == aliases@[k as int]@);
            if is_harness_signal(&aliases[k]) {
                return true;
            }
        }
    }
    false
}

/// Whether the search may use a predicate: it reads no signal the harness
/// drives and no default ban rule bans it. `signal_lengths[i]` and
/// `signal_aliases[i]` are the length and the aliases of the `i`-th signal
/// the predicate reads.
pub fn should_consider_predicate(predicate: &BasePredicate, signal_lengths: &Vec<usize>, signal_aliases: &Vec<Vec<String>>) -> (r: bool)
    requires
        default_ban_patterns_valid(),
        signal_lengths@.len() == signal_aliases@.len(),
    ensures
        r == (!reads_harness_signal(aliases_view(signal_aliases@))
            && !banned_by_default(spec_pred_operator(predicate@), signal_lengths@, aliases_view(signal_aliases@))),
{
    let rules = init_predicate_rules();
    if any_harness_alias(signal_aliases) {
        return false;
    }
    assert(ban_patterns_valid(rules@)) by {
        assert forall|j: int| 0 <= j < rules@.len() implies regex_valid(#[trigger] ban_rule_parts(rules@[j]).0) by {
            assert(ban_rule_parts(rules@[j]) == default_ban_rules()[j]);
        }
    }
    let banned = predicate_matches_ban_rules(predicate, &rules, signal_lengths, signal_aliases);
    proof {
        let op = spec_pred_operator(predicate@);
        let al = aliases_view(signal_aliases@);
        if banned {
            let j = choose|j: int| 0 <= j < rules@.len() && ban_rule_hits(#[trigger] ban_rule_parts(rules@[j]), op, signal_lengths@, al);
            assert(ban_rule_parts(rules@[j]) == default_ban_rules()[j]);
        } else {
            assert forall|j: int| 0 <= j < default_ban_rules().len() implies !ban_rule_hits(#[trigger] default_ban_rules()[j], op, signal_lengths@, al) by {
                assert(ban_rule_parts(rules@[j]) == default_ban_rules()[j]);
            }
        }
    }
    !banned
}

/// Some default ban rule bans a predicate with operator `op`.
pub open spec fn banned_by_default(op: Operator, lengths: Seq<usize>, aliases: Seq<Seq<Seq<char>>>) -> bool {
    exists|j: int| 0 <= j < default_ban_rules().len() && ban_rule_hits(#[trigger] default_ban_rules()[j], op, lengths, aliases)
}

/// `should_consider_predicate` where the default patterns compile, and
/// `None` where one does not.
pub fn try_should_consider_predicate(predicate: &BasePredicate, signal_lengths: &Vec<usize>, signal_aliases: &Vec<Vec<String>>) -> (r: Option<bool>)
    requires
        signal_lengths@.len() == signal_aliases@.len(),
    ensures
        r.is_some() == default_ban_patterns_valid(),
        r.is_some() ==> r.unwrap() == (!reads_harness_signal(aliases_view(signal_aliases@))
            && !banned_by_default(spec_pred_operator(predicate@), signal_lengths@, aliases_view(signal_aliases@))),
{
    let rules = init_predicate_rules();
    let n = rules.len();
    for j in 0..n
        invariant
            n == rules@.len(),
            n == default_ban_rules().len(),
            forall|i: int| 0 <= i < rules@.len() ==> ban_rule_parts(#[trigger] rules@[i]) == default_ban_rules()[i],
            forall|j2: int| 0 <= j2 < j ==> regex_valid(#[trigger] default_ban_rules()[j2].0),
    {
        match &rules[j] {
            PredicateBanRule::DisallowSignalOperationCombinationRegex(pattern, _, _) => {
                assert(ban_rule_parts(rules@[j as int]) == default_ban_rules()[j as int]);
                if !regex_compiles(pattern.as_str()) {
                    assert(!regex_valid(default_ban_rules()[j as int].0));
                    return None;
                }
            },
        }
    }
    Some(should_consider_predicate(predicate, signal_lengths, signal_aliases))
}

/// The rules on signal combinations every search applies.
pub fn initialize_rules() -> (r: Vec<Rule>)
    ensures
        r@.len() == 3,
        r@[0].trigger_operation matches RuleTrigger::PredicateIsContained(p) && p@ == FormulaView::SignalToConst(
            ConstFormulaView {
                signal_name: "TOP.correctness.opcode"@,
                signal_idx: None,
                operator: Operator::Equal,
                signal_length: 7,
                signal_types: Seq::empty(),
                value: 0x73,
            },
        ),
        r@[0].consequence matches RuleConsequence::DisallowOtherSignals(s) && names_view(s@) == seq![
            "TOP.correctness.imm_s"@, "TOP.correctness.funct7"@, "TOP.correctness.rs2"@],
        r@[1].trigger_operation matches RuleTrigger::SignalIsContained(s) && s@ == "TOP.correctness.imm_u"@,
        r@[1].consequence matches RuleConsequence::DisallowOtherSignals(s) && names_view(s@) == seq![
            "TOP.correctness.imm_s"@, "TOP.correctness.funct7"@, "TOP.correctness.funct3"@],
        r@[2].trigger_operation matches RuleTrigger::SignalIsContained(s) && s@ == "TOP.correctness.imm_i"@,
        r@[2].consequence matches RuleConsequence::DisallowOtherSignals(s) && names_view(s@) == seq![
            "TOP.correctness.imm_s"@, "TOP.correctness.imm_b"@, "TOP.correctness.imm_j"@, "TOP.correctness.imm_u"@],
{
    let csr = BasePredicate::new_from_value(String::from_str("TOP.correctness.opcode"), Operator::Equal, 7, 0x73, None);
    let first = vec![
        String::from_str("TOP.correctness.imm_s"),
        String::from_str("TOP.correctness.funct7"),
        String::from_str("TOP.correctness.rs2"),
    ];
    let second = vec![
        String::from_str("TOP.correctness.imm_s"),
        String::from_str("TOP.correctness.funct7"),
        String::from_str("TOP.correctness.funct3"),
    ];
    let third = vec![
        String::from_str("TOP.correctness.imm_s"),
        String::from_str("TOP.correctness.imm_b"),
        String::from_str("TOP.correctness.imm_j"),
        String::from_str("TOP.correctness.imm_u"),
    ];
    assert(names_view(first@) =~= seq!["TOP.correctness.imm_s"@, "TOP.correctness.funct7"@, "TOP.correctness.rs2"@]);
    assert(names_view(second@) =~= seq!["TOP.correctness.imm_s"@, "TOP.correctness.funct7"@, "TOP.correctness.funct3"@]);
    assert(names_view(third@) =~= seq!["TOP.correctness.imm_s"@, "TOP.correctness.imm_b"@, "TOP.correctness.imm_j"@,
        "TOP.correctness.imm_u"@]);
    let mut rule_vec: Vec<Rule> = Vec::new();
    rule_vec.push(Rule {
        trigger_operation: RuleTrigger::PredicateIsContained(csr),
        consequence: RuleConsequence::DisallowOtherSignals(first),
    });
    rule_vec.push(Rule {
        trigger_operation: RuleTrigger::SignalIsContained(String::from_str("TOP.correctness.imm_u")),
        consequence: RuleConsequence::DisallowOtherSignals(second),
    });
    rule_vec.push(Rule {
        trigger_operation: RuleTrigger::SignalIsContained(String::from_str("TOP.correctness.imm_i")),
        consequence: RuleConsequence::DisallowOtherSignals(third),
    });
    rule_vec
}


// ----------------------------------------------------------------------------
// Checking rules against a conjunction
// ----------------------------------------------------------------------------

/// What makes a rule apply, as values.
pub enum TriggerView {
    Pred(FormulaView),
    Signal(Seq<char>),
    Regex(Seq<char>),
}

/// What a rule forbids, as values.
pub enum ConsequenceView {
    Disallow(Seq<Seq<char>>),
    OnlyAllow(Seq<Seq<char>>),
}

pub open spec fn trigger_view(t: RuleTrigger) -> TriggerView {
    match t {
        RuleTrigger::PredicateIsContained(p) => TriggerView::Pred(p@),
        RuleTrigger::SignalIsContained(s) => TriggerView::Signal(s@),
        RuleTrigger::SignalFulfillsRegex(s) => TriggerView::Regex(s@),
    }
}

pub open spec fn consequence_view(c: RuleConsequence) -> ConsequenceView {
    match c {
        RuleConsequence::DisallowOtherSignals(v) => ConsequenceView::Disallow(names_view(v@)),
        RuleConsequence::OnlyAllowOtherSignals(v) => ConsequenceView::OnlyAllow(names_view(v@)),
    }
}

/// The signal names the catalog `entries` (name, id) registers under the id of `name`.
pub open spec fn is_alias(entries: Seq<(String, u64)>, name: Seq<char>, a: Seq<char>) -> bool {
    exists|k: int| 0 <= k < entries.len() && first_id_of(entries, name) == Some(#[trigger] entries[k].1) && entries[k].0@ == a
}

/// Some alias of `name` is one of `signals`.
pub open spec fn name_alias_listed(entries: Seq<(String, u64)>, name: Seq<char>, signals: Seq<Seq<char>>) -> bool {
    exists|k: int| 0 <= k < entries.len() && first_id_of(entries, name) == Some(#[trigger] entries[k].1)
        && signals.contains(entries[k].0@)
}

/// Some alias of `name` matches the regular expression `re`.
pub open spec fn name_alias_matches(entries: Seq<(String, u64)>, name: Seq<char>, re: Seq<char>) -> bool {
    exists|k: int| 0 <= k < entries.len() && first_id_of(entries, name) == Some(#[trigger] entries[k].1)
        && regex_matches(re, entries[k].0@)
}

/// Some alias of a signal the predicate reads is one of `signals`.
pub open spec fn pred_alias_listed(entries: Seq<(String, u64)>, p: FormulaView, signals: Seq<Seq<char>>) -> bool {
    exists|j: int| 0 <= j < spec_pred_signal_names(p).len() && name_alias_listed(entries, #[trigger] spec_pred_signal_names(p)[j], signals)
}

/// The predicate with the indices of its signals looked up in the catalog;
/// `None` where one of its signals is not registered.
pub open spec fn filled_view(f: FormulaView, entries: Seq<(String, u64)>) -> Option<FormulaView> {
    match f {
        FormulaView::SignalToConst(x) => match first_id_of(entries, x.signal_name) {
            Some(i) => Some(FormulaView::SignalToConst(ConstFormulaView { signal_idx: Some(i), ..x })),
            None => None,
        },
        FormulaView::ValueNotIn(x) => match first_id_of(entries, x.signal_name) {
            Some(i) => Some(FormulaView::ValueNotIn(SetFormulaView { signal_idx: Some(i), ..x })),
            None => None,
        },
        FormulaView::ValueIn(x) => match first_id_of(entries, x.signal_name) {
            Some(i) => Some(FormulaView::ValueIn(SetFormulaView { signal_idx: Some(i), ..x })),
            None => None,
        },
        FormulaView::TwoSignalEqual(x) => match (first_id_of(entries, x.signal_name1), first_id_of(entries, x.signal_name2)) {
            (Some(i), Some(j)) => Some(FormulaView::TwoSignalEqual(TwoSignalView { signal_idx1: Some(i), signal_idx2: Some(j), ..x })),
            _ => None,
        },
    }
}

/// The trigger applies to predicate `p`: `p` equals the trigger predicate
/// with its indices looked up; or `p` reads a signal registered under the
/// id of the trigger signal; or an alias of a signal `p` reads matches the
/// trigger's regular expression.
pub open spec fn trigger_hit(p: FormulaView, t: TriggerView, entries: Seq<(String, u64)>) -> bool {
    match t {
        TriggerView::Pred(tp) => filled_view(tp, entries) matches Some(fv) && pred_eq(fv, p),
        TriggerView::Signal(s) => first_id_of(entries, s) is Some && exists|j: int| 0 <= j < spec_pred_signal_names(p).len()
            && first_id_of(entries, #[trigger] spec_pred_signal_names(p)[j]) == first_id_of(entries, s),
        TriggerView::Regex(re) => exists|j: int| 0 <= j < spec_pred_signal_names(p).len()
            && name_alias_matches(entries, #[trigger] spec_pred_signal_names(p)[j], re),
    }
}

/// The conjunction `c` keeps the rule: the trigger applies to none of its
/// predicates, or it keeps the consequence (no predicate reads a disallowed
/// signal; every predicate reads an allowed one).
pub open spec fn rule_holds(c: Seq<FormulaView>, t: TriggerView, cons: ConsequenceView, entries: Seq<(String, u64)>) -> bool {
    (forall|i: int| 0 <= i < c.len() ==> !trigger_hit(#[trigger] c[i], t, entries))
    || match cons {
        ConsequenceView::Disallow(sig) => forall|i: int| 0 <= i < c.len() ==> !pred_alias_listed(entries, #[trigger] c[i], sig),
        ConsequenceView::OnlyAllow(sig) => forall|i: int| 0 <= i < c.len() ==> pred_alias_listed(entries, #[trigger] c[i], sig),
    }
}

/// A regular expression of a trigger compiles.
pub open spec fn trigger_regex_ok(t: TriggerView) -> bool {
    t matches TriggerView::Regex(re) ==> regex_valid(re)
}

/// Whether some alias of `name` is one of `signals`.
fn name_listed(entries: &Vec<(String, u64)>, name: &String, signals: &Vec<String>) -> (r: bool)
    ensures
        r == name_alias_listed(entries@, name@, names_view(signals@)),
{
    let id = first_id(entries, name.as_str());
    match id {
        None => {
            return false;
        },
        Some(id) => {
            let n = entries.len();
            for k in 0..n
                invariant
                    n == entries@.len(),
                    Some(id) == first_id_of(entries@, name@),
                    forall|k2: int| 0 <= k2 < k && first_id_of(entries@, name@) == Some(#[trigger] entries@[k2].1)
                        ==> !names_view(signals@).contains(entries@[k2].0@),
            {
                if entries[k].1 == id {
                    let m = signals.len();
                    for s in 0..m
                        invariant
                            m == signals@.len(),
                            n == entries@.len(),
                            k < n,
                            Some(id) == first_id_of(entries@, name@),
                            entries@[k as int].1 == id,
                            forall|s2: int| 0 <= s2 < s ==> signals@[s2]@ != entries@[k as int].0@,
                    {
                        if signals[s] == entries[k].0 {
                            assert(names_view(signals@)[s as int] == entries@[k as int].0@);
                            assert(names_view(signals@).contains(entries@[k as int].0@));
                            assert(first_id_of(entries@, name@) == Some(entries@[k as int].1));
                            return true;
                        }
                    }
                    assert(!names_view(signals@).contains(entries@[k as int].0@)) by {
                        if names_view(signals@).contains(entries@[k as int].0@) {
                            let s2 = choose|s2: int| 0 <= s2 < names_view(signals@).len() && names_view(signals@)[s2] == entries@[k as int].0@;
                            assert(signals@[s2]@ == entries@[k as int].0@);
                        }
                    }
                }
            }
            false
        },
    }
}

/// Whether some alias of `name` matches the regular expression `re`.
fn name_matches(entries: &Vec<(String, u64)>, name: &String, re: &String) -> (r: bool)
    requires
        regex_valid(re@),
    ensures
        r == name_alias_matches(entries@, name@, re@),
{
    let id = first_id(entries, name.as_str());
    match id {
        None => false,
        Some(id) => {
            let n = entries.len();
            for k in 0..n
                invariant
                    n == entries@.len(),
                    regex_valid(re@),
                    Some(id) == first_id_of(entries@, name@),
                    forall|k2: int| 0 <= k2 < k && first_id_of(entries@, name@) == Some(#[trigger] entries@[k2].1)
                        ==> !regex_matches(re@, entries@[k2].0@),
            {
                if entries[k].1 == id {
                    if regex_is_match(re.as_str(), entries[k].0.as_str()) {
                        assert(first_id_of(entries@, name@) == Some(entries@[k as int].1));
                        return true;
                    }
                }
            }
            false
        },
    }
}

/// Whether some alias of a signal the predicate reads is one of `signals`.
fn pred_listed(entries: &Vec<(String, u64)>, p: &BasePredicate, signals: &Vec<String>) -> (r: bool)
    ensures
        r == pred_alias_listed(entries@, p@, names_view(signals@)),
{
    let names = p.get_signal_names();
    let n = names.len();
    let ghost nv = spec_pred_signal_names(p@);
    assert(names@.map_values(|s: String| s@) == nv);
    for j in 0..n
        invariant
            n == names@.len(),
            names@.map_values(|s: String| s@) == nv,
            nv == spec_pred_signal_names(p@),
            forall|j2: int| 0 <= j2 < j ==> !name_alias_listed(entries@, #[trigger] nv[j2], names_view(signals@)),
    {
        assert(nv[j as int] == names@[j as int]@);
        if name_listed(entries, &names[j], signals) {
            return true;
        }
    }
    false
}

/// The predicate with the indices of its signals looked up in the catalog.
fn fill_in_indexes(entries: &Vec<(String, u64)>, p: &BasePredicate) -> (r: Option<BasePredicate>)
    ensures
        r is None <==> filled_view(p@, entries@) is None,
        r matches Some(q) ==> filled_view(p@, entries@) == Some(q@),
{
    let mut q = p.duplicate();
    match &mut q.base_formula {
        BaseFormula::SignalToConst(f) => {
            match first_id(entries, f.signal_name.as_str()) {
                Some(i) => { f.signal_idx = Some(i); },
                None => { return None; },
            }
        },
        BaseFormula::ValueNotIn(f) => {
            match first_id(entries, f.signal_name.as_str()) {
                Some(i) => { f.signal_idx = Some(i); },
                None => { return None; },
            }
        },
        BaseFormula::ValueIn(f) => {
            match first_id(entries, f.signal_name.as_str()) {
                Some(i) => { f.signal_idx = Some(i); },
                None => { return None; },
            }
        },
        BaseFormula::TwoSignalEqual(f) => {
            let a = first_id(entries, f.signal_name1.as_str());
            let b = first_id(entries, f.signal_name2.as_str());
            match (a, b) {
                (Some(i), Some(j)) => {
                    f.signal_idx1 = Some(i);
                    f.signal_idx2 = Some(j);
                },
                _ => { return None; },
            }
        },
    }
    Some(q)
}

/// Whether the trigger applies to the predicate.
fn trigger_applies(entries: &Vec<(String, u64)>, p: &BasePredicate, t: &RuleTrigger) -> (r: bool)
    requires
        trigger_regex_ok(trigger_view(*t)),
    ensures
        r == trigger_hit(p@, trigger_view(*t), entries@),
{
    match t {
        RuleTrigger::PredicateIsContained(tp) => {
            match fill_in_indexes(entries, tp) {
                None => false,
                Some(filled) => filled == *p,
            }
        },
        RuleTrigger::SignalIsContained(signal) => {
            let sid = first_id(entries, signal.as_str());
            if sid.is_none() {
                return false;
            }
            let names = p.get_signal_names();
            let n = names.len();
            let ghost nv = spec_pred_signal_names(p@);
            for j in 0..n
                invariant
                    n == names@.len(),
                    names@.map_values(|s: String| s@) == nv,
                    nv == spec_pred_signal_names(p@),
                    sid == first_id_of(entries@, signal@),
                    sid is Some,
                    trigger_view(*t) == TriggerView::Signal(signal@),
                    forall|j2: int| 0 <= j2 < j ==> first_id_of(entries@, #[trigger] nv[j2]) != first_id_of(entries@, signal@),
            {
                assert(nv[j as int] == names@[j as int]@);
                let pid = first_id(entries, names[j].as_str());
                assert(pid == first_id_of(entries@, nv[j as int]));
                if pid.is_some() && pid == sid {
                    assert(first_id_of(entries@, spec_pred_signal_names(p@)[j as int]) == first_id_of(entries@, signal@));
                    return true;
                }
            }
            false
        },
        RuleTrigger::SignalFulfillsRegex(re) => {
            let names = p.get_signal_names();
            let n = names.len();
            let ghost nv = spec_pred_signal_names(p@);
            for j in 0..n
                invariant
                    n == names@.len(),
                    names@.map_values(|s: String| s@) == nv,
                    nv == spec_pred_signal_names(p@),
                    regex_valid(re@),
                    trigger_view(*t) == TriggerView::Regex(re@),
                    forall|j2: int| 0 <= j2 < j ==> !name_alias_matches(entries@, #[trigger] nv[j2], re@),
            {
                assert(nv[j as int] == names@[j as int]@);
                if name_matches(entries, &names[j], re) {
                    assert(name_alias_matches(entries@, spec_pred_signal_names(p@)[j as int], re@));
                    return true;
                }
            }
            false
        },
    }
}

/// Whether the conjunction keeps the rule (see `rule_holds`); the catalog
/// `entries` registers each signal name under its id, and the aliases of a
/// name are the names registered under the same id.
pub fn rule_is_fullfilled(conjunction: &Invariant, rule: &Rule, entries: &Vec<(String, u64)>) -> (r: bool)
    requires
        trigger_regex_ok(trigger_view(rule.trigger_operation)),
    ensures
        r == rule_holds(conjunction@, trigger_view(rule.trigger_operation), consequence_view(rule.consequence), entries@),
{
    let preds = &conjunction.predicate_set.predicates;
    let n = preds.len();
    let ghost c = conjunction@;
    let mut trigger_fulfilled = false;
    for i in 0..n
        invariant
            n == preds@.len(),
            c == conjunction@,
            c == preds_view(preds@),
            trigger_regex_ok(trigger_view(rule.trigger_operation)),
            trigger_fulfilled == exists|k: int| 0 <= k < i && trigger_hit(#[trigger] c[k], trigger_view(rule.trigger_operation), entries@),
    {
        assert(c[i as int] == preds@[i as int]@);
        if trigger_applies(entries, &preds[i], &rule.trigger_operation) {
            trigger_fulfilled = true;
        }
    }
    if !trigger_fulfilled {
        return true;
    }
    match &rule.consequence {
        RuleConsequence::DisallowOtherSignals(signals) => {
            for i in 0..n
                invariant
                    n == preds@.len(),
                    c == preds_view(preds@),
                    c == conjunction@,
                    rule.consequence == RuleConsequence::DisallowOtherSignals(*signals),
                    trigger_fulfilled,
                    exists|k: int| 0 <= k < n && trigger_hit(#[trigger] c[k], trigger_view(rule.trigger_operation), entries@),
                    forall|k: int| 0 <= k < i ==> !pred_alias_listed(entries@, #[trigger] c[k], names_view(signals@)),
            {
                assert(c[i as int] == preds@[i as int]@);
                if pred_listed(entries, &preds[i], signals) {
                    proof {
                        let k = choose|k: int| 0 <= k < n && trigger_hit(#[trigger] c[k], trigger_view(rule.trigger_operation), entries@);
                        assert(trigger_hit(c[k], trigger_view(rule.trigger_operation), entries@));
                        assert(pred_alias_listed(entries@, c[i as int], names_view(signals@)));
                    }
                    return false;
                }
            }
            true
        },
        RuleConsequence::OnlyAllowOtherSignals(signals) => {
            for i in 0..n
                invariant
                    n == preds@.len(),
                    c == preds_view(preds@),
                    c == conjunction@,
                    rule.consequence == RuleConsequence::OnlyAllowOtherSignals(*signals),
                    trigger_fulfilled,
                    exists|k: int| 0 <= k < n && trigger_hit(#[trigger] c[k], trigger_view(rule.trigger_operation), entries@),
                    forall|k: int| 0 <= k < i ==> pred_alias_listed(entries@, #[trigger] c[k], names_view(signals@)),
            {
                assert(c[i as int] == preds@[i as int]@);
                if !pred_listed(entries, &preds[i], signals) {
                    proof {
                        let k = choose|k: int| 0 <= k < n && trigger_hit(#[trigger] c[k], trigger_view(rule.trigger_operation), entries@);
                        assert(trigger_hit(c[k], trigger_view(rule.trigger_operation), entries@));
                        assert(!pred_alias_listed(entries@, c[i as int], names_view(signals@)));
                    }
                    return false;
                }
            }
            true
        },
    }
}


/// The rules of `initialize_rules`, as values.
pub open spec fn default_rules_view() -> Seq<(TriggerView, ConsequenceView)> {
    seq![
        (TriggerView::Pred(FormulaView::SignalToConst(ConstFormulaView {
            signal_name: "TOP.correctness.opcode"@,
            signal_idx: None,
            operator: Operator::Equal,
            signal_length: 7,
            signal_types: Seq::empty(),
            value: 0x73,
        })), ConsequenceView::Disallow(seq!["TOP.correctness.imm_s"@, "TOP.correctness.funct7"@, "TOP.correctness.rs2"@])),
        (TriggerView::Signal("TOP.correctness.imm_u"@),
            ConsequenceView::Disallow(seq!["TOP.correctness.imm_s"@, "TOP.correctness.funct7"@, "TOP.correctness.funct3"@])),
        (TriggerView::Signal("TOP.correctness.imm_i"@),
            ConsequenceView::Disallow(seq!["TOP.correctness.imm_s"@, "TOP.correctness.imm_b"@, "TOP.correctness.imm_j"@,
                "TOP.correctness.imm_u"@])),
    ]
}

/// Whether the search may use the conjunction: it keeps every rule of
/// `initialize_rules` (see `rule_holds`, over the catalog `entries`), and
/// `should_consider_predicate` accepts each of its predicates, where
/// `signal_lengths[i]` and `signal_aliases[i]` describe the signals of the
/// `i`-th predicate.
pub fn architectural_invariant_check(
    conjunction: &Invariant,
    entries: &Vec<(String, u64)>,
    signal_lengths: &Vec<Vec<usize>>,
    signal_aliases: &Vec<Vec<Vec<String>>>,
) -> (r: bool)
    requires
        default_ban_patterns_valid(),
        signal_lengths@.len() == conjunction@.len(),
        signal_aliases@.len() == conjunction@.len(),
        forall|i: int| 0 <= i < conjunction@.len() ==> (#[trigger] signal_lengths@[i])@.len() == signal_aliases@[i]@.len(),
    ensures
        r == ((forall|k: int| 0 <= k < default_rules_view().len()
                ==> rule_holds(conjunction@, (#[trigger] default_rules_view()[k]).0, default_rules_view()[k].1, entries@))
            && forall|i: int| 0 <= i < conjunction@.len() ==> {
                &&& !reads_harness_signal(aliases_view(signal_aliases@[i]@))
                &&& !banned_by_default(spec_pred_operator(#[trigger] conjunction@[i]), signal_lengths@[i]@, aliases_view(signal_aliases@[i]@))
            }),
{
    let rules = initialize_rules();
    let ghost dv = default_rules_view();
    assert forall|k: int| 0 <= k < 3 implies (trigger_view((#[trigger] rules@[k]).trigger_operation), consequence_view(rules@[k].consequence)) == dv[k]
        && trigger_regex_ok(trigger_view(rules@[k].trigger_operation)) by {
    }
    let m = rules.len();
    for k in 0..m
        invariant
            m == rules@.len(),
            m == 3,
            dv == default_rules_view(),
            forall|k2: int| 0 <= k2 < 3 ==> (trigger_view((#[trigger] rules@[k2]).trigger_operation), consequence_view(rules@[k2].consequence)) == dv[k2]
                && trigger_regex_ok(trigger_view(rules@[k2].trigger_operation)),
            forall|k2: int| 0 <= k2 < k ==> rule_holds(conjunction@, (#[trigger] dv[k2]).0, dv[k2].1, entries@),
    {
        if !rule_is_fullfilled(conjunction, &rules[k], entries) {
            assert(!rule_holds(conjunction@, dv[k as int].0, dv[k as int].1, entries@));
            return false;
        }
    }
    let preds = &conjunction.predicate_set.predicates;
    let n = preds.len();
    for i in 0..n
        invariant
            n == preds@.len(),
            conjunction@ == preds_view(preds@),
            default_ban_patterns_valid(),
            signal_lengths@.len() == n,
            signal_aliases@.len() == n,
            forall|i2: int| 0 <= i2 < n ==> (#[trigger] signal_lengths@[i2])@.len() == signal_aliases@[i2]@.len(),
            forall|k2: int| 0 <= k2 < 3 ==> rule_holds(conjunction@, (#[trigger] dv[k2]).0, dv[k2].1, entries@),
            dv == default_rules_view(),
            forall|i2: int| 0 <= i2 < i ==> {
                &&& !reads_harness_signal(aliases_view(signal_aliases@[i2]@))
                &&& !banned_by_default(spec_pred_operator(#[trigger] conjunction@[i2]), signal_lengths@[i2]@, aliases_view(signal_aliases@[i2]@))
            },
    {
        assert(conjunction@[i as int] == preds@[i as int]@);
        if !should_consider_predicate(&preds[i], &signal_lengths[i], &signal_aliases[i]) {
            return false;
        }
    }
    true
}


/// Whether every pattern of the default ban rules compiles.
fn default_ban_patterns_compile() -> (r: bool)
    ensures
        r == default_ban_patterns_valid(),
{
    let rules = init_predicate_rules();
    let n = rules.len();
    for j in 0..n
        invariant
            n == rules@.len(),
            n == default_ban_rules().len(),
            forall|i: int| 0 <= i < rules@.len() ==> ban_rule_parts(#[trigger] rules@[i]) == default_ban_rules()[i],
            forall|j2: int| 0 <= j2 < j ==> regex_valid(#[trigger] default_ban_rules()[j2].0),
    {
        match &rules[j] {
            PredicateBanRule::DisallowSignalOperationCombinationRegex(pattern, _, _) => {
                assert(ban_rule_parts(rules@[j as int]) == default_ban_rules()[j as int]);
                if !regex_compiles(pattern.as_str()) {
                    assert(!regex_valid(default_ban_rules()[j as int].0));
                    return false;
                }
            },
        }
    }
    true
}

/// `architectural_invariant_check`, where the patterns of the default ban
/// rules compile; `None` where one does not.
pub fn try_architectural_invariant_check(
    conjunction: &Invariant,
    entries: &Vec<(String, u64)>,
    signal_lengths: &Vec<Vec<usize>>,
    signal_aliases: &Vec<Vec<Vec<String>>>,
) -> (r: Option<bool>)
    requires
        signal_lengths@.len() == conjunction@.len(),
        signal_aliases@.len() == conjunction@.len(),
        forall|i: int| 0 <= i < conjunction@.len() ==> (#[trigger] signal_lengths@[i])@.len() == signal_aliases@[i]@.len(),
    ensures
        r.is_some() == default_ban_patterns_valid(),
        r.is_some() ==> r.unwrap() == ((forall|k: int| 0 <= k < default_rules_view().len()
                ==> rule_holds(conjunction@, (#[trigger] default_rules_view()[k]).0, default_rules_view()[k].1, entries@))
            && forall|i: int| 0 <= i < conjunction@.len() ==> {
                &&& !reads_harness_signal(aliases_view(signal_aliases@[i]@))
                &&& !banned_by_default(spec_pred_operator(#[trigger] conjunction@[i]), signal_lengths@[i]@, aliases_view(signal_aliases@[i]@))
            }),
{
    if !default_ban_patterns_compile() {
        return None;
    }
    Some(architectural_invariant_check(conjunction, entries, signal_lengths, signal_aliases))
}

} // verus!
