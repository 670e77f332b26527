//! The kinds of predicates a search may generate for a signal, per signal
//! category, and the values each kind may compare a signal with.

use vstd::prelude::*;
use crate::data_types::general_data_types::{SignalInfo, SignalType, SignalTypesSet, StageFilter, lowercase_text, to_lowercase};
use crate::text::{seq_contains_text, str_contains};

verus! {

/// A kind of predicate: a comparison with a constant, or of two signals.
#[derive(Clone, Copy, Hash, PartialEq, Eq, Structural, Debug)]
pub enum PredicateType {
    Equal,
    NotEqual,
    GreaterEqual,
    SmallerEqual,
    TwoSignalEqual,
}

/// The position of a kind of predicate in the per-kind tables of a configuration.
pub open spec fn predicate_slot(p: PredicateType) -> int {
    match p {
        PredicateType::Equal => 0,
        PredicateType::NotEqual => 1,
        PredicateType::GreaterEqual => 2,
        PredicateType::SmallerEqual => 3,
        PredicateType::TwoSignalEqual => 4,
    }
}

fn predicate_slot_of(p: &PredicateType) -> (r: usize)
    ensures
        r == predicate_slot(*p),
{
    match p {
        PredicateType::Equal => 0,
        PredicateType::NotEqual => 1,
        PredicateType::GreaterEqual => 2,
        PredicateType::SmallerEqual => 3,
        PredicateType::TwoSignalEqual => 4,
    }
}

proof fn lemma_predicate_slot_injective()
    ensures
        forall|p: PredicateType, q: PredicateType| #[trigger] predicate_slot(p) == #[trigger] predicate_slot(q) ==> p == q,
{
}

/// Which values a predicate may compare a signal with.
#[derive(Clone, Copy, PartialEq, Eq, Structural, Debug)]
pub enum SignalValueFilter {
    /// Every value.
    AnyValue,
    /// Every value, on signals wider than one bit.
    WideSignal,
    /// Only zero.
    ZeroValue,
    /// Values other than zero, on signals wider than one bit.
    NonZeroOnWideSignal,
}

/// The filter lets `value` through on a signal of `length` bits.
pub open spec fn filter_accepts(f: SignalValueFilter, value: i64, length: usize) -> bool {
    match f {
        SignalValueFilter::AnyValue => true,
        SignalValueFilter::WideSignal => length > 1,
        SignalValueFilter::ZeroValue => value == 0,
        SignalValueFilter::NonZeroOnWideSignal => value != 0 && length > 1,
    }
}

impl SignalValueFilter {
    /// Whether the filter lets `value` through on the signal `signal_idx`.
    pub fn accepts(&self, signal_idx: u64, value: i64, signal_info: &SignalInfo) -> (r: bool)
        ensures
            r == filter_accepts(*self, value, signal_info.length),
    {
        match self {
            SignalValueFilter::AnyValue => true,
            SignalValueFilter::WideSignal => signal_info.length > 1,
            SignalValueFilter::ZeroValue => value == 0,
            SignalValueFilter::NonZeroOnWideSignal => value != 0 && signal_info.length > 1,
        }
    }
}

/// The kinds of predicates enabled for one signal category, each with the
/// filter on its values where it has one.
#[derive(Clone, Copy, Debug)]
pub struct SignalTypePredicateConfig {
    /// For each kind of predicate (by `predicate_slot`), whether it is enabled.
    pub enabled_predicates: [bool; 5],
    /// For each kind of predicate (by `predicate_slot`), the filter on its values.
    pub value_filters: [Option<SignalValueFilter>; 5],
}

impl SignalTypePredicateConfig {
    /// Predicates of kind `p` are enabled.
    pub open spec fn enabled(&self, p: PredicateType) -> bool {
        self.enabled_predicates@[predicate_slot(p)]
    }

    /// The filter on the values of predicates of kind `p`.
    pub open spec fn filter(&self, p: PredicateType) -> Option<SignalValueFilter> {
        self.value_filters@[predicate_slot(p)]
    }

    /// A predicate of kind `p` may compare a signal of `length` bits with `value`.
    pub open spec fn accepts_value(&self, p: PredicateType, value: i64, length: usize) -> bool {
        &&& self.enabled(p)
        &&& match self.filter(p) {
            Some(f) => filter_accepts(f, value, length),
            None => true,
        }
    }

    /// A configuration that enables nothing.
    pub fn new() -> (r: Self)
        ensures
            forall|p: PredicateType| !(#[trigger] r.enabled(p)),
            forall|p: PredicateType| #[trigger] r.filter(p) is None,
    {
        SignalTypePredicateConfig { enabled_predicates: [false, false, false, false, false], value_filters: [None, None, None, None, None] }
    }

    /// A configuration that enables the given kinds, with no filters.
    pub fn with_predicates(predicates: Vec<PredicateType>) -> (r: Self)
        ensures
            forall|p: PredicateType| #[trigger] r.enabled(p) == predicates@.contains(p),
            forall|p: PredicateType| #[trigger] r.filter(p) is None,
    {
        let mut r = SignalTypePredicateConfig::new();
        let n = predicates.len();
        for i in 0..n
            invariant
                n == predicates@.len(),
                forall|p: PredicateType| #[trigger] r.enabled(p) == predicates@.take(i as int).contains(p),
                forall|p: PredicateType| #[trigger] r.filter(p) is None,
        {
            let p = predicates[i];
            let slot = predicate_slot_of(&p);
            let ghost r0 = r;
            r.enabled_predicates[slot] = true;
            proof {
                lemma_predicate_slot_injective();
                let s0 = predicates@.take(i as int);
                let s1 = predicates@.take(i + 1);
                assert(s1 =~= s0.push(p));
                assert(r.enabled_predicates@ == r0.enabled_predicates@.update(slot as int, true));
                assert(r.value_filters@ == r0.value_filters@);
                assert forall|q: PredicateType| #[trigger] r.filter(q) is None by {
                    assert(r0.filter(q) is None);
                }
                assert forall|q: PredicateType| #[trigger] r.enabled(q) == s1.contains(q) by {
                    assert(r0.enabled(q) == s0.contains(q));
                    if q == p {
                        assert(s1[i as int] == q);
                    } else if s1.contains(q) {
                        let k = choose|k: int| 0 <= k < s1.len() && s1[k] == q;
                        assert(s0[k] == q);
                    }
                    if s0.contains(q) {
                        let k = choose|k: int| 0 <= k < s0.len() && s0[k] == q;
                        assert(s1[k] == q);
                    }
                }
            }
        }
        assert(predicates@.take(n as int) =~= predicates@);
        r
    }

    /// Enables the kind `pred_type`, with `filter` on its values.
    pub fn with_value_filter_for_predicate(self, pred_type: PredicateType, filter: SignalValueFilter) -> (r: Self)
        ensures
            forall|p: PredicateType| #[trigger] r.enabled(p) == (self.enabled(p) || p == pred_type),
            forall|p: PredicateType| #[trigger] r.filter(p) == if p == pred_type { Some(filter) } else { self.filter(p) },
    {
        let mut r = self;
        let slot = predicate_slot_of(&pred_type);
        r.enabled_predicates[slot] = true;
        r.value_filters[slot] = Some(filter);
        proof {
            lemma_predicate_slot_injective();
        }
        r
    }

    /// Enables each of the kinds `pred_types`, with `filter` on their values.
    pub fn with_value_filter_for_predicates(self, pred_types: Vec<PredicateType>, filter: SignalValueFilter) -> (r: Self)
        ensures
            forall|p: PredicateType| #[trigger] r.enabled(p) == (self.enabled(p) || pred_types@.contains(p)),
            forall|p: PredicateType| #[trigger] r.filter(p) == if pred_types@.contains(p) { Some(filter) } else { self.filter(p) },
    {
        let mut r = self;
        let n = pred_types.len();
        for i in 0..n
            invariant
                n == pred_types@.len(),
                forall|p: PredicateType| #[trigger] r.enabled(p) == (self.enabled(p) || pred_types@.take(i as int).contains(p)),
                forall|p: PredicateType| #[trigger] r.filter(p) == if pred_types@.take(i as int).contains(p) { Some(filter) } else { self.filter(p) },
        {
            let p = pred_types[i];
            let ghost r0 = r;
            r = r.with_value_filter_for_predicate(p, filter);
            proof {
                let s0 = pred_types@.take(i as int);
                let s1 = pred_types@.take(i + 1);
                assert(s1 =~= s0.push(p));
                assert forall|q: PredicateType| #[trigger] s1.contains(q) == (s0.contains(q) || q == p) by {
                    if q == p {
                        assert(s1[i as int] == q);
                    } else if s1.contains(q) {
                        let k = choose|k: int| 0 <= k < s1.len() && s1[k] == q;
                        assert(s0[k] == q);
                    }
                    if s0.contains(q) {
                        let k = choose|k: int| 0 <= k < s0.len() && s0[k] == q;
                        assert(s1[k] == q);
                    }
                }
            }
        }
        assert(pred_types@.take(n as int) =~= pred_types@);
        r
    }

    pub fn allows_predicate(&self, pred_type: &PredicateType) -> (r: bool)
        ensures
            r == self.enabled(*pred_type),
    {
        self.enabled_predicates[predicate_slot_of(pred_type)]
    }

    /// A predicate of kind `pred_type` may compare the signal with `value`:
    /// the kind is enabled and its filter, if any, lets the value through.
    pub fn allows_value(&self, pred_type: &PredicateType, signal_idx: u64, value: i64, signal_info: &SignalInfo) -> (r: bool)
        ensures
            r == self.accepts_value(*pred_type, value, signal_info.length),
    {
        if !self.allows_predicate(pred_type) {
            return false;
        }
        match self.value_filters[predicate_slot_of(pred_type)] {
            Some(filter) => filter.accepts(signal_idx, value, signal_info),
            None => true,
        }
    }
}

/// The position of a signal category in the table of a generation configuration.
pub open spec fn signal_type_slot(t: SignalType) -> int {
    match t {
        SignalType::ClockReset => 0,
        SignalType::Control => 1,
        SignalType::Data => 2,
        SignalType::Funct7 => 3,
        SignalType::Address => 4,
        SignalType::Immediate => 5,
        SignalType::RegisterFileAddress => 6,
        SignalType::Register => 7,
        SignalType::Counter => 8,
        SignalType::Instruction => 9,
        SignalType::Unknown => 10,
    }
}

fn signal_type_slot_of(t: &SignalType) -> (r: usize)
    ensures
        r == signal_type_slot(*t),
{
    match t {
        SignalType::ClockReset => 0,
        SignalType::Control => 1,
        SignalType::Data => 2,
        SignalType::Funct7 => 3,
        SignalType::Address => 4,
        SignalType::Immediate => 5,
        SignalType::RegisterFileAddress => 6,
        SignalType::Register => 7,
        SignalType::Counter => 8,
        SignalType::Instruction => 9,
        SignalType::Unknown => 10,
    }
}

proof fn lemma_signal_type_slot_injective()
    ensures
        forall|s: SignalType, t: SignalType| #[trigger] signal_type_slot(s) == #[trigger] signal_type_slot(t) ==> s == t,
{
}

/// Which predicates a search generates: a configuration per signal
/// category, where the category has one; signals of other categories get none.
#[derive(Clone, Copy, Debug)]
pub struct PredicateGenerationConfig {
    /// For each signal category (by `signal_type_slot`), its configuration.
    pub signal_type_configs: [Option<SignalTypePredicateConfig>; 11],
    pub track_cycle_info: bool,
}

impl PredicateGenerationConfig {
    /// The configuration of signal category `t`.
    pub open spec fn config_of(&self, t: SignalType) -> Option<SignalTypePredicateConfig> {
        self.signal_type_configs@[signal_type_slot(t)]
    }

    /// Predicates of kind `p` are enabled on category `t`.
    pub open spec fn enables(&self, t: SignalType, p: PredicateType) -> bool {
        match self.config_of(t) {
            Some(c) => c.enabled(p),
            None => false,
        }
    }

    /// A predicate of kind `p` may compare a signal of category `t` and `length` bits with `value`.
    pub open spec fn accepts(&self, t: SignalType, p: PredicateType, value: i64, length: usize) -> bool {
        match self.config_of(t) {
            Some(c) => c.accepts_value(p, value, length),
            None => false,
        }
    }

    /// A configuration with no category, that tracks cycles.
    pub fn new() -> (r: Self)
        ensures
            forall|t: SignalType| #[trigger] r.config_of(t) is None,
            r.track_cycle_info,
    {
        PredicateGenerationConfig {
            signal_type_configs: [None, None, None, None, None, None, None, None, None, None, None],
            track_cycle_info: true,
        }
    }

    /// Some category of `types` has a configuration.
    pub fn allows_types(&self, types: &SignalTypesSet) -> (r: bool)
        ensures
            r == exists|t: SignalType| types.view().contains(t) && #[trigger] self.config_of(t) is Some,
    {
        let n = types.types.len();
        for i in 0..n
            invariant
                n == types.types@.len(),
                forall|k: int| 0 <= k < i ==> self.config_of(#[trigger] types.types@[k]) is None,
        {
            if self.allows_type(&types.types[i]) {
                assert(types.view().contains(types.types@[i as int]));
                return true;
            }
        }
        proof {
            assert forall|t: SignalType| types.view().contains(t) implies #[trigger] self.config_of(t) is None by {
                let k = choose|k: int| 0 <= k < types.types@.len() && types.types@[k] == t;
            }
        }
        false
    }

    pub fn allows_type(&self, signal_type: &SignalType) -> (r: bool)
        ensures
            r == self.config_of(*signal_type) is Some,
    {
        self.signal_type_configs[signal_type_slot_of(signal_type)].is_some()
    }

    /// Gives category `signal_type` the configuration `config`.
    pub fn set_config_for_type(&mut self, signal_type: SignalType, config: SignalTypePredicateConfig)
        ensures
            forall|t: SignalType| #[trigger] final(self).config_of(t) == if t == signal_type { Some(config) } else { old(self).config_of(t) },
            final(self).track_cycle_info == old(self).track_cycle_info,
    {
        let slot = signal_type_slot_of(&signal_type);
        self.signal_type_configs[slot] = Some(config);
        proof {
            lemma_signal_type_slot_injective();
        }
    }

    /// Some category of `types` enables predicates of kind `pred_type`.
    pub fn allows_predicate_type_set(&self, types: &SignalTypesSet, pred_type: &PredicateType) -> (r: bool)
        ensures
            r == exists|t: SignalType| types.view().contains(t) && #[trigger] self.enables(t, *pred_type),
    {
        let n = types.types.len();
        for i in 0..n
            invariant
                n == types.types@.len(),
                forall|k: int| 0 <= k < i ==> !self.enables(#[trigger] types.types@[k], *pred_type),
        {
            if self.allows_predicate(&types.types[i], pred_type) {
                assert(types.view().contains(types.types@[i as int]));
                return true;
            }
        }
        proof {
            assert forall|t: SignalType| types.view().contains(t) implies !#[trigger] self.enables(t, *pred_type) by {
                let k = choose|k: int| 0 <= k < types.types@.len() && types.types@[k] == t;
            }
        }
        false
    }

    pub fn allows_predicate(&self, signal_type: &SignalType, pred_type: &PredicateType) -> (r: bool)
        ensures
            r == self.enables(*signal_type, *pred_type),
    {
        match &self.signal_type_configs[signal_type_slot_of(signal_type)] {
            Some(c) => c.allows_predicate(pred_type),
            None => false,
        }
    }

    /// Some category of `types` lets a predicate of kind `pred_type` compare
    /// the signal with `value`.
    pub fn allows_value_type_set(
        &self,
        types: &SignalTypesSet,
        pred_type: &PredicateType,
        signal_idx: u64,
        value: i64,
        signal_info: &SignalInfo,
    ) -> (r: bool)
        ensures
            r == exists|t: SignalType| types.view().contains(t)
                && #[trigger] self.accepts(t, *pred_type, value, signal_info.length),
    {
        let n = types.types.len();
        for i in 0..n
            invariant
                n == types.types@.len(),
                forall|k: int| 0 <= k < i ==> !self.accepts(#[trigger] types.types@[k], *pred_type, value, signal_info.length),
        {
            if self.allows_value(&types.types[i], pred_type, signal_idx, value, signal_info) {
                assert(types.view().contains(types.types@[i as int]));
                return true;
            }
        }
        proof {
            assert forall|t: SignalType| types.view().contains(t) implies !#[trigger] self.accepts(t, *pred_type, value, signal_info.length) by {
                let k = choose|k: int| 0 <= k < types.types@.len() && types.types@[k] == t;
            }
        }
        false
    }

    pub fn allows_value(
        &self,
        signal_type: &SignalType,
        pred_type: &PredicateType,
        signal_idx: u64,
        value: i64,
        signal_info: &SignalInfo,
    ) -> (r: bool)
        ensures
            r == self.accepts(*signal_type, *pred_type, value, signal_info.length),
    {
        match &self.signal_type_configs[signal_type_slot_of(signal_type)] {
            Some(c) => c.allows_value(pred_type, signal_idx, value, signal_info),
            None => false,
        }
    }
}

/// The configuration has exactly the kinds of `filters`, each with its filter.
pub open spec fn filters_exactly(c: Option<SignalTypePredicateConfig>, filters: Map<PredicateType, SignalValueFilter>) -> bool {
    &&& c is Some
    &&& forall|p: PredicateType| #[trigger] c->0.enabled(p) == filters.contains_key(p)
    &&& forall|p: PredicateType| #[trigger] c->0.filter(p) == if filters.contains_key(p) { Some(filters[p]) } else { None }
}

/// Only the categories of `configured` have a configuration.
pub open spec fn configures_only(r: PredicateGenerationConfig, configured: Set<SignalType>) -> bool {
    forall|t: SignalType| !configured.contains(t) ==> #[trigger] r.config_of(t) is None
}

/// The configuration for the Sodor cores: equality and inequality on control
/// signals (inequality on signals wider than one bit); two-signal equality,
/// equality and inequality with zero on register file addresses; inequality
/// with zero on registers; two-signal equality on immediates.
pub open spec fn is_sodor_config(r: PredicateGenerationConfig) -> bool {
    &&& filters_exactly(r.config_of(SignalType::Control), map![
            PredicateType::Equal => SignalValueFilter::AnyValue,
            PredicateType::NotEqual => SignalValueFilter::WideSignal])
    &&& filters_exactly(r.config_of(SignalType::RegisterFileAddress), map![
            PredicateType::Equal => SignalValueFilter::AnyValue,
            PredicateType::NotEqual => SignalValueFilter::ZeroValue,
            PredicateType::TwoSignalEqual => SignalValueFilter::AnyValue])
    &&& filters_exactly(r.config_of(SignalType::Register), map![
            PredicateType::NotEqual => SignalValueFilter::ZeroValue])
    &&& filters_exactly(r.config_of(SignalType::Immediate), map![
            PredicateType::TwoSignalEqual => SignalValueFilter::AnyValue])
    &&& configures_only(r, set![SignalType::Control, SignalType::RegisterFileAddress, SignalType::Register, SignalType::Immediate])
    &&& r.track_cycle_info
}

/// The configuration for the Kronos core: equality and inequality on control
/// signals (inequality on signals wider than one bit); two-signal equality
/// (non-zero values, wide signals) and inequality with zero on registers;
/// two-signal equality (non-zero values, wide signals) on immediates and
/// funct7 fields.
pub open spec fn is_kronos_config(r: PredicateGenerationConfig) -> bool {
    &&& filters_exactly(r.config_of(SignalType::Control), map![
            PredicateType::Equal => SignalValueFilter::AnyValue,
            PredicateType::NotEqual => SignalValueFilter::WideSignal])
    &&& filters_exactly(r.config_of(SignalType::Register), map![
            PredicateType::TwoSignalEqual => SignalValueFilter::NonZeroOnWideSignal,
            PredicateType::NotEqual => SignalValueFilter::ZeroValue])
    &&& filters_exactly(r.config_of(SignalType::Immediate), map![
            PredicateType::TwoSignalEqual => SignalValueFilter::NonZeroOnWideSignal])
    &&& filters_exactly(r.config_of(SignalType::Funct7), map![
            PredicateType::TwoSignalEqual => SignalValueFilter::NonZeroOnWideSignal])
    &&& configures_only(r, set![SignalType::Control, SignalType::Register, SignalType::Immediate, SignalType::Funct7])
    &&& r.track_cycle_info
}

/// The configuration for the BOOM core: as for Kronos, without funct7 fields.
pub open spec fn is_boom_config(r: PredicateGenerationConfig) -> bool {
    &&& filters_exactly(r.config_of(SignalType::Control), map![
            PredicateType::Equal => SignalValueFilter::AnyValue,
            PredicateType::NotEqual => SignalValueFilter::WideSignal])
    &&& filters_exactly(r.config_of(SignalType::Register), map![
            PredicateType::TwoSignalEqual => SignalValueFilter::NonZeroOnWideSignal,
            PredicateType::NotEqual => SignalValueFilter::ZeroValue])
    &&& filters_exactly(r.config_of(SignalType::Immediate), map![
            PredicateType::TwoSignalEqual => SignalValueFilter::NonZeroOnWideSignal])
    &&& configures_only(r, set![SignalType::Control, SignalType::Register, SignalType::Immediate])
    &&& r.track_cycle_info
}

/// Equality on any value and inequality on wide signals.
fn control_config() -> (r: SignalTypePredicateConfig)
    ensures
        filters_exactly(Some(r), map![
            PredicateType::Equal => SignalValueFilter::AnyValue,
            PredicateType::NotEqual => SignalValueFilter::WideSignal]),
{
    let r = SignalTypePredicateConfig::new()
        .with_value_filter_for_predicate(PredicateType::Equal, SignalValueFilter::AnyValue)
        .with_value_filter_for_predicate(PredicateType::NotEqual, SignalValueFilter::WideSignal);
    proof {
        let m = map![
            PredicateType::Equal => SignalValueFilter::AnyValue,
            PredicateType::NotEqual => SignalValueFilter::WideSignal];
        assert forall|p: PredicateType| #[trigger] r.enabled(p) == m.contains_key(p) by {
            assert(m.dom().contains(p) == (p == PredicateType::Equal || p == PredicateType::NotEqual));
        }
        assert forall|p: PredicateType| #[trigger] r.filter(p) == if m.contains_key(p) { Some(m[p]) } else { None } by {
            assert(m.dom().contains(p) == (p == PredicateType::Equal || p == PredicateType::NotEqual));
        }
    }
    r
}

/// Two-signal equality (non-zero values, wide signals), and inequality with
/// zero where `with_not_equal_zero`.
fn register_config(with_not_equal_zero: bool) -> (r: SignalTypePredicateConfig)
    ensures
        with_not_equal_zero ==> filters_exactly(Some(r), map![
            PredicateType::TwoSignalEqual => SignalValueFilter::NonZeroOnWideSignal,
            PredicateType::NotEqual => SignalValueFilter::ZeroValue]),
        !with_not_equal_zero ==> filters_exactly(Some(r), map![
            PredicateType::TwoSignalEqual => SignalValueFilter::NonZeroOnWideSignal]),
{
    let mut r = SignalTypePredicateConfig::new()
        .with_value_filter_for_predicate(PredicateType::TwoSignalEqual, SignalValueFilter::NonZeroOnWideSignal);
    if with_not_equal_zero {
        r = r.with_value_filter_for_predicate(PredicateType::NotEqual, SignalValueFilter::ZeroValue);
    }
    proof {
        let m1 = map![
            PredicateType::TwoSignalEqual => SignalValueFilter::NonZeroOnWideSignal,
            PredicateType::NotEqual => SignalValueFilter::ZeroValue];
        let m2 = map![PredicateType::TwoSignalEqual => SignalValueFilter::NonZeroOnWideSignal];
        assert forall|p: PredicateType| m1.dom().contains(p) == (p == PredicateType::TwoSignalEqual || p == PredicateType::NotEqual) by {}
        assert forall|p: PredicateType| m2.dom().contains(p) == (p == PredicateType::TwoSignalEqual) by {}
    }
    r
}

pub fn get_sodor_predicate_generation_config() -> (r: PredicateGenerationConfig)
    ensures
        is_sodor_config(r),
{
    let mut config = PredicateGenerationConfig::new();
    let control = control_config();
    config.set_config_for_type(SignalType::Control, control);
    let address = control
        .with_value_filter_for_predicate(PredicateType::TwoSignalEqual, SignalValueFilter::AnyValue)
        .with_value_filter_for_predicate(PredicateType::NotEqual, SignalValueFilter::ZeroValue)
        .with_value_filter_for_predicate(PredicateType::Equal, SignalValueFilter::AnyValue);
    config.set_config_for_type(SignalType::RegisterFileAddress, address);
    let register = SignalTypePredicateConfig::new()
        .with_value_filter_for_predicate(PredicateType::NotEqual, SignalValueFilter::ZeroValue);
    config.set_config_for_type(SignalType::Register, register);
    let immediate = SignalTypePredicateConfig::new()
        .with_value_filter_for_predicate(PredicateType::TwoSignalEqual, SignalValueFilter::AnyValue);
    config.set_config_for_type(SignalType::Immediate, immediate);
    proof {
        let ma = map![
            PredicateType::Equal => SignalValueFilter::AnyValue,
            PredicateType::NotEqual => SignalValueFilter::ZeroValue,
            PredicateType::TwoSignalEqual => SignalValueFilter::AnyValue];
        assert forall|p: PredicateType| ma.dom().contains(p)
            == (p == PredicateType::Equal || p == PredicateType::NotEqual || p == PredicateType::TwoSignalEqual) by {}
        let mr = map![PredicateType::NotEqual => SignalValueFilter::ZeroValue];
        assert forall|p: PredicateType| mr.dom().contains(p) == (p == PredicateType::NotEqual) by {}
        let mi = map![PredicateType::TwoSignalEqual => SignalValueFilter::AnyValue];
        assert forall|p: PredicateType| mi.dom().contains(p) == (p == PredicateType::TwoSignalEqual) by {}
        let only = set![SignalType::Control, SignalType::RegisterFileAddress, SignalType::Register, SignalType::Immediate];
        assert forall|t: SignalType| only.contains(t) == (t == SignalType::Control || t == SignalType::RegisterFileAddress
            || t == SignalType::Register || t == SignalType::Immediate) by {}
    }
    config
}

pub fn get_kronos_predicate_generation_config() -> (r: PredicateGenerationConfig)
    ensures
        is_kronos_config(r),
{
    let mut config = PredicateGenerationConfig::new();
    config.set_config_for_type(SignalType::Control, control_config());
    config.set_config_for_type(SignalType::Register, register_config(true));
    let address = register_config(false);
    config.set_config_for_type(SignalType::Immediate, address);
    config.set_config_for_type(SignalType::Funct7, address);
    proof {
        let only = set![SignalType::Control, SignalType::Register, SignalType::Immediate, SignalType::Funct7];
        assert forall|t: SignalType| only.contains(t) == (t == SignalType::Control || t == SignalType::Register
            || t == SignalType::Immediate || t == SignalType::Funct7) by {}
    }
    config
}

pub fn get_boom_predicate_generation_config() -> (r: PredicateGenerationConfig)
    ensures
        is_boom_config(r),
{
    let mut config = PredicateGenerationConfig::new();
    config.set_config_for_type(SignalType::Control, control_config());
    config.set_config_for_type(SignalType::Register, register_config(true));
    config.set_config_for_type(SignalType::Immediate, register_config(false));
    proof {
        let only = set![SignalType::Control, SignalType::Register, SignalType::Immediate];
        assert forall|t: SignalType| only.contains(t) == (t == SignalType::Control || t == SignalType::Register
            || t == SignalType::Immediate) by {}
    }
    config
}

/// The decoder stages use the Sodor configuration.
pub fn get_decoder_config_predicate_generation_config() -> (r: PredicateGenerationConfig)
    ensures
        is_sodor_config(r),
{
    get_sodor_predicate_generation_config()
}

/// The default is the Sodor configuration.
pub fn get_default_predicate_generation_config() -> (r: PredicateGenerationConfig)
    ensures
        is_sodor_config(r),
{
    get_sodor_predicate_generation_config()
}

/// How many of the patterns name `key`, compared in lower case.
pub open spec fn patterns_naming(patterns: Seq<Seq<char>>, key: Seq<char>) -> nat
    decreases patterns.len(),
{
    if patterns.len() == 0 {
        0
    } else {
        patterns_naming(patterns.drop_last(), key)
            + if seq_contains_text(lowercase_text(patterns.last()), key) { 1nat } else { 0nat }
    }
}

/// The configuration for a stage: the decoder's where the stage's name holds
/// "decoder"; else that of the core that the patterns to keep name most
/// often, ties going to the first of Sodor, BOOM, Kronos, decoder; the
/// default where none is named.
pub fn get_config_from_stage_filter(stage_filter: &StageFilter) -> (r: PredicateGenerationConfig)
    ensures
        ({
            let pats = stage_filter.keep_patterns.view_patterns();
            let sodor = patterns_naming(pats, "sodor"@);
            let boom = patterns_naming(pats, "boom"@);
            let kronos = patterns_naming(pats, "kronos"@);
            let decoder = patterns_naming(pats, "decoder"@);
            if seq_contains_text(lowercase_text(stage_filter.stage_name@), "decoder"@) {
                is_sodor_config(r)
            } else if boom > sodor && boom >= kronos && boom >= decoder {
                is_boom_config(r)
            } else if kronos > sodor && kronos > boom && kronos >= decoder {
                is_kronos_config(r)
            } else {
                is_sodor_config(r)
            }
        }),
{
    let stage_name = to_lowercase(stage_filter.stage_name.as_str());
    if str_contains(stage_name.as_str(), "decoder") {
        return get_decoder_config_predicate_generation_config();
    }
    let ghost pats = stage_filter.keep_patterns.view_patterns();
    let n = stage_filter.keep_patterns.len();
    let mut sodor: usize = 0;
    let mut boom: usize = 0;
    let mut kronos: usize = 0;
    let mut decoder: usize = 0;
    for i in 0..n
        invariant
            n == pats.len(),
            pats == stage_filter.keep_patterns.view_patterns(),
            sodor == patterns_naming(pats.take(i as int), "sodor"@),
            boom == patterns_naming(pats.take(i as int), "boom"@),
            kronos == patterns_naming(pats.take(i as int), "kronos"@),
            decoder == patterns_naming(pats.take(i as int), "decoder"@),
            sodor <= i && boom <= i && kronos <= i && decoder <= i,
    {
        let pattern = to_lowercase(stage_filter.keep_patterns.pattern(i).as_str());
        proof {
            assert(pats.take(i + 1).drop_last() =~= pats.take(i as int));
            assert(pats.take(i + 1).last() == pats[i as int]);
        }
        if str_contains(pattern.as_str(), "sodor") {
            sodor = sodor + 1;
        }
        if str_contains(pattern.as_str(), "boom") {
            boom = boom + 1;
        }
        if str_contains(pattern.as_str(), "kronos") {
            kronos = kronos + 1;
        }
        if str_contains(pattern.as_str(), "decoder") {
            decoder = decoder + 1;
        }
    }
    assert(pats.take(n as int) =~= pats);
    // The first core named most often wins; none named leaves the default.
    let mut best: usize = 0;
    let mut core: u8 = 0;
    if sodor > best {
        best = sodor;
        core = 1;
    }
    if boom > best {
        best = boom;
        core = 2;
    }
    if kronos > best {
        best = kronos;
        core = 3;
    }
    if decoder > best {
        core = 4;
    }
    if core == 2 {
        get_boom_predicate_generation_config()
    } else if core == 3 {
        get_kronos_predicate_generation_config()
    } else {
        get_default_predicate_generation_config()
    }
}

/// The wide-signal filter looks at the width of the signal alone: it lets
/// every value through on a signal wider than one bit, and none on a
/// signal of one bit or less.
pub proof fn law_wide_signal_filter_ignores_value(v1: i64, v2: i64, length: usize)
    ensures
        filter_accepts(SignalValueFilter::WideSignal, v1, length) == filter_accepts(SignalValueFilter::WideSignal, v2, length),
        length > 1 ==> filter_accepts(SignalValueFilter::WideSignal, v1, length),
        length <= 1 ==> !filter_accepts(SignalValueFilter::WideSignal, v1, length),
{
}

/// The filters fit together: the non-zero wide-signal filter lets through
/// exactly what the wide-signal filter lets through and the zero filter
/// does not; every filter lets through what it lets through on a wider
/// signal too.
pub proof fn law_value_filters_fit_together(f: SignalValueFilter, value: i64, length: usize, wider: usize)
    requires
        length <= wider,
    ensures
        filter_accepts(SignalValueFilter::NonZeroOnWideSignal, value, length)
            == (filter_accepts(SignalValueFilter::WideSignal, value, length)
                && !filter_accepts(SignalValueFilter::ZeroValue, value, length)),
        filter_accepts(SignalValueFilter::AnyValue, value, length),
        filter_accepts(f, value, length) ==> filter_accepts(f, value, wider),
{
}

/// In the Sodor, Kronos and BOOM configurations, an inequality on a control
/// signal may compare it with any value, zero included, exactly where the
/// signal is wider than one bit; an equality on a control signal may compare
/// it with any value.
pub proof fn law_control_inequality_on_wide_signals(r: PredicateGenerationConfig, value: i64, length: usize)
    requires
        is_sodor_config(r) || is_kronos_config(r) || is_boom_config(r),
    ensures
        r.accepts(SignalType::Control, PredicateType::NotEqual, value, length) == (length > 1),
        r.accepts(SignalType::Control, PredicateType::Equal, value, length),
{
    let m = map![
        PredicateType::Equal => SignalValueFilter::AnyValue,
        PredicateType::NotEqual => SignalValueFilter::WideSignal];
    assert(filters_exactly(r.config_of(SignalType::Control), m));
    let c = r.config_of(SignalType::Control)->0;
    assert(m.contains_key(PredicateType::NotEqual));
    assert(m.contains_key(PredicateType::Equal));
    assert(c.enabled(PredicateType::NotEqual));
    assert(c.filter(PredicateType::NotEqual) == Some(SignalValueFilter::WideSignal));
    assert(c.enabled(PredicateType::Equal));
    assert(c.filter(PredicateType::Equal) == Some(SignalValueFilter::AnyValue));
}

/// In the Sodor, Kronos and BOOM configurations, an inequality on a
/// register may compare it with zero alone, whatever its width; in Kronos
/// and BOOM, a two-signal equality on a register takes non-zero values on
/// signals wider than one bit.
pub proof fn law_register_filters(r: PredicateGenerationConfig, value: i64, length: usize)
    requires
        is_sodor_config(r) || is_kronos_config(r) || is_boom_config(r),
    ensures
        r.accepts(SignalType::Register, PredicateType::NotEqual, value, length) == (value == 0),
        !is_sodor_config(r) ==> r.accepts(SignalType::Register, PredicateType::TwoSignalEqual, value, length)
            == (value != 0 && length > 1),
{
    let c = r.config_of(SignalType::Register)->0;
    if is_sodor_config(r) {
        let m = map![PredicateType::NotEqual => SignalValueFilter::ZeroValue];
        assert(m.contains_key(PredicateType::NotEqual));
        assert(c.filter(PredicateType::NotEqual) == Some(SignalValueFilter::ZeroValue));
    } else {
        let m = map![
            PredicateType::TwoSignalEqual => SignalValueFilter::NonZeroOnWideSignal,
            PredicateType::NotEqual => SignalValueFilter::ZeroValue];
        assert(filters_exactly(r.config_of(SignalType::Register), m));
        assert(m.contains_key(PredicateType::NotEqual));
        assert(m.contains_key(PredicateType::TwoSignalEqual));
        assert(c.filter(PredicateType::NotEqual) == Some(SignalValueFilter::ZeroValue));
        assert(c.filter(PredicateType::TwoSignalEqual) == Some(SignalValueFilter::NonZeroOnWideSignal));
    }
}

} // verus!
