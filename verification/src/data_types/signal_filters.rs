//! Filters that decide which recorded signals a search may use.

use vstd::prelude::*;
use std::collections::HashSet;
use crate::patterns::{RegexList, regex_matches};
use crate::jg_formatter::{transform_jg_to_verilator_like, spec_verilator_like, matches_any_jg_signal, jg_match};
use crate::predicates::names_view;
use crate::data_types::signal_remap_info::contains_name;

verus! {

broadcast use vstd::std_specs::hash::group_hash_axioms;

/// The names the formal tool knows, and their simulator-style forms.
#[derive(Debug, Clone)]
pub struct JGFilterInfo {
    jg_signals: Vec<String>,
    jg_signals_transformed: Vec<String>,
}

/// The texts of `s`, each once, in the order they first occur.
pub open spec fn first_occurrences(s: Seq<Seq<char>>) -> Seq<Seq<char>>
    decreases s.len(),
{
    if s.len() == 0 {
        Seq::empty()
    } else {
        let prev = first_occurrences(s.drop_last());
        if prev.contains(s.last()) { prev } else { prev.push(s.last()) }
    }
}

impl JGFilterInfo {
    /// The formal-tool names, each once.
    pub closed spec fn names(&self) -> Seq<Seq<char>> {
        names_view(self.jg_signals@)
    }

    /// Their simulator-style forms.
    pub closed spec fn transformed_names(&self) -> Seq<Seq<char>> {
        names_view(self.jg_signals_transformed@)
    }

    pub fn new(jg_signals: Vec<String>) -> (r: Self)
        ensures
            r.names() == first_occurrences(names_view(jg_signals@)),
            r.transformed_names().len() == r.names().len(),
            forall|k: int| 0 <= k < r.names().len() ==> #[trigger] r.transformed_names()[k] == spec_verilator_like(r.names()[k]),
    {
        let mut unique: Vec<String> = Vec::new();
        let mut transformed: Vec<String> = Vec::new();
        let n = jg_signals.len();
        let ghost all = names_view(jg_signals@);
        assert(all.take(0) =~= Seq::<Seq<char>>::empty());
        for i in 0..n
            invariant
                n == jg_signals@.len(),
                all == names_view(jg_signals@),
                names_view(unique@) == first_occurrences(all.take(i as int)),
                transformed@.len() == unique@.len(),
                forall|k: int| 0 <= k < unique@.len() ==> #[trigger] transformed@[k]@ == spec_verilator_like(unique@[k]@),
        {
            proof {
                assert(all.take(i + 1).drop_last() =~= all.take(i as int));
                assert(all.take(i + 1).last() == jg_signals@[i as int]@);
            }
            if !contains_name(&unique, &jg_signals[i]) {
                let ghost u0 = names_view(unique@);
                unique.push(jg_signals[i].clone());
                transformed.push(transform_jg_to_verilator_like(jg_signals[i].as_str()));
                assert(names_view(unique@) =~= u0.push(jg_signals@[i as int]@));
            }
        }
        assert(all.take(n as int) =~= all);
        let r = JGFilterInfo { jg_signals: unique, jg_signals_transformed: transformed };
        assert forall|k: int| 0 <= k < r.names().len() implies #[trigger] r.transformed_names()[k] == spec_verilator_like(r.names()[k]) by {
            assert(r.transformed_names()[k] == r.jg_signals_transformed@[k]@);
            assert(r.names()[k] == r.jg_signals@[k]@);
        }
        r
    }

    /// The number of formal-tool names.
    pub fn len(&self) -> (r: usize)
        ensures
            r == self.names().len(),
    {
        self.jg_signals.len()
    }
}

/// A rule that a signal passes or not.
#[derive(Debug)]
pub enum SignalFilter {
    RegexFilter(RegexList),
    StrictSignalIdxFilter(HashSet<u64>),
    LooseSignalIdxFilter(HashSet<u64>),
    JGFilter(JGFilterInfo),
}

/// A signal passes a filter: a pattern matches its name; its index is in
/// the set; or the formal tool has a name for it.
pub open spec fn filter_accepts(f: SignalFilter, name: Seq<char>, idx: u64) -> bool {
    match f {
        SignalFilter::RegexFilter(r) => exists|k: int| 0 <= k < r.view_patterns().len()
            && regex_matches(#[trigger] r.view_patterns()[k], name),
        SignalFilter::StrictSignalIdxFilter(s) => s@.contains(idx),
        SignalFilter::LooseSignalIdxFilter(s) => s@.contains(idx),
        SignalFilter::JGFilter(j) => jg_match(name, j.names(), Some(j.transformed_names())).is_some(),
    }
}

/// How many signals a filter can let pass at most, by its own size.
pub open spec fn filter_size(f: SignalFilter) -> nat {
    match f {
        SignalFilter::RegexFilter(r) => r.view_patterns().len(),
        SignalFilter::StrictSignalIdxFilter(s) => s@.len(),
        SignalFilter::LooseSignalIdxFilter(s) => s@.len(),
        SignalFilter::JGFilter(j) => j.names().len(),
    }
}

impl SignalFilter {
    pub fn check_signal(&self, signal_name: &str, signal_idx: &u64) -> (r: bool)
        ensures
            r == filter_accepts(*self, signal_name@, *signal_idx),
    {
        match self {
            SignalFilter::RegexFilter(regexes) => regexes.any_match(signal_name),
            SignalFilter::StrictSignalIdxFilter(idx_set) => idx_set.contains(signal_idx),
            SignalFilter::LooseSignalIdxFilter(idx_set) => idx_set.contains(signal_idx),
            SignalFilter::JGFilter(jg_signals) => {
                let name = String::from_str(signal_name);
                matches_any_jg_signal(&name, &jg_signals.jg_signals, Some(&jg_signals.jg_signals_transformed)).is_some()
            },
        }
    }

    pub fn estimate_size(&self) -> (r: usize)
        ensures
            r == filter_size(*self),
    {
        match self {
            SignalFilter::RegexFilter(regexes) => regexes.len(),
            SignalFilter::StrictSignalIdxFilter(idx_set) => idx_set.len(),
            SignalFilter::LooseSignalIdxFilter(idx_set) => idx_set.len(),
            SignalFilter::JGFilter(jg_signals) => jg_signals.len(),
        }
    }
}

/// A list of filters.
#[derive(Debug)]
pub struct SignalFilters {
    pub filters: Vec<SignalFilter>,
}

impl SignalFilters {
    pub fn new() -> (r: Self)
        ensures
            r.filters@ == Seq::<SignalFilter>::empty(),
    {
        SignalFilters { filters: Vec::new() }
    }

    pub fn add_filter(&mut self, filter: SignalFilter)
        ensures
            final(self).filters@ == old(self).filters@.push(filter),
    {
        self.filters.push(filter);
    }

    /// The signal passes some filter.
    pub fn check_signal_any_filter(&self, signal_name: &str, signal_idx: &u64) -> (r: bool)
        ensures
            r == exists|k: int| 0 <= k < self.filters@.len() && filter_accepts(#[trigger] self.filters@[k], signal_name@, *signal_idx),
    {
        let n = self.filters.len();
        for i in 0..n
            invariant
                n == self.filters@.len(),
                forall|k: int| 0 <= k < i ==> !filter_accepts(#[trigger] self.filters@[k], signal_name@, *signal_idx),
        {
            if self.filters[i].check_signal(signal_name, signal_idx) {
                return true;
            }
        }
        false
    }

    /// The signal passes every filter.
    pub fn check_signal_all_filters(&self, signal_name: &str, signal_idx: &u64) -> (r: bool)
        ensures
            r == forall|k: int| 0 <= k < self.filters@.len() ==> filter_accepts(#[trigger] self.filters@[k], signal_name@, *signal_idx),
    {
        let n = self.filters.len();
        for i in 0..n
            invariant
                n == self.filters@.len(),
                forall|k: int| 0 <= k < i ==> filter_accepts(#[trigger] self.filters@[k], signal_name@, *signal_idx),
        {
            if !self.filters[i].check_signal(signal_name, signal_idx) {
                return false;
            }
        }
        true
    }

    /// The smallest of zero and the filters' sizes, which is zero.
    pub fn estimate_max_length_matching_signals(&self) -> (r: usize)
        ensures
            r == 0,
    {
        let mut max_length: usize = 0;
        let n = self.filters.len();
        for i in 0..n
            invariant
                n == self.filters@.len(),
                max_length == 0,
        {
            let size = self.filters[i].estimate_size();
            if size < max_length {
                max_length = size;
            }
        }
        max_length
    }
}

} // verus!
