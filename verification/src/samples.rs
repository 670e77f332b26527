//! Sampled states of recorded waveforms, and the traces and example sets that
//! group them.

use vstd::prelude::*;
use std::collections::HashMap;
use std::sync::Arc;
use crate::data_types::general_data_types::BitSetWrapper;
use crate::data_types::general_data_types::WaveFormSource;
use crate::data_types::general_data_types::bitset_index_ok;

verus! {

broadcast use vstd::std_specs::hash::group_hash_axioms;

/// The id registered for a signal name: the first entry with that name.
pub open spec fn first_id_of(entries: Seq<(String, u64)>, name: Seq<char>) -> Option<u64>
    decreases entries.len(),
{
    if entries.len() == 0 {
        None
    } else if entries[0].0@ == name {
        Some(entries[0].1)
    } else {
        first_id_of(entries.drop_first(), name)
    }
}

/// The id registered for a signal name: the first entry with that name.
pub fn first_id(entries: &Vec<(String, u64)>, name: &str) -> (r: Option<u64>)
    ensures
        r == first_id_of(entries@, name@),
{
    let wanted: String = name.to_owned();
    let n = entries.len();
    let mut i: usize = 0;
    assert(entries@.skip(0) =~= entries@);
    while i < n
        invariant
            n == entries@.len(),
            i <= n,
            wanted@ == name@,
            first_id_of(entries@, name@) == first_id_of(entries@.skip(i as int), name@),
        decreases n - i,
    {
        let ghost rest = entries@.skip(i as int);
        assert(rest.drop_first() =~= entries@.skip(i + 1));
        assert(rest[0] == entries@[i as int]);
        if entries[i].0 == wanted {
            return Some(entries[i].1);
        }
        i = i + 1;
    }
    None
}

/// The values of the recorded signals in one state.
#[derive(Debug)]
pub struct StateMapping {
    /// Signal values, in the order given by `signal_id_to_index`.
    pub signal_values: Vec<i64>,
    /// Position in `signal_values` of each signal id.
    pub signal_id_to_index: HashMap<u64, usize>,
    /// Signal names with their ids.
    pub string_to_id: Vec<(String, u64)>,
    /// Identifier of the state.
    pub state_id: u64,
}

impl StateMapping {
    /// The value of signal `id` can be read.
    pub open spec fn index_known(&self, id: u64) -> bool {
        &&& self.signal_id_to_index@.contains_key(id)
        &&& self.signal_id_to_index@[id] < self.signal_values@.len()
    }

    /// The value of signal `id`.
    pub open spec fn value_at(&self, id: u64) -> i64 {
        self.signal_values@[self.signal_id_to_index@[id] as int]
    }

    /// The id registered for a signal name.
    pub open spec fn name_id(&self, name: Seq<char>) -> Option<u64> {
        first_id_of(self.string_to_id@, name)
    }

    /// A signal given by index, or by name where the index is missing, can be read.
    pub open spec fn resolves(&self, idx: Option<u64>, name: Seq<char>) -> bool {
        match idx {
            Some(i) => self.index_known(i),
            None => match self.name_id(name) {
                Some(i) => self.index_known(i),
                None => false,
            },
        }
    }

    /// The value of a signal given by index, or by name where the index is missing.
    pub open spec fn signal_value(&self, idx: Option<u64>, name: Seq<char>) -> i64 {
        match idx {
            Some(i) => self.value_at(i),
            None => self.value_at(self.name_id(name).unwrap()),
        }
    }

    pub fn get_signal_value_from_index(&self, signal_id: &u64) -> (r: i64)
        requires
            self.index_known(*signal_id),
        ensures
            r == self.value_at(*signal_id),
    {
        let idx = *self.signal_id_to_index.get(signal_id).unwrap();
        self.signal_values[idx]
    }

    pub fn get_signal_value_from_string(&self, signal_name: &str) -> (r: i64)
        requires
            self.resolves(None, signal_name@),
        ensures
            r == self.signal_value(None, signal_name@),
    {
        let id = first_id(&self.string_to_id, signal_name).unwrap();
        self.get_signal_value_from_index(&id)
    }
}

/// One state of a trace, with the cycle it was recorded at.
#[derive(Debug)]
pub struct ContainedState {
    pub state_id: u64,
    pub and_cycle: u64,
    pub state_pointer: Arc<StateMapping>,
}

/// A recorded waveform as the sequence of its sampled states.
#[derive(Debug)]
pub struct CexTrace {
    pub contained_samples: Vec<ContainedState>,
    pub from_path: String,
    pub file_source: Option<WaveFormSource>,
    pub weight: u64,
}

/// Some state of the trace is in `blocked`.
pub open spec fn trace_covered(samples: Seq<ContainedState>, blocked: Set<u32>) -> bool {
    exists|k: int| 0 <= k < samples.len() && blocked.contains(#[trigger] samples[k].state_id as u32)
}

impl CexTrace {
    /// A trace is blocked when at least one of its states is blocked.
    pub fn is_covered_by_blocked_states(&self, blocked_states: &BitSetWrapper) -> (r: bool)
        ensures
            r == trace_covered(self.contained_samples@, blocked_states@),
    {
        let n = self.contained_samples.len();
        for i in 0..n
            invariant
                n == self.contained_samples@.len(),
                forall|k: int| 0 <= k < i ==> !blocked_states@.contains(#[trigger] self.contained_samples@[k].state_id as u32),
        {
            let id: u32 = self.contained_samples[i].state_id as u32;
            if blocked_states.contains(&id) {
                return true;
            }
        }
        false
    }
}

/// One benign state, with how often it was seen.
#[derive(Debug)]
pub struct Sample {
    pub state_id: u64,
    pub and_cycle: u64,
    pub from_path: String,
    pub occurrence_count: u64,
    pub state_pointer: Arc<StateMapping>,
}

/// The examples a formula is learned from: all sampled states, the
/// counterexample traces it should block, and the benign traces and states
/// it should allow.
#[derive(Debug)]
pub struct Teacher {
    pub states: Vec<Arc<StateMapping>>,
    pub cex_traces: Vec<CexTrace>,
    pub bex_traces: Vec<CexTrace>,
    pub bex_samples: Vec<Sample>,
}

} // verus!
