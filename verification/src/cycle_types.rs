//! The integer type of cycle counts, and conversions into and out of it.

use vstd::prelude::*;

verus! {

/// Cycle counts up to 4,294,967,295.
pub type CycleCount = u32;

/// Conversion between an integer type and `CycleCount`.
pub trait CycleCountConversion: Sized {
    /// The number a value stands for.
    spec fn count_value(&self) -> int;

    fn to_cycle_count(self) -> (r: CycleCount)
        requires
            self.count_value() <= u32::MAX,
        ensures
            r as int == self.count_value(),
    ;

    fn from_cycle_count(cycle: CycleCount) -> (r: Self)
        ensures
            r.count_value() == cycle as int,
    ;
}

impl CycleCountConversion for u64 {
    open spec fn count_value(&self) -> int {
        *self as int
    }

    fn to_cycle_count(self) -> (r: CycleCount) {
        self as u32
    }

    fn from_cycle_count(cycle: CycleCount) -> (r: Self) {
        cycle as u64
    }
}

impl CycleCountConversion for u32 {
    open spec fn count_value(&self) -> int {
        *self as int
    }

    fn to_cycle_count(self) -> (r: CycleCount) {
        self
    }

    fn from_cycle_count(cycle: CycleCount) -> (r: Self) {
        cycle
    }
}

impl CycleCountConversion for usize {
    open spec fn count_value(&self) -> int {
        *self as int
    }

    fn to_cycle_count(self) -> (r: CycleCount) {
        self as u32
    }

    fn from_cycle_count(cycle: CycleCount) -> (r: Self) {
        cycle as usize
    }
}

} // verus!
