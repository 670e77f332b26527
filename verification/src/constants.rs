//! Tuning constants of the separator search, the limits on how many
//! predicates of each kind are taken, and the thresholds derived from scores.
use vstd::prelude::*;
use std::sync::atomic::AtomicUsize;

verus! {

pub const STOP_AT_PERCENT_FULFILLED: i32 = 0;
pub const DEFAULT_REQUIRED_BEX_FULFILLED: u16 = 100;
pub const MAX_INSTRUCTION_CYCLE_LENGTH: u64 = 30;
pub const MAX_INSTRUCTION_LIFETIME_REFCORE: u64 = 3;
pub const NUM_THREADS: usize = 50;
pub const OPCODE_CSR: i64 = 0x73;
pub const OPCODE_RTYPE: i64 = 0x33;
pub const OPCODE_ITYPE_ARITHMETIC: i64 = 0x13;
pub const OPCODE_STYPE: i64 = 0x23;
pub const OPCODE_BTYPE: i64 = 0x63;
pub const MAX_NUM_BEX: usize = 15000;
pub const FORCE_BEX_CYCLES_TO_NON_COVERED: bool = true;
pub const PREDICATES_GENERATE_BEX_PREDICATES_ONLY_FROM_CEX_CYCLES: bool = true;
pub const SOLVE_STATES_INSTEAD_OF_TRACES: bool = false;
pub const HEURISTIC_MERGE_STATES_OPTIMIZATION: bool = false;
pub const MAX_CONTROL_SIGNAL_LENGTH: usize = 7;

/// How many predicates of each kind the search takes.
#[derive(Debug, Clone, Copy)]
pub struct PredicateTakeLimits {
    pub control_predicates: usize,
    pub regular_predicates: usize,
    pub not_equal_predicates: usize,
    pub signal_equal_predicates: usize,
}

impl PredicateTakeLimits {
    /// The limits the search starts with.
    pub fn default_limits() -> (l: Self)
        ensures
            l.control_predicates == 50,
            l.regular_predicates == 50,
            l.not_equal_predicates == 30,
            l.signal_equal_predicates == 50,
    {
        PredicateTakeLimits {
            control_predicates: 50,
            regular_predicates: 50,
            not_equal_predicates: 30,
            signal_equal_predicates: 50,
        }
    }
}

/// Predicate limits that can be changed while searches run on other threads.
pub struct PredicateTakeLimitsAtomic {
    control_predicates: AtomicUsize,
    regular_predicates: AtomicUsize,
    not_equal_predicates: AtomicUsize,
    signal_equal_predicates: AtomicUsize,
}

impl PredicateTakeLimitsAtomic {
    pub fn new(
        control_predicates: usize,
        regular_predicates: usize,
        not_equal_predicates: usize,
        signal_equal_predicates: usize,
    ) -> Self {
        Self {
            control_predicates: AtomicUsize::new(control_predicates),
            regular_predicates: AtomicUsize::new(regular_predicates),
            not_equal_predicates: AtomicUsize::new(not_equal_predicates),
            signal_equal_predicates: AtomicUsize::new(signal_equal_predicates),
        }
    }

    /// A snapshot of the four limits; other threads may store in between the four loads.
    pub fn load(&self, ordering: std::sync::atomic::Ordering) -> PredicateTakeLimits {
        PredicateTakeLimits {
            control_predicates: self.control_predicates.load(ordering),
            regular_predicates: self.regular_predicates.load(ordering),
            not_equal_predicates: self.not_equal_predicates.load(ordering),
            signal_equal_predicates: self.signal_equal_predicates.load(ordering),
        }
    }

    pub fn store_control_predicates(&self, value: usize, ordering: std::sync::atomic::Ordering) {
        self.control_predicates.store(value, ordering);
    }

    pub fn store_regular_predicates(&self, value: usize, ordering: std::sync::atomic::Ordering) {
        self.regular_predicates.store(value, ordering);
    }

    pub fn store_not_equal_predicates(&self, value: usize, ordering: std::sync::atomic::Ordering) {
        self.not_equal_predicates.store(value, ordering);
    }

    pub fn store_signal_equal_predicates(&self, value: usize, ordering: std::sync::atomic::Ordering) {
        self.signal_equal_predicates.store(value, ordering);
    }
}

/// `total * percent / 100`, rounded to the nearest integer, halves away from zero.
pub open spec fn spec_rounded_percent(total: int, percent: int) -> int {
    (total * percent * 2 + 100) / 200
}

/// How many benign examples must stay allowed: `required_percent` percent of
/// `total_num_bex`, rounded to the nearest integer.
pub fn min_num_bex_fulfilled(total_num_bex: usize, required_percent: u16) -> (r: usize)
    requires
        total_num_bex as int * required_percent as int * 2 + 100 <= u64::MAX,
        spec_rounded_percent(total_num_bex as int, required_percent as int) <= i32::MAX,
    ensures
        r == spec_rounded_percent(total_num_bex as int, required_percent as int),
{
    let t = total_num_bex as u64;
    let p = required_percent as u64;
    assert(t * p * 2 + 100 <= u64::MAX) by (nonlinear_arith)
        requires t * p * 2 + 100 <= u64::MAX;
    let x: u64 = (t * p * 2 + 100) / 200;
    x as usize
}

/// How many counterexamples must be blocked: `STOP_AT_PERCENT_FULFILLED`
/// percent of `total_num_cex`, rounded; that percentage is zero.
pub fn min_num_cex_fulfilled(total_num_cex: usize) -> (r: usize)
    ensures
        r == spec_rounded_percent(total_num_cex as int, STOP_AT_PERCENT_FULFILLED as int),
        r == 0,
{
    assert(spec_rounded_percent(total_num_cex as int, 0) == 0) by (nonlinear_arith);
    0
}

/// The mathematical value of a machine integer.
pub open spec fn i64_val(x: i64) -> int {
    x as int
}

pub open spec fn u32_val(x: u32) -> int {
    x as int
}

pub open spec fn u8_val(x: u8) -> int {
    x as int
}

pub open spec fn usize_val(x: usize) -> int {
    x as int
}

pub open spec fn nat_val(x: nat) -> int {
    x as int
}

/// Integer division rounding toward zero, as `/` on machine integers does.
pub open spec fn trunc_div(a: int, b: int) -> int {
    if a >= 0 { a / b } else { -((-a) / b) }
}

/// A fifth of the best combined score, truncated toward zero.
pub fn get_cex_and_bex_score_threshold(current_best_cex_and_bex_score: i64) -> (r: i64)
    requires
        i64::MIN <= current_best_cex_and_bex_score * 20 <= i64::MAX,
    ensures
        r == trunc_div(current_best_cex_and_bex_score * 20, 100),
{
    (current_best_cex_and_bex_score * 20) / 100
}

/// 110 percent of the best combined score, truncated toward zero.
pub fn get_cex_fulfilled_threshold(current_best_cex_and_bex_score: i64) -> (r: i64)
    requires
        i64::MIN <= current_best_cex_and_bex_score * 110 <= i64::MAX,
    ensures
        r == trunc_div(current_best_cex_and_bex_score * 110, 100),
{
    (current_best_cex_and_bex_score * 110) / 100
}

} // verus!
