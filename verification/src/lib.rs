//! Separator formulas over hardware signal traces: predicates, their
//! conjunctions and disjunctions, and their evaluation on sampled states.

pub mod text;
pub mod constants;
pub mod data_types;
pub mod predicates;
pub mod ordering;
pub mod samples;
pub mod smt_solver;
pub mod laws;
pub mod decision_tree;
pub mod architecture_checker;
pub mod cycle_types;
pub mod allowed_signal_config;
pub mod set_cover_heuristic;
pub mod invariant_searcher;
pub mod set_cover_solver;
pub mod set_cover_instance;
pub mod set_cover_preprocessing;
pub mod commit_log;
pub mod jg_formatter;
pub mod patterns;
