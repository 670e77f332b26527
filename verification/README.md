# invariant_finder_rust

A library for finding separator formulas over hardware signal traces:
predicates over signals, their conjunctions and disjunctions, their
evaluation on sampled states, and the set-cover instance whose solution
picks the predicates that block the counterexamples while allowing the
benign examples. The library in `src/` is written in Verus; every function
carries a contract that the verifier proves, except the few trusted
wrappers around `hibitset`, `regex` and std (marked `external_body` or
`assume_specification`), whose contracts are believed as stated in their
doc comments.

## Layout

- `src/predicates.rs`, `src/smt_solver.rs`, `src/samples.rs`: predicates,
  formulas, and their evaluation on states and traces.
- `src/ordering.rs`: the orders in which scored formulas are ranked.
- `src/set_cover_instance.rs`: the set-cover instance and merging of states.
- `src/set_cover_preprocessing.rs` and `src/set_cover_preprocessing/`: the
  reductions of an instance (pruning and merging benign states, merging
  traces and predicates, removing dominated predicates), with the sums of
  weights they keep.
- `src/set_cover_heuristic.rs`: the greedy heuristic over traces.
- `src/set_cover_solver.rs`: the predicate groups behind the architecture
  constraints of the integer program.
- `src/invariant_searcher.rs`: choosing predicates within the take limits,
  and recognising CSR formulas.
- `src/allowed_signal_config.rs`: which predicates are generated per signal
  category.
- `src/jg_formatter.rs`, `src/data_types/`: signal names, signal filters,
  remapping of signals and the JasperGold text of formulas.
- `src/decision_tree.rs`, `src/architecture_checker.rs`, `src/commit_log.rs`,
  `src/cycle_types.rs`, `src/patterns.rs`, `src/text.rs`: the remaining
  pieces.
- `src/laws.rs`: properties that span several operations, stated and
  proved.
- `app/`: what computes in floating point (costs, upper bounds), reads JSON,
  or prints, around the library.
- `tests/`: tests of the library on concrete values.

## Checking

The library verifies with Verus; the tests run with `cargo test`.
