//! Splitting aid for Quantified Boolean Formulas in QDIMACS form.
//!
//! The crate parses QDIMACS text extended with integer-split directives,
//! enumerates assumption vectors over the quantifier prefix, clones
//! assumption-enriched sub-formulas, serializes them back to QDIMACS, reads
//! solver verdicts out of benchmark logs, and fuses per-leaf verdicts along
//! the quantifier prefix into one end-to-end result.

pub mod emit;
pub mod logscan;
pub mod nums;
pub mod parse;
pub mod reduce;
pub mod splits;
pub mod types;

pub use emit::{assume_split, log_file_name, split_file_name, write_qdimacs};
pub use logscan::extract_result_from_log;
pub use nums::sign;
pub use parse::{parse_qdimacs, var_constraint_to_nr_of_bits, ParseError};
pub use reduce::{
    produce_statistics_from_run, quant_from_prefix, reduce_result, Quantifier, ReduceError,
    SolveStatistics, NO_SOLVER_MILLIS,
};
pub use splits::to_u64;
pub use types::{
    Formula, FormulaVars, IntegerSplit, IntegerSplitConstraint, IntegerSplitKind, SolverResult,
    SolverReturnCode,
};
