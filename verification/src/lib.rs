//! Problem descriptions for a solver that minimises the L1 or L2 norm of `x`
//! under linear constraints `a_i^T x (<=, >=, ==, in [b0, b1]) b`: their
//! types, the verified reader of the problem text format, and the verified
//! control of a solver run.
pub mod file_parser;
pub mod float_literal;
pub mod problem;
pub mod solve_loop;
pub mod text;

pub use file_parser::{parse_problem_report, parse_problem_str, parse_sense, ParseError, ParseReport};
pub use problem::{ConstraintSense, Objective, ProblemConfig, SenseType, SolverType};
pub use solve_loop::{SolveLoop, SolveOutcome, SolveStep};
