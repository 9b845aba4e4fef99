//! A Minesweeper probability solver.
//!
//! Given a partially revealed board, the solver turns each revealed number
//! into a constraint over its unclicked neighbours, partitions the
//! constraints into independent groups, enumerates every mine/safe
//! configuration satisfying each group, and aggregates the configuration
//! weights into an exact per-cell mine probability.

pub mod counting;
pub mod logic;
pub mod probs;
pub mod utils;
