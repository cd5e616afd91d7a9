//! Verified core of an N-puzzle (sliding tile) solver: grid utilities, a
//! solvability pre-check, heuristic evaluators, neighbor generation and a
//! weighted best-first search with path reconstruction.

pub mod checker;
pub mod generator;
pub mod heuristics;
pub mod input_parser;
pub mod solver;
pub mod sums;
pub mod types;
pub mod util;
