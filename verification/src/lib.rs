//! A 9x9 sudoku solver and a compact binary codec for puzzle exchange.
//!
//! The solver ([`solve::solve`]) is an exhaustive constraint-propagation
//! backtracking search over [`board::Board`] with an optional
//! uniqueness-proof mode. The adaptive codec ([`predictive`]) writes each
//! cell in a bit-width derived from the live candidate count, so its decoder
//! re-runs the encoder's candidate computation; a run-length code captures
//! which cells were blank. A naive fixed-width nibble codec ([`simple`])
//! ships alongside it, and [`parse`] reads both the literal 81-digit text
//! and the base64-wrapped compact form.
pub mod board;
pub mod calc;
pub mod errors;
pub mod parse;
pub mod predictive;
pub mod simple;
pub mod solve;
pub mod tools;
