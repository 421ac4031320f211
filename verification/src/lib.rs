//! An interactive Sudoku board kept solved-as-far-as-possible by pure
//! constraint propagation: after every single-cell edit the board is reset to
//! the user's own entries and re-derived to a fixpoint of two deduction
//! rules, the naked single and the hidden single.

pub mod board;
pub mod engine;
pub mod laws;
