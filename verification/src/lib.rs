//! A sudoku board with per-unit candidate masks, a backtracking solver, a
//! solution counter and a puzzle generator, verified with Verus.
pub mod grid;
pub mod bits;
pub mod rules;
pub mod playfield;
pub mod shuffle;
pub mod laws;
pub mod ui;
