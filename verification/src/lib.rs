//! A 9x9 Sudoku board with a verified constraint checker and a verified
//! iterative backtracking solver.
//!
//! The board is a flat row-major vector of 81 cells, each `'.'` (empty) or a
//! digit `'1'..'9'`. The solver fills the empty cells depth-first, trying
//! digits in ascending order, and unwinds an explicit stack of choice points
//! on dead ends; it stops when the board is complete, when the search space
//! is exhausted, or when an iteration budget runs out.

pub mod board;
pub mod solver;
