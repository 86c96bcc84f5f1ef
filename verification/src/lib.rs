//! A verified 9x9 Sudoku solver.
//!
//! A grid of 81 cells is loaded from raw digits (0 meaning blank), then
//! solved by deterministic singles propagation followed by backtracking
//! search. The solver either completes the grid so that every row, column
//! and 3x3 box holds each digit 1..9 exactly once, or reports that no such
//! completion exists.

pub mod model;
pub mod grid;
pub mod solver;
pub mod laws;

pub use grid::{Cell, CellS, LoadError, Sudoku};
pub use solver::SolveResult;
