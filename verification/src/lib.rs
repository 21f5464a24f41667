//! A brute-force constraint solver for 9x9 Sudoku puzzles.
//!
//! A [`grid::Board`] holds 81 cells, each empty or a digit 1..=9, and answers
//! consistency and completeness queries.  [`grid::Board::solve`] runs an
//! exhaustive depth-first search with eager pruning and returns the first
//! solution found under a fixed search order, together with the number of
//! board states examined.

pub mod grid;
pub mod render;
pub mod solver;
