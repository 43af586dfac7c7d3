//! A Sudoku solver: a constraint-tracking backtracking search over a 9×9
//! grid, with conversions from grids and text and renderings back to text.
//!
//! `Puzzle::solve` returns the fill of the puzzle that comes first in
//! row-major lexicographic order, or `None` when there is none; the
//! properties of that result are stated and proved in `laws`.

mod coords;
pub mod grid;
pub mod laws;
mod obstruction;
pub mod puzzle;
mod solver;
pub mod text;

pub use puzzle::{Puzzle, Solution, TryIntoPuzzleError};
pub use solver::solve_outcome;
