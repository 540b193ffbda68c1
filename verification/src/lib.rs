//! Generator for 9x9 Sudoku puzzles.
//!
//! A randomized backtracking filler produces a complete valid grid, a
//! solution-counting solver decides whether a partial grid still has a
//! unique completion, and the hole poker removes values one by one while
//! that uniqueness is preserved.

use vstd::prelude::*;

pub mod fill;
pub mod grid;
pub mod holes;
pub mod laws;
mod shuffle;
pub mod solver;

pub use grid::App;
pub use grid::Cell;

verus! {

} // verus!
