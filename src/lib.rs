//! A 9×9 Sudoku board with rule queries and a backtracking solver, and the
//! loading of a board from comma-separated text.
use vstd::prelude::*;

pub mod board;
pub mod loader;
pub mod render;

verus! {

} // verus!
