//! A 9×9 Sudoku board and a backtracking solver, verified with Verus.
//!
//! `grid` holds the mathematical model that the contracts speak of, `search`
//! says what the solver finds and proves it sound and complete, `sudoku` is
//! the board, `solver` the search on it, `parse` and `render` read and write
//! boards as text.

pub mod grid;
pub mod grid_lemmas;
pub mod parse;
pub mod render;
pub mod search;
pub mod solver;
pub mod sudoku;

pub use crate::parse::BoardError;
pub use crate::sudoku::Sudoku;
