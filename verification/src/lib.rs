//! A solver and generator for 9×9 Sudoku grids.
//!
//! A grid is a sequence of 81 cells, read row by row; a cell holds 0 when it
//! is empty and a value from 1 to 9 otherwise.  The solver counts the ways a
//! grid can be completed, up to a limit chosen by the caller, and the
//! generator produces puzzles that have exactly one completion.
pub mod bits;
pub mod codec;
pub mod completion;
pub mod generate;
pub mod grid;
pub mod laws;
pub mod order;
pub mod propagate;
pub mod search;
pub mod shuffle;
pub mod sudoku;

pub use crate::sudoku::Sudoku;
