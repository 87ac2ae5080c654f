//! A constraint-propagation solver for 9x9 sudoku puzzles.

pub mod candidates;
pub mod color;
pub mod config;
pub mod element;
pub mod error;
pub mod laws;
pub mod model;
pub mod parse;
pub mod puzzle;
pub mod render;
pub mod route;
pub mod sample;

pub use element::Element;
pub use error::SudokuError;
pub use puzzle::{Puzzle, PuzzleState};
