//! Why a puzzle could not be solved.

use vstd::prelude::*;

verus! {

/// Enum of error types
#[derive(PartialEq, Eq, Structural, Clone, Copy, Debug)]
pub enum SudokuError {
    /// A cell ran out of candidates: its row and column (from 0), and its
    /// final value (from 1), or 0 when it had none
    PuzzleStateInconsistent(usize, usize, usize),
    /// Puzzle unsolved, but forward progress made
    PuzzleUnsolved,
    /// Puzzle unsolvable - no forward progress made
    PuzzleUnsolvable,
}

} // verus!
