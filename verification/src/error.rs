//! The ways in which an operation of this crate can fail.

use vstd::prelude::*;

verus! {

/// Why an operation failed. The kinds are kept apart so that a caller can tell
/// a malformed input from a well-formed puzzle that has no solution.
#[derive(Debug, Clone, Copy, PartialEq, Eq, Structural)]
pub enum SudokuError {
    /// A character that is not one of the ten ASCII digits.
    InvalidCharacter,
    /// A puzzle text that is not exactly 81 digits.
    Malformed,
    /// A row or column beyond 8, or a linear index beyond 80.
    OutOfRange,
    /// The puzzle is well-formed but no completion satisfies the constraints.
    NoSolution,
}

} // verus!
