use vstd::prelude::*;

verus! {

/// What can go wrong while reading or solving a board.
#[derive(Debug, Clone, Copy, PartialEq, Eq, Structural)]
pub enum Error {
    /// A solution failed a caller's own check.
    SolveError,
    /// A character of a board string is neither a digit nor a blank marker,
    /// or the string is longer than the board.
    ParseError,
    /// An index fell outside the board.
    IndexError,
    /// The board holds a contradiction. Carries the search counters of the
    /// board at that point.
    NoSolution { num_recursions: i32, guesses: i32 },
}

/// The result type of the solver's operations.
pub type Result<T> = core::result::Result<T, Error>;

} // verus!
