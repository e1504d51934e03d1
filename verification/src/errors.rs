//! The failure kinds the solvers report. Every rejected input is mapped
//! to one of these, so callers and tests can tell failures apart.

use vstd::prelude::*;

verus! {

#[derive(Clone, Copy, Debug, PartialEq, Eq, Structural)]
pub enum PuzzleError {
    /// The day id has no solver behind it.
    UnknownDay,
    /// The puzzle text holds no line at all.
    EmptyInput,
    /// A round line is not two tokens separated by a space.
    MalformedLine,
    /// A token that should name a hand shape does not.
    UnknownHand,
    /// A token that should name a round outcome does not.
    UnknownOutcome,
    /// A rucksack line holds a character outside `a`..`z`, `A`..`Z`.
    UnknownItem,
    /// The rucksack lines do not group into triples.
    IncompleteGroup,
    /// A line is not a pair of dash-separated integer ranges.
    MalformedRange,
    /// A diagram cell is neither blank nor a bracketed crate.
    ParseCrateError,
    /// A move line does not follow the instruction grammar.
    ParseInstructionError,
    /// The diagram is not followed by a label line and a blank line.
    ParseLineError,
    /// An instruction names a missing stack or takes too many crates.
    InvalidMove,
    /// The mathematical answer does not fit in the result type.
    AnswerOverflow,
}

} // verus!
