use vstd::prelude::*;

verus! {

/// Everything the engine reports instead of panicking.
#[derive(Clone, Copy, Debug, PartialEq, Eq, Structural)]
pub enum EngineError {
    /// A word does not have exactly five letters.
    InvalidWordLength,
    /// A five-character word holds something other than `a`..=`z`.
    InvalidLetter,
    /// A guess that is not in the acceptable set.
    WordNotInAcceptableSet,
    /// A word of the final set is missing from the acceptable set.
    FinalSetNotSubsetOfAcceptableSet,
    /// The secret word is not in the final set.
    SecretNotInFinalSet,
    /// A guess breaks the rules of hard mode.
    HardModeViolation,
    /// The round is already won or lost.
    RoundOver,
    /// A history whose round count differs from its number of games.
    RoundCountMismatch,
    /// The requested round lies beyond the end of the final set.
    DayOutOfRange,
    /// New feedback disagrees with what earlier feedback established.
    ContradictoryConstraint,
}

} // verus!
