//! Match policies and errors.
use vstd::prelude::*;

verus! {

/// How matches are reported; fixed when an automaton is built.
#[derive(Clone, Copy, Debug, PartialEq, Eq, Structural)]
pub enum MatchKind {
    /// Every occurrence, overlapping ones included.
    Standard,
    /// Non-overlapping, leftmost, longest at each start.
    LeftmostLongest,
    /// Non-overlapping, leftmost, earliest inserted pattern at each start.
    LeftmostFirst,
}

/// Why an automaton could not be built.
#[derive(Clone, Copy, Debug, PartialEq, Eq, Structural)]
pub enum ConstructionError {
    /// The pattern set holds no pattern.
    EmptyPatternSet,
    /// A pattern holds no character.
    EmptyPattern,
    /// A pattern occurs twice in the set.
    DuplicatePattern,
    /// An argument is out of the automaton's limits.
    InvalidArgument,
    /// The automaton would exceed its size limits.
    AutomatonScale,
    /// A value could not be converted.
    InvalidConversion,
}

/// Why a search was refused.
#[derive(Clone, Copy, Debug, PartialEq, Eq, Structural)]
pub enum SearchError {
    /// The search needs an automaton built under another match kind.
    PolicyMismatch,
}

} // verus!
