use vstd::prelude::*;

verus! {

/// The ways in which building a matcher or querying it can fail.
#[derive(Debug, Clone, Copy, PartialEq, Eq, Structural)]
pub enum BmError {
    /// The pattern has fewer than two symbols.
    InvalidPatternLength,
    /// A symbol is not a member of the alphabet.
    SymbolNotInAlphabet(char),
    /// An offset is not below the pattern length.
    InvalidOffset(usize),
}

} // verus!
