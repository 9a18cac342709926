use vstd::prelude::*;

verus! {

/// The ways building or parsing a hand can fail. Classification and
/// comparison themselves never fail: every error arises at construction.
#[derive(Debug, PartialEq, Eq, Structural, Clone, Copy)]
pub enum HandError {
    /// The input did not hold exactly 5 cards.
    WrongCardCount,
    /// A card token was shorter than 2 characters.
    MalformedCardToken,
    /// The rank portion of a card token matched no recognized symbol.
    InvalidRank,
    /// The suit portion of a card token matched no recognized symbol.
    InvalidSuit,
}

impl HandError {
    /// A short static reason string for this error.
    pub fn message(&self) -> (m: &'static str)
        ensures
            self is WrongCardCount ==> m@ == "A hand must contain exactly 5 cards"@,
            self is MalformedCardToken ==> m@ == "Card string too short"@,
            self is InvalidRank ==> m@ == "Invalid rank"@,
            self is InvalidSuit ==> m@ == "Invalid suit"@,
    {
        match self {
            HandError::WrongCardCount => "A hand must contain exactly 5 cards",
            HandError::MalformedCardToken => "Card string too short",
            HandError::InvalidRank => "Invalid rank",
            HandError::InvalidSuit => "Invalid suit",
        }
    }
}

} // verus!
