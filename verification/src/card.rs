use vstd::prelude::*;

verus! {

/// One of the four French suits. Suits are never ordered; they matter only
/// for flush detection.
#[derive(Debug, PartialEq, Eq, Structural, Clone, Copy)]
pub enum Suit {
    Hearts,
    Diamonds,
    Clubs,
    Spades,
}

/// A card rank, Two lowest through Ace highest. The derived order follows
/// the declaration order, which matches the numeric weights below.
#[derive(Debug, PartialEq, Eq, Structural, Clone, Copy, PartialOrd, Ord)]
pub enum Rank {
    Two,
    Three,
    Four,
    Five,
    Six,
    Seven,
    Eight,
    Nine,
    Ten,
    Jack,
    Queen,
    King,
    Ace,
}

/// The numeric weight of a rank: 2 for Two up through 14 for Ace.
pub open spec fn rank_value(r: Rank) -> int {
    match r {
        Rank::Two => 2,
        Rank::Three => 3,
        Rank::Four => 4,
        Rank::Five => 5,
        Rank::Six => 6,
        Rank::Seven => 7,
        Rank::Eight => 8,
        Rank::Nine => 9,
        Rank::Ten => 10,
        Rank::Jack => 11,
        Rank::Queen => 12,
        Rank::King => 13,
        Rank::Ace => 14,
    }
}

/// Every rank's weight lies between 2 (Two) and 14 (Ace).
pub proof fn lemma_rank_value_range(r: Rank)
    ensures
        2 <= rank_value(r) <= 14,
{
}

/// Computes the numeric weight of a rank: 2 for Two up through 14 for Ace.
pub fn rank_weight(r: Rank) -> (v: u8)
    ensures
        v as int == rank_value(r),
{
    match r {
        Rank::Two => 2,
        Rank::Three => 3,
        Rank::Four => 4,
        Rank::Five => 5,
        Rank::Six => 6,
        Rank::Seven => 7,
        Rank::Eight => 8,
        Rank::Nine => 9,
        Rank::Ten => 10,
        Rank::Jack => 11,
        Rank::Queen => 12,
        Rank::King => 13,
        Rank::Ace => 14,
    }
}

/// The rank whose numeric weight is `v`.
pub fn rank_of_weight(v: u8) -> (r: Rank)
    requires
        2 <= v <= 14,
    ensures
        rank_value(r) == v as int,
{
    if v == 2 {
        Rank::Two
    } else if v == 3 {
        Rank::Three
    } else if v == 4 {
        Rank::Four
    } else if v == 5 {
        Rank::Five
    } else if v == 6 {
        Rank::Six
    } else if v == 7 {
        Rank::Seven
    } else if v == 8 {
        Rank::Eight
    } else if v == 9 {
        Rank::Nine
    } else if v == 10 {
        Rank::Ten
    } else if v == 11 {
        Rank::Jack
    } else if v == 12 {
        Rank::Queen
    } else if v == 13 {
        Rank::King
    } else {
        Rank::Ace
    }
}

/// An immutable (rank, suit) pair. Two cards are equal iff both fields match.
#[derive(Debug, PartialEq, Eq, Structural, Clone, Copy)]
pub struct Card {
    pub rank: Rank,
    pub suit: Suit,
}

/// The ten poker hand categories, declared in ascending order of strength,
/// so the derived order ranks HighCard lowest and RoyalFlush highest.
#[derive(Debug, PartialEq, Eq, Structural, Clone, Copy, PartialOrd, Ord)]
pub enum HandType {
    HighCard,
    OnePair,
    TwoPair,
    ThreeOfAKind,
    Straight,
    Flush,
    FullHouse,
    FourOfAKind,
    StraightFlush,
    RoyalFlush,
}

/// The position of a category in the fixed category order: 0 for HighCard
/// up through 9 for RoyalFlush.
pub open spec fn type_strength(t: HandType) -> int {
    match t {
        HandType::HighCard => 0,
        HandType::OnePair => 1,
        HandType::TwoPair => 2,
        HandType::ThreeOfAKind => 3,
        HandType::Straight => 4,
        HandType::Flush => 5,
        HandType::FullHouse => 6,
        HandType::FourOfAKind => 7,
        HandType::StraightFlush => 8,
        HandType::RoyalFlush => 9,
    }
}

/// No two categories share a position in the category order.
pub proof fn lemma_type_strength_injective(x: HandType, y: HandType)
    ensures
        type_strength(x) == type_strength(y) ==> x == y,
{
}

/// Computes the position of a category in the fixed category order.
pub fn type_strength_value(t: HandType) -> (v: u8)
    ensures
        v as int == type_strength(t),
{
    match t {
        HandType::HighCard => 0,
        HandType::OnePair => 1,
        HandType::TwoPair => 2,
        HandType::ThreeOfAKind => 3,
        HandType::Straight => 4,
        HandType::Flush => 5,
        HandType::FullHouse => 6,
        HandType::FourOfAKind => 7,
        HandType::StraightFlush => 8,
        HandType::RoyalFlush => 9,
    }
}

} // verus!
