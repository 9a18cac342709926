use poker_hands::{HandType, Rank};

#[test]
fn test_rank_ordering() {
    assert!(Rank::Ace > Rank::King);
    assert!(Rank::King > Rank::Queen);
    assert!(Rank::Queen > Rank::Jack);
    assert!(Rank::Jack > Rank::Ten);
    assert!(Rank::Ten > Rank::Nine);
    assert!(Rank::Nine > Rank::Eight);
    assert!(Rank::Eight > Rank::Seven);
    assert!(Rank::Seven > Rank::Six);
    assert!(Rank::Six > Rank::Five);
    assert!(Rank::Five > Rank::Four);
    assert!(Rank::Four > Rank::Three);
    assert!(Rank::Three > Rank::Two);
}

#[test]
fn test_hand_type_ordering() {
    assert!(HandType::RoyalFlush > HandType::StraightFlush);
    assert!(HandType::StraightFlush > HandType::FourOfAKind);
    assert!(HandType::FourOfAKind > HandType::FullHouse);
    assert!(HandType::FullHouse > HandType::Flush);
    assert!(HandType::Flush > HandType::Straight);
    assert!(HandType::Straight > HandType::ThreeOfAKind);
    assert!(HandType::ThreeOfAKind > HandType::TwoPair);
    assert!(HandType::TwoPair > HandType::OnePair);
    assert!(HandType::OnePair > HandType::HighCard);
}
