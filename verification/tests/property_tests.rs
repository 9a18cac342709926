use poker_hands::parser::{parse_card, parse_hand};
use poker_hands::{Card, Hand, HandError, HandType, Rank, Suit};
use std::cmp::Ordering;

#[test]
fn test_compare_is_reflexive_on_samples() {
    let samples = [
        "AS KS QS JS 10S",
        "AH 2D 3C 4S 5H",
        "AH AD KC QS JH",
        "2C 2D 2H 2S 3C",
        "AH KD 2C 3S 4H",
    ];
    for s in samples {
        let hand = parse_hand(s).unwrap();
        assert_eq!(hand.compare(&hand), Ordering::Equal);
    }
}

#[test]
fn test_compare_is_antisymmetric_on_samples() {
    let pairs = [
        ("AS KS QS JS 10S", "AH AD AC AS KH"),
        ("AH 2D 3C 4S 5H", "6H 7D 8C 9S 10H"),
        ("AH AD KC QS JH", "AH AD QC JS 10H"),
        ("AH KH QH JH 10H", "AD KD QD JD 10D"),
    ];
    for (x, y) in pairs {
        let a = parse_hand(x).unwrap();
        let b = parse_hand(y).unwrap();
        assert_eq!(a.compare(&b), b.compare(&a).reverse());
    }
}

#[test]
fn test_compare_is_transitive_on_samples() {
    let low = parse_hand("AH KD 2C 3S 4H").unwrap();
    let mid = parse_hand("AH AD QC JS 10H").unwrap();
    let high = parse_hand("AS KS QS JS 10S").unwrap();

    assert_eq!(low.compare(&mid), Ordering::Less);
    assert_eq!(mid.compare(&high), Ordering::Less);
    assert_eq!(low.compare(&high), Ordering::Less);
}

#[test]
fn test_category_order_chain() {
    let hands = [
        parse_hand("AH KD 2C 3S 4H").unwrap(),   // high card
        parse_hand("AH AD 2C 3S 4H").unwrap(),   // one pair
        parse_hand("AH AD KH KD 2C").unwrap(),   // two pair
        parse_hand("AH AD AC 2H 3D").unwrap(),   // three of a kind
        parse_hand("10D JS QH KS AC").unwrap(),  // straight
        parse_hand("AH 3H 5H 7H 9H").unwrap(),   // flush
        parse_hand("AH AD AC KH KD").unwrap(),   // full house
        parse_hand("AH AD AC AS KH").unwrap(),   // four of a kind
        parse_hand("9S 8S 7S 6S 5S").unwrap(),   // straight flush
        parse_hand("AS KS QS JS 10S").unwrap(),  // royal flush
    ];
    for i in 0..hands.len() {
        for j in 0..i {
            assert_eq!(hands[i].compare(&hands[j]), Ordering::Greater);
            assert_eq!(hands[j].compare(&hands[i]), Ordering::Less);
        }
    }
}

#[test]
fn test_wheel_classifies_as_straight_and_loses_to_higher_straight() {
    let wheel = parse_hand("AH 2D 3C 4S 5H").unwrap();
    let six_to_ten = parse_hand("6H 7D 8C 9S 10H").unwrap();

    assert_eq!(wheel.evaluate(), HandType::Straight);
    assert_eq!(six_to_ten.evaluate(), HandType::Straight);
    assert_eq!(wheel.compare(&six_to_ten), Ordering::Less);
    assert!(wheel < six_to_ten);
}

#[test]
fn test_wheel_straight_flush_loses_to_higher_straight_flush() {
    let steel_wheel = parse_hand("AH 2H 3H 4H 5H").unwrap();
    let six_high = parse_hand("2D 3D 4D 5D 6D").unwrap();

    assert_eq!(steel_wheel.evaluate(), HandType::StraightFlush);
    assert_eq!(six_high.evaluate(), HandType::StraightFlush);
    assert_eq!(steel_wheel.compare(&six_high), Ordering::Less);
}

#[test]
fn test_royal_flush_beats_lesser_straight_flush() {
    let royal = parse_hand("AS KS QS JS 10S").unwrap();
    let nine_high = parse_hand("9H 8H 7H 6H 5H").unwrap();

    assert_eq!(royal.evaluate(), HandType::RoyalFlush);
    assert_eq!(nine_high.evaluate(), HandType::StraightFlush);
    assert_eq!(nine_high.compare(&royal), Ordering::Less);
}

#[test]
fn test_kicker_decides_between_equal_pairs() {
    let king_kicker = parse_hand("AH AD KC QS JH").unwrap();
    let queen_kicker = parse_hand("AH AD QC JS 10H").unwrap();

    assert_eq!(king_kicker.evaluate(), HandType::OnePair);
    assert_eq!(queen_kicker.evaluate(), HandType::OnePair);
    assert_eq!(king_kicker.compare(&queen_kicker), Ordering::Greater);
}

#[test]
fn test_royal_flushes_tie() {
    let hearts = parse_hand("AH KH QH JH 10H").unwrap();
    let diamonds = parse_hand("AD KD QD JD 10D").unwrap();

    assert_eq!(hearts.compare(&diamonds), Ordering::Equal);
    assert_eq!(hearts.partial_cmp(&diamonds), Some(Ordering::Equal));
}

#[test]
fn test_new_rejects_three_cards_with_wrong_card_count() {
    let cards = vec![
        Card { rank: Rank::Ace, suit: Suit::Hearts },
        Card { rank: Rank::King, suit: Suit::Hearts },
        Card { rank: Rank::Queen, suit: Suit::Hearts },
    ];
    assert_eq!(Hand::new(cards), Err(HandError::WrongCardCount));
}

#[test]
fn test_new_rejects_six_cards_with_wrong_card_count() {
    let cards = vec![
        Card { rank: Rank::Ace, suit: Suit::Hearts },
        Card { rank: Rank::King, suit: Suit::Hearts },
        Card { rank: Rank::Queen, suit: Suit::Hearts },
        Card { rank: Rank::Jack, suit: Suit::Hearts },
        Card { rank: Rank::Ten, suit: Suit::Hearts },
        Card { rank: Rank::Nine, suit: Suit::Hearts },
    ];
    assert_eq!(Hand::new(cards), Err(HandError::WrongCardCount));
}

#[test]
fn test_parse_error_variants() {
    assert_eq!(parse_card("1S"), Err(HandError::InvalidRank));
    assert_eq!(parse_card("AX"), Err(HandError::InvalidSuit));
    assert_eq!(parse_card("A"), Err(HandError::MalformedCardToken));
    assert_eq!(parse_card("11S"), Err(HandError::InvalidRank));
    assert_eq!(parse_hand("AS KS QS JS"), Err(HandError::WrongCardCount));
    assert_eq!(
        parse_hand("AS KS QS JS 10S 9S"),
        Err(HandError::WrongCardCount)
    );
    assert_eq!(parse_hand("AS KS QS JS 1S"), Err(HandError::InvalidRank));
    assert_eq!(parse_hand("AS KS QS JS 10X"), Err(HandError::InvalidSuit));
}

#[test]
fn test_error_messages() {
    assert_eq!(
        HandError::WrongCardCount.message(),
        "A hand must contain exactly 5 cards"
    );
    assert_eq!(HandError::MalformedCardToken.message(), "Card string too short");
    assert_eq!(HandError::InvalidRank.message(), "Invalid rank");
    assert_eq!(HandError::InvalidSuit.message(), "Invalid suit");
}

#[test]
fn test_parse_hand_tolerates_extra_whitespace() {
    let hand = parse_hand("  AS\tKS  QS JS 10S ").unwrap();
    assert_eq!(hand.evaluate(), HandType::RoyalFlush);
}

#[test]
fn test_get_sorted_ranks_orders_descending() {
    let hand = parse_hand("10H 9D AC 9S 2H").unwrap();
    let ranks = hand.get_sorted_ranks();
    assert_eq!(
        ranks,
        vec![Rank::Ace, Rank::Ten, Rank::Nine, Rank::Nine, Rank::Two]
    );
}

#[test]
fn test_get_rank_counts_histogram() {
    let hand = parse_hand("10H 9D AC 9S 2H").unwrap();
    let counts = hand.get_rank_counts();
    let expected: [u8; 13] = [1, 0, 0, 0, 0, 0, 0, 2, 1, 0, 0, 0, 1];
    assert_eq!(counts, expected);
}

#[test]
fn test_full_house_tie_breaks_by_high_cards() {
    let aces_over_kings = parse_hand("AH AD AC KH KD").unwrap();
    let kings_over_aces = parse_hand("KH KD KC AH AD").unwrap();

    assert_eq!(aces_over_kings.evaluate(), HandType::FullHouse);
    assert_eq!(kings_over_aces.evaluate(), HandType::FullHouse);
    // Descending-rank positional comparison: A A A K K vs A A K K K.
    assert_eq!(aces_over_kings.compare(&kings_over_aces), Ordering::Greater);
}

#[test]
fn test_flush_tie_break_matches_sorted_rank_comparison() {
    let a = parse_hand("AH 10H 8H 6H 4H").unwrap();
    let b = parse_hand("AD 10D 8D 5D 4D").unwrap();
    let ra = a.get_sorted_ranks();
    let rb = b.get_sorted_ranks();
    let mut positional = Ordering::Equal;
    for i in 0..5 {
        if ra[i] != rb[i] {
            positional = if ra[i] > rb[i] { Ordering::Greater } else { Ordering::Less };
            break;
        }
    }
    assert_eq!(positional, Ordering::Greater);
    assert_eq!(a.compare(&b), positional);
}

#[test]
fn test_duplicate_cards_are_representable() {
    // The core does not itself enforce the no-duplicate invariant: five
    // identical hearts hold no rank four times, so only the flush fires.
    let hand = parse_hand("AH AH AH AH AH").unwrap();
    assert_eq!(hand.evaluate(), HandType::Flush);
}
