use vstd::prelude::*;

use crate::card::{Card, Rank, Suit};
use crate::error::HandError;
use crate::hand::Hand;

verus! {

/// The whitespace characters that separate card tokens.
pub open spec fn is_space(c: char) -> bool {
    c == ' ' || c == '\t' || c == '\n' || c == '\r'
}

/// The rank named by the rank portion of a card token: one of "2" through
/// "9", "10", "J", "Q", "K" or "A".
pub open spec fn rank_of_token(t: Seq<char>) -> Option<Rank> {
    if t.len() == 1 {
        if t[0] == '2' {
            Some(Rank::Two)
        } else if t[0] == '3' {
            Some(Rank::Three)
        } else if t[0] == '4' {
            Some(Rank::Four)
        } else if t[0] == '5' {
            Some(Rank::Five)
        } else if t[0] == '6' {
            Some(Rank::Six)
        } else if t[0] == '7' {
            Some(Rank::Seven)
        } else if t[0] == '8' {
            Some(Rank::Eight)
        } else if t[0] == '9' {
            Some(Rank::Nine)
        } else if t[0] == 'J' {
            Some(Rank::Jack)
        } else if t[0] == 'Q' {
            Some(Rank::Queen)
        } else if t[0] == 'K' {
            Some(Rank::King)
        } else if t[0] == 'A' {
            Some(Rank::Ace)
        } else {
            None
        }
    } else if t.len() == 2 && t[0] == '1' && t[1] == '0' {
        Some(Rank::Ten)
    } else {
        None
    }
}

/// The suit named by the final character of a card token.
pub open spec fn suit_of_char(c: char) -> Option<Suit> {
    if c == 'H' {
        Some(Suit::Hearts)
    } else if c == 'D' {
        Some(Suit::Diamonds)
    } else if c == 'C' {
        Some(Suit::Clubs)
    } else if c == 'S' {
        Some(Suit::Spades)
    } else {
        None
    }
}

/// What parsing one card token yields: tokens shorter than 2 characters
/// are malformed; otherwise all but the last character name the rank and
/// the last character names the suit, the rank being checked first.
pub open spec fn parse_card_spec(t: Seq<char>) -> Result<Card, HandError> {
    if t.len() < 2 {
        Err(HandError::MalformedCardToken)
    } else {
        match rank_of_token(t.subrange(0, t.len() - 1)) {
            Option::None => Err(HandError::InvalidRank),
            Option::Some(rank) => match suit_of_char(t.last()) {
                Option::None => Err(HandError::InvalidSuit),
                Option::Some(suit) => Ok(Card { rank, suit }),
            },
        }
    }
}

/// The whitespace-separated tokens of `s` from position `i` on, given the
/// partial token `cur` read so far and the tokens `acc` already complete.
pub open spec fn tokens_from(
    s: Seq<char>,
    i: int,
    cur: Seq<char>,
    acc: Seq<Seq<char>>,
) -> Seq<Seq<char>>
    decreases s.len() - i,
{
    if i < 0 || i >= s.len() {
        if cur.len() == 0 {
            acc
        } else {
            acc.push(cur)
        }
    } else if is_space(s[i]) {
        if cur.len() == 0 {
            tokens_from(s, i + 1, cur, acc)
        } else {
            tokens_from(s, i + 1, Seq::empty(), acc.push(cur))
        }
    } else {
        tokens_from(s, i + 1, cur.push(s[i]), acc)
    }
}

/// The maximal whitespace-free runs of `s`, in order.
pub open spec fn split_tokens(s: Seq<char>) -> Seq<Seq<char>> {
    tokens_from(s, 0, Seq::empty(), Seq::empty())
}

/// What parsing a token list yields: the cards in order when every token
/// parses, and otherwise the error of the first token that fails.
pub open spec fn parse_cards_spec(ts: Seq<Seq<char>>) -> Result<Seq<Card>, HandError>
    decreases ts.len(),
{
    if ts.len() == 0 {
        Ok(Seq::empty())
    } else {
        match parse_card_spec(ts.first()) {
            Result::Err(e) => Err(e),
            Result::Ok(c) => match parse_cards_spec(ts.drop_first()) {
                Result::Err(e) => Err(e),
                Result::Ok(rest) => Ok(seq![c] + rest),
            },
        }
    }
}

/// What parsing a whole hand string yields: exactly 5 whitespace-separated
/// tokens, each a valid card token; a wrong token count is reported before
/// any card error.
pub open spec fn parse_hand_spec(s: Seq<char>) -> Result<Seq<Card>, HandError> {
    let ts = split_tokens(s);
    if ts.len() != 5 {
        Err(HandError::WrongCardCount)
    } else {
        parse_cards_spec(ts)
    }
}

/// The views of a vector of string slices.
pub open spec fn token_views(ts: Seq<&str>) -> Seq<Seq<char>> {
    ts.map_values(|t: &str| t@)
}

/// Whether `c` is one of the whitespace characters that separate tokens.
fn is_space_char(c: char) -> (b: bool)
    ensures
        b == is_space(c),
{
    c == ' ' || c == '\t' || c == '\n' || c == '\r'
}

/// Parses one card token such as "AS" or "10D": all but the last character
/// name the rank, the last character names the suit.
pub fn parse_card(card_str: &str) -> (r: Result<Card, HandError>)
    ensures
        r == parse_card_spec(card_str@),
{
    let n = card_str.unicode_len();
    if n < 2 {
        return Err(HandError::MalformedCardToken);
    }
    let ghost t = card_str@;
    let ghost rt = t.subrange(0, t.len() - 1);
    let mut rank_opt: Option<Rank> = None;
    if n == 2 {
        let c = card_str.get_char(0);
        proof {
            assert(rt.len() == 1);
            assert(rt[0] == t[0]);
        }
        rank_opt = if c == '2' {
            Some(Rank::Two)
        } else if c == '3' {
            Some(Rank::Three)
        } else if c == '4' {
            Some(Rank::Four)
        } else if c == '5' {
            Some(Rank::Five)
        } else if c == '6' {
            Some(Rank::Six)
        } else if c == '7' {
            Some(Rank::Seven)
        } else if c == '8' {
            Some(Rank::Eight)
        } else if c == '9' {
            Some(Rank::Nine)
        } else if c == 'J' {
            Some(Rank::Jack)
        } else if c == 'Q' {
            Some(Rank::Queen)
        } else if c == 'K' {
            Some(Rank::King)
        } else if c == 'A' {
            Some(Rank::Ace)
        } else {
            None
        };
    } else if n == 3 {
        let c0 = card_str.get_char(0);
        let c1 = card_str.get_char(1);
        proof {
            assert(rt.len() == 2);
            assert(rt[0] == t[0]);
            assert(rt[1] == t[1]);
        }
        if c0 == '1' && c1 == '0' {
            rank_opt = Some(Rank::Ten);
        }
    } else {
        proof {
            assert(rt.len() >= 3);
        }
    }
    proof {
        assert(rank_opt == rank_of_token(rt));
    }
    let rank = match rank_opt {
        Some(rk) => rk,
        None => {
            return Err(HandError::InvalidRank);
        },
    };
    let sc = card_str.get_char(n - 1);
    proof {
        assert(t.last() == sc);
    }
    let suit = if sc == 'H' {
        Suit::Hearts
    } else if sc == 'D' {
        Suit::Diamonds
    } else if sc == 'C' {
        Suit::Clubs
    } else if sc == 'S' {
        Suit::Spades
    } else {
        return Err(HandError::InvalidSuit);
    };
    Ok(Card { rank, suit })
}

/// Parses a whole hand string of 5 whitespace-separated card tokens, such
/// as "AS KS QS JS 10S", re-validating the 5-card invariant through
/// `Hand::new`.
pub fn parse_hand(hand_str: &str) -> (r: Result<Hand, HandError>)
    ensures
        match r {
            Result::Ok(h) => parse_hand_spec(hand_str@) == Ok::<Seq<Card>, HandError>(h@)
                && h.wf(),
            Result::Err(e) => parse_hand_spec(hand_str@) == Err::<Seq<Card>, HandError>(e),
        },
{
    let ghost s = hand_str@;
    let n = hand_str.unicode_len();
    let mut toks: Vec<&str> = Vec::new();
    proof {
        assert(token_views(toks@) =~= Seq::<Seq<char>>::empty());
    }
    let mut start: usize = 0;
    let mut in_tok = false;
    let mut i: usize = 0;
    while i < n
        invariant
            0 <= i <= n,
            n == s.len(),
            s == hand_str@,
            !in_tok ==> split_tokens(s) == tokens_from(s, i as int, Seq::empty(), token_views(
                toks@,
            )),
            in_tok ==> start < i && split_tokens(s) == tokens_from(
                s,
                i as int,
                s.subrange(start as int, i as int),
                token_views(toks@),
            ),
        decreases n - i,
    {
        let c = hand_str.get_char(i);
        if is_space_char(c) {
            if in_tok {
                let ghost toks0 = toks@;
                let tok = hand_str.substring_char(start, i);
                toks.push(tok);
                in_tok = false;
                proof {
                    assert(token_views(toks@) =~= token_views(toks0).push(
                        s.subrange(start as int, i as int),
                    ));
                }
            }
        } else {
            if !in_tok {
                start = i;
                in_tok = true;
                proof {
                    assert(Seq::<char>::empty().push(s[i as int]) =~= s.subrange(
                        i as int,
                        i + 1,
                    ));
                }
            } else {
                proof {
                    assert(s.subrange(start as int, i as int).push(s[i as int]) =~= s.subrange(
                        start as int,
                        i + 1,
                    ));
                }
            }
        }
        i = i + 1;
    }
    if in_tok {
        let ghost toks0 = toks@;
        let tok = hand_str.substring_char(start, n);
        toks.push(tok);
        proof {
            assert(token_views(toks@) =~= token_views(toks0).push(
                s.subrange(start as int, n as int),
            ));
        }
    }
    proof {
        assert(token_views(toks@) == split_tokens(s));
    }

    if toks.len() != 5 {
        return Err(HandError::WrongCardCount);
    }
    let ghost ts = split_tokens(s);
    let mut cards: Vec<Card> = Vec::new();
    proof {
        assert(ts.skip(0) =~= ts);
        if let Result::Ok(rest) = parse_cards_spec(ts) {
            assert(cards@ + rest =~= rest);
        }
    }
    let mut k: usize = 0;
    while k < 5
        invariant
            0 <= k <= 5,
            toks@.len() == 5,
            ts.len() == 5,
            s == hand_str@,
            ts == split_tokens(s),
            ts == token_views(toks@),
            cards@.len() == k,
            parse_cards_spec(ts) == (match parse_cards_spec(ts.skip(k as int)) {
                Result::Ok(rest) => Ok(cards@ + rest),
                Result::Err(e) => Err(e),
            }),
        decreases 5 - k,
    {
        let tok = toks[k];
        proof {
            assert(ts.skip(k as int).first() == ts[k as int]);
            assert(ts[k as int] == toks@[k as int]@);
            assert(ts.skip(k as int).drop_first() =~= ts.skip(k + 1));
        }
        match parse_card(tok) {
            Result::Ok(card) => {
                let ghost cards0 = cards@;
                cards.push(card);
                proof {
                    if let Result::Ok(rest) = parse_cards_spec(ts.skip(k + 1)) {
                        assert(cards0 + (seq![card] + rest) =~= cards@ + rest);
                    }
                }
            },
            Result::Err(e) => {
                proof {
                    assert(parse_cards_spec(ts.skip(k as int)) == Err::<Seq<Card>, HandError>(e));
                    assert(parse_cards_spec(ts) == Err::<Seq<Card>, HandError>(e));
                }
                return Err(e);
            },
        }
        k = k + 1;
    }
    proof {
        assert(ts.skip(5) =~= Seq::<Seq<char>>::empty());
        assert(cards@ + Seq::<Card>::empty() =~= cards@);
    }
    match Hand::new(cards) {
        Result::Ok(h) => Ok(h),
        Result::Err(_) => {
            proof {
                assert(false);
            }
            vstd::pervasive::unreached()
        },
    }
}

} // verus!
