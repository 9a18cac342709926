use vstd::prelude::*;

use crate::card::{lemma_rank_value_range, rank_of_weight, rank_value, Card, HandType, Rank};
use crate::error::HandError;

verus! {

/// An ordered collection of exactly 5 cards. The length invariant is
/// enforced at construction; the cards need not be pre-sorted, and every
/// algorithm here is independent of the order of the sequence.
#[derive(Debug, PartialEq, Eq, Clone)]
pub struct Hand {
    pub cards: Vec<Card>,
}

impl View for Hand {
    type V = Seq<Card>;

    open spec fn view(&self) -> Seq<Card> {
        self.cards@
    }
}

/// How many of the cards have a rank of weight `v`.
pub open spec fn count_rank(cards: Seq<Card>, v: int) -> nat
    decreases cards.len(),
{
    if cards.len() == 0 {
        0
    } else {
        count_rank(cards.drop_last(), v) + if rank_value(cards.last().rank) == v {
            1nat
        } else {
            0nat
        }
    }
}

/// A rank occurs at most as often as there are cards.
pub proof fn lemma_count_rank_le_len(cards: Seq<Card>, v: int)
    ensures
        count_rank(cards, v) <= cards.len(),
    decreases cards.len(),
{
    if cards.len() > 0 {
        lemma_count_rank_le_len(cards.drop_last(), v);
    }
}

/// How many of the ranks in a plain rank sequence have weight `v`.
pub open spec fn count_rank_seq(ranks: Seq<Rank>, v: int) -> nat
    decreases ranks.len(),
{
    if ranks.len() == 0 {
        0
    } else {
        count_rank_seq(ranks.drop_last(), v) + if rank_value(ranks.last()) == v {
            1nat
        } else {
            0nat
        }
    }
}

/// The total of the per-weight counts from weight 2 up through `v`.
pub open spec fn sum_counts_upto(s: Seq<Card>, v: int) -> nat
    decreases v,
{
    if v < 2 {
        0
    } else {
        sum_counts_upto(s, v - 1) + count_rank(s, v)
    }
}

/// Dropping the last card lowers the count total by exactly one slot.
proof fn lemma_sum_counts_drop(s: Seq<Card>, v: int)
    requires
        s.len() > 0,
    ensures
        sum_counts_upto(s, v) == sum_counts_upto(s.drop_last(), v) + if 2 <= rank_value(
            s.last().rank,
        ) <= v {
            1nat
        } else {
            0nat
        },
    decreases v,
{
    lemma_rank_value_range(s.last().rank);
    if v >= 2 {
        lemma_sum_counts_drop(s, v - 1);
    }
}

/// With no cards at all, every count total is zero.
proof fn lemma_sum_counts_empty(s: Seq<Card>, v: int)
    requires
        s.len() == 0,
    ensures
        sum_counts_upto(s, v) == 0,
    decreases v,
{
    if v >= 2 {
        lemma_sum_counts_empty(s, v - 1);
    }
}

/// Summed over all 13 weights, the rank counts tally every card once.
proof fn lemma_sum_counts_all(s: Seq<Card>)
    ensures
        sum_counts_upto(s, 14) == s.len(),
    decreases s.len(),
{
    if s.len() > 0 {
        lemma_sum_counts_drop(s, 14);
        lemma_sum_counts_all(s.drop_last());
        lemma_rank_value_range(s.last().rank);
    } else {
        lemma_sum_counts_empty(s, 14);
    }
}

/// All cards share one suit. With 5 cards this is exactly the flush test.
pub open spec fn is_flush(cards: Seq<Card>) -> bool {
    forall|i: int| 0 <= i < cards.len() ==> #[trigger] cards[i].suit == cards[0].suit
}

/// The ace-low straight A-2-3-4-5: each of those five ranks occurs once.
pub open spec fn is_wheel(cards: Seq<Card>) -> bool {
    &&& count_rank(cards, 2) == 1
    &&& count_rank(cards, 3) == 1
    &&& count_rank(cards, 4) == 1
    &&& count_rank(cards, 5) == 1
    &&& count_rank(cards, 14) == 1
}

/// The five rank weights `low` through `low + 4` each occur exactly once.
pub open spec fn straight_run_at(cards: Seq<Card>, low: int) -> bool {
    forall|v: int| low <= v < low + 5 ==> #[trigger] count_rank(cards, v) == 1
}

/// Five ranks in sequence: either an ordinary run of five consecutive
/// weights, or the wheel, where the Ace acts as the low card.
pub open spec fn is_straight(cards: Seq<Card>) -> bool {
    is_wheel(cards) || exists|low: int| 2 <= low <= 10 && straight_run_at(cards, low)
}

/// The ranks are exactly Ten, Jack, Queen, King, Ace.
pub open spec fn is_royal(cards: Seq<Card>) -> bool {
    straight_run_at(cards, 10)
}

/// Some rank occurs exactly `n` times.
pub open spec fn has_of_a_kind(cards: Seq<Card>, n: nat) -> bool {
    exists|v: int| 2 <= v <= 14 && #[trigger] count_rank(cards, v) == n
}

/// How many rank weights below `v` occur exactly twice.
pub open spec fn pairs_below(cards: Seq<Card>, v: int) -> nat
    decreases v,
{
    if v <= 2 {
        0
    } else {
        pairs_below(cards, v - 1) + if count_rank(cards, v - 1) == 2 {
            1nat
        } else {
            0nat
        }
    }
}

/// How many distinct ranks occur exactly twice (0, 1 or 2 in a 5-card hand).
pub open spec fn pair_count(cards: Seq<Card>) -> nat {
    pairs_below(cards, 15)
}

/// The category of a 5-card hand, decided in the fixed priority order:
/// royal flush, straight flush, four of a kind, full house, flush,
/// straight, three of a kind, two pair, one pair, high card.
pub open spec fn classify_spec(cards: Seq<Card>) -> HandType {
    if is_straight(cards) && is_flush(cards) {
        if is_royal(cards) {
            HandType::RoyalFlush
        } else {
            HandType::StraightFlush
        }
    } else if has_of_a_kind(cards, 4) {
        HandType::FourOfAKind
    } else if has_of_a_kind(cards, 3) && pair_count(cards) == 1 {
        HandType::FullHouse
    } else if is_flush(cards) {
        HandType::Flush
    } else if is_straight(cards) {
        HandType::Straight
    } else if has_of_a_kind(cards, 3) {
        HandType::ThreeOfAKind
    } else if pair_count(cards) == 2 {
        HandType::TwoPair
    } else if pair_count(cards) == 1 {
        HandType::OnePair
    } else {
        HandType::HighCard
    }
}

impl Hand {
    /// A well-formed hand holds exactly 5 cards.
    pub open spec fn wf(&self) -> bool {
        self.cards@.len() == 5
    }

    /// Builds a hand from the given cards; fails unless there are exactly 5.
    pub fn new(cards: Vec<Card>) -> (r: Result<Self, HandError>)
        ensures
            match r {
                Ok(h) => cards@.len() == 5 && h@ == cards@ && h.wf(),
                Err(e) => cards@.len() != 5 && e == HandError::WrongCardCount,
            },
    {
        if cards.len() != 5 {
            return Err(HandError::WrongCardCount);
        }
        Ok(Hand { cards })
    }

    /// The 13-slot rank histogram of the hand: slot `i` counts the cards
    /// of rank weight `i + 2`.
    pub fn get_rank_counts(&self) -> (counts: [u8; 13])
        requires
            self.wf(),
        ensures
            forall|i: int| 0 <= i < 13 ==> #[trigger] counts[i] == count_rank(self@, i + 2),
    {
        let counts: [u8; 13] = [
            count_rank_in(&self.cards, 2),
            count_rank_in(&self.cards, 3),
            count_rank_in(&self.cards, 4),
            count_rank_in(&self.cards, 5),
            count_rank_in(&self.cards, 6),
            count_rank_in(&self.cards, 7),
            count_rank_in(&self.cards, 8),
            count_rank_in(&self.cards, 9),
            count_rank_in(&self.cards, 10),
            count_rank_in(&self.cards, 11),
            count_rank_in(&self.cards, 12),
            count_rank_in(&self.cards, 13),
            count_rank_in(&self.cards, 14),
        ];
        counts
    }

    /// The hand's 5 ranks sorted in descending order of weight: a
    /// permutation of the hand's ranks (every weight keeps its count).
    pub fn get_sorted_ranks(&self) -> (ranks: Vec<Rank>)
        requires
            self.wf(),
        ensures
            ranks@.len() == 5,
            forall|i: int, j: int|
                0 <= i <= j < ranks@.len() ==> rank_value(ranks@[i]) >= rank_value(ranks@[j]),
            forall|w: int| 2 <= w <= 14 ==> #[trigger] count_rank_seq(ranks@, w) == count_rank(
                self@,
                w,
            ),
    {
        let counts = self.get_rank_counts();
        proof {
            lemma_sum_counts_all(self@);
        }
        let mut ranks: Vec<Rank> = Vec::new();
        let mut v: u8 = 14;
        while v >= 2
            invariant
                self.wf(),
                1 <= v <= 14,
                forall|i: int| 0 <= i < 13 ==> #[trigger] counts[i] == count_rank(self@, i + 2),
                forall|w: int| v < w <= 14 ==> #[trigger] count_rank_seq(ranks@, w) == count_rank(
                    self@,
                    w,
                ),
                forall|w: int| w <= v ==> #[trigger] count_rank_seq(ranks@, w) == 0,
                forall|i: int, j: int|
                    0 <= i <= j < ranks@.len() ==> rank_value(ranks@[i]) >= rank_value(ranks@[j]),
                forall|i: int| 0 <= i < ranks@.len() ==> rank_value(#[trigger] ranks@[i]) > v,
                ranks@.len() + sum_counts_upto(self@, v as int) == 5,
            decreases v,
        {
            let c = counts[(v - 2) as usize];
            let r = rank_of_weight(v);
            let ghost ranks0 = ranks@;
            let mut k: u8 = 0;
            while k < c
                invariant
                    0 <= k <= c,
                    2 <= v <= 14,
                    rank_value(r) == v as int,
                    c as nat == count_rank(self@, v as int),
                    ranks@.len() == ranks0.len() + k,
                    forall|w: int| w != v ==> #[trigger] count_rank_seq(ranks@, w)
                        == count_rank_seq(ranks0, w),
                    count_rank_seq(ranks@, v as int) == k as nat,
                    forall|i: int, j: int|
                        0 <= i <= j < ranks@.len() ==> rank_value(ranks@[i]) >= rank_value(
                            ranks@[j],
                        ),
                    forall|i: int| 0 <= i < ranks@.len() ==> rank_value(#[trigger] ranks@[i])
                        >= v,
                decreases c - k,
            {
                let ghost before = ranks@;
                ranks.push(r);
                proof {
                    assert(ranks@.drop_last() =~= before);
                    assert(ranks@.last() == r);
                    assert forall|w: int| w != v implies #[trigger] count_rank_seq(ranks@, w)
                        == count_rank_seq(ranks0, w) by {
                        assert(count_rank_seq(ranks@, w) == count_rank_seq(before, w)
                            + if rank_value(ranks@.last()) == w {
                                1nat
                            } else {
                                0nat
                            });
                        assert(count_rank_seq(before, w) == count_rank_seq(ranks0, w));
                    }
                    assert(count_rank_seq(ranks@, v as int) == count_rank_seq(before, v as int)
                        + 1);
                }
                k = k + 1;
            }
            proof {
                assert(sum_counts_upto(self@, v as int) == sum_counts_upto(self@, v - 1)
                    + count_rank(self@, v as int));
            }
            v = v - 1;
        }
        proof {
            assert(sum_counts_upto(self@, 1) == 0);
        }
        ranks
    }

    /// Classifies the hand into its category. The function is total: every
    /// well-formed 5-card hand yields exactly one category, never an error.
    pub fn evaluate(&self) -> (t: HandType)
        requires
            self.wf(),
        ensures
            t == classify_spec(self@),
    {
        let counts = self.get_rank_counts();
        let flush = self.check_flush();
        let straight = self.check_straight(&counts);

        let mut pairs: u8 = 0;
        let mut trips = false;
        let mut quads = false;
        let mut idx: usize = 0;
        while idx < 13
            invariant
                0 <= idx <= 13,
                forall|i: int| 0 <= i < 13 ==> #[trigger] counts[i] == count_rank(self@, i + 2),
                pairs as nat == pairs_below(self@, idx + 2),
                trips == exists|v: int| 2 <= v < idx + 2 && #[trigger] count_rank(self@, v) == 3,
                quads == exists|v: int| 2 <= v < idx + 2 && #[trigger] count_rank(self@, v) == 4,
                pairs <= idx,
            decreases 13 - idx,
        {
            proof {
                assert(pairs_below(self@, idx + 3) == pairs_below(self@, idx + 2) + if count_rank(
                    self@,
                    idx + 2,
                ) == 2 {
                    1nat
                } else {
                    0nat
                });
                assert(counts[idx as int] == count_rank(self@, idx + 2));
            }
            if counts[idx] == 2 {
                pairs = pairs + 1;
            } else if counts[idx] == 3 {
                trips = true;
            } else if counts[idx] == 4 {
                quads = true;
            }
            idx = idx + 1;
        }
        proof {
            assert(pairs as nat == pair_count(self@));
            assert(trips == has_of_a_kind(self@, 3));
            assert(quads == has_of_a_kind(self@, 4));
        }

        if straight && flush {
            if counts[8] == 1 && counts[9] == 1 && counts[10] == 1 && counts[11] == 1 && counts[12]
                == 1 {
                proof {
                    assert forall|v: int| 10 <= v < 15 implies count_rank(self@, v) == 1 by {
                        assert(counts[v - 2] == count_rank(self@, v));
                    }
                    assert(is_royal(self@));
                }
                return HandType::RoyalFlush;
            }
            proof {
                if is_royal(self@) {
                    assert(count_rank(self@, 10) == 1);
                    assert(count_rank(self@, 11) == 1);
                    assert(count_rank(self@, 12) == 1);
                    assert(count_rank(self@, 13) == 1);
                    assert(count_rank(self@, 14) == 1);
                    assert(counts[8] == 1);
                    assert(counts[9] == 1);
                    assert(counts[10] == 1);
                    assert(counts[11] == 1);
                    assert(counts[12] == 1);
                    assert(false);
                }
            }
            return HandType::StraightFlush;
        }
        if quads {
            return HandType::FourOfAKind;
        }
        if trips && pairs == 1 {
            return HandType::FullHouse;
        }
        if flush {
            return HandType::Flush;
        }
        if straight {
            return HandType::Straight;
        }
        if trips {
            return HandType::ThreeOfAKind;
        }
        if pairs == 2 {
            return HandType::TwoPair;
        }
        if pairs == 1 {
            return HandType::OnePair;
        }
        HandType::HighCard
    }

    /// Whether all 5 cards share one suit.
    fn check_flush(&self) -> (b: bool)
        requires
            self.wf(),
        ensures
            b == is_flush(self@),
    {
        let s0 = self.cards[0].suit;
        let mut all = true;
        let mut i: usize = 1;
        while i < 5
            invariant
                self.wf(),
                1 <= i <= 5,
                s0 == self@[0].suit,
                all ==> forall|j: int| 0 <= j < i ==> (#[trigger] self@[j]).suit == self@[0].suit,
                !all ==> exists|j: int| 0 <= j < i && (#[trigger] self@[j]).suit != self@[0].suit,
            decreases 5 - i,
        {
            if !(self.cards[i].suit == s0) {
                all = false;
            }
            i = i + 1;
        }
        all
    }

    /// Whether the hand is a straight, deciding the wheel first and
    /// otherwise scanning the nine possible low ends of a run.
    fn check_straight(&self, counts: &[u8; 13]) -> (b: bool)
        requires
            self.wf(),
            forall|i: int| 0 <= i < 13 ==> #[trigger] counts[i] == count_rank(self@, i + 2),
        ensures
            b == is_straight(self@),
    {
        if counts[0] == 1 && counts[1] == 1 && counts[2] == 1 && counts[3] == 1 && counts[12] == 1 {
            proof {
                assert(is_wheel(self@));
            }
            return true;
        }
        proof {
            if is_wheel(self@) {
                assert(counts[0] as nat == count_rank(self@, 2));
                assert(counts[1] as nat == count_rank(self@, 3));
                assert(counts[2] as nat == count_rank(self@, 4));
                assert(counts[3] as nat == count_rank(self@, 5));
                assert(counts[12] as nat == count_rank(self@, 14));
                assert(false);
            }
        }
        let mut low: u8 = 2;
        while low <= 10
            invariant
                self.wf(),
                2 <= low <= 11,
                forall|i: int| 0 <= i < 13 ==> #[trigger] counts[i] == count_rank(self@, i + 2),
                forall|l: int| 2 <= l < low ==> !straight_run_at(self@, l),
            decreases 11 - low,
        {
            let li = (low - 2) as usize;
            if counts[li] == 1 && counts[li + 1] == 1 && counts[li + 2] == 1 && counts[li + 3] == 1
                && counts[li + 4] == 1 {
                proof {
                    assert forall|v: int| low <= v < low + 5 implies count_rank(self@, v) == 1 by {
                        assert(counts[v - 2] == count_rank(self@, v));
                    }
                    assert(straight_run_at(self@, low as int));
                }
                return true;
            }
            proof {
                if straight_run_at(self@, low as int) {
                    assert(count_rank(self@, low as int) == 1);
                    assert(count_rank(self@, low + 1) == 1);
                    assert(count_rank(self@, low + 2) == 1);
                    assert(count_rank(self@, low + 3) == 1);
                    assert(count_rank(self@, low + 4) == 1);
                    assert(counts[low - 2] == 1);
                    assert(counts[low - 1] == 1);
                    assert(counts[low as int] == 1);
                    assert(counts[low + 1] == 1);
                    assert(counts[low + 2] == 1);
                    assert(false);
                }
            }
            low = low + 1;
        }
        proof {
            if is_straight(self@) {
                let l = choose|l: int| 2 <= l <= 10 && straight_run_at(self@, l);
                assert(!straight_run_at(self@, l));
                assert(false);
            }
        }
        false
    }
}

/// Counts the cards whose rank has weight `v`.
fn count_rank_in(cards: &Vec<Card>, v: u8) -> (n: u8)
    requires
        cards@.len() <= 5,
    ensures
        n as nat == count_rank(cards@, v as int),
{
    let mut n: u8 = 0;
    let mut i: usize = 0;
    while i < cards.len()
        invariant
            0 <= i <= cards@.len() <= 5,
            n as nat == count_rank(cards@.take(i as int), v as int),
            n <= i,
        decreases cards@.len() - i,
    {
        proof {
            lemma_count_rank_le_len(cards@.take(i as int), v as int);
            assert(cards@.take(i + 1).drop_last() =~= cards@.take(i as int));
            assert(cards@.take(i + 1).last() == cards@[i as int]);
        }
        if rank_eq_weight(cards[i], v) {
            n = n + 1;
        }
        i = i + 1;
    }
    proof {
        assert(cards@.take(cards@.len() as int) =~= cards@);
    }
    n
}

/// Whether the card's rank has weight `v`.
fn rank_eq_weight(c: Card, v: u8) -> (b: bool)
    ensures
        b == (rank_value(c.rank) == v as int),
{
    crate::card::rank_weight(c.rank) == v
}

} // verus!
