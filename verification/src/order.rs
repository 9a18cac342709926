use core::cmp::Ordering;
use vstd::prelude::*;

use crate::card::{
    lemma_rank_value_range, lemma_type_strength_injective, rank_value, type_strength,
    type_strength_value, Card, HandType, Rank,
};
use crate::hand::{classify_spec, count_rank, count_rank_seq, is_wheel, pair_count, pairs_below, Hand};

verus! {

/// The opposite of an ordering result: Less for Greater and Greater for Less.
pub open spec fn reverse_order(o: Ordering) -> Ordering {
    match o {
        Ordering::Less => Ordering::Greater,
        Ordering::Equal => Ordering::Equal,
        Ordering::Greater => Ordering::Less,
    }
}

/// The order of two integers as an ordering result.
pub open spec fn cmp_int(a: int, b: int) -> Ordering {
    if a < b {
        Ordering::Less
    } else if a > b {
        Ordering::Greater
    } else {
        Ordering::Equal
    }
}

/// Compares two per-weight tallies from the highest weight `v` downward:
/// the first weight where the tallies differ decides, and more of that
/// weight is the greater side. This is exactly position-by-position
/// comparison of the corresponding descending-sorted rank sequences.
pub open spec fn lex_cmp_counts(ca: spec_fn(int) -> nat, cb: spec_fn(int) -> nat, v: int) -> Ordering
    decreases v,
{
    if v < 2 {
        Ordering::Equal
    } else if ca(v) > cb(v) {
        Ordering::Greater
    } else if ca(v) < cb(v) {
        Ordering::Less
    } else {
        lex_cmp_counts(ca, cb, v - 1)
    }
}

/// The full rank tally of a hand, as a function of the rank weight.
pub open spec fn rank_counts_fn(s: Seq<Card>) -> spec_fn(int) -> nat {
    |v: int| count_rank(s, v)
}

/// The kicker tally of a hand: 1 for each rank that occurs exactly once.
pub open spec fn kicker_counts_fn(s: Seq<Card>) -> spec_fn(int) -> nat {
    |v: int|
        if count_rank(s, v) == 1 {
            1nat
        } else {
            0nat
        }
}

/// Descending-rank positional comparison of whole hands.
pub open spec fn tie_break_lex(a: Seq<Card>, b: Seq<Card>) -> Ordering {
    lex_cmp_counts(rank_counts_fn(a), rank_counts_fn(b), 14)
}

/// The lowest rank weight at or above `v` that occurs exactly twice,
/// or 15 when there is none.
pub open spec fn pair_rank_from(s: Seq<Card>, v: int) -> int
    decreases 15 - v,
{
    if v >= 15 {
        15
    } else if count_rank(s, v) == 2 {
        v
    } else {
        pair_rank_from(s, v + 1)
    }
}

/// The weight of the paired rank of a hand (the lowest such weight; in a
/// one-pair hand there is exactly one).
pub open spec fn pair_rank(s: Seq<Card>) -> int {
    pair_rank_from(s, 2)
}

/// One-pair tie-break: the paired ranks decide first; equal pairs fall
/// back to the three kickers compared from the highest downward.
pub open spec fn tie_break_one_pair(a: Seq<Card>, b: Seq<Card>) -> Ordering {
    if pair_rank(a) != pair_rank(b) {
        cmp_int(pair_rank(a), pair_rank(b))
    } else {
        lex_cmp_counts(kicker_counts_fn(a), kicker_counts_fn(b), 14)
    }
}

/// The highest rank weight at or below `v` that occurs in the hand,
/// or 2 when none at all occurs.
pub open spec fn high_rank_from(s: Seq<Card>, v: int) -> int
    decreases v,
{
    if v <= 2 {
        2
    } else if count_rank(s, v) > 0 {
        v
    } else {
        high_rank_from(s, v - 1)
    }
}

/// The effective top card of a straight: 5 for the wheel, where the Ace
/// acts as the low card, and otherwise the highest rank of the run.
pub open spec fn straight_top(s: Seq<Card>) -> int {
    if is_wheel(s) {
        5
    } else {
        high_rank_from(s, 14)
    }
}

/// Straight tie-break by effective top card, so the wheel ranks below
/// every higher straight despite holding an Ace.
pub open spec fn tie_break_straight(a: Seq<Card>, b: Seq<Card>) -> Ordering {
    cmp_int(straight_top(a), straight_top(b))
}

/// The tie-break applied when both hands fall in category `t`: one-pair
/// hands compare pair first and then kickers, straights and straight
/// flushes compare by effective top card, and every other category falls
/// back to descending-rank positional comparison.
pub open spec fn tie_break(a: Seq<Card>, b: Seq<Card>, t: HandType) -> Ordering {
    match t {
        HandType::OnePair => tie_break_one_pair(a, b),
        HandType::Straight => tie_break_straight(a, b),
        HandType::StraightFlush => tie_break_straight(a, b),
        _ => tie_break_lex(a, b),
    }
}

/// The strict total order on 5-card hands: the category order decides
/// first, and hands of one category fall to that category's tie-break.
pub open spec fn compare_spec(a: Seq<Card>, b: Seq<Card>) -> Ordering {
    let ta = classify_spec(a);
    let tb = classify_spec(b);
    if type_strength(ta) < type_strength(tb) {
        Ordering::Less
    } else if type_strength(ta) > type_strength(tb) {
        Ordering::Greater
    } else {
        tie_break(a, b, ta)
    }
}

/// A run of ranks with no pair anywhere below `v` contributes no pairs.
proof fn lemma_pairs_below_none(s: Seq<Card>, v: int)
    requires
        forall|w: int| 2 <= w < v ==> #[trigger] count_rank(s, w) != 2,
    ensures
        pairs_below(s, v) == 0,
    decreases v,
{
    if v > 2 {
        lemma_pairs_below_none(s, v - 1);
    }
}

/// Scanning upward from `v` past weights that hold no pair lands on `r`,
/// the first weight that does.
proof fn lemma_pair_rank_from_skip(s: Seq<Card>, v: int, r: int)
    requires
        2 <= v <= r <= 14,
        count_rank(s, r) == 2,
        forall|w: int| v <= w < r ==> #[trigger] count_rank(s, w) != 2,
    ensures
        pair_rank_from(s, v) == r,
    decreases r - v,
{
    if v < r {
        lemma_pair_rank_from_skip(s, v + 1, r);
    }
}

/// Scanning downward from `v` past absent weights lands on `r`, the
/// highest weight that occurs.
proof fn lemma_high_rank_from_skip(s: Seq<Card>, r: int, v: int)
    requires
        2 <= r <= v <= 14,
        count_rank(s, r) > 0,
        forall|w: int| r < w <= v ==> #[trigger] count_rank(s, w) == 0,
    ensures
        high_rank_from(s, v) == r,
    decreases v - r,
{
    if r < v {
        lemma_high_rank_from_skip(s, r, v - 1);
    }
}

/// When no weight above 2 occurs, the downward scan bottoms out at 2.
proof fn lemma_high_rank_none(s: Seq<Card>, v: int)
    requires
        forall|w: int| 2 < w <= v ==> #[trigger] count_rank(s, w) == 0,
    ensures
        high_rank_from(s, v) == 2,
    decreases v,
{
    if v > 2 {
        lemma_high_rank_none(s, v - 1);
    }
}

/// Compares two full rank tallies from the highest weight downward.
fn lex_compare_full(
    ca: &[u8; 13],
    cb: &[u8; 13],
    Ghost(a): Ghost<Seq<Card>>,
    Ghost(b): Ghost<Seq<Card>>,
) -> (r: Ordering)
    requires
        forall|i: int| 0 <= i < 13 ==> #[trigger] ca[i] == count_rank(a, i + 2),
        forall|i: int| 0 <= i < 13 ==> #[trigger] cb[i] == count_rank(b, i + 2),
    ensures
        r == tie_break_lex(a, b),
{
    let ghost fa = rank_counts_fn(a);
    let ghost fb = rank_counts_fn(b);
    let mut v: u8 = 14;
    while v >= 2
        invariant
            1 <= v <= 14,
            forall|i: int| 0 <= i < 13 ==> #[trigger] ca[i] == count_rank(a, i + 2),
            forall|i: int| 0 <= i < 13 ==> #[trigger] cb[i] == count_rank(b, i + 2),
            fa == rank_counts_fn(a),
            fb == rank_counts_fn(b),
            lex_cmp_counts(fa, fb, 14) == lex_cmp_counts(fa, fb, v as int),
        decreases v,
    {
        let na = ca[(v - 2) as usize];
        let nb = cb[(v - 2) as usize];
        proof {
            assert(fa(v as int) == count_rank(a, v as int));
            assert(fb(v as int) == count_rank(b, v as int));
        }
        if na > nb {
            return Ordering::Greater;
        }
        if na < nb {
            return Ordering::Less;
        }
        v = v - 1;
    }
    Ordering::Equal
}

/// Compares the kicker tallies of two hands from the highest weight
/// downward: a rank counts here only where it occurs exactly once.
fn lex_compare_kickers(
    ca: &[u8; 13],
    cb: &[u8; 13],
    Ghost(a): Ghost<Seq<Card>>,
    Ghost(b): Ghost<Seq<Card>>,
) -> (r: Ordering)
    requires
        forall|i: int| 0 <= i < 13 ==> #[trigger] ca[i] == count_rank(a, i + 2),
        forall|i: int| 0 <= i < 13 ==> #[trigger] cb[i] == count_rank(b, i + 2),
    ensures
        r == lex_cmp_counts(kicker_counts_fn(a), kicker_counts_fn(b), 14),
{
    let ghost fa = kicker_counts_fn(a);
    let ghost fb = kicker_counts_fn(b);
    let mut v: u8 = 14;
    while v >= 2
        invariant
            1 <= v <= 14,
            forall|i: int| 0 <= i < 13 ==> #[trigger] ca[i] == count_rank(a, i + 2),
            forall|i: int| 0 <= i < 13 ==> #[trigger] cb[i] == count_rank(b, i + 2),
            fa == kicker_counts_fn(a),
            fb == kicker_counts_fn(b),
            lex_cmp_counts(fa, fb, 14) == lex_cmp_counts(fa, fb, v as int),
        decreases v,
    {
        let ia: u8 = if ca[(v - 2) as usize] == 1 {
            1
        } else {
            0
        };
        let ib: u8 = if cb[(v - 2) as usize] == 1 {
            1
        } else {
            0
        };
        proof {
            assert(fa(v as int) == if count_rank(a, v as int) == 1 {
                1nat
            } else {
                0nat
            });
            assert(fb(v as int) == if count_rank(b, v as int) == 1 {
                1nat
            } else {
                0nat
            });
        }
        if ia > ib {
            return Ordering::Greater;
        }
        if ia < ib {
            return Ordering::Less;
        }
        v = v - 1;
    }
    Ordering::Equal
}

/// Finds the weight of the paired rank from a rank tally, scanning from
/// the lowest weight upward.
fn find_pair_weight(counts: &[u8; 13], Ghost(s): Ghost<Seq<Card>>) -> (v: u8)
    requires
        forall|i: int| 0 <= i < 13 ==> #[trigger] counts[i] == count_rank(s, i + 2),
        pair_count(s) > 0,
    ensures
        v as int == pair_rank(s),
        2 <= v <= 14,
{
    let mut v: u8 = 2;
    while v <= 14
        invariant
            2 <= v <= 15,
            forall|i: int| 0 <= i < 13 ==> #[trigger] counts[i] == count_rank(s, i + 2),
            forall|w: int| 2 <= w < v ==> #[trigger] count_rank(s, w) != 2,
        decreases 15 - v,
    {
        if counts[(v - 2) as usize] == 2 {
            proof {
                lemma_pair_rank_from_skip(s, 2, v as int);
            }
            return v;
        }
        v = v + 1;
    }
    proof {
        lemma_pairs_below_none(s, 15);
        assert(false);
    }
    vstd::pervasive::unreached()
}

/// Computes the effective top card of a straight from a rank tally:
/// 5 for the wheel, otherwise the highest occurring weight.
fn straight_top_weight(counts: &[u8; 13], Ghost(s): Ghost<Seq<Card>>) -> (v: u8)
    requires
        forall|i: int| 0 <= i < 13 ==> #[trigger] counts[i] == count_rank(s, i + 2),
    ensures
        v as int == straight_top(s),
{
    if counts[0] == 1 && counts[1] == 1 && counts[2] == 1 && counts[3] == 1 && counts[12] == 1 {
        proof {
            assert(is_wheel(s));
        }
        return 5;
    }
    proof {
        if is_wheel(s) {
            assert(counts[0] as nat == count_rank(s, 2));
            assert(counts[1] as nat == count_rank(s, 3));
            assert(counts[2] as nat == count_rank(s, 4));
            assert(counts[3] as nat == count_rank(s, 5));
            assert(counts[12] as nat == count_rank(s, 14));
            assert(false);
        }
    }
    let mut v: u8 = 14;
    while v >= 3
        invariant
            2 <= v <= 14,
            !is_wheel(s),
            forall|i: int| 0 <= i < 13 ==> #[trigger] counts[i] == count_rank(s, i + 2),
            forall|w: int| v < w <= 14 ==> #[trigger] count_rank(s, w) == 0,
        decreases v,
    {
        if counts[(v - 2) as usize] > 0 {
            proof {
                lemma_high_rank_from_skip(s, v as int, 14);
            }
            return v;
        }
        v = v - 1;
    }
    proof {
        lemma_high_rank_none(s, 14);
    }
    2
}

impl Hand {
    /// Compares two hands as poker hands: the category order decides first,
    /// and hands of one category fall to that category's tie-break.
    /// Straights and straight flushes compare by effective top card (5 for
    /// the wheel), so A-2-3-4-5 ranks below every higher straight; one-pair
    /// hands compare the paired rank and then the kickers; every other
    /// matching category follows descending-rank positional comparison.
    pub fn compare(&self, other: &Hand) -> (r: Ordering)
        requires
            self.wf(),
            other.wf(),
        ensures
            r == compare_spec(self@, other@),
    {
        let ta = self.evaluate();
        let tb = other.evaluate();
        let sa = type_strength_value(ta);
        let sb = type_strength_value(tb);
        if sa < sb {
            return Ordering::Less;
        }
        if sa > sb {
            return Ordering::Greater;
        }
        proof {
            lemma_type_strength_injective(ta, tb);
        }
        let ca = self.get_rank_counts();
        let cb = other.get_rank_counts();
        match ta {
            HandType::OnePair => {
                proof {
                    assert(pair_count(self@) == 1);
                    assert(pair_count(other@) == 1);
                }
                let pa = find_pair_weight(&ca, Ghost(self@));
                let pb = find_pair_weight(&cb, Ghost(other@));
                if pa < pb {
                    Ordering::Less
                } else if pa > pb {
                    Ordering::Greater
                } else {
                    lex_compare_kickers(&ca, &cb, Ghost(self@), Ghost(other@))
                }
            },
            HandType::Straight | HandType::StraightFlush => {
                let ha = straight_top_weight(&ca, Ghost(self@));
                let hb = straight_top_weight(&cb, Ghost(other@));
                if ha < hb {
                    Ordering::Less
                } else if ha > hb {
                    Ordering::Greater
                } else {
                    Ordering::Equal
                }
            },
            _ => lex_compare_full(&ca, &cb, Ghost(self@), Ghost(other@)),
        }
    }
}

/// Comparing a tally with itself always comes out Equal.
proof fn lemma_lex_refl(c: spec_fn(int) -> nat, v: int)
    ensures
        lex_cmp_counts(c, c, v) == Ordering::Equal,
    decreases v,
{
    if v >= 2 {
        lemma_lex_refl(c, v - 1);
    }
}

/// Swapping the sides of a tally comparison reverses its outcome.
proof fn lemma_lex_antisym(ca: spec_fn(int) -> nat, cb: spec_fn(int) -> nat, v: int)
    ensures
        lex_cmp_counts(ca, cb, v) == reverse_order(lex_cmp_counts(cb, ca, v)),
    decreases v,
{
    if v >= 2 {
        lemma_lex_antisym(ca, cb, v - 1);
    }
}

/// Tally comparison is transitive: chaining two non-Greater outcomes
/// stays non-Greater, and strictly Less wherever either link is Less.
proof fn lemma_lex_trans(
    ca: spec_fn(int) -> nat,
    cb: spec_fn(int) -> nat,
    cc: spec_fn(int) -> nat,
    v: int,
)
    requires
        lex_cmp_counts(ca, cb, v) != Ordering::Greater,
        lex_cmp_counts(cb, cc, v) != Ordering::Greater,
    ensures
        lex_cmp_counts(ca, cc, v) != Ordering::Greater,
        (lex_cmp_counts(ca, cb, v) == Ordering::Less || lex_cmp_counts(cb, cc, v)
            == Ordering::Less) ==> lex_cmp_counts(ca, cc, v) == Ordering::Less,
    decreases v,
{
    if v >= 2 {
        if ca(v) == cb(v) && cb(v) == cc(v) {
            lemma_lex_trans(ca, cb, cc, v - 1);
        }
    }
}

/// Comparing any hand with itself yields Equal: `compare` is reflexive.
pub proof fn lemma_compare_reflexive(a: Hand)
    requires
        a.wf(),
    ensures
        compare_spec(a@, a@) == Ordering::Equal,
{
    lemma_lex_refl(rank_counts_fn(a@), 14);
    lemma_lex_refl(kicker_counts_fn(a@), 14);
}

/// Swapping the two hands reverses the outcome: `compare(a, b)` and
/// `compare(b, a)` are inverses, Equal staying Equal.
pub proof fn lemma_compare_antisymmetric(a: Hand, b: Hand)
    requires
        a.wf(),
        b.wf(),
    ensures
        compare_spec(a@, b@) == reverse_order(compare_spec(b@, a@)),
{
    lemma_type_strength_injective(classify_spec(a@), classify_spec(b@));
    lemma_lex_antisym(rank_counts_fn(a@), rank_counts_fn(b@), 14);
    lemma_lex_antisym(kicker_counts_fn(a@), kicker_counts_fn(b@), 14);
}

/// Chaining two comparisons that are not Greater stays not Greater, and
/// becomes strictly Less wherever either link is Less.
proof fn lemma_compare_trans_general(a: Seq<Card>, b: Seq<Card>, c: Seq<Card>)
    requires
        compare_spec(a, b) != Ordering::Greater,
        compare_spec(b, c) != Ordering::Greater,
    ensures
        compare_spec(a, c) != Ordering::Greater,
        (compare_spec(a, b) == Ordering::Less || compare_spec(b, c) == Ordering::Less)
            ==> compare_spec(a, c) == Ordering::Less,
{
    let ta = classify_spec(a);
    let tb = classify_spec(b);
    let tc = classify_spec(c);
    if type_strength(ta) == type_strength(tb) && type_strength(tb) == type_strength(tc) {
        lemma_type_strength_injective(ta, tb);
        lemma_type_strength_injective(tb, tc);
        if ta == HandType::OnePair {
            if pair_rank(a) == pair_rank(b) && pair_rank(b) == pair_rank(c) {
                lemma_lex_trans(kicker_counts_fn(a), kicker_counts_fn(b), kicker_counts_fn(c), 14);
            }
        } else if ta == HandType::Straight || ta == HandType::StraightFlush {
        } else {
            lemma_lex_trans(rank_counts_fn(a), rank_counts_fn(b), rank_counts_fn(c), 14);
        }
    }
}

/// The hand order is transitive: a hand below a second, itself below a
/// third, is below the third.
pub proof fn lemma_compare_transitive(a: Hand, b: Hand, c: Hand)
    requires
        a.wf(),
        b.wf(),
        c.wf(),
        compare_spec(a@, b@) == Ordering::Less,
        compare_spec(b@, c@) == Ordering::Less,
    ensures
        compare_spec(a@, c@) == Ordering::Less,
{
    lemma_compare_trans_general(a@, b@, c@);
}

/// Ties chain as well: a hand tied with a second, itself tied with a
/// third, is tied with the third.
pub proof fn lemma_compare_equal_transitive(a: Hand, b: Hand, c: Hand)
    requires
        a.wf(),
        b.wf(),
        c.wf(),
        compare_spec(a@, b@) == Ordering::Equal,
        compare_spec(b@, c@) == Ordering::Equal,
    ensures
        compare_spec(a@, c@) == Ordering::Equal,
{
    lemma_compare_trans_general(a@, b@, c@);
    lemma_compare_antisymmetric(a, b);
    lemma_compare_antisymmetric(b, c);
    lemma_compare_antisymmetric(a, c);
    lemma_compare_trans_general(c@, b@, a@);
}

/// A hand of a strictly higher category beats any hand of a lower one,
/// whatever the cards: the category order decides before any tie-break.
pub proof fn lemma_category_order(a: Hand, b: Hand)
    requires
        a.wf(),
        b.wf(),
        type_strength(classify_spec(a@)) > type_strength(classify_spec(b@)),
    ensures
        compare_spec(a@, b@) == Ordering::Greater,
{
}

/// The ranks stand in descending order of weight.
pub open spec fn sorted_desc(ranks: Seq<Rank>) -> bool {
    forall|i: int, j: int|
        0 <= i <= j < ranks.len() ==> rank_value(ranks[i]) >= rank_value(ranks[j])
}

/// Position-by-position comparison of two rank sequences: the first
/// position where the weights differ decides.
pub open spec fn lex_ranks(ra: Seq<Rank>, rb: Seq<Rank>) -> Ordering
    decreases ra.len(),
{
    if ra.len() == 0 || rb.len() == 0 {
        Ordering::Equal
    } else if rank_value(ra.first()) > rank_value(rb.first()) {
        Ordering::Greater
    } else if rank_value(ra.first()) < rank_value(rb.first()) {
        Ordering::Less
    } else {
        lex_ranks(ra.drop_first(), rb.drop_first())
    }
}

/// In a descending sequence no weight above the first element occurs.
proof fn lemma_count_above_head(ra: Seq<Rank>, w: int)
    requires
        ra.len() > 0,
        sorted_desc(ra),
        w > rank_value(ra.first()),
    ensures
        count_rank_seq(ra, w) == 0,
    decreases ra.len(),
{
    if ra.len() > 1 {
        assert(ra.drop_last().first() == ra.first());
        assert(sorted_desc(ra.drop_last())) by {
            assert forall|i: int, j: int|
                0 <= i <= j < ra.drop_last().len() implies rank_value(ra.drop_last()[i])
                >= rank_value(ra.drop_last()[j]) by {
                assert(ra.drop_last()[i] == ra[i]);
                assert(ra.drop_last()[j] == ra[j]);
            }
        }
        lemma_count_above_head(ra.drop_last(), w);
        assert(rank_value(ra.last()) <= rank_value(ra.first()));
    } else {
        assert(ra.drop_last() =~= Seq::<Rank>::empty());
        assert(count_rank_seq(ra.drop_last(), w) == 0);
        assert(ra.last() == ra.first());
    }
}

/// The weight of the first element occurs at least once.
proof fn lemma_count_head_pos(ra: Seq<Rank>)
    requires
        ra.len() > 0,
    ensures
        count_rank_seq(ra, rank_value(ra.first())) >= 1,
    decreases ra.len(),
{
    if ra.len() > 1 {
        assert(ra.drop_last().first() == ra.first());
        lemma_count_head_pos(ra.drop_last());
    }
}

/// Weights on which the tallies agree can be skipped from above.
proof fn lemma_lex_skip_equal(ca: spec_fn(int) -> nat, cb: spec_fn(int) -> nat, v: int, w: int)
    requires
        w <= v,
        forall|x: int| w < x <= v ==> #[trigger] ca(x) == cb(x),
    ensures
        lex_cmp_counts(ca, cb, v) == lex_cmp_counts(ca, cb, w),
    decreases v - w,
{
    if w < v {
        lemma_lex_skip_equal(ca, cb, v - 1, w);
    }
}

/// Tally comparison sees only which side of each weight is larger, so two
/// pairs of tallies that agree on that everywhere compare alike.
proof fn lemma_lex_sign_congruent(
    ca: spec_fn(int) -> nat,
    cb: spec_fn(int) -> nat,
    ca2: spec_fn(int) -> nat,
    cb2: spec_fn(int) -> nat,
    v: int,
)
    requires
        forall|w: int|
            2 <= w <= v ==> ((#[trigger] ca(w) > cb(w)) == (ca2(w) > cb2(w)) && (ca(w) < cb(w))
                == (ca2(w) < cb2(w))),
    ensures
        lex_cmp_counts(ca, cb, v) == lex_cmp_counts(ca2, cb2, v),
    decreases v,
{
    if v >= 2 {
        lemma_lex_sign_congruent(ca, cb, ca2, cb2, v - 1);
    }
}

/// Dropping the first rank lowers exactly its weight's count by one.
proof fn lemma_count_drop_first(ra: Seq<Rank>, w: int)
    requires
        ra.len() > 0,
    ensures
        count_rank_seq(ra, w) == count_rank_seq(ra.drop_first(), w) + if rank_value(ra.first())
            == w {
            1nat
        } else {
            0nat
        },
    decreases ra.len(),
{
    if ra.len() == 1 {
        assert(ra.drop_first() =~= Seq::<Rank>::empty());
        assert(ra.drop_last() =~= Seq::<Rank>::empty());
        assert(ra.last() == ra.first());
    } else {
        lemma_count_drop_first(ra.drop_last(), w);
        assert(ra.drop_last().first() == ra.first());
        assert(ra.drop_last().drop_first() =~= ra.drop_first().drop_last());
        assert(ra.drop_first().last() == ra.last());
    }
}

/// For descending rank sequences of one length whose weights stay at or
/// below `v`, position-by-position comparison and tally comparison from
/// `v` downward give the same answer.
proof fn lemma_lex_ranks_counts(ra: Seq<Rank>, rb: Seq<Rank>, v: int)
    requires
        v >= 1,
        ra.len() == rb.len(),
        sorted_desc(ra),
        sorted_desc(rb),
        forall|i: int| 0 <= i < ra.len() ==> rank_value(#[trigger] ra[i]) <= v,
        forall|i: int| 0 <= i < rb.len() ==> rank_value(#[trigger] rb[i]) <= v,
    ensures
        lex_cmp_counts(
            |w: int| count_rank_seq(ra, w),
            |w: int| count_rank_seq(rb, w),
            v,
        ) == lex_ranks(ra, rb),
    decreases ra.len(),
{
    let ca = |w: int| count_rank_seq(ra, w);
    let cb = |w: int| count_rank_seq(rb, w);
    if ra.len() == 0 {
        assert forall|x: int| 1 < x <= v implies #[trigger] ca(x) == cb(x) by {
            assert(count_rank_seq(ra, x) == 0);
            assert(count_rank_seq(rb, x) == 0);
        }
        lemma_lex_skip_equal(ca, cb, v, 1);
    } else {
        let wa = rank_value(ra.first());
        let wb = rank_value(rb.first());
        lemma_rank_value_range(ra.first());
        lemma_rank_value_range(rb.first());
        if wa > wb {
            lemma_count_above_head(rb, wa);
            lemma_count_head_pos(ra);
            assert forall|x: int| wa < x <= v implies #[trigger] ca(x) == cb(x) by {
                lemma_count_above_head(ra, x);
                lemma_count_above_head(rb, x);
            }
            lemma_lex_skip_equal(ca, cb, v, wa);
        } else if wa < wb {
            lemma_count_above_head(ra, wb);
            lemma_count_head_pos(rb);
            assert forall|x: int| wb < x <= v implies #[trigger] ca(x) == cb(x) by {
                lemma_count_above_head(ra, x);
                lemma_count_above_head(rb, x);
            }
            lemma_lex_skip_equal(ca, cb, v, wb);
        } else {
            let ra2 = ra.drop_first();
            let rb2 = rb.drop_first();
            assert(sorted_desc(ra2)) by {
                assert forall|i: int, j: int|
                    0 <= i <= j < ra2.len() implies rank_value(ra2[i]) >= rank_value(ra2[j]) by {
                    assert(ra2[i] == ra[i + 1]);
                    assert(ra2[j] == ra[j + 1]);
                }
            }
            assert(sorted_desc(rb2)) by {
                assert forall|i: int, j: int|
                    0 <= i <= j < rb2.len() implies rank_value(rb2[i]) >= rank_value(rb2[j]) by {
                    assert(rb2[i] == rb[i + 1]);
                    assert(rb2[j] == rb[j + 1]);
                }
            }
            assert(forall|i: int| 0 <= i < ra2.len() ==> rank_value(#[trigger] ra2[i]) <= v);
            assert(forall|i: int| 0 <= i < rb2.len() ==> rank_value(#[trigger] rb2[i]) <= v);
            lemma_lex_ranks_counts(ra2, rb2, v);
            let ca2 = |w: int| count_rank_seq(ra2, w);
            let cb2 = |w: int| count_rank_seq(rb2, w);
            assert forall|w: int|
                2 <= w <= v implies ((#[trigger] ca(w) > cb(w)) == (ca2(w) > cb2(w)) && (ca(w)
                < cb(w)) == (ca2(w) < cb2(w))) by {
                lemma_count_drop_first(ra, w);
                lemma_count_drop_first(rb, w);
            }
            lemma_lex_sign_congruent(ca, cb, ca2, cb2, v);
        }
    }
}

/// Descending-rank positional comparison, spelled out position by
/// position, agrees with the tally comparison the tie-breaks use: for any
/// descending sequences that hold each hand's ranks with their counts
/// (what `get_sorted_ranks` returns), comparing them slot by slot gives
/// exactly `tie_break_lex` of the two hands.
pub proof fn lemma_tie_break_lex_positional(a: Seq<Card>, b: Seq<Card>, ra: Seq<Rank>, rb: Seq<Rank>)
    requires
        ra.len() == rb.len(),
        sorted_desc(ra),
        sorted_desc(rb),
        forall|w: int| 2 <= w <= 14 ==> #[trigger] count_rank_seq(ra, w) == count_rank(a, w),
        forall|w: int| 2 <= w <= 14 ==> #[trigger] count_rank_seq(rb, w) == count_rank(b, w),
    ensures
        tie_break_lex(a, b) == lex_ranks(ra, rb),
{
    assert forall|i: int| 0 <= i < ra.len() implies rank_value(#[trigger] ra[i]) <= 14 by {
        lemma_rank_value_range(ra[i]);
    }
    assert forall|i: int| 0 <= i < rb.len() implies rank_value(#[trigger] rb[i]) <= 14 by {
        lemma_rank_value_range(rb[i]);
    }
    lemma_lex_ranks_counts(ra, rb, 14);
    lemma_lex_sign_congruent(
        rank_counts_fn(a),
        rank_counts_fn(b),
        |w: int| count_rank_seq(ra, w),
        |w: int| count_rank_seq(rb, w),
        14,
    );
}

impl core::cmp::PartialOrd for Hand {
    /// Orders hands by `compare`; hands that are not well-formed (never
    /// produced by `new`) all compare Equal.
    fn partial_cmp(&self, other: &Self) -> (r: Option<Ordering>) {
        if self.cards.len() == 5 && other.cards.len() == 5 {
            Some(self.compare(other))
        } else {
            Some(Ordering::Equal)
        }
    }
}

impl vstd::std_specs::cmp::PartialOrdSpecImpl for Hand {
    open spec fn obeys_partial_cmp_spec() -> bool {
        true
    }

    open spec fn partial_cmp_spec(&self, other: &Self) -> Option<Ordering> {
        if self.wf() && other.wf() {
            Some(compare_spec(self@, other@))
        } else {
            Some(Ordering::Equal)
        }
    }
}

} // verus!
