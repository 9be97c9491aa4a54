//! Five-card hand classification and the total order on hand strength.

use vstd::prelude::*;
use vstd::relations::{sorted_by, total_ordering};
use vstd::seq_lib::lemma_sorted_unique;
use crate::card::{Card, parse_cards, parsed_cards, valid_card, valid_cards_str, valid_rank};
use crate::PokerError;

verus! {

/// The ten poker hand categories, weakest first, each carrying the
/// tie-break ranks needed to compare hands of the same category. The
/// declared variant order, then the carried ranks compared
/// lexicographically, is exactly standard poker hand strength.
#[derive(Debug, Clone, Copy, PartialEq, Eq, PartialOrd, Ord, Structural)]
pub enum HandRank {
    HighCard(u8, u8, u8, u8, u8),
    OnePair(u8, u8, u8, u8),
    TwoPair(u8, u8, u8),
    ThreeOfAKind(u8, u8, u8),
    Straight(u8),
    Flush(u8, u8, u8, u8, u8),
    FullHouse(u8, u8),
    FourOfAKind(u8, u8),
    StraightFlush(u8),
    RoyalFlush,
}

/// The category index of a hand rank: 0 for a high card up to 9 for a
/// royal flush.
pub open spec fn category(h: HandRank) -> int {
    match h {
        HandRank::HighCard(_, _, _, _, _) => 0,
        HandRank::OnePair(_, _, _, _) => 1,
        HandRank::TwoPair(_, _, _) => 2,
        HandRank::ThreeOfAKind(_, _, _) => 3,
        HandRank::Straight(_) => 4,
        HandRank::Flush(_, _, _, _, _) => 5,
        HandRank::FullHouse(_, _) => 6,
        HandRank::FourOfAKind(_, _) => 7,
        HandRank::StraightFlush(_) => 8,
        HandRank::RoyalFlush => 9,
    }
}

/// A hand rank is well formed when every rank it carries lies in 2..=14.
pub open spec fn wf_rank(h: HandRank) -> bool {
    match h {
        HandRank::HighCard(a, b, c, d, e) => valid_rank(a) && valid_rank(b) && valid_rank(c)
            && valid_rank(d) && valid_rank(e),
        HandRank::OnePair(p, a, b, c) => valid_rank(p) && valid_rank(a) && valid_rank(b)
            && valid_rank(c),
        HandRank::TwoPair(p, q, k) => valid_rank(p) && valid_rank(q) && valid_rank(k),
        HandRank::ThreeOfAKind(t, a, b) => valid_rank(t) && valid_rank(a) && valid_rank(b),
        HandRank::Straight(hc) => valid_rank(hc),
        HandRank::Flush(a, b, c, d, e) => valid_rank(a) && valid_rank(b) && valid_rank(c)
            && valid_rank(d) && valid_rank(e),
        HandRank::FullHouse(t, p) => valid_rank(t) && valid_rank(p),
        HandRank::FourOfAKind(q, k) => valid_rank(q) && valid_rank(k),
        HandRank::StraightFlush(hc) => valid_rank(hc),
        HandRank::RoyalFlush => true,
    }
}

/// The tie-break ranks of a hand, packed as base-15 digits, most
/// significant first. Ranks never exceed 14, so distinct digit lists give
/// distinct values.
pub open spec fn tiebreak(h: HandRank) -> int {
    match h {
        HandRank::HighCard(a, b, c, d, e) => a * 50625 + b * 3375 + c * 225 + d * 15 + e,
        HandRank::OnePair(p, a, b, c) => p * 50625 + a * 3375 + b * 225 + c * 15,
        HandRank::TwoPair(p, q, k) => p * 50625 + q * 3375 + k * 225,
        HandRank::ThreeOfAKind(t, a, b) => t * 50625 + a * 3375 + b * 225,
        HandRank::Straight(hc) => hc * 50625,
        HandRank::Flush(a, b, c, d, e) => a * 50625 + b * 3375 + c * 225 + d * 15 + e,
        HandRank::FullHouse(t, p) => t * 50625 + p * 3375,
        HandRank::FourOfAKind(q, k) => q * 50625 + k * 3375,
        HandRank::StraightFlush(hc) => hc * 50625,
        HandRank::RoyalFlush => 0,
    }
}

/// The strength of a hand as one integer: the category in the high digit,
/// the tie-break ranks below it. Comparing keys is exactly comparing
/// hands, category first and lexicographically within a category.
pub open spec fn rank_key(h: HandRank) -> int {
    category(h) * 759375 + tiebreak(h)
}

/// Hand strength is a total order: any two hand ranks compare.
pub proof fn lemma_rank_order_total(h1: HandRank, h2: HandRank)
    ensures
        rank_key(h1) > rank_key(h2) || rank_key(h2) > rank_key(h1) || rank_key(h1) == rank_key(h2),
{
}

/// Hand strength is transitive: a hand above a second, itself above a
/// third, is above the third.
pub proof fn lemma_rank_order_transitive(h1: HandRank, h2: HandRank, h3: HandRank)
    requires
        rank_key(h1) > rank_key(h2),
        rank_key(h2) > rank_key(h3),
    ensures
        rank_key(h1) > rank_key(h3),
{
}

/// A hand of a stronger category beats any hand of a weaker category,
/// whatever ranks either carries: a royal flush beats any straight flush,
/// a straight flush any four of a kind, and so on down to a high card.
/// Suits play no part.
pub proof fn lemma_category_dominates(h1: HandRank, h2: HandRank)
    requires
        wf_rank(h1),
        wf_rank(h2),
        category(h1) > category(h2),
    ensures
        rank_key(h1) > rank_key(h2),
{
    assert(0 <= tiebreak(h1));
    assert(tiebreak(h2) < 759375);
}

/// The ranks of a sequence of cards, in card order.
pub open spec fn ranks_of(cards: Seq<Card>) -> Seq<u8> {
    cards.map(|i: int, c: Card| c.rank)
}

/// The descending order on ranks, as a relation for sorting.
pub open spec fn rank_descending() -> spec_fn(u8, u8) -> bool {
    |x: u8, y: u8| x >= y
}

/// A sequence of ranks rearranged into descending order.
pub open spec fn sort_desc(s: Seq<u8>) -> Seq<u8> {
    s.sort_by(rank_descending())
}

/// All cards of the hand share one suit.
pub open spec fn is_flush(cards: Seq<Card>) -> bool {
    forall|i: int| 0 <= i < cards.len() ==> (#[trigger] cards[i]).suit == cards[0].suit
}

/// A descending rank list forms a straight: consecutive ranks throughout,
/// or exactly the wheel `A,5,4,3,2`, the one case where the ace plays low.
pub open spec fn is_straight_ranks(s: Seq<u8>) -> bool {
    (forall|i: int| 0 <= i < s.len() - 1 ==> #[trigger] s[i] == s[i + 1] + 1)
    || s == seq![14u8, 5u8, 4u8, 3u8, 2u8]
}

/// How often rank `v` occurs in `s`.
pub open spec fn cnt(s: Seq<u8>, v: u8) -> nat
    decreases s.len(),
{
    if s.len() == 0 {
        0
    } else {
        cnt(s.drop_last(), v) + if s.last() == v {
            1nat
        } else {
            0nat
        }
    }
}

/// The ranks of `s` in order, with every occurrence of `a` and `b` removed.
pub open spec fn without(s: Seq<u8>, a: u8, b: u8) -> Seq<u8>
    decreases s.len(),
{
    if s.len() == 0 {
        Seq::empty()
    } else if s.last() == a || s.last() == b {
        without(s.drop_last(), a, b)
    } else {
        without(s.drop_last(), a, b).push(s.last())
    }
}

/// The least rank `u` with `v <= u < 15` occurring exactly `c` times in
/// `s`, if any.
pub open spec fn lowest_with_count(s: Seq<u8>, c: nat, v: int) -> Option<u8>
    decreases 15 - v,
{
    if v < 0 || v >= 15 {
        None
    } else if cnt(s, v as u8) == c {
        Some(v as u8)
    } else {
        lowest_with_count(s, c, v + 1)
    }
}

/// The greatest rank `u <= v` occurring exactly twice in `s`, if any.
pub open spec fn highest_pair_below(s: Seq<u8>, v: int) -> Option<u8>
    decreases v + 1,
{
    if v < 0 {
        None
    } else if cnt(s, v as u8) == 2 {
        Some(v as u8)
    } else {
        highest_pair_below(s, v - 1)
    }
}

/// The classification of one hand of cards, the heart of the evaluator.
/// With the ranks sorted descending: a flush that is also a straight is a
/// straight flush (royal when ace-high with a king); otherwise the rank
/// multiplicities decide, quads before a full house or trips, then pairs;
/// and with no multiples, flush beats straight beats high card. The wheel
/// compares by its five, not its ace.
#[verifier::opaque]
pub open spec fn classify(cards: Seq<Card>) -> HandRank
    recommends
        cards.len() >= 5,
{
    let sr = sort_desc(ranks_of(cards));
    let flush = is_flush(cards);
    let straight = is_straight_ranks(sr);
    if flush && straight {
        if sr[0] == 14 {
            if sr[1] == 13 {
                HandRank::RoyalFlush
            } else {
                HandRank::StraightFlush(sr[1])
            }
        } else {
            HandRank::StraightFlush(sr[0])
        }
    } else {
        let quad = lowest_with_count(sr, 4, 0);
        let trip = lowest_with_count(sr, 3, 0);
        let p1 = highest_pair_below(sr, 14);
        if quad is Some {
            HandRank::FourOfAKind(quad->0, without(sr, quad->0, quad->0)[0])
        } else if trip is Some {
            if p1 is Some {
                HandRank::FullHouse(trip->0, p1->0)
            } else {
                let ks = without(sr, trip->0, trip->0);
                HandRank::ThreeOfAKind(trip->0, ks[0], ks[1])
            }
        } else if p1 is Some && highest_pair_below(sr, p1->0 - 1) is Some {
            let p2 = highest_pair_below(sr, p1->0 - 1);
            HandRank::TwoPair(p1->0, p2->0, without(sr, p1->0, p2->0)[0])
        } else if p1 is Some {
            let ks = without(sr, p1->0, p1->0);
            HandRank::OnePair(p1->0, ks[0], ks[1], ks[2])
        } else if flush {
            HandRank::Flush(sr[0], sr[1], sr[2], sr[3], sr[4])
        } else if straight {
            if sr[0] == 14 && sr[1] == 5 {
                HandRank::Straight(sr[1])
            } else {
                HandRank::Straight(sr[0])
            }
        } else {
            HandRank::HighCard(sr[0], sr[1], sr[2], sr[3], sr[4])
        }
    }
}

proof fn lemma_rank_descending_total()
    ensures
        total_ordering(rank_descending()),
{
    let leq = rank_descending();
    assert forall|x: u8| #[trigger] leq(x, x) by {}
    assert forall|x: u8, y: u8| #[trigger] leq(x, y) && #[trigger] leq(y, x) implies x == y by {}
    assert forall|x: u8, y: u8, z: u8| #[trigger] leq(x, y) && #[trigger] leq(y, z) implies leq(
        x,
        z,
    ) by {}
    assert forall|x: u8, y: u8| #[trigger] leq(x, y) || #[trigger] leq(y, x) by {}
}

proof fn lemma_sort_desc(s: Seq<u8>)
    ensures
        sort_desc(s).to_multiset() == s.to_multiset(),
        sorted_by(sort_desc(s), rank_descending()),
        sort_desc(s).len() == s.len(),
{
    broadcast use vstd::seq_lib::group_to_multiset_ensures;

    lemma_rank_descending_total();
    s.lemma_sort_by_ensures(rank_descending());
    assert(sort_desc(s).to_multiset().len() == s.to_multiset().len());
}

/// A rank that occurs in `s` at all is one of its elements.
proof fn lemma_cnt_positive(s: Seq<u8>, v: u8)
    requires
        cnt(s, v) > 0,
    ensures
        exists|i: int| 0 <= i < s.len() && s[i] == v,
    decreases s.len(),
{
    if s.last() == v {
        assert(s[s.len() - 1] == v);
    } else {
        lemma_cnt_positive(s.drop_last(), v);
        let i = choose|i: int| 0 <= i < s.drop_last().len() && s.drop_last()[i] == v;
        assert(s[i] == v);
    }
}

proof fn lemma_cnt_le_len(s: Seq<u8>, v: u8)
    ensures
        cnt(s, v) <= s.len(),
    decreases s.len(),
{
    if s.len() > 0 {
        lemma_cnt_le_len(s.drop_last(), v);
    }
}

/// Removing two ranks removes exactly their occurrences.
proof fn lemma_without_len(s: Seq<u8>, a: u8, b: u8)
    ensures
        a == b ==> without(s, a, b).len() + cnt(s, a) == s.len(),
        a != b ==> without(s, a, b).len() + cnt(s, a) + cnt(s, b) == s.len(),
    decreases s.len(),
{
    if s.len() > 0 {
        lemma_without_len(s.drop_last(), a, b);
    }
}

/// Every rank kept by `without` is an element of the original sequence.
proof fn lemma_without_elements(s: Seq<u8>, a: u8, b: u8)
    ensures
        forall|i: int|
            0 <= i < without(s, a, b).len() ==> exists|j: int|
                0 <= j < s.len() && s[j] == #[trigger] without(s, a, b)[i],
    decreases s.len(),
{
    if s.len() > 0 {
        lemma_without_elements(s.drop_last(), a, b);
        let w = without(s, a, b);
        let wd = without(s.drop_last(), a, b);
        assert forall|i: int| 0 <= i < w.len() implies exists|j: int|
            0 <= j < s.len() && s[j] == #[trigger] w[i] by {
            if s.last() == a || s.last() == b {
                assert(w == wd);
                let j = choose|j: int| 0 <= j < s.drop_last().len() && s.drop_last()[j] == wd[i];
                assert(s[j] == w[i]);
            } else {
                assert(w == wd.push(s.last()));
                if i < wd.len() {
                    let j = choose|j: int|
                        0 <= j < s.drop_last().len() && s.drop_last()[j] == wd[i];
                    assert(s[j] == w[i]);
                } else {
                    assert(w[i] == s.last());
                    assert(s[s.len() - 1] == w[i]);
                }
            }
        }
    }
}

/// What `lowest_with_count` finds occurs exactly `c` times; when it finds
/// nothing, no rank from `v` upward does.
proof fn lemma_lowest_with_count(s: Seq<u8>, c: nat, v: int)
    requires
        0 <= v <= 15,
    ensures
        lowest_with_count(s, c, v) matches Some(u) ==> v <= u < 15 && cnt(s, u) == c,
        lowest_with_count(s, c, v) is None ==> forall|u: u8| v <= u < 15 ==> cnt(s, u) != c,
        (forall|u: u8| v <= u < 15 ==> cnt(s, u) != c) ==> lowest_with_count(s, c, v) is None,
    decreases 15 - v,
{
    if v < 15 {
        lemma_lowest_with_count(s, c, v + 1);
    }
}

/// What `highest_pair_below` finds is a pair; when it finds nothing, no
/// rank up to `v` occurs twice.
proof fn lemma_highest_pair_below(s: Seq<u8>, v: int)
    requires
        v <= 14,
    ensures
        highest_pair_below(s, v) matches Some(u) ==> 0 <= u <= v && cnt(s, u) == 2,
        highest_pair_below(s, v) is None ==> forall|u: u8| 0 <= u <= v ==> cnt(s, u) != 2,
        (forall|u: u8| 0 <= u <= v ==> cnt(s, u) != 2) ==> highest_pair_below(s, v) is None,
    decreases v + 1,
{
    if v >= 0 {
        lemma_highest_pair_below(s, v - 1);
    }
}

/// Two sequences with one multiset have the same elements.
proof fn lemma_same_multiset_elements(s1: Seq<u8>, s2: Seq<u8>)
    requires
        s1.to_multiset() == s2.to_multiset(),
    ensures
        forall|i: int| 0 <= i < s2.len() ==> s1.contains(#[trigger] s2[i]),
{
    broadcast use vstd::seq_lib::group_to_multiset_ensures;

    assert forall|i: int| 0 <= i < s2.len() implies s1.contains(#[trigger] s2[i]) by {
        assert(s2.to_multiset().contains(s2[i]));
    }
}

/// Rearranges a vector of ranks into descending order.
fn sorted_desc_vec(v: &Vec<u8>) -> (out: Vec<u8>)
    ensures
        out@ == sort_desc(v@),
        out@.len() == v@.len(),
{
    broadcast use vstd::seq_lib::group_to_multiset_ensures;

    let mut rest: Vec<u8> = Vec::new();
    let mut i: usize = 0;
    while i < v.len()
        invariant
            i <= v@.len(),
            rest@ == v@.take(i as int),
        decreases v@.len() - i,
    {
        rest.push(v[i]);
        proof {
            assert(rest@ =~= v@.take(i + 1));
        }
        i = i + 1;
    }
    proof {
        assert(rest@ =~= v@);
    }
    let mut out: Vec<u8> = Vec::new();
    while rest.len() > 0
        invariant
            out@.to_multiset().add(rest@.to_multiset()) =~= v@.to_multiset(),
            sorted_by(out@, rank_descending()),
            forall|a: int, b: int|
                0 <= a < out@.len() && 0 <= b < rest@.len() ==> out@[a] >= rest@[b],
        decreases rest@.len(),
    {
        let mut m: usize = 0;
        let mut t: usize = 1;
        while t < rest.len()
            invariant
                rest@.len() > 0,
                m < rest@.len(),
                t <= rest@.len(),
                forall|j: int| 0 <= j < t ==> rest@[m as int] >= rest@[j],
            decreases rest@.len() - t,
        {
            if rest[t] > rest[m] {
                m = t;
            }
            t = t + 1;
        }
        let ghost pre_out = out@;
        let ghost pre_rest = rest@;
        let x = rest.remove(m);
        out.push(x);
        proof {
            vstd::seq_lib::to_multiset_remove(pre_rest, m as int);
            vstd::seq_lib::to_multiset_build(pre_out, x);
            vstd::seq_lib::to_multiset_contains(pre_rest, x);
            assert(out@.to_multiset() =~= pre_out.to_multiset().insert(x));
            assert(out@.to_multiset().add(rest@.to_multiset()) =~= v@.to_multiset()) by {
                assert(pre_out.to_multiset().add(pre_rest.to_multiset()) =~= v@.to_multiset());
                assert(pre_rest.contains(x));
                assert(pre_rest.to_multiset().count(x) > 0);
            }
            assert(sorted_by(out@, rank_descending())) by {
                assert forall|a: int, b: int|
                    0 <= a <= b < out@.len() implies rank_descending()(out@[a], out@[b]) by {
                    if b < pre_out.len() {
                        assert(sorted_by(pre_out, rank_descending()));
                    } else {
                        assert(out@[b] == x);
                        if a < pre_out.len() {
                            assert(pre_out[a] >= pre_rest[m as int]);
                        }
                    }
                }
            }
            assert forall|a: int, b: int|
                0 <= a < out@.len() && 0 <= b < rest@.len() implies out@[a] >= rest@[b] by {
                assert(rest@[b] == if b < m { pre_rest[b] } else { pre_rest[b + 1] });
                assert(x >= rest@[b]);
            }
        }
    }
    proof {
        assert(rest@.to_multiset() =~= Seq::<u8>::empty().to_multiset());
        assert(out@.to_multiset() =~= v@.to_multiset());
        lemma_sort_desc(v@);
        lemma_rank_descending_total();
        lemma_sorted_unique(out@, sort_desc(v@), rank_descending());
    }
    out
}

/// Five cards whose ranks are exactly `A,5,4,3,2` form the wheel: they
/// classify as a five-high straight, or five-high straight flush when
/// suited, never by their ace. A five-high straight sits strictly below a
/// six-high straight, a five-high straight flush strictly below a
/// six-high straight flush, and every straight flush strictly below a
/// royal flush.
pub proof fn lemma_wheel_is_five_high(cards: Seq<Card>)
    requires
        cards.len() == 5,
        ranks_of(cards).to_multiset() == seq![14u8, 5u8, 4u8, 3u8, 2u8].to_multiset(),
    ensures
        !is_flush(cards) ==> classify(cards) == HandRank::Straight(5),
        is_flush(cards) ==> classify(cards) == HandRank::StraightFlush(5),
        rank_key(HandRank::Straight(5)) < rank_key(HandRank::Straight(6)),
        rank_key(HandRank::StraightFlush(5)) < rank_key(HandRank::StraightFlush(6)),
        forall|x: u8| valid_rank(x) ==> rank_key(HandRank::StraightFlush(x)) < rank_key(
            HandRank::RoyalFlush,
        ),
{
    reveal(classify);
    let w = seq![14u8, 5u8, 4u8, 3u8, 2u8];
    let r = ranks_of(cards);
    let sr = sort_desc(r);
    lemma_sort_desc(r);
    lemma_rank_descending_total();
    assert(sorted_by(w, rank_descending())) by {
        assert(w[0] == 14 && w[1] == 5 && w[2] == 4 && w[3] == 3 && w[4] == 2);
        assert forall|a: int, b: int| 0 <= a <= b < w.len() implies rank_descending()(
            w[a],
            w[b],
        ) by {}
    }
    lemma_sorted_unique(sr, w, rank_descending());
    assert(sr == w);
    assert(is_straight_ranks(sr));
    assert forall|u: u8| cnt(w, u) <= 1 by {
        let w4 = seq![14u8, 5u8, 4u8, 3u8];
        let w3 = seq![14u8, 5u8, 4u8];
        let w2 = seq![14u8, 5u8];
        let w1 = seq![14u8];
        let w0 = Seq::<u8>::empty();
        assert(w.drop_last() =~= w4);
        assert(w4.drop_last() =~= w3);
        assert(w3.drop_last() =~= w2);
        assert(w2.drop_last() =~= w1);
        assert(w1.drop_last() =~= w0);
        assert(cnt(w0, u) == 0);
        assert(cnt(w1, u) <= 1 && (cnt(w1, u) == 1 ==> u == 14));
        assert(cnt(w2, u) <= 1 && (cnt(w2, u) == 1 ==> u == 14 || u == 5));
        assert(cnt(w3, u) <= 1 && (cnt(w3, u) == 1 ==> u == 14 || u == 5 || u == 4));
        assert(cnt(w4, u) <= 1);
        assert(cnt(w, u) <= 1);
    }
    lemma_lowest_with_count(sr, 4, 0);
    lemma_lowest_with_count(sr, 3, 0);
    lemma_highest_pair_below(sr, 14);
    assert(lowest_with_count(sr, 4, 0) is None);
    assert(lowest_with_count(sr, 3, 0) is None);
    assert(highest_pair_below(sr, 14) is None);
    assert(sr[0] == 14 && sr[1] == 5);
}

/// Tallies how often each rank 0..=14 occurs in a rank vector.
fn rank_counts(sorted: &Vec<u8>) -> (counts: Vec<usize>)
    requires
        forall|i: int| 0 <= i < sorted@.len() ==> sorted@[i] < 15,
    ensures
        counts@.len() == 15,
        forall|v: int| 0 <= v < 15 ==> counts@[v] == cnt(sorted@, v as u8),
{
    let mut counts: Vec<usize> = Vec::new();
    let mut z: usize = 0;
    while z < 15
        invariant
            counts@.len() == z <= 15,
            forall|j: int| 0 <= j < z ==> counts@[j] == 0,
        decreases 15 - z,
    {
        counts.push(0);
        z = z + 1;
    }
    let mut i: usize = 0;
    while i < sorted.len()
        invariant
            i <= sorted@.len(),
            counts@.len() == 15,
            forall|j: int| 0 <= j < sorted@.len() ==> sorted@[j] < 15,
            forall|v: int| 0 <= v < 15 ==> counts@[v] == cnt(sorted@.take(i as int), v as u8),
            forall|v: int| 0 <= v < 15 ==> counts@[v] <= i,
        decreases sorted@.len() - i,
    {
        let r = sorted[i] as usize;
        let c = counts[r];
        counts.set(r, c + 1);
        proof {
            assert(sorted@.take(i + 1).drop_last() =~= sorted@.take(i as int));
            assert(sorted@.take(i + 1).last() == sorted@[i as int]);
            assert forall|v: int| 0 <= v < 15 implies counts@[v] == cnt(
                sorted@.take(i + 1),
                v as u8,
            ) by {
                assert(cnt(sorted@.take(i + 1), v as u8) == cnt(sorted@.take(i as int), v as u8)
                    + if sorted@[i as int] == v as u8 {
                    1nat
                } else {
                    0nat
                });
            }
        }
        i = i + 1;
    }
    proof {
        assert(sorted@.take(sorted@.len() as int) =~= sorted@);
    }
    counts
}

/// Scans the tally upward for the least rank occurring exactly `c` times.
fn find_lowest(counts: &Vec<usize>, c: usize, Ghost(s): Ghost<Seq<u8>>) -> (r: Option<u8>)
    requires
        counts@.len() == 15,
        forall|v: int| 0 <= v < 15 ==> counts@[v] == cnt(s, v as u8),
    ensures
        r == lowest_with_count(s, c as nat, 0),
{
    let mut v: usize = 0;
    while v < 15
        invariant
            v <= 15,
            counts@.len() == 15,
            forall|u: int| 0 <= u < 15 ==> counts@[u] == cnt(s, u as u8),
            lowest_with_count(s, c as nat, 0) == lowest_with_count(s, c as nat, v as int),
        decreases 15 - v,
    {
        if counts[v] == c {
            return Some(v as u8);
        }
        v = v + 1;
    }
    None
}

/// Scans the tally downward from `start` for the greatest rank that
/// occurs exactly twice.
fn find_highest_pair(counts: &Vec<usize>, start: usize, Ghost(s): Ghost<Seq<u8>>) -> (r: Option<
    u8,
>)
    requires
        start < 15,
        counts@.len() == 15,
        forall|v: int| 0 <= v < 15 ==> counts@[v] == cnt(s, v as u8),
    ensures
        r == highest_pair_below(s, start as int),
{
    let mut v: usize = start;
    loop
        invariant
            v <= start < 15,
            counts@.len() == 15,
            forall|u: int| 0 <= u < 15 ==> counts@[u] == cnt(s, u as u8),
            highest_pair_below(s, start as int) == highest_pair_below(s, v as int),
        ensures
            highest_pair_below(s, start as int) == highest_pair_below(s, v as int),
            cnt(s, v as u8) == 2 || v == 0,
            cnt(s, v as u8) == 2 ==> highest_pair_below(s, v as int) == Some(v as u8),
        decreases v,
    {
        if counts[v] == 2 {
            break;
        }
        if v == 0 {
            break;
        }
        v = v - 1;
    }
    if counts[v] == 2 {
        Some(v as u8)
    } else {
        assert(v == 0);
        assert(highest_pair_below(s, -1) is None);
        assert(highest_pair_below(s, 0) is None);
        None
    }
}

/// Copies a sorted rank vector, leaving out every occurrence of `a` and `b`.
fn kickers_without(sorted: &Vec<u8>, a: u8, b: u8) -> (ks: Vec<u8>)
    ensures
        ks@ == without(sorted@, a, b),
{
    let mut ks: Vec<u8> = Vec::new();
    let mut i: usize = 0;
    while i < sorted.len()
        invariant
            i <= sorted@.len(),
            ks@ == without(sorted@.take(i as int), a, b),
        decreases sorted@.len() - i,
    {
        let x = sorted[i];
        proof {
            assert(sorted@.take(i + 1).drop_last() =~= sorted@.take(i as int));
            assert(sorted@.take(i + 1).last() == sorted@[i as int]);
        }
        if x != a && x != b {
            ks.push(x);
        }
        i = i + 1;
    }
    proof {
        assert(sorted@.take(sorted@.len() as int) =~= sorted@);
    }
    ks
}

/// Decides whether a descending rank vector forms a straight, the wheel
/// `A,5,4,3,2` included.
fn is_straight(ranks: &Vec<u8>) -> (b: bool)
    ensures
        b == is_straight_ranks(ranks@),
{
    let n = ranks.len();
    let mut consec = true;
    if n >= 2 {
        let mut i: usize = 0;
        while i < n - 1
            invariant
                n >= 2,
                i <= n - 1,
                n == ranks@.len(),
                consec == (forall|j: int| 0 <= j < i ==> #[trigger] ranks@[j] == ranks@[j + 1]
                    + 1),
            decreases n - i,
        {
            if !(ranks[i] as u32 == ranks[i + 1] as u32 + 1) {
                consec = false;
            }
            i = i + 1;
        }
    }
    proof {
        assert(consec == (forall|j: int|
            0 <= j < ranks@.len() - 1 ==> #[trigger] ranks@[j] == ranks@[j + 1] + 1));
    }
    if consec {
        return true;
    }
    let wheel = n == 5 && ranks[0] == 14 && ranks[1] == 5 && ranks[2] == 4 && ranks[3] == 3
        && ranks[4] == 2;
    proof {
        if wheel {
            assert(ranks@ =~= seq![14u8, 5u8, 4u8, 3u8, 2u8]);
        } else {
            if ranks@ == seq![14u8, 5u8, 4u8, 3u8, 2u8] {
                assert(ranks@[0] == 14 && ranks@[1] == 5 && ranks@[2] == 4 && ranks@[3] == 3
                    && ranks@[4] == 2);
                assert(false);
            }
        }
    }
    wheel
}

impl HandRank {
    /// Classifies the hand written in the textual card notation.
    /// Fails with `InsufficientCards` when fewer than five cards are given.
    pub fn from_cards_str(s: &str) -> (r: Result<HandRank, PokerError>)
        requires
            valid_cards_str(s@),
        ensures
            parsed_cards(s@).len() < 5 ==> r == Err::<HandRank, PokerError>(
                PokerError::InsufficientCards,
            ),
            parsed_cards(s@).len() >= 5 ==> r == Ok::<HandRank, PokerError>(
                classify(parsed_cards(s@)),
            ),
    {
        let cards = parse_cards(s);
        HandRank::from_cards(&cards)
    }

    /// Classifies the given cards by the rules of `classify`: the exact
    /// poker category with its tie-break ranks. Fails with
    /// `InsufficientCards` when fewer than five cards are given.
    pub fn from_cards(cards: &Vec<Card>) -> (r: Result<HandRank, PokerError>)
        requires
            forall|i: int| 0 <= i < cards@.len() ==> valid_card(#[trigger] cards@[i]),
        ensures
            cards@.len() < 5 ==> r == Err::<HandRank, PokerError>(PokerError::InsufficientCards),
            cards@.len() >= 5 ==> r == Ok::<HandRank, PokerError>(classify(cards@)) && wf_rank(
                classify(cards@),
            ),
    {
        proof {
            reveal(classify);
        }
        if cards.len() < 5 {
            return Err(PokerError::InsufficientCards);
        }
        let mut ranks: Vec<u8> = Vec::new();
        let mut i: usize = 0;
        while i < cards.len()
            invariant
                i <= cards@.len(),
                ranks@.len() == i,
                forall|j: int| 0 <= j < cards@.len() ==> valid_card(#[trigger] cards@[j]),
                forall|j: int| 0 <= j < i ==> #[trigger] ranks@[j] == cards@[j].rank,
            decreases cards@.len() - i,
        {
            ranks.push(cards[i].rank);
            i = i + 1;
        }
        proof {
            assert(ranks@ =~= ranks_of(cards@));
        }
        let sorted = sorted_desc_vec(&ranks);
        let ghost sr = sort_desc(ranks_of(cards@));
        proof {
            lemma_sort_desc(ranks_of(cards@));
            lemma_same_multiset_elements(ranks_of(cards@), sr);
            assert forall|j: int| 0 <= j < sr.len() implies valid_rank(#[trigger] sr[j]) by {
                assert(ranks_of(cards@).contains(sr[j]));
                let k = choose|k: int|
                    0 <= k < ranks_of(cards@).len() && ranks_of(cards@)[k] == sr[j];
                assert(valid_card(cards@[k]));
            }
        }
        let mut flush = true;
        let mut f: usize = 0;
        while f < cards.len()
            invariant
                f <= cards@.len(),
                cards@.len() >= 5,
                flush == (forall|j: int|
                    0 <= j < f ==> (#[trigger] cards@[j]).suit == cards@[0].suit),
            decreases cards@.len() - f,
        {
            if !(cards[f].suit == cards[0].suit) {
                flush = false;
            }
            f = f + 1;
        }
        proof {
            assert(flush == is_flush(cards@));
        }
        let straight = is_straight(&sorted);
        let n = sorted.len();
        assert(n == cards@.len());
        if flush && straight {
            if sorted[0] == 14 {
                if sorted[1] == 13 {
                    Ok(HandRank::RoyalFlush)
                } else {
                    Ok(HandRank::StraightFlush(sorted[1]))
                }
            } else {
                Ok(HandRank::StraightFlush(sorted[0]))
            }
        } else {
            let counts = rank_counts(&sorted);
            let quad = find_lowest(&counts, 4, Ghost(sorted@));
            let trip = find_lowest(&counts, 3, Ghost(sorted@));
            let p1 = find_highest_pair(&counts, 14, Ghost(sorted@));
            proof {
                lemma_lowest_with_count(sr, 4, 0);
                lemma_lowest_with_count(sr, 3, 0);
                lemma_highest_pair_below(sr, 14);
            }
            if let Some(q) = quad {
                let ks = kickers_without(&sorted, q, q);
                proof {
                    lemma_without_len(sr, q, q);
                    lemma_cnt_positive(sr, q);
                    lemma_without_elements(sr, q, q);
                    assert(ks@.len() >= 1);
                    assert(valid_rank(ks@[0])) by {
                        let j = choose|j: int| 0 <= j < sr.len() && sr[j] == without(sr, q, q)[0];
                        assert(valid_rank(sr[j]));
                    }
                }
                Ok(HandRank::FourOfAKind(q, ks[0]))
            } else if let Some(t) = trip {
                if let Some(p) = p1 {
                    proof {
                        lemma_cnt_positive(sr, t);
                        lemma_cnt_positive(sr, p);
                    }
                    Ok(HandRank::FullHouse(t, p))
                } else {
                    let ks = kickers_without(&sorted, t, t);
                    proof {
                        lemma_without_len(sr, t, t);
                        lemma_cnt_positive(sr, t);
                        lemma_without_elements(sr, t, t);
                        assert(ks@.len() >= 2);
                        assert(valid_rank(ks@[0]) && valid_rank(ks@[1])) by {
                            let w = without(sr, t, t);
                            let j0 = choose|j: int| 0 <= j < sr.len() && sr[j] == w[0];
                            let j1 = choose|j: int| 0 <= j < sr.len() && sr[j] == w[1];
                            assert(valid_rank(sr[j0]) && valid_rank(sr[j1]));
                        }
                    }
                    Ok(HandRank::ThreeOfAKind(t, ks[0], ks[1]))
                }
            } else if let Some(p) = p1 {
                proof {
                    lemma_cnt_positive(sr, p);
                }
                let p2 = if p >= 1 {
                    find_highest_pair(&counts, (p - 1) as usize, Ghost(sorted@))
                } else {
                    assert(highest_pair_below(sr, -1) is None);
                    None
                };
                proof {
                    lemma_highest_pair_below(sr, p - 1);
                }
                if let Some(q2) = p2 {
                    let ks = kickers_without(&sorted, p, q2);
                    proof {
                        lemma_cnt_positive(sr, q2);
                        lemma_without_len(sr, p, q2);
                        lemma_without_elements(sr, p, q2);
                        assert(ks@.len() >= 1);
                        assert(valid_rank(ks@[0])) by {
                            let j = choose|j: int|
                                0 <= j < sr.len() && sr[j] == without(sr, p, q2)[0];
                            assert(valid_rank(sr[j]));
                        }
                    }
                    Ok(HandRank::TwoPair(p, q2, ks[0]))
                } else {
                    let ks = kickers_without(&sorted, p, p);
                    proof {
                        lemma_without_len(sr, p, p);
                        lemma_without_elements(sr, p, p);
                        assert(ks@.len() >= 3);
                        assert(valid_rank(ks@[0]) && valid_rank(ks@[1]) && valid_rank(ks@[2]))
                            by {
                            let w = without(sr, p, p);
                            let j0 = choose|j: int| 0 <= j < sr.len() && sr[j] == w[0];
                            let j1 = choose|j: int| 0 <= j < sr.len() && sr[j] == w[1];
                            let j2 = choose|j: int| 0 <= j < sr.len() && sr[j] == w[2];
                            assert(valid_rank(sr[j0]) && valid_rank(sr[j1]) && valid_rank(
                                sr[j2],
                            ));
                        }
                    }
                    Ok(HandRank::OnePair(p, ks[0], ks[1], ks[2]))
                }
            } else if flush {
                Ok(HandRank::Flush(sorted[0], sorted[1], sorted[2], sorted[3], sorted[4]))
            } else if straight {
                if sorted[0] == 14 && sorted[1] == 5 {
                    Ok(HandRank::Straight(sorted[1]))
                } else {
                    Ok(HandRank::Straight(sorted[0]))
                }
            } else {
                Ok(HandRank::HighCard(sorted[0], sorted[1], sorted[2], sorted[3], sorted[4]))
            }
        }
    }
}

/// Computes the strength key of a hand rank.
pub fn rank_key_of(h: &HandRank) -> (k: u64)
    ensures
        k as int == rank_key(*h),
{
    let cat: u64 = match *h {
        HandRank::HighCard(_, _, _, _, _) => 0,
        HandRank::OnePair(_, _, _, _) => 1,
        HandRank::TwoPair(_, _, _) => 2,
        HandRank::ThreeOfAKind(_, _, _) => 3,
        HandRank::Straight(_) => 4,
        HandRank::Flush(_, _, _, _, _) => 5,
        HandRank::FullHouse(_, _) => 6,
        HandRank::FourOfAKind(_, _) => 7,
        HandRank::StraightFlush(_) => 8,
        HandRank::RoyalFlush => 9,
    };
    let tie: u64 = match *h {
        HandRank::HighCard(a, b, c, d, e) => a as u64 * 50625 + b as u64 * 3375 + c as u64 * 225
            + d as u64 * 15 + e as u64,
        HandRank::OnePair(p, a, b, c) => p as u64 * 50625 + a as u64 * 3375 + b as u64 * 225
            + c as u64 * 15,
        HandRank::TwoPair(p, q, k) => p as u64 * 50625 + q as u64 * 3375 + k as u64 * 225,
        HandRank::ThreeOfAKind(t, a, b) => t as u64 * 50625 + a as u64 * 3375 + b as u64 * 225,
        HandRank::Straight(hc) => hc as u64 * 50625,
        HandRank::Flush(a, b, c, d, e) => a as u64 * 50625 + b as u64 * 3375 + c as u64 * 225
            + d as u64 * 15 + e as u64,
        HandRank::FullHouse(t, p) => t as u64 * 50625 + p as u64 * 3375,
        HandRank::FourOfAKind(q, k) => q as u64 * 50625 + k as u64 * 3375,
        HandRank::StraightFlush(hc) => hc as u64 * 50625,
        HandRank::RoyalFlush => 0,
    };
    cat * 759375 + tie
}

} // verus!
