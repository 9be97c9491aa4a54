//! Cards, suits, and the 52-card deck: construction, shuffling, dealing,
//! and the textual card notation used for fixtures.

use vstd::prelude::*;
use vstd::string::StrSliceExecFns;
use crate::PokerError;
use rand::seq::SliceRandom;

verus! {

/// One of the four French suits. No ordering semantics beyond equality.
#[derive(Debug, Clone, Copy, PartialEq, Eq, Structural)]
pub enum Suit {
    Clubs,
    Diamonds,
    Hearts,
    Spades,
}

/// A playing card. Rank 2 through 10 are the pip cards; 11 = Jack,
/// 12 = Queen, 13 = King, 14 = Ace (high by default, low only in the wheel).
#[derive(Debug, Clone, Copy, PartialEq, Eq, Structural)]
pub struct Card {
    pub rank: u8,
    pub suit: Suit,
}

/// A rank as the data model allows it: 2 through 14.
pub open spec fn valid_rank(r: u8) -> bool {
    2 <= r <= 14
}

/// A card whose rank lies in the allowed range.
pub open spec fn valid_card(c: Card) -> bool {
    valid_rank(c.rank)
}

impl Card {
    /// Builds the card with the given rank and suit.
    pub fn new(rank: u8, suit: Suit) -> (c: Card)
        requires
            valid_rank(rank),
        ensures
            c == (Card { rank, suit }),
    {
        Self { rank, suit }
    }
}

/// The suit that owns block `i` of thirteen consecutive cards in the
/// canonical deck order.
pub open spec fn suit_of_index(i: int) -> Suit {
    if i == 0 {
        Suit::Clubs
    } else if i == 1 {
        Suit::Diamonds
    } else if i == 2 {
        Suit::Hearts
    } else {
        Suit::Spades
    }
}

/// Card `i` of the canonical deck order: suit-major, rank ascending 2..=14.
pub open spec fn canonical_card(i: int) -> Card {
    Card { rank: (2 + i % 13) as u8, suit: suit_of_index(i / 13) }
}

/// The canonical 52-card deck, in its fixed deterministic order.
pub open spec fn canonical_deck() -> Seq<Card> {
    Seq::new(52, |i: int| canonical_card(i))
}

/// A suit glyph of the textual card notation.
pub open spec fn is_suit_char(c: char) -> bool {
    c == '\u{2663}' || c == '\u{2666}' || c == '\u{2665}' || c == '\u{2660}'
}

/// The suit a glyph stands for.
pub open spec fn suit_of_char(c: char) -> Suit {
    if c == '\u{2663}' {
        Suit::Clubs
    } else if c == '\u{2666}' {
        Suit::Diamonds
    } else if c == '\u{2665}' {
        Suit::Hearts
    } else {
        Suit::Spades
    }
}

/// A rank character of the textual card notation: `A`, `K`, `Q`, `J`,
/// `X` for ten, or a digit `2` through `9`.
pub open spec fn is_rank_char(c: char) -> bool {
    c == 'A' || c == 'K' || c == 'Q' || c == 'J' || c == 'X' || ('2' as int <= c as int <= '9' as int)
}

/// The rank a character stands for.
pub open spec fn rank_of_char(c: char) -> u8 {
    if c == 'A' {
        14
    } else if c == 'K' {
        13
    } else if c == 'Q' {
        12
    } else if c == 'J' {
        11
    } else if c == 'X' {
        10
    } else {
        (c as int - '0' as int) as u8
    }
}

/// A well-formed card string: one or more two-character cards, a suit
/// glyph followed by a rank character, joined by `;`.
pub open spec fn valid_cards_str(s: Seq<char>) -> bool {
    &&& s.len() % 3 == 2
    &&& s.len() < usize::MAX
    &&& forall|k: int|
        0 <= k < (s.len() + 1) / 3 ==> is_suit_char(#[trigger] s[3 * k]) && is_rank_char(
            s[3 * k + 1],
        )
}

/// The card written at position `k` of a well-formed card string.
pub open spec fn parsed_card(s: Seq<char>, k: int) -> Card {
    Card { rank: rank_of_char(s[3 * k + 1]), suit: suit_of_char(s[3 * k]) }
}

/// All cards written in a well-formed card string, in order.
pub open spec fn parsed_cards(s: Seq<char>) -> Seq<Card> {
    Seq::new(((s.len() + 1) / 3) as nat, |k: int| parsed_card(s, k))
}

/// Parses a `;`-joined list of two-character cards, such as the fixture
/// notation used in tests. Callers must hand in a well-formed string.
pub fn parse_cards(input: &str) -> (r: Vec<Card>)
    requires
        valid_cards_str(input@),
    ensures
        r@ == parsed_cards(input@),
        forall|i: int| 0 <= i < r@.len() ==> valid_card(#[trigger] r@[i]),
{
    let len = input.unicode_len();
    let n = (len + 1) / 3;
    let mut r: Vec<Card> = Vec::with_capacity(n);
    let mut k: usize = 0;
    while k < n
        invariant
            valid_cards_str(input@),
            len == input@.len(),
            n == (input@.len() + 1) / 3,
            k <= n,
            r@ == parsed_cards(input@).take(k as int),
        decreases n - k,
    {
        assert(3 * k + 1 < input@.len());
        let sc = input.get_char(3 * k);
        let rc = input.get_char(3 * k + 1);
        let suit = if sc == '\u{2663}' {
            Suit::Clubs
        } else if sc == '\u{2666}' {
            Suit::Diamonds
        } else if sc == '\u{2665}' {
            Suit::Hearts
        } else {
            Suit::Spades
        };
        let rank: u8 = if rc == 'A' {
            14
        } else if rc == 'K' {
            13
        } else if rc == 'Q' {
            12
        } else if rc == 'J' {
            11
        } else if rc == 'X' {
            10
        } else {
            assert('2' as int <= rc as int <= '9' as int);
            (rc as u8) - 48
        };
        r.push(Card { rank, suit });
        proof {
            assert(r@.last() == parsed_card(input@, k as int));
            assert(r@ =~= parsed_cards(input@).take(k + 1));
        }
        k = k + 1;
    }
    proof {
        assert(r@ =~= parsed_cards(input@));
        assert forall|i: int| 0 <= i < r@.len() implies valid_card(#[trigger] r@[i]) by {
            assert(is_suit_char(input@[3 * i]) && is_rank_char(input@[3 * i + 1]));
        }
    }
    r
}

/// The canonical deck holds exactly one card for every rank and suit
/// pair with the rank in 2..=14: its 52 positions are pairwise distinct,
/// and every such pair sits at some position.
pub proof fn lemma_canonical_deck_complete()
    ensures
        forall|i: int, j: int|
            0 <= i < j < 52 ==> #[trigger] canonical_deck()[i] != #[trigger] canonical_deck()[j],
        forall|c: Card|
            #[trigger] valid_card(c) ==> exists|i: int|
                0 <= i < 52 && #[trigger] canonical_deck()[i] == c,
{
    assert forall|i: int, j: int|
        0 <= i < j < 52 implies #[trigger] canonical_deck()[i]
        != #[trigger] canonical_deck()[j] by {
        assert(0 <= i / 13 <= 3 && 0 <= j / 13 <= 3 && 0 <= i % 13 <= 12 && 0 <= j % 13 <= 12
            && (i / 13 != j / 13 || i % 13 != j % 13)) by (nonlinear_arith)
            requires
                0 <= i < j < 52,
        ;
    }
    assert forall|c: Card| #[trigger] valid_card(c) implies exists|i: int|
        0 <= i < 52 && #[trigger] canonical_deck()[i] == c by {
        let r = c.rank;
        let si: int = match c.suit {
            Suit::Clubs => 0,
            Suit::Diamonds => 1,
            Suit::Hearts => 2,
            Suit::Spades => 3,
        };
        let i = 13 * si + (r - 2);
        assert(i / 13 == si && i % 13 == r - 2) by (nonlinear_arith)
            requires
                0 <= si <= 3,
                2 <= r <= 14,
                i == 13 * si + (r - 2),
        ;
        assert(canonical_deck()[i] == c);
    }
}

/// A well-formed deck still holding 52 cards holds exactly the canonical
/// 52: dealing them all hands out every card once, with no duplicate and
/// no omission.
pub proof fn lemma_full_deck_is_canonical(d: Deck)
    requires
        d.wf(),
        d.cards@.len() == 52,
    ensures
        d.cards@.to_multiset() == canonical_deck().to_multiset(),
{
    broadcast use vstd::seq_lib::group_to_multiset_ensures;
    broadcast use vstd::multiset::group_multiset_axioms;

    let dm = d.cards@.to_multiset();
    let cm = canonical_deck().to_multiset();
    assert(dm.len() == 52 && cm.len() == 52);
    assert(dm.subset_of(cm));
    let diff = cm.sub(dm);
    assert(diff.len() == 0);
    vstd::multiset::lemma_multiset_empty_len(diff);
    assert forall|c: Card| #[trigger] dm.count(c) == cm.count(c) by {
        assert(diff.count(c) == 0);
    }
    assert(dm =~= cm);
}

/// Every card drawn from the canonical deck has a rank in 2..=14.
pub proof fn lemma_sub_canonical_valid(s: Seq<Card>)
    requires
        sub_canonical(s),
    ensures
        forall|i: int| 0 <= i < s.len() ==> valid_card(#[trigger] s[i]),
{
    assert forall|i: int| 0 <= i < s.len() implies valid_card(#[trigger] s[i]) by {
        vstd::seq_lib::to_multiset_contains(s, s[i]);
        assert(s.to_multiset().count(s[i]) > 0);
        assert(canonical_deck().to_multiset().count(s[i]) > 0);
        vstd::seq_lib::to_multiset_contains(canonical_deck(), s[i]);
        let j = choose|j: int| 0 <= j < canonical_deck().len() && canonical_deck()[j] == s[i];
        assert(canonical_deck()[j] == canonical_card(j));
    }
}

/// A standard deck: the canonical 52 cards, plus the working set of cards
/// not yet dealt this hand. The working set is always drawn from the
/// canonical set without duplication.
pub struct Deck {
    pub all_cards: Vec<Card>,
    pub cards: Vec<Card>,
}

/// A working set drawn from the canonical deck: no card occurs more often
/// than the canonical deck holds it.
pub open spec fn sub_canonical(s: Seq<Card>) -> bool {
    forall|c: Card| s.to_multiset().count(c) <= canonical_deck().to_multiset().count(c)
}

impl Deck {
    /// The deck's invariant: the reference set is exactly the canonical
    /// deck, and the working set is a sub-multiset of it.
    pub open spec fn wf(&self) -> bool {
        &&& self.all_cards@ == canonical_deck()
        &&& sub_canonical(self.cards@)
    }

    /// Builds a full deck in the canonical order.
    pub fn new() -> (d: Deck)
        ensures
            d.wf(),
            d.cards@ == canonical_deck(),
    {
        let mut cards: Vec<Card> = Vec::with_capacity(52);
        let mut s: usize = 0;
        while s < 4
            invariant
                s <= 4,
                cards@.len() == 13 * s,
                forall|i: int| 0 <= i < cards@.len() ==> cards@[i] == canonical_card(i),
            decreases 4 - s,
        {
            let suit = if s == 0 {
                Suit::Clubs
            } else if s == 1 {
                Suit::Diamonds
            } else if s == 2 {
                Suit::Hearts
            } else {
                Suit::Spades
            };
            let mut rank: u8 = 2;
            while rank <= 14
                invariant
                    s < 4,
                    2 <= rank <= 15,
                    suit == suit_of_index(s as int),
                    cards@.len() == 13 * s + (rank - 2),
                    forall|i: int| 0 <= i < cards@.len() ==> cards@[i] == canonical_card(i),
                decreases 15 - rank,
            {
                cards.push(Card { rank, suit });
                assert(cards@.last() == canonical_card(cards@.len() - 1)) by {
                    let i = cards@.len() - 1;
                    assert(i / 13 == s as int && i % 13 == rank - 2) by (nonlinear_arith)
                        requires
                            i == 13 * (s as int) + ((rank - 2) as int),
                            0 <= s < 4,
                            2 <= rank <= 14,
                    ;
                }
                rank = rank + 1;
            }
            s = s + 1;
        }
        let all_cards = copy_cards(&cards);
        let d = Deck { all_cards, cards };
        assert(d.cards@ =~= canonical_deck());
        assert(d.wf()) by {
            assert(d.cards@ == canonical_deck());
        }
        d
    }

    /// Readies the deck for a new hand: a working set short of 52 cards is
    /// first refilled to the full canonical deck, and the working order is
    /// then permuted at random.
    pub fn shuffle(&mut self)
        requires
            old(self).wf(),
        ensures
            final(self).wf(),
            old(self).cards@.len() < 52 ==> final(self).cards@.to_multiset()
                == canonical_deck().to_multiset(),
            old(self).cards@.len() >= 52 ==> final(self).cards@.to_multiset()
                == old(self).cards@.to_multiset(),
            final(self).cards@.len() == if old(self).cards@.len() < 52 {
                52int
            } else {
                old(self).cards@.len() as int
            },
    {
        if self.cards.len() < 52 {
            self.cards = copy_cards(&self.all_cards);
        }
        shuffle_in_place(&mut self.cards);
    }

    /// Removes and returns the card at the working end of the deck.
    /// Fails with `DeckExhausted` when no cards remain.
    pub fn deal(&mut self) -> (r: Result<Card, PokerError>)
        requires
            old(self).wf(),
        ensures
            final(self).wf(),
            old(self).cards@.len() == 0 ==> r == Err::<Card, PokerError>(PokerError::DeckExhausted)
                && final(self).cards@ == old(self).cards@
                && final(self).all_cards == old(self).all_cards,
            old(self).cards@.len() > 0 ==> {
                &&& r == Ok::<Card, PokerError>(old(self).cards@.last())
                &&& final(self).cards@ == old(self).cards@.drop_last()
                &&& final(self).all_cards == old(self).all_cards
            },
    {
        let ghost pre = self.cards@;
        match self.cards.pop() {
            Some(c) => {
                proof {
                    assert(pre =~= pre.drop_last().push(pre.last()));
                    vstd::seq_lib::to_multiset_build(pre.drop_last(), pre.last());
                    assert forall|x: Card|
                        self.cards@.to_multiset().count(x)
                            <= canonical_deck().to_multiset().count(x) by {
                        assert(pre.to_multiset().count(x)
                            <= canonical_deck().to_multiset().count(x));
                    }
                }
                Ok(c)
            },
            None => Err(PokerError::DeckExhausted),
        }
    }
}

impl Default for Deck {
    /// A freshly built canonical deck.
    fn default() -> (d: Deck)
        ensures
            d.wf(),
            d.cards@ == canonical_deck(),
    {
        Deck::new()
    }
}

/// Copies a vector of cards element by element.
fn copy_cards(v: &Vec<Card>) -> (r: Vec<Card>)
    ensures
        r@ == v@,
{
    let mut r: Vec<Card> = Vec::with_capacity(v.len());
    let mut i: usize = 0;
    while i < v.len()
        invariant
            i <= v@.len(),
            r@ == v@.take(i as int),
        decreases v@.len() - i,
    {
        r.push(v[i]);
        proof {
            assert(r@ =~= v@.take(i + 1));
        }
        i = i + 1;
    }
    proof {
        assert(r@ =~= v@);
    }
    r
}

/// Relies on `rand::seq::SliceRandom::shuffle` with `rand::thread_rng()`:
/// it permutes the slice in place, so the multiset of cards is unchanged.
/// Nothing is promised about the resulting order, which is random.
#[verifier::external_body]
fn shuffle_in_place(cards: &mut Vec<Card>)
    ensures
        final(cards)@.to_multiset() == old(cards)@.to_multiset(),
        final(cards)@.len() == old(cards)@.len(),
{
    cards.as_mut_slice().shuffle(&mut rand::thread_rng());
}

} // verus!
