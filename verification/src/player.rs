//! Players: hole cards, chip stack, betting status, and showdown strength.

use vstd::prelude::*;
use vstd::pervasive::unreached;
use crate::card::{Card, valid_card};
use crate::hand_rank::{HandRank, classify, rank_key, rank_key_of, wf_rank};
use crate::PokerError;
use itertools::Itertools;

verus! {

/// A player's betting state for the current hand. Each acting variant
/// carries the chips the player has committed this street.
#[derive(Debug, Clone, Copy, PartialEq, Eq, Structural)]
pub enum PlayerStatus {
    /// Out of the hand for good; the commitment is frozen.
    Folded(u32),
    /// In the hand until showdown but unable to act; the commitment is
    /// frozen where the stack ran out.
    Allin(u32),
    /// Still able to act, with the street commitment so far.
    Betting(u32),
    /// Not dealt into the current hand.
    Waiting,
}

/// The chips a status has committed this street.
pub open spec fn commitment(s: PlayerStatus) -> u32 {
    match s {
        PlayerStatus::Folded(a) => a,
        PlayerStatus::Allin(a) => a,
        PlayerStatus::Betting(a) => a,
        PlayerStatus::Waiting => 0,
    }
}

/// A seated player: private hole cards, remaining chips, betting status,
/// and seat index.
pub struct Player {
    pub hand: Vec<Card>,
    pub chips: u32,
    pub status: PlayerStatus,
    pub position: u32,
}

/// A player's wealth in this hand: stack plus current street commitment.
/// Betting moves chips between the two and never changes the total.
pub open spec fn wealth(p: Player) -> int {
    p.chips + commitment(p.status)
}

impl Player {
    /// Seats a new player with the given stack, waiting to be dealt in.
    pub fn new(chips: u32) -> (p: Player)
        ensures
            p.hand@.len() == 0,
            p.chips == chips,
            p.status == PlayerStatus::Waiting,
            p.position == 0,
    {
        Self { hand: Vec::new(), chips, status: PlayerStatus::Waiting, position: 0 }
    }

    /// Hands the player one hole card. The second card completes the
    /// hand and moves a waiting player into the betting round with a zero
    /// commitment. Fails with `AlreadyDealt` once two cards are held.
    pub fn receive_card(&mut self, card: Card) -> (r: Result<(), PokerError>)
        ensures
            final(self).chips == old(self).chips,
            final(self).position == old(self).position,
            old(self).hand@.len() >= 2 ==> r == Err::<(), PokerError>(PokerError::AlreadyDealt)
                && final(self).hand == old(self).hand && final(self).status == old(self).status,
            old(self).hand@.len() < 2 ==> r == Ok::<(), PokerError>(()) && final(self).hand@
                == old(self).hand@.push(card) && final(self).status == (if old(self).hand@.len()
                == 1 && old(self).status is Waiting {
                PlayerStatus::Betting(0)
            } else {
                old(self).status
            }),
    {
        if self.hand.len() >= 2 {
            return Err(PokerError::AlreadyDealt);
        }
        self.hand.push(card);
        if self.hand.len() == 2 {
            if let PlayerStatus::Waiting = self.status {
                self.status = PlayerStatus::Betting(0);
            }
        }
        Ok(())
    }

    /// Brings the player's street commitment up to `amount`. A player who
    /// can cover the difference pays exactly it and stays in the betting;
    /// one who cannot pays their whole stack and is all-in for less. A
    /// commitment already at or past `amount` stands as a check. The
    /// returned value is the commitment after the call; an all-in player
    /// keeps their frozen commitment. Fails with `NotActive` for a folded
    /// or waiting player.
    pub fn place_bet(&mut self, amount: u32) -> (r: Result<u32, PokerError>)
        requires
            wealth(*old(self)) <= u32::MAX,
        ensures
            final(self).hand == old(self).hand,
            final(self).position == old(self).position,
            wealth(*final(self)) == wealth(*old(self)),
            match old(self).status {
                PlayerStatus::Betting(cur) => {
                    &&& (amount <= cur ==> r == Ok::<u32, PokerError>(cur) && final(self).status
                        == old(self).status && final(self).chips == old(self).chips)
                    &&& (amount > cur && old(self).chips >= amount - cur ==> r == Ok::<
                        u32,
                        PokerError,
                    >(amount) && final(self).status == PlayerStatus::Betting(amount)
                        && final(self).chips == old(self).chips - (amount - cur))
                    &&& (amount > cur && old(self).chips < amount - cur ==> r == Ok::<
                        u32,
                        PokerError,
                    >((cur + old(self).chips) as u32) && final(self).status
                        == PlayerStatus::Allin((cur + old(self).chips) as u32)
                        && final(self).chips == 0)
                },
                PlayerStatus::Allin(a) => r == Ok::<u32, PokerError>(a) && final(self).status
                    == old(self).status && final(self).chips == old(self).chips,
                _ => r == Err::<u32, PokerError>(PokerError::NotActive) && final(self).status
                    == old(self).status && final(self).chips == old(self).chips,
            },
    {
        match self.status {
            PlayerStatus::Betting(cur) => {
                if amount <= cur {
                    Ok(cur)
                } else {
                    let delta = amount - cur;
                    if self.chips >= delta {
                        self.chips = self.chips - delta;
                        self.status = PlayerStatus::Betting(amount);
                        Ok(amount)
                    } else {
                        let total = cur + self.chips;
                        self.chips = 0;
                        self.status = PlayerStatus::Allin(total);
                        Ok(total)
                    }
                }
            },
            PlayerStatus::Allin(a) => Ok(a),
            _ => Err(PokerError::NotActive),
        }
    }

    /// Takes the player out of the hand for good, freezing the street
    /// commitment. Fails with `NotActive` unless the player was betting.
    pub fn fold(&mut self) -> (r: Result<(), PokerError>)
        ensures
            final(self).hand == old(self).hand,
            final(self).chips == old(self).chips,
            final(self).position == old(self).position,
            old(self).status matches PlayerStatus::Betting(cur) ==> r == Ok::<(), PokerError>(())
                && final(self).status == PlayerStatus::Folded(cur),
            !(old(self).status is Betting) ==> r == Err::<(), PokerError>(PokerError::NotActive)
                && final(self).status == old(self).status,
    {
        match self.status {
            PlayerStatus::Betting(cur) => {
                self.status = PlayerStatus::Folded(cur);
                Ok(())
            },
            _ => Err(PokerError::NotActive),
        }
    }

    /// Returns the player to the waiting state between hands. The hole
    /// cards and stack stay as they are.
    pub fn reset_bet(&mut self)
        ensures
            final(self).hand == old(self).hand,
            final(self).chips == old(self).chips,
            final(self).position == old(self).position,
            final(self).status == PlayerStatus::Waiting,
    {
        self.status = PlayerStatus::Waiting;
    }
}

/// Five positions picked from `n` cards, in strictly ascending order.
pub open spec fn is_choice5(idxs: Seq<int>, n: int) -> bool {
    &&& idxs.len() == 5
    &&& forall|a: int, b: int| 0 <= a < b < 5 ==> #[trigger] idxs[a] < #[trigger] idxs[b]
    &&& forall|a: int| 0 <= a < 5 ==> 0 <= #[trigger] idxs[a] < n
}

/// The five cards those positions pick, in position order.
pub open spec fn select_cards(cards: Seq<Card>, idxs: Seq<int>) -> Seq<Card> {
    idxs.map(|i: int, j: int| cards[j])
}

/// `h` is the strongest classification over every five-card subset of
/// `cards`: some subset classifies as `h`, and none classifies higher.
pub open spec fn is_best(cards: Seq<Card>, h: HandRank) -> bool {
    &&& exists|idxs: Seq<int>| #[trigger] is_choice5(idxs, cards.len() as int) && classify(
        select_cards(cards, idxs),
    ) == h
    &&& forall|idxs: Seq<int>| #[trigger] is_choice5(idxs, cards.len() as int) ==> rank_key(
        classify(select_cards(cards, idxs)),
    ) <= rank_key(h)
}

/// The strength key of the strongest five-card subset of `cards`.
pub open spec fn best_key(cards: Seq<Card>) -> int {
    rank_key(choose|h: HandRank| is_best(cards, h))
}

/// Any two best hands share one key, so `is_best` pins `best_key` down.
pub proof fn lemma_is_best_key(cards: Seq<Card>, h: HandRank)
    requires
        is_best(cards, h),
    ensures
        best_key(cards) == rank_key(h),
{
    let h2 = choose|h2: HandRank| is_best(cards, h2);
    assert(is_best(cards, h2));
    let i1 = choose|idxs: Seq<int>|
        #[trigger] is_choice5(idxs, cards.len() as int) && classify(select_cards(cards, idxs))
            == h;
    let i2 = choose|idxs: Seq<int>|
        #[trigger] is_choice5(idxs, cards.len() as int) && classify(select_cards(cards, idxs))
            == h2;
    assert(rank_key(h) <= rank_key(h2));
    assert(rank_key(h2) <= rank_key(h));
}

/// Relies on `itertools::Itertools::combinations(5)`: it walks the
/// strictly increasing five-index tuples over the input in lexicographic
/// order, yielding the cards at those positions once per tuple. So every
/// returned hand is a five-card selection from the input, and every
/// five-card selection is returned.
#[verifier::external_body]
fn combinations5(cards: &Vec<Card>) -> (r: Vec<Vec<Card>>)
    ensures
        forall|j: int|
            0 <= j < r@.len() ==> exists|idxs: Seq<int>|
                #[trigger] is_choice5(idxs, cards@.len() as int) && (#[trigger] r@[j])@
                    == select_cards(cards@, idxs),
        forall|idxs: Seq<int>|
            #[trigger] is_choice5(idxs, cards@.len() as int) ==> exists|j: int|
                0 <= j < r@.len() && (#[trigger] r@[j])@ == select_cards(cards@, idxs),
{
    cards.iter().cloned().combinations(5).collect()
}

/// Copies two card vectors into one, first then second.
fn concat_cards(a: &Vec<Card>, b: &Vec<Card>) -> (r: Vec<Card>)
    ensures
        r@ == a@ + b@,
{
    let mut r: Vec<Card> = Vec::new();
    let mut i: usize = 0;
    while i < a.len()
        invariant
            i <= a@.len(),
            r@ == a@.take(i as int),
        decreases a@.len() - i,
    {
        r.push(a[i]);
        proof {
            assert(r@ =~= a@.take(i + 1));
        }
        i = i + 1;
    }
    proof {
        assert(r@ =~= a@);
    }
    let mut c: usize = 0;
    while c < b.len()
        invariant
            c <= b@.len(),
            r@ == a@ + b@.take(c as int),
        decreases b@.len() - c,
    {
        r.push(b[c]);
        proof {
            assert(r@ =~= a@ + b@.take(c + 1));
        }
        c = c + 1;
    }
    proof {
        assert(r@ =~= a@ + b@);
    }
    r
}

/// Walks the yielded five-card hands and keeps the strongest
/// classification.
fn best_of_combos(combos: &Vec<Vec<Card>>, Ghost(allseq): Ghost<Seq<Card>>) -> (best: HandRank)
    requires
        combos@.len() > 0,
        forall|k: int| 0 <= k < allseq.len() ==> valid_card(#[trigger] allseq[k]),
        forall|jj: int|
            0 <= jj < combos@.len() ==> exists|idxs: Seq<int>|
                #[trigger] is_choice5(idxs, allseq.len() as int) && (#[trigger] combos@[jj])@
                    == select_cards(allseq, idxs),
    ensures
        wf_rank(best),
        exists|idxs: Seq<int>|
            #[trigger] is_choice5(idxs, allseq.len() as int) && classify(
                select_cards(allseq, idxs),
            ) == best,
        forall|jj: int|
            0 <= jj < combos@.len() ==> rank_key(classify((#[trigger] combos@[jj])@)) <= rank_key(
                best,
            ),
{
    proof {
        lemma_combo_cards(allseq, combos@, 0);
    }
    let first = match HandRank::from_cards(&combos[0]) {
        Ok(h) => h,
        Err(_) => unreached(),
    };
    let mut best = first;
    let mut bk = rank_key_of(&best);
    let mut j: usize = 1;
    while j < combos.len()
        invariant
            1 <= j <= combos@.len(),
            forall|k: int| 0 <= k < allseq.len() ==> valid_card(#[trigger] allseq[k]),
            forall|jj: int|
                0 <= jj < combos@.len() ==> exists|idxs: Seq<int>|
                    #[trigger] is_choice5(idxs, allseq.len() as int) && (#[trigger] combos@[jj])@
                        == select_cards(allseq, idxs),
            exists|idxs: Seq<int>|
                #[trigger] is_choice5(idxs, allseq.len() as int) && classify(
                    select_cards(allseq, idxs),
                ) == best,
            forall|jj: int|
                0 <= jj < j ==> rank_key(classify((#[trigger] combos@[jj])@)) <= rank_key(best),
            bk as int == rank_key(best),
            wf_rank(best),
        decreases combos@.len() - j,
    {
        proof {
            lemma_combo_cards(allseq, combos@, j as int);
        }
        let h = match HandRank::from_cards(&combos[j]) {
            Ok(h) => h,
            Err(_) => unreached(),
        };
        let hk = rank_key_of(&h);
        if hk > bk {
            best = h;
            bk = hk;
        }
        j = j + 1;
    }
    best
}

impl Player {
    /// The strongest five-card hand this player can make from hole and
    /// community cards together, over every five-card subset. Fails with
    /// `NoHoleCards` for an empty hand, and with `InsufficientCards` when
    /// fewer than five cards are available in all.
    pub fn best_hand(&self, community_cards: &Vec<Card>) -> (r: Result<HandRank, PokerError>)
        requires
            forall|i: int| 0 <= i < self.hand@.len() ==> valid_card(#[trigger] self.hand@[i]),
            forall|i: int|
                0 <= i < community_cards@.len() ==> valid_card(#[trigger] community_cards@[i]),
        ensures
            self.hand@.len() == 0 ==> r == Err::<HandRank, PokerError>(PokerError::NoHoleCards),
            self.hand@.len() > 0 && self.hand@.len() + community_cards@.len() < 5 ==> r == Err::<
                HandRank,
                PokerError,
            >(PokerError::InsufficientCards),
            self.hand@.len() > 0 && self.hand@.len() + community_cards@.len() >= 5 ==> (r matches
                Ok(h) && is_best(self.hand@ + community_cards@, h) && wf_rank(h)),
    {
        if self.hand.len() == 0 {
            return Err(PokerError::NoHoleCards);
        }
        let all = concat_cards(&self.hand, community_cards);
        let ghost allseq = self.hand@ + community_cards@;
        proof {
            assert forall|k: int| 0 <= k < allseq.len() implies valid_card(
                #[trigger] allseq[k],
            ) by {
                if k < self.hand@.len() {
                    assert(allseq[k] == self.hand@[k]);
                } else {
                    assert(allseq[k] == community_cards@[k - self.hand@.len()]);
                }
            }
        }
        if all.len() < 5 {
            return Err(PokerError::InsufficientCards);
        }
        let combos = combinations5(&all);
        proof {
            let w = seq![0int, 1int, 2int, 3int, 4int];
            assert(is_choice5(w, allseq.len() as int)) by {
                assert(w[0] == 0 && w[1] == 1 && w[2] == 2 && w[3] == 3 && w[4] == 4);
            }
            assert(combos@.len() > 0);
        }
        let best = best_of_combos(&combos, Ghost(allseq));
        proof {
            assert forall|idxs: Seq<int>|
                #[trigger] is_choice5(idxs, allseq.len() as int) implies rank_key(
                classify(select_cards(allseq, idxs)),
            ) <= rank_key(best) by {
                let jj = choose|jj: int|
                    0 <= jj < combos@.len() && (#[trigger] combos@[jj])@ == select_cards(
                        allseq,
                        idxs,
                    );
                assert(rank_key(classify(combos@[jj]@)) <= rank_key(best));
            }
            assert(is_best(allseq, best));
        }
        Ok(best)
    }
}

/// Each hand the combination wrapper yields is five valid cards whose
/// classification is its own.
proof fn lemma_combo_cards(allseq: Seq<Card>, combos: Seq<Vec<Card>>, j: int)
    requires
        0 <= j < combos.len(),
        forall|k: int| 0 <= k < allseq.len() ==> valid_card(#[trigger] allseq[k]),
        exists|idxs: Seq<int>|
            #[trigger] is_choice5(idxs, allseq.len() as int) && (combos[j])@ == select_cards(
                allseq,
                idxs,
            ),
    ensures
        (combos[j])@.len() == 5,
        forall|k: int| 0 <= k < (combos[j])@.len() ==> valid_card(#[trigger] (combos[j])@[k]),
{
    let idxs = choose|idxs: Seq<int>|
        #[trigger] is_choice5(idxs, allseq.len() as int) && (combos[j])@ == select_cards(
            allseq,
            idxs,
        );
    assert(select_cards(allseq, idxs).len() == 5);
    assert forall|k: int| 0 <= k < (combos[j])@.len() implies valid_card(
        #[trigger] (combos[j])@[k],
    ) by {
        assert((combos[j])@[k] == allseq[idxs[k]]);
    }
}

} // verus!
