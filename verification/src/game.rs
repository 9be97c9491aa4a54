//! One hand of the game: seating, dealing by streets, the betting-round
//! state machine, and the showdown.

use vstd::prelude::*;
use vstd::pervasive::unreached;
use crate::card::{canonical_deck, lemma_sub_canonical_valid, valid_card, Card, Deck};
use crate::hand_rank::rank_key_of;
use crate::player::{best_key, commitment, lemma_is_best_key, wealth, Player, PlayerStatus};
use crate::PokerError;

verus! {

/// The forced stake: the first blind pays this, the second twice it.
pub const SMALL_BLIND: u32 = 10;

/// One hand in progress: the deck, the seated players, the shared
/// community cards, the pot, and the seat that posts the small blind.
pub struct Game {
    pub deck: Deck,
    pub players: Vec<Player>,
    pub community_cards: Vec<Card>,
    pub pot: u32,
    pub small_blind_position: usize,
}

/// One betting decision, as the decision capability supplies it.
#[derive(Debug, Clone, Copy, PartialEq, Eq, Structural)]
pub enum Action {
    /// Leave the hand.
    Fold,
    /// Match the current minimum (a check when already level).
    Call,
    /// Push the minimum up to the carried amount.
    Raise(u32),
    /// Commit the whole remaining stack.
    AllIn,
}

/// The capability that supplies betting decisions. The betting round
/// works for every implementation: an illegal choice is clamped to the
/// nearest legal one by the bet-placement rules.
pub trait DecisionProvider {
    /// Chooses an action for `player`, who must at least match `minimum`
    /// to stay in.
    fn decide(&mut self, player: &Player, minimum: u32) -> Action;
}

/// The default stub policy: always match the minimum.
pub struct AlwaysCall;

impl DecisionProvider for AlwaysCall {
    fn decide(&mut self, _player: &Player, _minimum: u32) -> Action {
        Action::Call
    }
}

/// The combined wealth of a seat sequence: every stack plus every
/// street commitment.
pub open spec fn players_wealth(s: Seq<Player>) -> int
    decreases s.len(),
{
    if s.len() == 0 {
        0
    } else {
        players_wealth(s.drop_last()) + wealth(s.last())
    }
}

/// All chips in the hand: the pot plus every player's wealth. Betting
/// and pot collection move chips around but never change this total.
pub open spec fn total_chips(g: Game) -> int {
    g.pot + players_wealth(g.players@)
}

/// Replacing one seat changes the combined wealth by the difference.
proof fn lemma_wealth_update(s: Seq<Player>, i: int, p: Player)
    requires
        0 <= i < s.len(),
    ensures
        players_wealth(s.update(i, p)) == players_wealth(s) - wealth(s[i]) + wealth(p),
    decreases s.len(),
{
    if i == s.len() - 1 {
        assert(s.update(i, p).drop_last() =~= s.drop_last());
    } else {
        assert(s.update(i, p).drop_last() =~= s.drop_last().update(i, p));
        lemma_wealth_update(s.drop_last(), i, p);
    }
}

/// Wealth is a sum of non-negative parts.
proof fn lemma_wealth_nonneg(s: Seq<Player>)
    ensures
        players_wealth(s) >= 0,
    decreases s.len(),
{
    if s.len() > 0 {
        lemma_wealth_nonneg(s.drop_last());
    }
}

/// No single seat holds more than the combined wealth.
proof fn lemma_wealth_elem(s: Seq<Player>, i: int)
    requires
        0 <= i < s.len(),
    ensures
        wealth(s[i]) <= players_wealth(s),
    decreases s.len(),
{
    if i == s.len() - 1 {
        lemma_wealth_nonneg(s.drop_last());
    } else {
        lemma_wealth_elem(s.drop_last(), i);
    }
}

/// How many seats can still act: those with a `Betting` status.
pub open spec fn num_betting(s: Seq<Player>) -> nat
    decreases s.len(),
{
    if s.len() == 0 {
        0
    } else {
        num_betting(s.drop_last()) + if s.last().status is Betting {
            1nat
        } else {
            0nat
        }
    }
}

/// The seat `t` steps after `start` when `len` seats are walked in a
/// cycle.
pub open spec fn cyc(start: int, t: int, len: int) -> int {
    if start + t < len {
        start + t
    } else {
        start + t - len
    }
}

/// A status with its street commitment taken out, as pot collection
/// leaves it.
pub open spec fn zero_commit(s: PlayerStatus) -> PlayerStatus {
    match s {
        PlayerStatus::Betting(_) => PlayerStatus::Betting(0),
        PlayerStatus::Folded(_) => PlayerStatus::Folded(0),
        PlayerStatus::Allin(_) => PlayerStatus::Allin(0),
        PlayerStatus::Waiting => PlayerStatus::Waiting,
    }
}

/// The street commitments a seat sequence holds in all.
pub open spec fn total_commit(s: Seq<Player>) -> int
    decreases s.len(),
{
    if s.len() == 0 {
        0
    } else {
        total_commit(s.drop_last()) + commitment(s.last().status)
    }
}

/// How many seats are still in the hand at showdown.
pub open spec fn num_unfolded(s: Seq<Player>) -> nat
    decreases s.len(),
{
    if s.len() == 0 {
        0
    } else {
        num_unfolded(s.drop_last()) + if s.last().status is Folded {
            0nat
        } else {
            1nat
        }
    }
}

/// How many seats are frozen all-in.
pub open spec fn num_allin(s: Seq<Player>) -> nat
    decreases s.len(),
{
    if s.len() == 0 {
        0
    } else {
        num_allin(s.drop_last()) + if s.last().status is Allin {
            1nat
        } else {
            0nat
        }
    }
}

/// How many seats would be able to act once hole cards are dealt: the
/// waiting seats that dealing moves into the betting, plus those betting
/// already.
pub open spec fn num_can_bet(s: Seq<Player>) -> nat
    decreases s.len(),
{
    if s.len() == 0 {
        0
    } else {
        num_can_bet(s.drop_last()) + if s.last().status is Waiting || s.last().status
            is Betting {
            1nat
        } else {
            0nat
        }
    }
}

/// The chips sitting in stacks alone, commitments not counted.
pub open spec fn players_chips(s: Seq<Player>) -> int
    decreases s.len(),
{
    if s.len() == 0 {
        0
    } else {
        players_chips(s.drop_last()) + s.last().chips
    }
}

/// A table of seats that are all waiting or betting — a fresh one, in
/// particular — has every seat able to act once dealt in.
pub proof fn lemma_num_can_bet_all(s: Seq<Player>)
    requires
        forall|i: int|
            0 <= i < s.len() ==> ((#[trigger] s[i]).status is Waiting || s[i].status is Betting),
    ensures
        num_can_bet(s) == s.len(),
    decreases s.len(),
{
    if s.len() > 0 {
        assert(s[s.len() - 1].status is Waiting || s[s.len() - 1].status is Betting);
        lemma_num_can_bet_all(s.drop_last());
    }
}

/// With every street commitment at zero, wealth is just the stacks.
proof fn lemma_chips_eq_wealth(s: Seq<Player>)
    requires
        forall|i: int| 0 <= i < s.len() ==> commitment((#[trigger] s[i]).status) == 0,
    ensures
        players_chips(s) == players_wealth(s),
    decreases s.len(),
{
    if s.len() > 0 {
        assert(commitment(s[s.len() - 1].status) == 0);
        lemma_chips_eq_wealth(s.drop_last());
    }
}

/// Street commitments are non-negative in sum.
proof fn lemma_commit_nonneg(s: Seq<Player>)
    ensures
        total_commit(s) >= 0,
    decreases s.len(),
{
    if s.len() > 0 {
        lemma_commit_nonneg(s.drop_last());
    }
}

/// No single seat commits more than the sum of all commitments.
proof fn lemma_commit_elem(s: Seq<Player>, i: int)
    requires
        0 <= i < s.len(),
    ensures
        commitment(s[i].status) <= total_commit(s),
    decreases s.len(),
{
    if i == s.len() - 1 {
        lemma_commit_nonneg(s.drop_last());
    } else {
        lemma_commit_elem(s.drop_last(), i);
    }
}

/// Two distinct seats together commit no more than the sum of all
/// commitments.
proof fn lemma_commit_pair(s: Seq<Player>, i: int, j: int)
    requires
        0 <= i < s.len(),
        0 <= j < s.len(),
        i != j,
    ensures
        commitment(s[i].status) + commitment(s[j].status) <= total_commit(s),
    decreases s.len(),
{
    if i == s.len() - 1 {
        lemma_commit_elem(s.drop_last(), j);
    } else if j == s.len() - 1 {
        lemma_commit_elem(s.drop_last(), i);
    } else {
        lemma_commit_pair(s.drop_last(), i, j);
    }
}

/// An unfolded seat makes the unfolded count positive.
proof fn lemma_unfolded_pos(s: Seq<Player>, i: int)
    requires
        0 <= i < s.len(),
        !(s[i].status is Folded),
    ensures
        num_unfolded(s) >= 1,
    decreases s.len(),
{
    if i < s.len() - 1 {
        lemma_unfolded_pos(s.drop_last(), i);
    }
}

/// Dealing turns exactly the waiting seats into betting ones, so the
/// seats able to act afterwards are those that could be dealt in.
pub proof fn lemma_num_betting_after_deal(s1: Seq<Player>, s2: Seq<Player>)
    requires
        s1.len() == s2.len(),
        forall|i: int|
            0 <= i < s1.len() ==> (#[trigger] s2[i]).status == (if s1[i].status is Waiting {
                PlayerStatus::Betting(0)
            } else {
                s1[i].status
            }),
    ensures
        num_betting(s2) == num_can_bet(s1),
    decreases s1.len(),
{
    if s1.len() > 0 {
        assert(s2[s1.len() - 1].status == (if s1[s1.len() - 1].status is Waiting {
            PlayerStatus::Betting(0)
        } else {
            s1[s1.len() - 1].status
        }));
        assert forall|i: int| 0 <= i < s1.drop_last().len() implies (#[trigger] s2.drop_last()[
            i
        ]).status == (if s1.drop_last()[i].status is Waiting {
            PlayerStatus::Betting(0)
        } else {
            s1.drop_last()[i].status
        }) by {
            assert(s2[i].status == (if s1[i].status is Waiting {
                PlayerStatus::Betting(0)
            } else {
                s1[i].status
            }));
        }
        lemma_num_betting_after_deal(s1.drop_last(), s2.drop_last());
    }
}

/// With no seat waiting, the unfolded seats are exactly the betting and
/// all-in ones.
proof fn lemma_unfolded_split(s: Seq<Player>)
    requires
        forall|i: int| 0 <= i < s.len() ==> !((#[trigger] s[i]).status is Waiting),
    ensures
        num_unfolded(s) == num_betting(s) + num_allin(s),
    decreases s.len(),
{
    if s.len() > 0 {
        assert(!(s[s.len() - 1].status is Waiting));
        lemma_unfolded_split(s.drop_last());
    }
}

/// When every seat holds cards and enough cards are on the table, no
/// showdown evaluation fails.
proof fn lemma_no_eval_err(s: Seq<Player>, community: Seq<Card>, i: int)
    requires
        forall|k: int|
            0 <= k < s.len() ==> (#[trigger] s[k]).hand@.len() > 0 && s[k].hand@.len()
                + community.len() >= 5,
    ensures
        first_eval_err(s, community, i) is None,
    decreases s.len() - i,
{
    if 0 <= i < s.len() {
        assert(eval_err(s[i], community) is None);
        lemma_no_eval_err(s, community, i + 1);
    }
}

/// With every seat folded there is nobody left in the hand.
proof fn lemma_all_folded(s: Seq<Player>)
    requires
        forall|i: int| 0 <= i < s.len() ==> (#[trigger] s[i]).status is Folded,
    ensures
        num_unfolded(s) == 0,
    decreases s.len(),
{
    if s.len() > 0 {
        assert(s[s.len() - 1].status is Folded);
        lemma_all_folded(s.drop_last());
    }
}

/// Why a seat cannot be evaluated at showdown, if it cannot.
pub open spec fn eval_err(p: Player, community: Seq<Card>) -> Option<PokerError> {
    if p.hand@.len() == 0 {
        Some(PokerError::NoHoleCards)
    } else if p.hand@.len() + community.len() < 5 {
        Some(PokerError::InsufficientCards)
    } else {
        None
    }
}

/// The first showdown evaluation error among unfolded seats from `i` on.
pub open spec fn first_eval_err(s: Seq<Player>, community: Seq<Card>, i: int) -> Option<PokerError>
    decreases s.len() - i,
{
    if i < 0 || i >= s.len() {
        None
    } else if !(s[i].status is Folded) && eval_err(s[i], community) is Some {
        eval_err(s[i], community)
    } else {
        first_eval_err(s, community, i + 1)
    }
}

/// A pre-flop table where every seat able to act starts the street
/// uncommitted and can cover the big blind, so the forced blinds post in
/// full.
pub open spec fn blinds_covered(s: Seq<Player>) -> bool {
    forall|i: int|
        0 <= i < s.len() && (#[trigger] s[i]).status is Betting ==> commitment(s[i].status) == 0
            && s[i].chips >= 2 * SMALL_BLIND
}

/// A betting seat makes the betting count positive.
proof fn lemma_betting_pos(s: Seq<Player>, i: int)
    requires
        0 <= i < s.len(),
        s[i].status is Betting,
    ensures
        num_betting(s) >= 1,
    decreases s.len(),
{
    if i < s.len() - 1 {
        lemma_betting_pos(s.drop_last(), i);
    }
}

/// What one betting round may do to one seat: chips only move between
/// stack and street commitment, a betting player may stay, go all-in or
/// fold, and everyone else is untouched.
pub open spec fn round_step(p0: Player, p1: Player) -> bool {
    &&& p1.hand == p0.hand
    &&& p1.position == p0.position
    &&& wealth(p1) == wealth(p0)
    &&& (!(p0.status is Betting) ==> p1 == p0)
    &&& (p1.status is Betting ==> p0.status is Betting)
    &&& (p0.status is Betting ==> (p1.status is Betting || p1.status is Allin || p1.status
        is Folded))
}

/// A hand that can be played out: enough cards for every seat's hole
/// cards and the full board, no stale hole cards from an earlier hand,
/// and at least two seats to post the blinds once dealt in.
pub open spec fn playable(g: Game) -> bool {
    &&& g.deck.cards@.len() >= 2 * g.players@.len() + 5
    &&& forall|i: int| 0 <= i < g.players@.len() ==> (#[trigger] g.players@[i]).hand@.len() == 0
    &&& num_can_bet(g.players@) >= 2
}

impl Game {
    /// The game invariant: a well-formed deck, a bounded chip total, and
    /// only valid cards in hands and on the table.
    pub open spec fn wf(self) -> bool {
        &&& self.deck.wf()
        &&& total_chips(self) <= u32::MAX
        &&& forall|i: int, j: int|
            0 <= i < self.players@.len() && 0 <= j < self.players@[i].hand@.len() ==> valid_card(
                #[trigger] self.players@[i].hand@[j],
            )
        &&& forall|i: int|
            0 <= i < self.community_cards@.len() ==> valid_card(
                #[trigger] self.community_cards@[i],
            )
    }

    /// Builds a fresh hand: a shuffled full deck, `player_count` waiting
    /// players with equal stacks in seat order, an empty table, an empty
    /// pot. The chip bounds keep every later total within `u32`.
    pub fn new(player_count: usize, initial_chips: u32) -> (g: Game)
        requires
            player_count * initial_chips <= u32::MAX,
            player_count <= u32::MAX,
        ensures
            g.wf(),
            g.players@.len() == player_count,
            forall|i: int|
                0 <= i < player_count ==> {
                    let p = #[trigger] g.players@[i];
                    p.chips == initial_chips && p.status == PlayerStatus::Waiting && p.hand@.len()
                        == 0 && p.position == i
                },
            g.deck.cards@.len() == 52,
            g.deck.cards@.to_multiset() == canonical_deck().to_multiset(),
            g.community_cards@.len() == 0,
            g.pot == 0,
            g.small_blind_position == 0,
            total_chips(g) == player_count * initial_chips,
    {
        let mut deck = Deck::new();
        deck.shuffle();
        let mut players: Vec<Player> = Vec::new();
        let mut i: usize = 0;
        while i < player_count
            invariant
                i <= player_count <= u32::MAX,
                players@.len() == i,
                forall|j: int|
                    0 <= j < i ==> {
                        let p = #[trigger] players@[j];
                        p.chips == initial_chips && p.status == PlayerStatus::Waiting
                            && p.hand@.len() == 0 && p.position == j
                    },
                players_wealth(players@) == i * initial_chips,
            decreases player_count - i,
        {
            let mut p = Player::new(initial_chips);
            p.position = i as u32;
            let ghost pre = players@;
            players.push(p);
            proof {
                assert(players@.drop_last() =~= pre);
                assert((i + 1) * initial_chips == i * initial_chips + initial_chips)
                    by (nonlinear_arith);
            }
            i = i + 1;
        }
        let g = Game {
            deck,
            players,
            community_cards: Vec::new(),
            pot: 0,
            small_blind_position: 0,
        };
        g
    }

    /// A hook for posting blinds outside the betting round. The betting
    /// round posts them itself, so this changes nothing.
    pub fn blind(&mut self)
        ensures
            *final(self) == *old(self),
    {
    }

    /// Deals two hole cards to every player from the top of the deck, in
    /// seat order. Fails with `DeckExhausted` when the deck cannot cover
    /// every player, and with `AlreadyDealt` when any player still holds
    /// cards; either way nothing changes.
    pub fn deal_to_players(&mut self) -> (r: Result<(), PokerError>)
        requires
            old(self).wf(),
        ensures
            final(self).wf(),
            final(self).players@.len() == old(self).players@.len(),
            final(self).pot == old(self).pot,
            final(self).community_cards == old(self).community_cards,
            final(self).small_blind_position == old(self).small_blind_position,
            total_chips(*final(self)) == total_chips(*old(self)),
            old(self).deck.cards@.len() < 2 * old(self).players@.len() ==> r == Err::<
                (),
                PokerError,
            >(PokerError::DeckExhausted) && final(self).players == old(self).players && final(self).deck == old(self).deck,
            old(self).deck.cards@.len() >= 2 * old(self).players@.len() && (exists|i: int|
                0 <= i < old(self).players@.len() && (#[trigger] old(self).players@[i]).hand@.len()
                    > 0) ==> r == Err::<(), PokerError>(PokerError::AlreadyDealt) && final(self).players == old(self).players && final(self).deck == old(self).deck,
            old(self).deck.cards@.len() >= 2 * old(self).players@.len() && (forall|i: int|
                0 <= i < old(self).players@.len() ==> (#[trigger] old(self).players@[i]).hand@.len() == 0) ==> {
                let pre = old(self).deck.cards@;
                let n = pre.len() as int;
                &&& r == Ok::<(), PokerError>(())
                &&& final(self).deck.cards@ == pre.take(n - 2 * old(self).players@.len())
                &&& forall|i: int|
                    0 <= i < old(self).players@.len() ==> {
                        let p0 = #[trigger] old(self).players@[i];
                        let p1 = final(self).players@[i];
                        &&& p1.hand@ =~= seq![pre[n - 1 - 2 * i], pre[n - 2 - 2 * i]]
                        &&& p1.chips == p0.chips
                        &&& p1.position == p0.position
                        &&& p1.status == (if p0.status is Waiting {
                            PlayerStatus::Betting(0)
                        } else {
                            p0.status
                        })
                    }
            },
    {
        let n_players = self.players.len();
        if self.deck.cards.len() / 2 < n_players {
            proof {
                assert(old(self).deck.cards@.len() < 2 * n_players);
            }
            return Err(PokerError::DeckExhausted);
        }
        assert(old(self).deck.cards@.len() >= 2 * n_players);
        let mut chk: usize = 0;
        while chk < n_players
            invariant
                chk <= n_players,
                n_players == self.players@.len(),
                *self == *old(self),
                old(self).wf(),
                old(self).deck.cards@.len() >= 2 * n_players,
                forall|i: int|
                    0 <= i < chk ==> (#[trigger] self.players@[i]).hand@.len() == 0,
            decreases n_players - chk,
        {
            if self.players[chk].hand.len() > 0 {
                return Err(PokerError::AlreadyDealt);
            }
            chk = chk + 1;
        }
        let ghost pre = old(self).deck.cards@;
        let ghost n = pre.len() as int;
        let mut i: usize = 0;
        while i < n_players
            invariant
                i <= n_players,
                n_players == self.players@.len(),
                n == pre.len(),
                n >= 2 * n_players,
                self.deck.wf(),
                self.deck.cards@ == pre.take(n - 2 * i),
                self.deck.all_cards == old(self).deck.all_cards,
                self.community_cards == old(self).community_cards,
                self.pot == old(self).pot,
                self.small_blind_position == old(self).small_blind_position,
                pre == old(self).deck.cards@,
                players_wealth(self.players@) == players_wealth(old(self).players@),
                total_chips(*old(self)) <= u32::MAX,
                forall|k: int, j: int|
                    0 <= k < self.players@.len() && 0 <= j < self.players@[k].hand@.len()
                        ==> valid_card(#[trigger] self.players@[k].hand@[j]),
                forall|k: int|
                    i <= k < n_players ==> #[trigger] self.players@[k] == old(self).players@[k],
                forall|k: int|
                    i <= k < n_players ==> (#[trigger] self.players@[k]).hand@.len() == 0,
                forall|k: int|
                    0 <= k < i ==> {
                        let p0 = #[trigger] old(self).players@[k];
                        let p1 = self.players@[k];
                        &&& p1.hand@ =~= seq![pre[n - 1 - 2 * k], pre[n - 2 - 2 * k]]
                        &&& p1.chips == p0.chips
                        &&& p1.position == p0.position
                        &&& p1.status == (if p0.status is Waiting {
                            PlayerStatus::Betting(0)
                        } else {
                            p0.status
                        })
                    },
            decreases n_players - i,
        {
            proof {
                assert(self.deck.cards@.len() == n - 2 * i >= 2);
                lemma_sub_canonical_valid(self.deck.cards@);
            }
            let c1 = match self.deck.deal() {
                Ok(c) => c,
                Err(_) => unreached(),
            };
            let c2 = match self.deck.deal() {
                Ok(c) => c,
                Err(_) => unreached(),
            };
            proof {
                assert(pre.take(n - 2 * i).drop_last() =~= pre.take(n - 2 * i - 1));
                assert(pre.take(n - 2 * i - 1).drop_last() =~= pre.take(n - 2 * (i + 1)));
                assert(c1 == pre[n - 1 - 2 * i] && c2 == pre[n - 2 - 2 * i]);
                assert(valid_card(c1) && valid_card(c2));
            }
            let ghost pre_players = self.players@;
            let mut p = self.players.remove(i);
            let _ = p.receive_card(c1);
            let _ = p.receive_card(c2);
            self.players.insert(i, p);
            proof {
                assert(self.players@ =~= pre_players.update(i as int, p));
                lemma_wealth_update(pre_players, i as int, p);
                assert(p.hand@ =~= pre_players[i as int].hand@.push(c1).push(c2));
                assert(p.hand@ =~= seq![pre[n - 1 - 2 * i], pre[n - 2 - 2 * i]]);
            }
            i = i + 1;
        }
        proof {
            assert(self.deck.cards@ == pre.take(n - 2 * n_players));
        }
        Ok(())
    }

    /// Brings the commitment of the player in seat `i` up to `amount`
    /// through `Player::place_bet`, leaving every other seat alone. The
    /// returned value is that player's commitment after the call.
    fn bet_at(&mut self, i: usize, amount: u32) -> (r: u32)
        requires
            old(self).wf(),
            i < old(self).players@.len(),
            old(self).players@[i as int].status is Betting,
        ensures
            final(self).wf(),
            final(self).deck == old(self).deck,
            final(self).community_cards == old(self).community_cards,
            final(self).pot == old(self).pot,
            final(self).small_blind_position == old(self).small_blind_position,
            final(self).players@.len() == old(self).players@.len(),
            players_wealth(final(self).players@) == players_wealth(old(self).players@),
            forall|j: int|
                0 <= j < old(self).players@.len() && j != i ==> final(self).players@[j] == old(
                    self,
                ).players@[j],
            ({
                let p0 = old(self).players@[i as int];
                let p1 = final(self).players@[i as int];
                &&& p1.hand == p0.hand
                &&& p1.position == p0.position
                &&& wealth(p1) == wealth(p0)
                &&& (p1.status is Betting || p1.status is Allin)
                &&& r == commitment(p1.status)
                &&& (p1.status is Betting ==> r >= amount)
                &&& (p1.status is Allin ==> commitment(p1.status) <= amount && p1.chips == 0)
                &&& commitment(p1.status) >= commitment(p0.status)
                &&& (commitment(p1.status) <= amount || commitment(p1.status) == commitment(
                    p0.status,
                ))
            }),
    {
        proof {
            lemma_wealth_elem(self.players@, i as int);
            lemma_wealth_nonneg(self.players@);
        }
        let ghost pre_players = self.players@;
        let mut p = self.players.remove(i);
        let r = match p.place_bet(amount) {
            Ok(c) => c,
            Err(_) => unreached(),
        };
        self.players.insert(i, p);
        proof {
            assert(self.players@ =~= pre_players.update(i as int, p));
            lemma_wealth_update(pre_players, i as int, p);
        }
        r
    }

    /// Folds the player in seat `i` through `Player::fold`, leaving every
    /// other seat alone.
    fn fold_at(&mut self, i: usize)
        requires
            old(self).wf(),
            i < old(self).players@.len(),
            old(self).players@[i as int].status is Betting,
        ensures
            final(self).wf(),
            final(self).deck == old(self).deck,
            final(self).community_cards == old(self).community_cards,
            final(self).pot == old(self).pot,
            final(self).small_blind_position == old(self).small_blind_position,
            final(self).players@.len() == old(self).players@.len(),
            players_wealth(final(self).players@) == players_wealth(old(self).players@),
            forall|j: int|
                0 <= j < old(self).players@.len() && j != i ==> final(self).players@[j] == old(
                    self,
                ).players@[j],
            ({
                let p0 = old(self).players@[i as int];
                let p1 = final(self).players@[i as int];
                &&& p1.hand == p0.hand
                &&& p1.position == p0.position
                &&& p1.chips == p0.chips
                &&& wealth(p1) == wealth(p0)
                &&& p1.status == PlayerStatus::Folded(commitment(p0.status))
            }),
    {
        let ghost pre_players = self.players@;
        let mut p = self.players.remove(i);
        let _ = match p.fold() {
            Ok(u) => u,
            Err(_) => unreached(),
        };
        self.players.insert(i, p);
        proof {
            assert(self.players@ =~= pre_players.update(i as int, p));
            lemma_wealth_update(pre_players, i as int, p);
        }
    }

    /// Runs one betting round to closure. Pre-flop the first two seats
    /// able to act post the small and big blind and action starts after
    /// them; each acting player in rotating seat order then folds, calls,
    /// raises, or goes all-in, and a raise reopens the action. The round
    /// closes on a full pass without a fresh raise; it returns the final
    /// minimum, which every player still able to act has matched exactly.
    /// A street where every seat left in the hand is frozen all-in is
    /// trivially closed: those seats still reach showdown. Chips only
    /// move between stacks and street commitments. Fails with
    /// `NotActive`, changing nothing, when nobody can act and nobody is
    /// all-in, or pre-flop when fewer than two players can post the
    /// blinds.
    pub fn betting_round<P: DecisionProvider>(
        &mut self,
        provider: &mut P,
        first_round: bool,
    ) -> (r: Result<u32, PokerError>)
        requires
            old(self).wf(),
        ensures
            final(self).wf(),
            final(self).deck == old(self).deck,
            final(self).community_cards == old(self).community_cards,
            final(self).pot == old(self).pot,
            final(self).small_blind_position == old(self).small_blind_position,
            final(self).players@.len() == old(self).players@.len(),
            players_wealth(final(self).players@) == players_wealth(old(self).players@),
            forall|i: int|
                0 <= i < old(self).players@.len() ==> round_step(
                    #[trigger] old(self).players@[i],
                    final(self).players@[i],
                ),
            (r is Err) <==> (if first_round {
                num_betting(old(self).players@) < 2
            } else {
                num_betting(old(self).players@) == 0 && num_allin(old(self).players@) == 0
            }),
            r is Err ==> r == Err::<u32, PokerError>(PokerError::NotActive) && final(self).players
                == old(self).players,
            r matches Ok(m) ==> forall|i: int|
                0 <= i < final(self).players@.len()
                    && (#[trigger] final(self).players@[i]).status is Betting
                    ==> commitment(final(self).players@[i].status) == m,
            r matches Ok(m) ==> forall|i: int|
                0 <= i < final(self).players@.len() && (#[trigger] old(
                    self,
                ).players@[i]).status is Betting && final(self).players@[i].status is Allin
                    ==> commitment(final(self).players@[i].status) <= m && final(self).players@[i].chips == 0,
            r matches Ok(m) ==> forall|i: int|
                0 <= i < final(self).players@.len() && (#[trigger] old(
                    self,
                ).players@[i]).status is Betting ==> commitment(final(self).players@[i].status)
                    <= m || commitment(final(self).players@[i].status) == commitment(
                    old(self).players@[i].status,
                ),
            first_round ==> (r matches Ok(m) ==> m >= 2 * SMALL_BLIND),
            (first_round && r is Ok && blinds_covered(old(self).players@)) ==> exists|
                i: int,
                j: int,
            |
                0 <= i < final(self).players@.len() && 0 <= j < final(self).players@.len() && i
                    != j && commitment((#[trigger] final(self).players@[i]).status)
                    >= SMALL_BLIND && commitment((#[trigger] final(self).players@[j]).status) >= 2
                    * SMALL_BLIND,
    {
        let n = self.players.len();
        let ghost n_int = n as int;
        let mut order: Vec<usize> = Vec::new();
        let mut allin_cnt: usize = 0;
        let mut i: usize = 0;
        while i < n
            invariant
                i <= n,
                n == self.players@.len(),
                *self == *old(self),
                old(self).wf(),
                order@.len() == num_betting(self.players@.take(i as int)),
                allin_cnt == num_allin(self.players@.take(i as int)),
                allin_cnt <= i,
                forall|j: int| 0 <= j < order@.len() ==> (#[trigger] order@[j]) < i,
                forall|j: int|
                    0 <= j < order@.len() ==> self.players@[(#[trigger] order@[j]) as int].status
                        is Betting,
                forall|j1: int, j2: int|
                    0 <= j1 < j2 < order@.len() ==> #[trigger] order@[j1] < #[trigger] order@[j2],
                forall|p: int|
                    0 <= p < i && (#[trigger] self.players@[p]).status is Betting ==> exists|
                        j: int,
                    |
                        0 <= j < order@.len() && (#[trigger] order@[j]) as int == p,
            decreases n - i,
        {
            let is_b = match self.players[i].status {
                PlayerStatus::Betting(_) => true,
                _ => false,
            };
            let is_a = match self.players[i].status {
                PlayerStatus::Allin(_) => true,
                _ => false,
            };
            proof {
                assert(self.players@.take(i + 1).drop_last() =~= self.players@.take(i as int));
                assert(self.players@.take(i + 1).last() == self.players@[i as int]);
            }
            let ghost pre_order = order@;
            if is_b {
                order.push(i);
            }
            if is_a {
                allin_cnt = allin_cnt + 1;
            }
            proof {
                assert forall|p: int|
                    0 <= p < i + 1 && (#[trigger] self.players@[p]).status is Betting implies
                    exists|j: int|
                    0 <= j < order@.len() && (#[trigger] order@[j]) as int == p by {
                    if p < i {
                        let j0 = choose|j: int|
                            0 <= j < pre_order.len() && (#[trigger] pre_order[j]) as int == p;
                        assert(order@[j0] as int == p);
                    } else {
                        assert(order@[order@.len() - 1] as int == p);
                    }
                }
            }
            i = i + 1;
        }
        proof {
            assert(self.players@.take(n_int) =~= self.players@);
        }
        let ghost nb = num_betting(old(self).players@);
        let ghost na = num_allin(old(self).players@);
        assert(order@.len() == nb);
        assert(allin_cnt == na);
        if first_round {
            if order.len() < 2 {
                return Err(PokerError::NotActive);
            }
        } else if order.len() == 0 {
            if allin_cnt == 0 {
                return Err(PokerError::NotActive);
            }
            // Everyone left in the hand is frozen all-in: the street is
            // trivially closed with nothing left to match.
            proof {
                assert forall|p: int|
                    0 <= p < n_int implies !((#[trigger] self.players@[p]).status is Betting) by {
                    if self.players@[p].status is Betting {
                        lemma_betting_pos(self.players@, p);
                    }
                }
                assert forall|p: int| 0 <= p < n_int implies round_step(
                    #[trigger] old(self).players@[p],
                    self.players@[p],
                ) by {}
            }
            return Ok(0);
        }
        let ghost cover = first_round && blinds_covered(old(self).players@);
        let ghost mut ga: int = 0;
        let ghost mut gb: int = 0;
        let first_idx = order[0];
        let mut mini_bet: u32 = match self.players[first_idx].status {
            PlayerStatus::Betting(c) => c,
            _ => unreached(),
        };
        let mut start: usize = 0;
        if first_round {
            let a = order[0];
            let b = order[1];
            proof {
                ga = a as int;
                gb = b as int;
                assert(a < b);
            }
            let _ = self.bet_at(a, SMALL_BLIND);
            let ghost mid1 = self.players@;
            assert(self.players@[b as int] == old(self).players@[b as int]);
            let _ = self.bet_at(b, 2 * SMALL_BLIND);
            mini_bet = 2 * SMALL_BLIND;
            start = 2 % order.len();
            proof {
                if cover {
                    assert(self.players@[ga] == mid1[ga]);
                    let a0 = old(self).players@[ga];
                    let a1 = mid1[ga];
                    assert(wealth(a1) == wealth(a0));
                    assert(commitment(a0.status) == 0 && a0.chips >= 2 * SMALL_BLIND);
                    if a1.status is Allin {
                        assert(commitment(a1.status) <= SMALL_BLIND && a1.chips == 0);
                        assert(false);
                    }
                    assert(commitment(a1.status) >= SMALL_BLIND);
                    let b0 = old(self).players@[gb];
                    let b1 = self.players@[gb];
                    assert(wealth(b1) == wealth(b0));
                    assert(commitment(b0.status) == 0 && b0.chips >= 2 * SMALL_BLIND);
                    if b1.status is Allin {
                        assert(b1.chips == 0);
                        assert(commitment(b1.status) == wealth(b0));
                    }
                    assert(commitment(b1.status) >= 2 * SMALL_BLIND);
                }
            }
        }
        proof {
            assert forall|p: int|
                0 <= p < n_int && (#[trigger] self.players@[p]).status is Betting implies exists|
                j: int,
            | 0 <= j < order@.len() && (#[trigger] order@[j]) as int == p by {
                assert(old(self).players@[p].status is Betting);
            }
            assert forall|p: int| 0 <= p < n_int implies round_step(
                #[trigger] old(self).players@[p],
                self.players@[p],
            ) by {}
        }
        loop
            invariant
                n == self.players@.len(),
                n_int == n as int,
                self.wf(),
                self.deck == old(self).deck,
                self.community_cards == old(self).community_cards,
                self.pot == old(self).pot,
                self.small_blind_position == old(self).small_blind_position,
                players_wealth(self.players@) == players_wealth(old(self).players@),
                forall|p: int|
                    0 <= p < n_int ==> round_step(
                        #[trigger] old(self).players@[p],
                        self.players@[p],
                    ),
                order@.len() >= 1,
                order@.len() == nb,
                nb == num_betting(old(self).players@),
                start < order@.len(),
                forall|j: int| 0 <= j < order@.len() ==> (#[trigger] order@[j]) < n,
                forall|j1: int, j2: int|
                    0 <= j1 < j2 < order@.len() ==> #[trigger] order@[j1] != #[trigger] order@[j2],
                forall|p: int|
                    0 <= p < n_int && (#[trigger] self.players@[p]).status is Betting ==> exists|
                        j: int,
                    |
                        0 <= j < order@.len() && (#[trigger] order@[j]) as int == p,
                forall|p: int|
                    0 <= p < n_int && (#[trigger] old(self).players@[p]).status is Betting
                        && self.players@[p].status is Allin ==> commitment(
                        self.players@[p].status,
                    ) <= mini_bet && self.players@[p].chips == 0,
                forall|p: int|
                    0 <= p < n_int && (#[trigger] old(self).players@[p]).status is Betting
                        ==> commitment(self.players@[p].status) <= mini_bet || commitment(
                        self.players@[p].status,
                    ) == commitment(old(self).players@[p].status),
                cover ==> 0 <= ga < n_int && 0 <= gb < n_int && ga != gb && commitment(
                    self.players@[ga].status,
                ) >= SMALL_BLIND && commitment(self.players@[gb].status) >= 2 * SMALL_BLIND,
                first_round ==> mini_bet >= 2 * SMALL_BLIND,
            ensures
                n == self.players@.len(),
                self.wf(),
                self.deck == old(self).deck,
                self.community_cards == old(self).community_cards,
                self.pot == old(self).pot,
                self.small_blind_position == old(self).small_blind_position,
                players_wealth(self.players@) == players_wealth(old(self).players@),
                forall|p: int|
                    0 <= p < n_int ==> round_step(
                        #[trigger] old(self).players@[p],
                        self.players@[p],
                    ),
                forall|p: int|
                    0 <= p < n_int && (#[trigger] self.players@[p]).status is Betting
                        ==> commitment(self.players@[p].status) == mini_bet,
                forall|p: int|
                    0 <= p < n_int && (#[trigger] old(self).players@[p]).status is Betting
                        && self.players@[p].status is Allin ==> commitment(
                        self.players@[p].status,
                    ) <= mini_bet && self.players@[p].chips == 0,
                forall|p: int|
                    0 <= p < n_int && (#[trigger] old(self).players@[p]).status is Betting
                        ==> commitment(self.players@[p].status) <= mini_bet || commitment(
                        self.players@[p].status,
                    ) == commitment(old(self).players@[p].status),
                cover ==> 0 <= ga < n_int && 0 <= gb < n_int && ga != gb && commitment(
                    self.players@[ga].status,
                ) >= SMALL_BLIND && commitment(self.players@[gb].status) >= 2 * SMALL_BLIND,
                first_round ==> mini_bet >= 2 * SMALL_BLIND,
            decreases u32::MAX - mini_bet,
        {
            let ghost m0 = mini_bet;
            let mut raise_off: usize = 0;
            let mut acted: usize = 0;
            let mut t: usize = 0;
            while t < order.len()
                invariant
                    n == self.players@.len(),
                    n_int == n as int,
                    self.wf(),
                    self.deck == old(self).deck,
                    self.community_cards == old(self).community_cards,
                    self.pot == old(self).pot,
                    self.small_blind_position == old(self).small_blind_position,
                    players_wealth(self.players@) == players_wealth(old(self).players@),
                    forall|p: int|
                        0 <= p < n_int ==> round_step(
                            #[trigger] old(self).players@[p],
                            self.players@[p],
                        ),
                    order@.len() >= 1,
                    order@.len() == nb,
                    nb == num_betting(old(self).players@),
                    start < order@.len(),
                    forall|j: int| 0 <= j < order@.len() ==> (#[trigger] order@[j]) < n,
                    forall|j1: int, j2: int|
                        0 <= j1 < j2 < order@.len() ==> #[trigger] order@[j1] != #[trigger] order@[j2],
                    forall|p: int|
                        0 <= p < n_int && (#[trigger] self.players@[p]).status is Betting
                            ==> exists|j: int|
                            0 <= j < order@.len() && (#[trigger] order@[j]) as int == p,
                    forall|p: int|
                        0 <= p < n_int && (#[trigger] old(self).players@[p]).status is Betting
                            && self.players@[p].status is Allin ==> commitment(
                            self.players@[p].status,
                        ) <= mini_bet && self.players@[p].chips == 0,
                    forall|p: int|
                        0 <= p < n_int && (#[trigger] old(self).players@[p]).status is Betting
                            ==> commitment(self.players@[p].status) <= mini_bet || commitment(
                            self.players@[p].status,
                        ) == commitment(old(self).players@[p].status),
                    cover ==> 0 <= ga < n_int && 0 <= gb < n_int && ga != gb && commitment(
                        self.players@[ga].status,
                    ) >= SMALL_BLIND && commitment(self.players@[gb].status) >= 2 * SMALL_BLIND,
                    first_round ==> mini_bet >= 2 * SMALL_BLIND,
                    t <= order@.len(),
                    acted <= t,
                    mini_bet >= m0,
                    raise_off == 0 || raise_off < order@.len(),
                    raise_off == 0 ==> forall|tt: int|
                        0 <= tt < t ==> {
                            let pidx = order@[cyc(start as int, tt, order@.len() as int)] as int;
                            (#[trigger] cyc(start as int, tt, order@.len() as int)) >= 0
                                && (self.players@[pidx].status is Betting ==> commitment(
                                self.players@[pidx].status,
                            ) == mini_bet)
                        },
                    acted == 0 ==> forall|tt: int|
                        0 <= tt < t ==> {
                            let pidx = order@[cyc(start as int, tt, order@.len() as int)] as int;
                            (#[trigger] cyc(start as int, tt, order@.len() as int)) >= 0 && !(
                            self.players@[pidx].status is Betting)
                        },
                    raise_off != 0 ==> mini_bet > m0,
                decreases order@.len() - t,
            {
                let len = order.len();
                let k = if t < len - start {
                    start + t
                } else {
                    t - (len - start)
                };
                proof {
                    assert(k as int == cyc(start as int, t as int, len as int));
                }
                let idx = order[k];
                let ghost pre_players = self.players@;
                let is_b = match self.players[idx].status {
                    PlayerStatus::Betting(_) => true,
                    _ => false,
                };
                if is_b {
                    let cur = match self.players[idx].status {
                        PlayerStatus::Betting(c) => c,
                        _ => unreached(),
                    };
                    let act = provider.decide(&self.players[idx], mini_bet);
                    let mut folded = false;
                    let mut committed: u32 = 0;
                    match act {
                        Action::Fold => {
                            self.fold_at(idx);
                            folded = true;
                        },
                        Action::Call => {
                            committed = self.bet_at(idx, mini_bet);
                        },
                        Action::Raise(amt) => {
                            let target = if amt > mini_bet {
                                amt
                            } else {
                                mini_bet
                            };
                            committed = self.bet_at(idx, target);
                        },
                        Action::AllIn => {
                            proof {
                                lemma_wealth_elem(self.players@, idx as int);
                                lemma_wealth_nonneg(self.players@);
                            }
                            let stack = self.players[idx].chips;
                            let allv = cur + stack;
                            let target = if allv > mini_bet {
                                allv
                            } else {
                                mini_bet
                            };
                            committed = self.bet_at(idx, target);
                        },
                    }
                    proof {
                        assert(round_step(old(self).players@[idx as int], self.players@[idx as int]))
                            by {
                            assert(round_step(old(self).players@[idx as int], pre_players[idx as int]));
                        }
                        assert forall|p: int|
                            0 <= p < n_int && (#[trigger] self.players@[p]).status is Betting
                                implies exists|j: int|
                            0 <= j < order@.len() && (#[trigger] order@[j]) as int == p by {
                            assert(pre_players[p].status is Betting);
                        }
                    }
                    if !folded && committed > mini_bet {
                        mini_bet = committed;
                        if acted > 0 {
                            raise_off = t;
                        } else {
                            raise_off = 0;
                        }
                    }
                    acted = acted + 1;
                }
                proof {
                    if raise_off == 0 {
                        assert forall|tt: int| 0 <= tt < t + 1 implies {
                            let pidx = order@[cyc(start as int, tt, order@.len() as int)] as int;
                            (#[trigger] cyc(start as int, tt, order@.len() as int)) >= 0 && (
                            self.players@[pidx].status is Betting ==> commitment(
                                self.players@[pidx].status,
                            ) == mini_bet)
                        } by {
                            let kk = cyc(start as int, tt, order@.len() as int);
                            if tt < t {
                                assert(kk != k as int);
                                assert(order@[kk] != order@[k as int]);
                                assert(self.players@[order@[kk] as int]
                                    == pre_players[order@[kk] as int]);
                            }
                        }
                    }
                    if acted == 0 {
                        assert forall|tt: int| 0 <= tt < t + 1 implies {
                            let pidx = order@[cyc(start as int, tt, order@.len() as int)] as int;
                            (#[trigger] cyc(start as int, tt, order@.len() as int)) >= 0 && !(
                            self.players@[pidx].status is Betting)
                        } by {
                            let kk = cyc(start as int, tt, order@.len() as int);
                            if tt < t {
                                assert(kk != k as int);
                            }
                        }
                    }
                }
                t = t + 1;
            }
            if raise_off == 0 {
                proof {
                    assert forall|p: int|
                        0 <= p < n_int && (#[trigger] self.players@[p]).status is Betting implies
                        commitment(self.players@[p].status) == mini_bet by {
                        let j = choose|j: int|
                            0 <= j < order@.len() && (#[trigger] order@[j]) as int == p;
                        let len_i = order@.len() as int;
                        let tt = if j >= start as int {
                            j - start as int
                        } else {
                            j + len_i - start as int
                        };
                        assert(0 <= tt < len_i);
                        assert(cyc(start as int, tt, len_i) == j);
                    }
                }
                break;
            }
            let len2 = order.len();
            start = if raise_off < len2 - start {
                start + raise_off
            } else {
                raise_off - (len2 - start)
            };
        }
        proof {
            if first_round {
                assert(nb >= 2);
            } else {
                assert(nb >= 1);
            }
            if cover {
                assert(0 <= ga < n_int && 0 <= gb < n_int && ga != gb && commitment(
                    self.players@[ga].status,
                ) >= SMALL_BLIND && commitment(self.players@[gb].status) >= 2 * SMALL_BLIND);
            }
        }
        Ok(mini_bet)
    }

    /// Moves every street commitment into the pot, leaving each status
    /// with a zero commitment and every stack untouched: the chips taken
    /// from the players are exactly the chips the pot gains.
    pub fn collect_pot(&mut self)
        requires
            old(self).wf(),
        ensures
            final(self).wf(),
            final(self).deck == old(self).deck,
            final(self).community_cards == old(self).community_cards,
            final(self).small_blind_position == old(self).small_blind_position,
            total_chips(*final(self)) == total_chips(*old(self)),
            final(self).pot == old(self).pot + total_commit(old(self).players@),
            final(self).players@.len() == old(self).players@.len(),
            forall|i: int|
                0 <= i < old(self).players@.len() ==> {
                    let p0 = #[trigger] old(self).players@[i];
                    let p1 = final(self).players@[i];
                    &&& p1.hand == p0.hand
                    &&& p1.chips == p0.chips
                    &&& p1.position == p0.position
                    &&& p1.status == zero_commit(p0.status)
                },
    {
        let n = self.players.len();
        let mut i: usize = 0;
        while i < n
            invariant
                i <= n,
                n == self.players@.len(),
                n == old(self).players@.len(),
                old(self).wf(),
                self.deck == old(self).deck,
                self.community_cards == old(self).community_cards,
                self.small_blind_position == old(self).small_blind_position,
                self.wf(),
                total_chips(*self) == total_chips(*old(self)),
                self.pot == old(self).pot + total_commit(old(self).players@.take(i as int)),
                forall|k: int| i <= k < n ==> #[trigger] self.players@[k] == old(self).players@[k],
                forall|k: int|
                    0 <= k < i ==> {
                        let p0 = #[trigger] old(self).players@[k];
                        let p1 = self.players@[k];
                        &&& p1.hand == p0.hand
                        &&& p1.chips == p0.chips
                        &&& p1.position == p0.position
                        &&& p1.status == zero_commit(p0.status)
                    },
            decreases n - i,
        {
            proof {
                lemma_wealth_elem(self.players@, i as int);
                lemma_wealth_nonneg(self.players@);
                assert(old(self).players@.take(i + 1).drop_last() =~= old(self).players@.take(
                    i as int,
                ));
                assert(old(self).players@.take(i + 1).last() == old(self).players@[i as int]);
            }
            let c = match self.players[i].status {
                PlayerStatus::Betting(c) => c,
                PlayerStatus::Folded(c) => c,
                PlayerStatus::Allin(c) => c,
                PlayerStatus::Waiting => 0,
            };
            let ghost pre_players = self.players@;
            let mut p = self.players.remove(i);
            p.status = match p.status {
                PlayerStatus::Betting(_) => PlayerStatus::Betting(0),
                PlayerStatus::Folded(_) => PlayerStatus::Folded(0),
                PlayerStatus::Allin(_) => PlayerStatus::Allin(0),
                PlayerStatus::Waiting => PlayerStatus::Waiting,
            };
            self.players.insert(i, p);
            proof {
                assert(self.players@ =~= pre_players.update(i as int, p));
                lemma_wealth_update(pre_players, i as int, p);
            }
            self.pot = self.pot + c;
            i = i + 1;
        }
        proof {
            assert(old(self).players@.take(n as int) =~= old(self).players@);
        }
    }

    /// One full betting street: runs the betting round to closure,
    /// sweeps every street commitment into the pot, and returns the
    /// round's final minimum. On success every commitment is back at
    /// zero and the pot has grown by exactly the wealth the players gave
    /// up: each seat still betting at closure gave up exactly the
    /// minimum, an all-in seat its whole wealth and at most the minimum,
    /// a folded seat at most the minimum unless it kept an earlier
    /// commitment it never acted on. Pre-flop with covered blinds the
    /// pot takes at least the three forced small blinds. Fails with
    /// `NotActive`, changing nothing, exactly as the betting round does.
    pub fn place_bets<P: DecisionProvider>(&mut self, provider: &mut P, first_round: bool) -> (r:
        Result<u32, PokerError>)
        requires
            old(self).wf(),
        ensures
            final(self).wf(),
            final(self).deck == old(self).deck,
            final(self).community_cards == old(self).community_cards,
            final(self).small_blind_position == old(self).small_blind_position,
            final(self).players@.len() == old(self).players@.len(),
            total_chips(*final(self)) == total_chips(*old(self)),
            forall|i: int|
                0 <= i < old(self).players@.len() ==> {
                    let p0 = #[trigger] old(self).players@[i];
                    let p1 = final(self).players@[i];
                    p1.hand == p0.hand && p1.position == p0.position
                },
            (r is Err) <==> (if first_round {
                num_betting(old(self).players@) < 2
            } else {
                num_betting(old(self).players@) == 0 && num_allin(old(self).players@) == 0
            }),
            r is Err ==> r == Err::<u32, PokerError>(PokerError::NotActive) && final(self).players
                == old(self).players && final(self).pot == old(self).pot,
            r is Ok ==> forall|i: int|
                0 <= i < final(self).players@.len() ==> commitment(
                    (#[trigger] final(self).players@[i]).status,
                ) == 0,
            r is Ok ==> final(self).pot == old(self).pot + (players_wealth(old(self).players@)
                - players_wealth(final(self).players@)),
            r is Ok ==> forall|i: int|
                0 <= i < old(self).players@.len() && !((#[trigger] old(
                    self,
                ).players@[i]).status is Betting) ==> final(self).players@[i].status
                    == zero_commit(old(self).players@[i].status) && final(self).players@[i].chips
                    == old(self).players@[i].chips,
            r is Ok ==> forall|i: int|
                0 <= i < old(self).players@.len() && (#[trigger] old(self).players@[i]).status
                    is Betting ==> (final(self).players@[i].status is Betting || final(self).players@[i].status is Allin || final(self).players@[i].status is Folded),
            first_round ==> (r matches Ok(m) ==> m >= 2 * SMALL_BLIND),
            r matches Ok(m) ==> forall|i: int|
                0 <= i < old(self).players@.len() && (#[trigger] old(self).players@[i]).status
                    is Betting && final(self).players@[i].status is Betting ==> wealth(
                    old(self).players@[i],
                ) - wealth(final(self).players@[i]) == m,
            r matches Ok(m) ==> forall|i: int|
                0 <= i < old(self).players@.len() && (#[trigger] old(self).players@[i]).status
                    is Betting && final(self).players@[i].status is Allin ==> final(self).players@[i].chips == 0 && wealth(old(self).players@[i]) - wealth(
                    final(self).players@[i],
                ) <= m,
            r matches Ok(m) ==> forall|i: int|
                0 <= i < old(self).players@.len() && (#[trigger] old(self).players@[i]).status
                    is Betting && final(self).players@[i].status is Folded ==> wealth(
                    old(self).players@[i],
                ) - wealth(final(self).players@[i]) <= m || wealth(old(self).players@[i])
                    - wealth(final(self).players@[i]) == commitment(
                    old(self).players@[i].status,
                ),
            (first_round && r is Ok && blinds_covered(old(self).players@)) ==> final(self).pot
                >= old(self).pot + 3 * SMALL_BLIND,
            (r is Ok && (forall|i: int|
                0 <= i < old(self).players@.len() ==> commitment(
                    (#[trigger] old(self).players@[i]).status,
                ) == 0)) ==> final(self).pot == old(self).pot + (players_chips(
                old(self).players@,
            ) - players_chips(final(self).players@)),
    {
        match self.betting_round(provider, first_round) {
            Ok(m) => {
                let ghost mid = self.players@;
                self.collect_pot();
                proof {
                    let n = old(self).players@.len() as int;
                    assert forall|i: int| 0 <= i < self.players@.len() implies commitment(
                        (#[trigger] self.players@[i]).status,
                    ) == 0 by {
                        assert(self.players@[i].status == zero_commit(mid[i].status));
                    }
                    assert forall|i: int| 0 <= i < n implies {
                        let p0 = #[trigger] old(self).players@[i];
                        let p1 = self.players@[i];
                        &&& p1.hand == p0.hand
                        &&& p1.position == p0.position
                        &&& (!(p0.status is Betting) ==> p1.status == zero_commit(p0.status)
                            && p1.chips == p0.chips)
                        &&& (p0.status is Betting ==> (p1.status is Betting || p1.status
                            is Allin || p1.status is Folded))
                        &&& (p0.status is Betting && p1.status is Betting ==> wealth(p0) - wealth(
                            p1,
                        ) == m)
                        &&& (p0.status is Betting && p1.status is Allin ==> p1.chips == 0
                            && wealth(p0) - wealth(p1) <= m)
                        &&& (p0.status is Betting && p1.status is Folded ==> wealth(p0) - wealth(
                            p1,
                        ) <= m || wealth(p0) - wealth(p1) == commitment(p0.status))
                    } by {
                        let p0 = old(self).players@[i];
                        let pm = mid[i];
                        let p1 = self.players@[i];
                        assert(round_step(p0, pm));
                        assert(p1.status == zero_commit(pm.status));
                        assert(p1.chips == pm.chips && p1.hand == pm.hand && p1.position
                            == pm.position);
                        assert(wealth(pm) == wealth(p0));
                        if p0.status is Betting {
                            if pm.status is Betting {
                                assert(commitment(pm.status) == m);
                                assert(wealth(p1) == pm.chips);
                            }
                            if pm.status is Allin {
                                assert(commitment(pm.status) <= m && pm.chips == 0);
                            }
                            if pm.status is Folded {
                                assert(commitment(pm.status) <= m || commitment(pm.status)
                                    == commitment(p0.status));
                            }
                        }
                    }
                    assert(self.pot == old(self).pot + total_commit(mid));
                    if first_round && blinds_covered(old(self).players@) {
                        let (gi, gj): (int, int) = choose|i: int, j: int|
                            0 <= i < mid.len() && 0 <= j < mid.len() && i != j && commitment(
                                mid[i].status,
                            ) >= SMALL_BLIND && commitment(mid[j].status) >= 2 * SMALL_BLIND;
                        lemma_commit_pair(mid, gi, gj);
                        assert(total_commit(mid) >= 3 * SMALL_BLIND);
                    }
                    if forall|i: int|
                        0 <= i < old(self).players@.len() ==> commitment(
                            (#[trigger] old(self).players@[i]).status,
                        ) == 0 {
                        lemma_chips_eq_wealth(old(self).players@);
                        lemma_chips_eq_wealth(self.players@);
                    }
                }
                Ok(m)
            },
            Err(e) => {
                proof {
                    assert(e == PokerError::NotActive);
                }
                Err(e)
            },
        }
    }

    /// Picks the showdown winner: the first unfolded seat whose best
    /// five-card hand strictly beats every earlier one and at least
    /// matches every later one. Folded seats take no part. Fails with
    /// the first unfolded seat's evaluation error (no hole cards, or too
    /// few cards in all), or with `NotActive` when every seat has folded.
    pub fn determine_winner(&self) -> (r: Result<usize, PokerError>)
        requires
            self.wf(),
        ensures
            first_eval_err(self.players@, self.community_cards@, 0) matches Some(e) ==> r == Err::<
                usize,
                PokerError,
            >(e),
            first_eval_err(self.players@, self.community_cards@, 0) is None && (forall|i: int|
                0 <= i < self.players@.len() ==> (#[trigger] self.players@[i]).status is Folded)
                ==> r == Err::<usize, PokerError>(PokerError::NotActive),
            first_eval_err(self.players@, self.community_cards@, 0) is None && (exists|i: int|
                0 <= i < self.players@.len() && !((#[trigger] self.players@[i]).status is Folded))
                ==> (r matches Ok(w) && {
                let com = self.community_cards@;
                &&& 0 <= w < self.players@.len()
                &&& !(self.players@[w as int].status is Folded)
                &&& forall|i: int|
                    0 <= i < self.players@.len() && !((#[trigger] self.players@[i]).status
                        is Folded) ==> best_key(self.players@[i].hand@ + com) <= best_key(
                        self.players@[w as int].hand@ + com,
                    )
                &&& forall|i: int|
                    0 <= i < w && !((#[trigger] self.players@[i]).status is Folded) ==> best_key(
                        self.players@[i].hand@ + com,
                    ) < best_key(self.players@[w as int].hand@ + com)
            }),
    {
        let n = self.players.len();
        let ghost com = self.community_cards@;
        let mut winner: usize = 0;
        let mut best_k: u64 = 0;
        let mut found = false;
        let mut i: usize = 0;
        while i < n
            invariant
                i <= n,
                n == self.players@.len(),
                self.wf(),
                com == self.community_cards@,
                first_eval_err(self.players@, com, 0) == first_eval_err(self.players@, com, i as int),
                found == (exists|j: int|
                    0 <= j < i && !((#[trigger] self.players@[j]).status is Folded)),
                found ==> {
                    &&& winner < i
                    &&& !(self.players@[winner as int].status is Folded)
                    &&& best_k as int == best_key(self.players@[winner as int].hand@ + com)
                    &&& forall|j: int|
                        0 <= j < i && !((#[trigger] self.players@[j]).status is Folded)
                            ==> best_key(self.players@[j].hand@ + com) <= best_k as int
                    &&& forall|j: int|
                        0 <= j < winner && !((#[trigger] self.players@[j]).status is Folded)
                            ==> best_key(self.players@[j].hand@ + com) < best_k as int
                },
            decreases n - i,
        {
            let folded = match self.players[i].status {
                PlayerStatus::Folded(_) => true,
                _ => false,
            };
            if !folded {
                proof {
                    assert forall|j: int|
                        0 <= j < self.players@[i as int].hand@.len() implies valid_card(
                        #[trigger] self.players@[i as int].hand@[j],
                    ) by {}
                }
                match self.players[i].best_hand(&self.community_cards) {
                    Err(e) => {
                        proof {
                            assert(eval_err(self.players@[i as int], com) == Some(e));
                        }
                        return Err(e);
                    },
                    Ok(h) => {
                        proof {
                            assert(eval_err(self.players@[i as int], com) is None);
                            lemma_is_best_key(self.players@[i as int].hand@ + com, h);
                        }
                        let hk = rank_key_of(&h);
                        if !found || hk > best_k {
                            winner = i;
                            best_k = hk;
                            found = true;
                        }
                    },
                }
            }
            i = i + 1;
        }
        if found {
            Ok(winner)
        } else {
            Err(PokerError::NotActive)
        }
    }

    /// The one seat still in the hand, when exactly one is.
    fn sole_unfolded(&self) -> (r: Option<usize>)
        ensures
            r matches Some(w) ==> 0 <= w < self.players@.len() && !(self.players@[w as int].status is Folded) && num_unfolded(self.players@) == 1,
            r is None ==> num_unfolded(self.players@) != 1,
    {
        let n = self.players.len();
        let mut cnt: usize = 0;
        let mut last: usize = 0;
        let mut i: usize = 0;
        while i < n
            invariant
                i <= n,
                n == self.players@.len(),
                cnt == num_unfolded(self.players@.take(i as int)),
                cnt <= i,
                cnt > 0 ==> last < i && !(self.players@[last as int].status is Folded),
            decreases n - i,
        {
            proof {
                assert(self.players@.take(i + 1).drop_last() =~= self.players@.take(i as int));
                assert(self.players@.take(i + 1).last() == self.players@[i as int]);
            }
            let folded = match self.players[i].status {
                PlayerStatus::Folded(_) => true,
                _ => false,
            };
            if !folded {
                cnt = cnt + 1;
                last = i;
            }
            i = i + 1;
        }
        proof {
            assert(self.players@.take(n as int) =~= self.players@);
        }
        if cnt == 1 {
            Some(last)
        } else {
            None
        }
    }

    /// Plays one complete hand: deals two hole cards to every seat, then
    /// drives the four betting streets with the flop, turn and river
    /// dealt between them, and settles by showdown. A hand whose betting
    /// leaves exactly one seat unfolded ends at once with that seat as
    /// the uncontested winner, dealing no further cards. On a playable
    /// hand the only way to fail is for every seat to fold; a hand that
    /// cannot start fails before any decision is asked, with the error
    /// naming what was wrong. Chips only ever move between stacks,
    /// street commitments and the pot.
    #[verifier::loop_isolation(false)]
    pub fn play_round<P: DecisionProvider>(&mut self, provider: &mut P) -> (r: Result<
        usize,
        PokerError,
    >)
        requires
            old(self).wf(),
        ensures
            final(self).wf(),
            total_chips(*final(self)) == total_chips(*old(self)),
            final(self).players@.len() == old(self).players@.len(),
            r matches Ok(w) ==> 0 <= w < final(self).players@.len() && !(final(self).players@[w as int].status is Folded),
            r matches Ok(w) ==> final(self).community_cards@.len() == old(self).community_cards@.len() + 5 || num_unfolded(final(self).players@) == 1,
            r is Ok ==> final(self).deck.cards@.len() == old(self).deck.cards@.len() - 2
                * old(self).players@.len() - (final(self).community_cards@.len() - old(self).community_cards@.len()),
            old(self).deck.cards@.len() < 2 * old(self).players@.len() ==> r == Err::<
                usize,
                PokerError,
            >(PokerError::DeckExhausted),
            old(self).deck.cards@.len() >= 2 * old(self).players@.len() && (exists|i: int|
                0 <= i < old(self).players@.len() && (#[trigger] old(self).players@[i]).hand@.len()
                    > 0) ==> r == Err::<usize, PokerError>(PokerError::AlreadyDealt),
            old(self).deck.cards@.len() >= 2 * old(self).players@.len() && (forall|i: int|
                0 <= i < old(self).players@.len() ==> (#[trigger] old(self).players@[i]).hand@.len() == 0)
                && num_can_bet(old(self).players@) < 2 ==> r == Err::<usize, PokerError>(
                PokerError::NotActive,
            ),
            playable(*old(self)) ==> ((r is Ok) <==> num_unfolded(final(self).players@) >= 1),
    {
        let ghost n_p = old(self).players@.len() as int;
        let ghost d0 = old(self).deck.cards@.len() as int;
        let ghost c0 = old(self).community_cards@.len() as int;
        match self.deal_to_players() {
            Err(e) => {
                return Err(e);
            },
            Ok(_) => {},
        }
        proof {
            assert(self.deck.cards@.len() == d0 - 2 * n_p);
            assert forall|i: int| 0 <= i < n_p implies (#[trigger] self.players@[i]).hand@.len()
                == 2 && !(self.players@[i].status is Waiting) by {
                let p0 = old(self).players@[i];
                assert(self.players@[i].status == (if p0.status is Waiting {
                    PlayerStatus::Betting(0)
                } else {
                    p0.status
                }));
            }
            lemma_num_betting_after_deal(old(self).players@, self.players@);
        }
        let ghost dealt = self.players@;
        match self.place_bets(provider, true) {
            Err(e) => {
                return Err(e);
            },
            Ok(_) => {},
        }
        proof {
            assert forall|i: int| 0 <= i < n_p implies (#[trigger] self.players@[i]).hand@.len()
                == 2 && !(self.players@[i].status is Waiting) by {
                if dealt[i].status is Betting {
                } else {
                    assert(self.players@[i].status == zero_commit(dealt[i].status));
                }
            }
        }
        if let Some(w) = self.sole_unfolded() {
            return Ok(w);
        }
        let ghost pb = self.players@;
        let ghost dd1 = self.deck.cards@.len() as int;
        let mut street: usize = 0;
        while street < 3
            invariant
                street <= 3,
                self.wf(),
                total_chips(*self) == total_chips(*old(self)),
                self.players@ == pb,
                self.pot == old(self).pot + (players_wealth(old(self).players@) - players_wealth(
                    pb,
                )),
                self.community_cards@.len() == c0 + street,
                self.deck.cards@.len() == dd1 - street,
            decreases 3 - street,
        {
            proof {
                if playable(*old(self)) {
                    assert(self.deck.cards@.len() > 0);
                }
            }
            match self.deal_community_card() {
                Err(e) => {
                    proof {
                        if playable(*old(self)) {
                            assert(false);
                        }
                    }
                    return Err(e);
                },
                Ok(_) => {},
            }
            street = street + 1;
        }
        let ghost before2 = self.players@;
        match self.place_bets(provider, false) {
            Err(e) => {
                proof {
                    if playable(*old(self)) {
                        lemma_unfolded_split(before2);
                    }
                }
                return Err(e);
            },
            Ok(_) => {},
        }
        proof {
            assert forall|i: int| 0 <= i < n_p implies (#[trigger] self.players@[i]).hand@.len()
                == 2 && !(self.players@[i].status is Waiting) by {
                if before2[i].status is Betting {
                } else {
                    assert(self.players@[i].status == zero_commit(before2[i].status));
                }
            }
        }
        if let Some(w) = self.sole_unfolded() {
            return Ok(w);
        }
        proof {
            if playable(*old(self)) {
                assert(self.deck.cards@.len() > 0);
            }
        }
        match self.deal_community_card() {
            Err(e) => {
                proof {
                    if playable(*old(self)) {
                        assert(false);
                    }
                }
                return Err(e);
            },
            Ok(_) => {},
        }
        let ghost before3 = self.players@;
        match self.place_bets(provider, false) {
            Err(e) => {
                proof {
                    if playable(*old(self)) {
                        lemma_unfolded_split(before3);
                    }
                }
                return Err(e);
            },
            Ok(_) => {},
        }
        proof {
            assert forall|i: int| 0 <= i < n_p implies (#[trigger] self.players@[i]).hand@.len()
                == 2 && !(self.players@[i].status is Waiting) by {
                if before3[i].status is Betting {
                } else {
                    assert(self.players@[i].status == zero_commit(before3[i].status));
                }
            }
        }
        if let Some(w) = self.sole_unfolded() {
            return Ok(w);
        }
        proof {
            if playable(*old(self)) {
                assert(self.deck.cards@.len() > 0);
            }
        }
        match self.deal_community_card() {
            Err(e) => {
                proof {
                    if playable(*old(self)) {
                        assert(false);
                    }
                }
                return Err(e);
            },
            Ok(_) => {},
        }
        let ghost before4 = self.players@;
        match self.place_bets(provider, false) {
            Err(e) => {
                proof {
                    if playable(*old(self)) {
                        lemma_unfolded_split(before4);
                    }
                }
                return Err(e);
            },
            Ok(_) => {},
        }
        proof {
            assert forall|i: int| 0 <= i < n_p implies (#[trigger] self.players@[i]).hand@.len()
                == 2 && !(self.players@[i].status is Waiting) by {
                if before4[i].status is Betting {
                } else {
                    assert(self.players@[i].status == zero_commit(before4[i].status));
                }
            }
        }
        if let Some(w) = self.sole_unfolded() {
            return Ok(w);
        }
        proof {
            lemma_no_eval_err(self.players@, self.community_cards@, 0);
        }
        match self.determine_winner() {
            Ok(w) => {
                proof {
                    lemma_unfolded_pos(self.players@, w as int);
                }
                Ok(w)
            },
            Err(e) => {
                proof {
                    lemma_all_folded(self.players@);
                }
                Err(e)
            },
        }
    }

    /// Turns the next card off the deck onto the table. Fails with
    /// `DeckExhausted` on an empty deck, changing nothing.
    pub fn deal_community_card(&mut self) -> (r: Result<(), PokerError>)
        requires
            old(self).wf(),
        ensures
            final(self).wf(),
            final(self).players == old(self).players,
            final(self).pot == old(self).pot,
            final(self).small_blind_position == old(self).small_blind_position,
            total_chips(*final(self)) == total_chips(*old(self)),
            old(self).deck.cards@.len() == 0 ==> r == Err::<(), PokerError>(
                PokerError::DeckExhausted,
            ) && final(self).community_cards == old(self).community_cards && final(self).deck.cards@
                == old(self).deck.cards@,
            old(self).deck.cards@.len() > 0 ==> r == Ok::<(), PokerError>(()) && final(self).community_cards@ == old(self).community_cards@.push(old(self).deck.cards@.last())
                && final(self).deck.cards@ == old(self).deck.cards@.drop_last(),
    {
        proof {
            lemma_sub_canonical_valid(self.deck.cards@);
        }
        match self.deck.deal() {
            Ok(c) => {
                self.community_cards.push(c);
                Ok(())
            },
            Err(e) => Err(e),
        }
    }
}

} // verus!
