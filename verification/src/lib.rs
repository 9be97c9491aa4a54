//! A verified Texas Hold'em core: deck handling, five-card hand evaluation
//! over the best subset of hole and community cards, and a multi-round
//! betting state machine.

pub mod card;
pub mod command;
pub mod game;
pub mod hand_rank;
pub mod player;

use vstd::prelude::*;

verus! {

/// The contract violations the core surfaces to its callers. All of them
/// mean a caller broke an invariant (wrong call order, wrong table size);
/// none is transient and none is retried.
#[derive(Debug, Clone, Copy, PartialEq, Eq, Structural)]
pub enum PokerError {
    /// A card was requested from an empty deck.
    DeckExhausted,
    /// The hand evaluator was given fewer than five cards.
    InsufficientCards,
    /// A player already holding two hole cards was dealt another.
    AlreadyDealt,
    /// A bet or a fold was requested from a player who cannot act.
    NotActive,
    /// A showdown evaluation was requested from a player with no hole cards.
    NoHoleCards,
}

} // verus!
