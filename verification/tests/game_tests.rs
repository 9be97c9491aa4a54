use poker::game::{Action, AlwaysCall, DecisionProvider, Game};
use poker::player::{Player, PlayerStatus};

#[test]
fn test_game_creation() {
    let mut game = Game::new(4, 1000);
    let _ = game.deal_to_players();
    assert_eq!(game.players.len(), 4);
    assert_eq!(game.deck.cards.len(), 52 - 4 * 2); // 4 players, each dealt 2 cards
}

#[test]
fn test_play_round() {
    let mut game = Game::new(4, 1000);
    let mut policy = AlwaysCall;
    let winner = game.play_round(&mut policy).unwrap();
    assert!(winner < 4);
}

#[test]
fn full_hand_reaches_showdown() {
    let mut game = Game::new(4, 1000);
    let mut policy = AlwaysCall;
    let winner = game.play_round(&mut policy).unwrap();
    assert!(winner < 4);
    assert!(!matches!(game.players[winner].status, PlayerStatus::Folded(_)));
    assert_eq!(game.community_cards.len(), 5);
    // Pre-flop everyone called the big blind; later streets were checked.
    assert_eq!(game.pot, 80);
    let chips: u32 = game.players.iter().map(|p| p.chips).sum();
    assert_eq!(chips + game.pot, 4000);
}

#[test]
fn preflop_betting_levels_every_caller() {
    let mut game = Game::new(4, 1000);
    let _ = game.deal_to_players();
    let mut policy = AlwaysCall;
    let minimum = game.place_bets(&mut policy, true).unwrap();
    // Round closed at the big blind: everyone matched it, and exactly
    // those chips moved into the pot.
    assert_eq!(minimum, 20);
    assert_eq!(game.pot, 80);
    for p in &game.players {
        assert_eq!(p.chips, 980);
        assert_eq!(p.status, PlayerStatus::Betting(0));
    }
}

struct FoldUnlessFirst;

impl DecisionProvider for FoldUnlessFirst {
    fn decide(&mut self, player: &Player, _minimum: u32) -> Action {
        if player.position == 0 {
            Action::Call
        } else {
            Action::Fold
        }
    }
}

#[test]
fn hand_ends_when_all_but_one_fold() {
    let mut game = Game::new(4, 1000);
    let mut policy = FoldUnlessFirst;
    let winner = game.play_round(&mut policy).unwrap();
    assert_eq!(winner, 0);
    // The hand ended before any community card was dealt: only the
    // blinds and the first seat's call reached the pot.
    assert_eq!(game.community_cards.len(), 0);
    assert_eq!(game.pot, 40);
    assert_eq!(game.players[0].chips, 980);
    assert!(matches!(game.players[1].status, PlayerStatus::Folded(_)));
    assert!(matches!(game.players[2].status, PlayerStatus::Folded(_)));
    assert!(matches!(game.players[3].status, PlayerStatus::Folded(_)));
}

struct RaiseOnce {
    done: bool,
}

impl DecisionProvider for RaiseOnce {
    fn decide(&mut self, _player: &Player, minimum: u32) -> Action {
        if self.done {
            Action::Call
        } else {
            self.done = true;
            Action::Raise(minimum + 30)
        }
    }
}

#[test]
fn a_raise_reopens_the_action_until_everyone_matches() {
    let mut game = Game::new(4, 1000);
    let _ = game.deal_to_players();
    let mut policy = RaiseOnce { done: false };
    let minimum = game.place_bets(&mut policy, true).unwrap();
    // The first player to act raised the big blind of 20 to 50; every
    // other seat had to come along to 50.
    assert_eq!(minimum, 50);
    assert_eq!(game.pot, 200);
    for p in &game.players {
        assert_eq!(p.chips, 950);
        assert_eq!(p.status, PlayerStatus::Betting(0));
    }
}

struct AllInFirst {
    done: bool,
}

impl DecisionProvider for AllInFirst {
    fn decide(&mut self, _player: &Player, _minimum: u32) -> Action {
        if self.done {
            Action::Call
        } else {
            self.done = true;
            Action::AllIn
        }
    }
}

#[test]
fn an_all_in_sets_the_price_of_the_hand() {
    let mut game = Game::new(4, 1000);
    let _ = game.deal_to_players();
    let mut policy = AllInFirst { done: false };
    let minimum = game.place_bets(&mut policy, true).unwrap();
    assert_eq!(minimum, 1000);
    assert_eq!(game.pot, 4000);
    for p in &game.players {
        assert_eq!(p.chips, 0);
    }
}

struct RaiseHuge {
    done: bool,
}

impl DecisionProvider for RaiseHuge {
    fn decide(&mut self, _player: &Player, _minimum: u32) -> Action {
        if self.done {
            Action::Call
        } else {
            self.done = true;
            Action::Raise(5000)
        }
    }
}

#[test]
fn an_all_in_table_still_reaches_showdown() {
    let mut game = Game::new(4, 1000);
    game.players[0].chips = 900;
    game.players[1].chips = 900;
    game.players[3].chips = 900;
    // The first actor raises past every stack, so every seat ends the
    // pre-flop street frozen all-in; the later streets have nobody able
    // to act and close trivially, and the hand still reaches showdown.
    let mut policy = RaiseHuge { done: false };
    let winner = game.play_round(&mut policy).unwrap();
    assert!(winner < 4);
    assert_eq!(game.community_cards.len(), 5);
    assert_eq!(game.pot, 3700);
    for p in &game.players {
        assert_eq!(p.chips, 0);
    }
}

#[test]
fn a_hand_needs_two_seats_and_a_covering_deck() {
    let mut lone = Game::new(1, 1000);
    let mut policy = AlwaysCall;
    assert_eq!(lone.play_round(&mut policy), Err(poker::PokerError::NotActive));

    let mut crowded = Game::new(30, 100);
    assert_eq!(
        crowded.play_round(&mut policy),
        Err(poker::PokerError::DeckExhausted)
    );
}

#[test]
fn a_full_hand_consumes_thirteen_cards() {
    let mut game = Game::new(4, 1000);
    let mut policy = AlwaysCall;
    let _ = game.play_round(&mut policy).unwrap();
    // Eight hole cards and five community cards left the deck.
    assert_eq!(game.deck.cards.len(), 52 - (2 * 4 + 5));
}

#[test]
fn betting_needs_active_players() {
    let mut game = Game::new(4, 1000);
    // Nobody has been dealt in, so nobody can act.
    let mut policy = AlwaysCall;
    assert_eq!(
        game.place_bets(&mut policy, true),
        Err(poker::PokerError::NotActive)
    );
}

#[test]
fn oversized_table_exhausts_the_deck() {
    let mut game = Game::new(30, 100);
    assert_eq!(game.deal_to_players(), Err(poker::PokerError::DeckExhausted));
}

#[test]
fn blind_changes_nothing() {
    let mut game = Game::new(4, 1000);
    game.blind();
    assert_eq!(game.pot, 0);
    assert_eq!(game.deck.cards.len(), 52);
}
