use poker::card::{Card, Suit};
use poker::hand_rank::HandRank;
use poker::player::{Player, PlayerStatus};
use poker::PokerError;

#[test]
fn test_receive_card() {
    let mut player = Player::new(1000);
    let card = Card::new(10, Suit::Hearts);
    let _ = player.receive_card(card);
    assert_eq!(player.hand.len(), 1);
    assert_eq!(player.hand[0], card);
}

#[test]
fn test_best_hand() {
    let mut player = Player::new(1000);
    let _ = player.receive_card(Card::new(2, Suit::Clubs));
    let _ = player.receive_card(Card::new(11, Suit::Hearts));

    let community_cards = vec![
        Card::new(12, Suit::Hearts),
        Card::new(13, Suit::Hearts),
        Card::new(14, Suit::Hearts),
        Card::new(3, Suit::Clubs),
        Card::new(10, Suit::Hearts),
    ];

    let best_hand = player.best_hand(&community_cards);
    assert_eq!(best_hand, Ok(HandRank::RoyalFlush));
}

#[test]
fn test_bet() {}

#[test]
fn second_hole_card_starts_betting() {
    let mut player = Player::new(500);
    assert_eq!(player.status, PlayerStatus::Waiting);
    let _ = player.receive_card(Card::new(2, Suit::Clubs));
    assert_eq!(player.status, PlayerStatus::Waiting);
    let _ = player.receive_card(Card::new(3, Suit::Clubs));
    assert_eq!(player.status, PlayerStatus::Betting(0));
    assert_eq!(
        player.receive_card(Card::new(4, Suit::Clubs)),
        Err(PokerError::AlreadyDealt)
    );
    assert_eq!(player.hand.len(), 2);
}

#[test]
fn place_bet_moves_chips_into_commitment() {
    let mut player = Player::new(1000);
    let _ = player.receive_card(Card::new(2, Suit::Clubs));
    let _ = player.receive_card(Card::new(3, Suit::Hearts));
    assert_eq!(player.place_bet(200), Ok(200));
    assert_eq!(player.chips, 800);
    assert_eq!(player.status, PlayerStatus::Betting(200));

    // A target at or below the current commitment is a check.
    assert_eq!(player.place_bet(100), Ok(200));
    assert_eq!(player.chips, 800);
    assert_eq!(player.status, PlayerStatus::Betting(200));

    // A target past the stack takes everything and freezes the player.
    assert_eq!(player.place_bet(5000), Ok(1000));
    assert_eq!(player.chips, 0);
    assert_eq!(player.status, PlayerStatus::Allin(1000));

    // An all-in player keeps the frozen commitment.
    assert_eq!(player.place_bet(9999), Ok(1000));
    assert_eq!(player.status, PlayerStatus::Allin(1000));
}

#[test]
fn inactive_players_cannot_act() {
    let mut player = Player::new(1000);
    assert_eq!(player.place_bet(10), Err(PokerError::NotActive));
    assert_eq!(player.fold(), Err(PokerError::NotActive));

    let _ = player.receive_card(Card::new(2, Suit::Clubs));
    let _ = player.receive_card(Card::new(3, Suit::Hearts));
    assert_eq!(player.place_bet(50), Ok(50));
    assert_eq!(player.fold(), Ok(()));
    assert_eq!(player.status, PlayerStatus::Folded(50));
    assert_eq!(player.place_bet(60), Err(PokerError::NotActive));
    assert_eq!(player.fold(), Err(PokerError::NotActive));
    assert_eq!(player.chips, 950);
}

#[test]
fn reset_bet_returns_to_waiting() {
    let mut player = Player::new(1000);
    let _ = player.receive_card(Card::new(2, Suit::Clubs));
    let _ = player.receive_card(Card::new(3, Suit::Hearts));
    let _ = player.place_bet(100);
    player.reset_bet();
    assert_eq!(player.status, PlayerStatus::Waiting);
    assert_eq!(player.chips, 900);
}

#[test]
fn best_hand_needs_cards() {
    let player = Player::new(1000);
    let community = vec![
        Card::new(12, Suit::Hearts),
        Card::new(13, Suit::Hearts),
        Card::new(14, Suit::Hearts),
        Card::new(3, Suit::Clubs),
        Card::new(10, Suit::Hearts),
    ];
    assert_eq!(player.best_hand(&community), Err(PokerError::NoHoleCards));

    let mut dealt = Player::new(1000);
    let _ = dealt.receive_card(Card::new(2, Suit::Clubs));
    let _ = dealt.receive_card(Card::new(3, Suit::Hearts));
    let short = vec![Card::new(12, Suit::Hearts), Card::new(13, Suit::Hearts)];
    assert_eq!(dealt.best_hand(&short), Err(PokerError::InsufficientCards));
}

fn oracle_best(cards: &[Card]) -> HandRank {
    let mut oracle: Option<HandRank> = None;
    let n = cards.len();
    for a in 0..n {
        for b in (a + 1)..n {
            for c in (b + 1)..n {
                for d in (c + 1)..n {
                    for e in (d + 1)..n {
                        let five = vec![cards[a], cards[b], cards[c], cards[d], cards[e]];
                        let rank = HandRank::from_cards(&five).unwrap();
                        if oracle.is_none() || rank > oracle.unwrap() {
                            oracle = Some(rank);
                        }
                    }
                }
            }
        }
    }
    oracle.unwrap()
}

#[test]
fn best_hand_matches_oracle_on_random_deals() {
    let mut deck = poker::card::Deck::new();
    for _ in 0..25 {
        deck.shuffle();
        let mut cards: Vec<Card> = Vec::new();
        for _ in 0..7 {
            cards.push(deck.deal().unwrap());
        }
        let mut player = Player::new(1000);
        let _ = player.receive_card(cards[0]);
        let _ = player.receive_card(cards[1]);
        let community = cards[2..].to_vec();
        let best = player.best_hand(&community).unwrap();
        assert_eq!(best, oracle_best(&cards));
    }
}

#[test]
fn best_hand_matches_exhaustive_search() {
    let fixtures = [
        vec![
            Card::new(2, Suit::Clubs),
            Card::new(2, Suit::Hearts),
            Card::new(7, Suit::Diamonds),
            Card::new(7, Suit::Spades),
            Card::new(7, Suit::Hearts),
            Card::new(13, Suit::Clubs),
            Card::new(14, Suit::Diamonds),
        ],
        vec![
            Card::new(4, Suit::Spades),
            Card::new(5, Suit::Spades),
            Card::new(6, Suit::Spades),
            Card::new(7, Suit::Spades),
            Card::new(8, Suit::Spades),
            Card::new(8, Suit::Hearts),
            Card::new(8, Suit::Diamonds),
        ],
        vec![
            Card::new(14, Suit::Clubs),
            Card::new(3, Suit::Hearts),
            Card::new(9, Suit::Diamonds),
            Card::new(11, Suit::Spades),
            Card::new(6, Suit::Hearts),
            Card::new(2, Suit::Clubs),
            Card::new(13, Suit::Diamonds),
        ],
    ];
    for cards in fixtures {
        let mut player = Player::new(1000);
        let _ = player.receive_card(cards[0]);
        let _ = player.receive_card(cards[1]);
        let community = cards[2..].to_vec();
        let best = player.best_hand(&community).unwrap();
        assert_eq!(best, oracle_best(&cards));
    }
}
