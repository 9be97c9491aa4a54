use poker::card::{parse_cards, Card, Deck, Suit};
use poker::PokerError;

#[test]
fn test_deck_creation() {
    let deck = Deck::new();
    assert_eq!(deck.cards.len(), 52);
}

#[test]
fn test_card_creation() {
    let card = Card::new(10, Suit::Hearts);
    let parsed = parse_cards("\u{2665}X");
    assert_eq!(card, parsed[0]);
}

#[test]
fn test_shuffle() {
    let mut deck = Deck::new();
    let original_deck = deck.cards.clone();
    deck.shuffle();
    assert_ne!(deck.cards, original_deck);
}

#[test]
fn test_deal() {
    let mut deck = Deck::new();
    let _ = deck.deal();
    assert_eq!(deck.cards.len(), 51);
}

#[test]
fn new_deck_holds_every_card_once() {
    let deck = Deck::new();
    let suits = [Suit::Clubs, Suit::Diamonds, Suit::Hearts, Suit::Spades];
    for suit in suits {
        for rank in 2u8..=14 {
            let wanted = Card::new(rank, suit);
            let count = deck.cards.iter().filter(|c| **c == wanted).count();
            assert_eq!(count, 1, "{rank:?} of {suit:?} should appear exactly once");
        }
    }
}

#[test]
fn shuffled_deck_deals_all_cards_then_refills() {
    let mut deck = Deck::new();
    deck.shuffle();
    let mut dealt: Vec<Card> = Vec::new();
    for _ in 0..52 {
        dealt.push(deck.deal().expect("a full deck holds 52 cards"));
    }
    assert_eq!(deck.cards.len(), 0);
    assert_eq!(deck.deal(), Err(PokerError::DeckExhausted));
    let suits = [Suit::Clubs, Suit::Diamonds, Suit::Hearts, Suit::Spades];
    for suit in suits {
        for rank in 2u8..=14 {
            let wanted = Card::new(rank, suit);
            let count = dealt.iter().filter(|c| **c == wanted).count();
            assert_eq!(count, 1);
        }
    }
    deck.shuffle();
    assert_eq!(deck.cards.len(), 52);
}

#[test]
fn parse_cards_reads_rank_and_suit() {
    let cards = parse_cards("\u{2665}X;\u{2660}A;\u{2663}2;\u{2666}J");
    assert_eq!(
        cards,
        vec![
            Card::new(10, Suit::Hearts),
            Card::new(14, Suit::Spades),
            Card::new(2, Suit::Clubs),
            Card::new(11, Suit::Diamonds),
        ]
    );
}

#[test]
fn default_deck_is_full() {
    let deck = Deck::default();
    assert_eq!(deck.cards.len(), 52);
}
