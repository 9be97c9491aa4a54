use poker::card::parse_cards;
use poker::hand_rank::HandRank;
use poker::PokerError;

#[test]
fn test_card_type() {
    assert_eq!(
        HandRank::from_cards_str("\u{2665}X;\u{2665}J;\u{2665}Q;\u{2665}K;\u{2665}A"),
        Ok(HandRank::RoyalFlush)
    );
    assert_eq!(
        HandRank::from_cards_str("\u{2665}9;\u{2665}X;\u{2665}J;\u{2665}Q;\u{2665}K"),
        Ok(HandRank::StraightFlush(13))
    );
    assert_eq!(
        HandRank::from_cards_str("\u{2665}9;\u{2660}9;\u{2666}9;\u{2663}9;\u{2665}K"),
        Ok(HandRank::FourOfAKind(9, 13))
    );
    assert_eq!(
        HandRank::from_cards_str("\u{2665}9;\u{2660}9;\u{2666}9;\u{2663}K;\u{2665}K"),
        Ok(HandRank::FullHouse(9, 13))
    );
    assert_eq!(
        HandRank::from_cards_str("\u{2665}2;\u{2665}5;\u{2665}7;\u{2665}9;\u{2665}K"),
        Ok(HandRank::Flush(13, 9, 7, 5, 2))
    );
    assert_eq!(
        HandRank::from_cards_str("\u{2665}9;\u{2665}X;\u{2660}J;\u{2665}Q;\u{2666}K"),
        Ok(HandRank::Straight(13))
    );
    assert_eq!(
        HandRank::from_cards_str("\u{2665}2;\u{2665}A;\u{2660}3;\u{2665}4;\u{2665}5"),
        Ok(HandRank::Straight(5))
    );
    assert_eq!(
        HandRank::from_cards_str("\u{2665}7;\u{2660}2;\u{2666}2;\u{2663}2;\u{2665}K"),
        Ok(HandRank::ThreeOfAKind(2, 13, 7))
    );
    assert_eq!(
        HandRank::from_cards_str("\u{2665}7;\u{2660}2;\u{2666}2;\u{2665}7;\u{2665}K"),
        Ok(HandRank::TwoPair(7, 2, 13))
    );
    assert_eq!(
        HandRank::from_cards_str("\u{2665}7;\u{2660}2;\u{2666}2;\u{2665}8;\u{2665}K"),
        Ok(HandRank::OnePair(2, 13, 8, 7))
    );
    assert_eq!(
        HandRank::from_cards_str("\u{2665}7;\u{2660}2;\u{2666}4;\u{2665}8;\u{2666}K"),
        Ok(HandRank::HighCard(13, 8, 7, 4, 2))
    );
}

#[test]
fn test_rank() {
    let ranks = [
        "\u{2665}X;\u{2665}J;\u{2665}Q;\u{2665}K;\u{2665}A",
        "\u{2666}7;\u{2666}8;\u{2666}9;\u{2666}X;\u{2666}J",
        "\u{2665}2;\u{2665}3;\u{2665}4;\u{2665}5;\u{2665}6",
        "\u{2660}A;\u{2665}A;\u{2666}A;\u{2663}A;\u{2660}2",
        "\u{2660}3;\u{2665}3;\u{2666}3;\u{2663}3;\u{2660}5",
        "\u{2660}A;\u{2665}A;\u{2666}A;\u{2663}K;\u{2660}K",
        "\u{2665}2;\u{2660}2;\u{2666}2;\u{2660}5;\u{2665}5",
        "\u{2660}A;\u{2660}2;\u{2660}4;\u{2660}7;\u{2660}K",
        "\u{2666}9;\u{2666}Q;\u{2666}K;\u{2666}2;\u{2666}X",
        "\u{2665}3;\u{2665}5;\u{2665}6;\u{2665}8;\u{2665}J",
        "\u{2660}X;\u{2665}J;\u{2666}Q;\u{2663}K;\u{2666}A",
        "\u{2660}5;\u{2665}6;\u{2666}7;\u{2663}8;\u{2660}9",
        "\u{2666}A;\u{2660}2;\u{2665}3;\u{2660}4;\u{2666}5",
        "\u{2660}A;\u{2665}A;\u{2666}A;\u{2663}5;\u{2660}8",
        "\u{2665}K;\u{2666}K;\u{2660}K;\u{2663}A;\u{2665}Q",
        "\u{2660}K;\u{2665}K;\u{2666}K;\u{2663}7;\u{2665}9",
        "\u{2660}A;\u{2665}A;\u{2666}J;\u{2663}J;\u{2660}5",
        "\u{2660}Q;\u{2666}Q;\u{2660}7;\u{2665}7;\u{2660}3",
        "\u{2665}Q;\u{2660}Q;\u{2666}3;\u{2663}3;\u{2665}X",
        "\u{2660}A;\u{2665}A;\u{2660}K;\u{2663}3;\u{2666}2",
        "\u{2663}K;\u{2666}K;\u{2660}9;\u{2665}5;\u{2660}7",
        "\u{2665}Q;\u{2660}Q;\u{2666}A;\u{2660}4;\u{2665}2",
        "\u{2665}A;\u{2666}K;\u{2660}9;\u{2663}8;\u{2665}6",
        "\u{2660}A;\u{2665}7;\u{2666}3;\u{2663}4;\u{2660}5",
        "\u{2660}K;\u{2666}2;\u{2660}J;\u{2665}X;\u{2666}7",
    ];

    let mut i = 0;
    while i < ranks.len() - 1 {
        assert!(
            HandRank::from_cards_str(ranks[i]).unwrap()
                > HandRank::from_cards_str(ranks[i + 1]).unwrap(),
            "Assertion failed at index {}: {:?} is not greater than {:?}",
            i,
            ranks[i],
            ranks[i + 1]
        );
        i += 1;
    }
}

#[test]
fn category_order_is_standard() {
    let high_card = HandRank::HighCard(14, 13, 12, 11, 9);
    let one_pair = HandRank::OnePair(2, 5, 4, 3);
    let two_pair = HandRank::TwoPair(3, 2, 4);
    let trips = HandRank::ThreeOfAKind(2, 4, 3);
    let straight = HandRank::Straight(5);
    let flush = HandRank::Flush(7, 5, 4, 3, 2);
    let full_house = HandRank::FullHouse(2, 3);
    let quads = HandRank::FourOfAKind(2, 3);
    let straight_flush = HandRank::StraightFlush(5);
    let royal = HandRank::RoyalFlush;
    assert!(one_pair > high_card);
    assert!(two_pair > one_pair);
    assert!(trips > two_pair);
    assert!(straight > trips);
    assert!(flush > straight);
    assert!(full_house > flush);
    assert!(quads > full_house);
    assert!(straight_flush > quads);
    assert!(royal > straight_flush);
}

#[test]
fn wheel_ranks_as_five_high() {
    let wheel = HandRank::from_cards_str("\u{2665}2;\u{2665}A;\u{2660}3;\u{2665}4;\u{2665}5");
    assert_eq!(wheel, Ok(HandRank::Straight(5)));
    let six_high = HandRank::from_cards_str("\u{2660}2;\u{2665}3;\u{2666}4;\u{2663}5;\u{2660}6");
    assert_eq!(six_high, Ok(HandRank::Straight(6)));
    assert!(wheel.unwrap() < six_high.unwrap());

    let wheel_flush = HandRank::from_cards_str("\u{2665}2;\u{2665}A;\u{2665}3;\u{2665}4;\u{2665}5");
    assert_eq!(wheel_flush, Ok(HandRank::StraightFlush(5)));
    let six_flush = HandRank::from_cards_str("\u{2665}2;\u{2665}3;\u{2665}4;\u{2665}5;\u{2665}6");
    assert_eq!(six_flush, Ok(HandRank::StraightFlush(6)));
    assert!(wheel_flush.unwrap() < six_flush.unwrap());
    assert!(six_flush.unwrap() < HandRank::RoyalFlush);
}

#[test]
fn too_few_cards_is_an_error() {
    assert_eq!(
        HandRank::from_cards_str("\u{2665}2;\u{2665}3;\u{2665}4;\u{2665}5"),
        Err(PokerError::InsufficientCards)
    );
    let four = parse_cards("\u{2665}2;\u{2665}3;\u{2665}4;\u{2665}5");
    assert_eq!(HandRank::from_cards(&four), Err(PokerError::InsufficientCards));
}

#[test]
fn from_cards_matches_notation() {
    let cards = parse_cards("\u{2665}9;\u{2660}9;\u{2666}9;\u{2663}9;\u{2665}K");
    assert_eq!(HandRank::from_cards(&cards), Ok(HandRank::FourOfAKind(9, 13)));
}
