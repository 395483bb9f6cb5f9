use pusoy::{
    compare_hands, get_rank_array, get_suit_array, sort_unplayed_cards, Card, Hand, PlayedCard,
    Player, Rank, Round, Suit, SubmitError, Trick, TrickType,
};

#[test]
fn four_cards_never_classify() {
    let c = PlayedCard::new(Rank::Three, Suit::Clubs, false);
    assert_eq!(Hand::build(vec![c, c, c, c]), None);
    assert_eq!(Hand::build(vec![c, c, c, c, c, c]), None);
}

#[test]
fn five_unrelated_cards_never_classify() {
    let cards = vec![
        PlayedCard::new(Rank::Three, Suit::Clubs, false),
        PlayedCard::new(Rank::Five, Suit::Hearts, false),
        PlayedCard::new(Rank::Seven, Suit::Clubs, false),
        PlayedCard::new(Rank::Nine, Suit::Diamonds, false),
        PlayedCard::new(Rank::King, Suit::Spades, false),
    ];
    assert_eq!(Hand::build(cards), None);
}

#[test]
fn classification_ignores_submission_order() {
    let shuffled = vec![
        PlayedCard::new(Rank::Seven, Suit::Hearts, false),
        PlayedCard::new(Rank::Five, Suit::Clubs, false),
        PlayedCard::new(Rank::Three, Suit::Clubs, false),
        PlayedCard::new(Rank::Six, Suit::Hearts, false),
        PlayedCard::new(Rank::Four, Suit::Clubs, false),
    ];
    let mut sorted = shuffled.clone();
    sorted.sort_by_key(|c| (c.get_rank() as u8, c.get_suit() as u8));

    let h1 = Hand::build(shuffled).unwrap();
    let h2 = Hand::build(sorted).unwrap();

    assert_eq!(h1, h2);
    match h1 {
        Hand::FiveCardTrick(t) => assert_eq!(t.trick_type, TrickType::Straight),
        _ => panic!("expected a five-card trick"),
    }
}

#[test]
fn a_trick_never_beats_itself() {
    let cards = [
        PlayedCard::new(Rank::Three, Suit::Clubs, false),
        PlayedCard::new(Rank::Three, Suit::Hearts, false),
        PlayedCard::new(Rank::Three, Suit::Diamonds, false),
        PlayedCard::new(Rank::Four, Suit::Clubs, false),
        PlayedCard::new(Rank::Four, Suit::Hearts, false),
    ];
    let h = Hand::FiveCardTrick(Trick { trick_type: TrickType::FullHouse, cards });
    assert!(!compare_hands(h, h, get_suit_array(), get_rank_array()));
}

#[test]
fn a_rank_decided_comparison_flips_when_orders_reverse() {
    let low = Hand::Pair(
        PlayedCard::new(Rank::Five, Suit::Clubs, false),
        PlayedCard::new(Rank::Five, Suit::Hearts, false),
    );
    let high = Hand::Pair(
        PlayedCard::new(Rank::Nine, Suit::Clubs, false),
        PlayedCard::new(Rank::Nine, Suit::Hearts, false),
    );

    assert!(compare_hands(low, high, get_suit_array(), get_rank_array()));

    let mut reversed_suits = get_suit_array();
    let mut reversed_ranks = get_rank_array();
    reversed_suits.reverse();
    reversed_ranks.reverse();

    assert!(!compare_hands(low, high, reversed_suits, reversed_ranks));
    assert!(compare_hands(high, low, reversed_suits, reversed_ranks));
}

#[test]
fn submitting_the_same_move_twice_gives_identical_results() {
    let a_cards = vec![
        Card::Standard { rank: Rank::Three, suit: Suit::Clubs },
        Card::Standard { rank: Rank::Six, suit: Suit::Clubs },
    ];
    let b_cards = vec![Card::Standard { rank: Rank::Four, suit: Suit::Clubs }];
    let players = vec![
        Player::new("a".to_string(), a_cards),
        Player::new("b".to_string(), b_cards),
    ];
    let round = Round::new(players, None, None, None, get_suit_array(), get_rank_array(), true);

    let played = vec![PlayedCard::new(Rank::Three, Suit::Clubs, false)];
    let r1 = round.submit_move("a", played.clone()).unwrap();
    let r2 = round.submit_move("a", played).unwrap();

    assert_eq!(r1.get_next_player(), r2.get_next_player());
    assert_eq!(r1.get_last_move(), r2.get_last_move());
    assert_eq!(r1.get_last_player(), r2.get_last_player());
    assert_eq!(r1.get_suit_order(), r2.get_suit_order());
    assert_eq!(r1.get_rank_order(), r2.get_rank_order());
    assert_eq!(
        r1.get_player("a").unwrap().get_hand(),
        r2.get_player("a").unwrap().get_hand()
    );
    assert_eq!(
        r1.get_player("b").unwrap().get_hand(),
        r2.get_player("b").unwrap().get_hand()
    );
}

#[test]
fn a_fresh_round_must_open_with_the_lowest_card() {
    let a_cards = vec![
        Card::Standard { rank: Rank::Three, suit: Suit::Clubs },
        Card::Standard { rank: Rank::Six, suit: Suit::Clubs },
    ];
    let b_cards = vec![Card::Standard { rank: Rank::Four, suit: Suit::Clubs }];
    let players = vec![
        Player::new("a".to_string(), a_cards),
        Player::new("b".to_string(), b_cards),
    ];
    let round = Round::new(players, None, None, None, get_suit_array(), get_rank_array(), true);

    assert_eq!(round.get_next_player(), Some("a".to_string()));
    assert_eq!(round.submit_move("a", vec![]).err().unwrap(), SubmitError::FirstRoundPass);
    assert_eq!(
        round
            .submit_move("a", vec![PlayedCard::new(Rank::Six, Suit::Clubs, false)])
            .err()
            .unwrap(),
        SubmitError::FirstHandMustContainLowestCard
    );

    let opened = round
        .submit_move("a", vec![PlayedCard::new(Rank::Three, Suit::Clubs, false)])
        .unwrap();
    assert_eq!(
        opened.get_last_move(),
        Some(Hand::Single(PlayedCard::new(Rank::Three, Suit::Clubs, false)))
    );
    assert_eq!(opened.get_next_player(), Some("b".to_string()));
}

#[test]
fn a_pair_never_answers_a_single() {
    let a_cards = vec![
        Card::Standard { rank: Rank::Three, suit: Suit::Clubs },
        Card::Standard { rank: Rank::Three, suit: Suit::Clubs },
    ];
    let b_cards = vec![Card::Standard { rank: Rank::Four, suit: Suit::Clubs }];
    let players = vec![
        Player::new("a".to_string(), a_cards),
        Player::new("b".to_string(), b_cards),
    ];
    let last_move = Some(Hand::Single(PlayedCard::new(Rank::Three, Suit::Clubs, false)));
    let round = Round::new(
        players,
        Some("a".to_string()),
        last_move,
        None,
        get_suit_array(),
        get_rank_array(),
        true,
    );

    let err = round
        .submit_move(
            "a",
            vec![
                PlayedCard::new(Rank::Three, Suit::Clubs, false),
                PlayedCard::new(Rank::Three, Suit::Clubs, false),
            ],
        )
        .err()
        .unwrap();
    assert_eq!(err, SubmitError::HandNotHighEnough);
}

#[test]
fn an_uncontested_pair_comes_back_and_clears_the_table() {
    let a_cards = vec![Card::Standard { rank: Rank::Four, suit: Suit::Clubs }];
    let b_cards = vec![
        Card::Standard { rank: Rank::Five, suit: Suit::Clubs },
        Card::Standard { rank: Rank::Five, suit: Suit::Hearts },
    ];
    let c_cards = vec![Card::Standard { rank: Rank::Six, suit: Suit::Clubs }];
    let players = vec![
        Player::new("a".to_string(), a_cards),
        Player::new("b".to_string(), b_cards),
        Player::new("c".to_string(), c_cards),
    ];
    let last_move = Some(Hand::Pair(
        PlayedCard::new(Rank::Three, Suit::Clubs, false),
        PlayedCard::new(Rank::Three, Suit::Hearts, false),
    ));
    let round = Round::new(
        players,
        Some("a".to_string()),
        last_move,
        Some("b".to_string()),
        get_suit_array(),
        get_rank_array(),
        true,
    );

    // Seat A passes; rotation lands on B, the last player, with nobody
    // acting in between: the table clears and B may lead any shape.
    let cleared = round.submit_move("a", vec![]).unwrap();
    assert_eq!(cleared.get_last_move(), Some(Hand::Pass));
    assert_eq!(cleared.get_next_player(), Some("b".to_string()));

    let lead = cleared
        .submit_move("b", vec![PlayedCard::new(Rank::Five, Suit::Clubs, false)])
        .unwrap();
    assert_eq!(
        lead.get_last_move(),
        Some(Hand::Single(PlayedCard::new(Rank::Five, Suit::Clubs, false)))
    );
}

#[test]
fn the_joker_sorts_above_every_standard_card() {
    let hand = vec![
        Card::Standard { rank: Rank::Two, suit: Suit::Spades },
        Card::Joker,
        Card::Standard { rank: Rank::Three, suit: Suit::Clubs },
    ];

    let sorted = sort_unplayed_cards(&hand, get_suit_array(), get_rank_array());

    assert_eq!(
        sorted,
        vec![
            Card::Joker,
            Card::Standard { rank: Rank::Two, suit: Suit::Spades },
            Card::Standard { rank: Rank::Three, suit: Suit::Clubs },
        ]
    );
}

#[test]
fn a_two_player_round_plays_out_to_the_end() {
    let a_cards = vec![
        Card::Standard { rank: Rank::Three, suit: Suit::Clubs },
        Card::Standard { rank: Rank::Five, suit: Suit::Clubs },
    ];
    let b_cards = vec![
        Card::Standard { rank: Rank::Four, suit: Suit::Clubs },
        Card::Standard { rank: Rank::Six, suit: Suit::Clubs },
    ];
    let players = vec![
        Player::new("a".to_string(), a_cards),
        Player::new("b".to_string(), b_cards),
    ];
    let round = Round::new(players, None, None, None, get_suit_array(), get_rank_array(), false);

    // A opens with the lowest card; B answers; A beats it with its last
    // card and empties its hand. Fewer than two players then hold cards,
    // so the round is over and no further turn exists.
    let r1 = round
        .submit_move("a", vec![PlayedCard::new(Rank::Three, Suit::Clubs, false)])
        .unwrap();
    assert_eq!(r1.get_next_player(), Some("b".to_string()));

    let r2 = r1
        .submit_move("b", vec![PlayedCard::new(Rank::Four, Suit::Clubs, false)])
        .unwrap();
    assert_eq!(r2.get_next_player(), Some("a".to_string()));

    let r3 = r2
        .submit_move("a", vec![PlayedCard::new(Rank::Five, Suit::Clubs, false)])
        .unwrap();

    assert_eq!(r3.get_player("a").unwrap().get_card_count(), 0);
    assert_eq!(r3.get_player("b").unwrap().get_card_count(), 1);
    assert_eq!(r3.get_next_player(), None);
    assert_eq!(
        r3.submit_move("b", vec![PlayedCard::new(Rank::Six, Suit::Clubs, false)])
            .err()
            .unwrap(),
        SubmitError::NotCurrentPlayer
    );
}

#[test]
fn a_wildcard_pair_counts_by_its_committed_rank() {
    let joker_three = PlayedCard::new(Rank::Three, Suit::Hearts, true);
    let three = PlayedCard::new(Rank::Three, Suit::Clubs, false);

    let hand = Hand::build(vec![three, joker_three]);
    assert_eq!(hand.unwrap(), Hand::Pair(three, joker_three));
}
