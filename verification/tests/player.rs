use pusoy::{Card, PlayedCard, Player, PlayerError, Rank, Suit};

fn thirteen_cards() -> Vec<Card> {
    vec![
        Card::Standard { rank: Rank::Three, suit: Suit::Clubs },
        Card::Standard { rank: Rank::Four, suit: Suit::Clubs },
        Card::Standard { rank: Rank::Five, suit: Suit::Clubs },
        Card::Standard { rank: Rank::Six, suit: Suit::Clubs },
        Card::Standard { rank: Rank::Seven, suit: Suit::Clubs },
        Card::Standard { rank: Rank::Eight, suit: Suit::Clubs },
        Card::Standard { rank: Rank::Nine, suit: Suit::Clubs },
        Card::Standard { rank: Rank::Ten, suit: Suit::Clubs },
        Card::Standard { rank: Rank::Jack, suit: Suit::Clubs },
        Card::Standard { rank: Rank::Queen, suit: Suit::Clubs },
        Card::Standard { rank: Rank::King, suit: Suit::Clubs },
        Card::Standard { rank: Rank::Ace, suit: Suit::Clubs },
        Card::Standard { rank: Rank::Two, suit: Suit::Clubs },
    ]
}

#[test]
fn it_has_an_id() {
    let id = "id1";
    let player = Player::new(String::from("id1"), vec![]);
    assert_eq!(player.get_id(), id);
}

#[test]
fn it_shows_number_of_cards_left() {
    let id = String::from("id1");
    let player = Player::new(id, thirteen_cards());
    assert_eq!(player.get_card_count(), 13);
}

#[test]
fn it_can_return_the_hand() {
    let id = String::from("id1");
    let player = Player::new(id, thirteen_cards());
    assert_eq!(player.get_hand().len(), 13);
}

#[test]
fn player_has_card() {
    let id = String::from("id1");
    let hand = vec![Card::Standard { rank: Rank::Three, suit: Suit::Clubs }];

    let three_clubs = Card::Standard { rank: Rank::Three, suit: Suit::Clubs };
    let four_clubs = Card::Standard { rank: Rank::Four, suit: Suit::Clubs };

    let player = Player::new(id, hand);

    assert!(player.has_card(&three_clubs));
    assert!(!player.has_card(&four_clubs));
}

#[test]
fn it_removes_played_cards_from_hand() {
    let id = String::from("id1");
    let hand = vec![
        Card::Standard { rank: Rank::Three, suit: Suit::Clubs },
        Card::Standard { rank: Rank::Six, suit: Suit::Clubs },
    ];

    let played_hand = vec![PlayedCard::new(Rank::Three, Suit::Clubs, false)];

    let remaining_hand = vec![Card::Standard { rank: Rank::Six, suit: Suit::Clubs }];

    let mut player = Player::new(id, hand);

    assert!(player.play_move(played_hand).is_ok());
    assert_eq!(player.get_hand(), remaining_hand);
}

#[test]
fn it_errors_if_player_tries_to_play_cards_they_dont_have() {
    let id = String::from("id1");
    let hand = vec![
        Card::Standard { rank: Rank::Three, suit: Suit::Clubs },
        Card::Standard { rank: Rank::Six, suit: Suit::Clubs },
    ];

    let played_hand = vec![PlayedCard::new(Rank::Five, Suit::Clubs, false)];

    let mut player = Player::new(id, hand);
    let err = player.play_move(played_hand).err().unwrap();

    assert_eq!(err, PlayerError::PlayerDoesntHaveCard);
}

#[test]
fn played_cards_returns_updated_player() {
    let id = String::from("id1");
    let hand = vec![
        Card::Standard { rank: Rank::Three, suit: Suit::Clubs },
        Card::Standard { rank: Rank::Six, suit: Suit::Clubs },
    ];

    let played_hand = vec![PlayedCard::new(Rank::Three, Suit::Clubs, false)];

    let remaining_hand = vec![Card::Standard { rank: Rank::Six, suit: Suit::Clubs }];

    let mut player = Player::new(id, hand);

    let new_player = player.play_move(played_hand).unwrap();

    assert_eq!(new_player.get_hand(), remaining_hand);
}

#[test]
fn cards_from_any_deck_can_be_played() {
    let id = String::from("id1");
    let hand = vec![
        Card::Standard { rank: Rank::Three, suit: Suit::Clubs },
        Card::Standard { rank: Rank::Six, suit: Suit::Clubs },
    ];

    let played_hand = vec![PlayedCard::new(Rank::Three, Suit::Clubs, false)];

    let mut player = Player::new(id, hand);

    let new_player = player.play_move(played_hand);

    assert!(new_player.is_ok());
}
