//! Card value types: ranks, suits, physical cards and played cards.
//!
//! The thirteen ranks carry a fixed canonical progression (Three is the
//! canonical first rank, Two the canonical last) that is used for shape
//! detection only; the strength of a card during play is decided by the
//! mutable rank and suit orderings owned by the round.

use vstd::prelude::*;

verus! {

/// The colour of a suit.
#[derive(Clone, Copy, Debug, PartialEq, Eq, Structural)]
pub enum Colour {
    Red,
    Black,
}

/// One of the four suits.
#[derive(Clone, Copy, Debug, Hash, PartialEq, Eq, Structural)]
pub enum Suit {
    Clubs,
    Hearts,
    Diamonds,
    Spades,
}

/// One of the thirteen ranks, in canonical order: Three is the canonical
/// first rank and Two the canonical last.
#[derive(Clone, Copy, Debug, Hash, PartialEq, Eq, Structural)]
pub enum Rank {
    Three,
    Four,
    Five,
    Six,
    Seven,
    Eight,
    Nine,
    Ten,
    Jack,
    Queen,
    King,
    Ace,
    Two,
}

/// Position of a rank in the canonical progression, from 0 (Three) to
/// 12 (Two).
pub open spec fn rank_idx(r: Rank) -> int {
    match r {
        Rank::Three => 0,
        Rank::Four => 1,
        Rank::Five => 2,
        Rank::Six => 3,
        Rank::Seven => 4,
        Rank::Eight => 5,
        Rank::Nine => 6,
        Rank::Ten => 7,
        Rank::Jack => 8,
        Rank::Queen => 9,
        Rank::King => 10,
        Rank::Ace => 11,
        Rank::Two => 12,
    }
}

/// Position of a suit in the canonical order Clubs, Hearts, Diamonds,
/// Spades.
pub open spec fn suit_idx(s: Suit) -> int {
    match s {
        Suit::Clubs => 0,
        Suit::Hearts => 1,
        Suit::Diamonds => 2,
        Suit::Spades => 3,
    }
}

/// Canonical position of a rank, as an executable value.
pub fn rank_index(r: Rank) -> (i: u8)
    ensures
        i as int == rank_idx(r),
{
    match r {
        Rank::Three => 0,
        Rank::Four => 1,
        Rank::Five => 2,
        Rank::Six => 3,
        Rank::Seven => 4,
        Rank::Eight => 5,
        Rank::Nine => 6,
        Rank::Ten => 7,
        Rank::Jack => 8,
        Rank::Queen => 9,
        Rank::King => 10,
        Rank::Ace => 11,
        Rank::Two => 12,
    }
}

/// Canonical position of a suit, as an executable value.
pub fn suit_index(s: Suit) -> (i: u8)
    ensures
        i as int == suit_idx(s),
{
    match s {
        Suit::Clubs => 0,
        Suit::Hearts => 1,
        Suit::Diamonds => 2,
        Suit::Spades => 3,
    }
}

impl Suit {
    /// Clubs and Spades are black; Hearts and Diamonds are red.
    pub fn colour(&self) -> (c: Colour)
        ensures
            c == (match *self {
                Suit::Clubs | Suit::Spades => Colour::Black,
                Suit::Hearts | Suit::Diamonds => Colour::Red,
            }),
    {
        match *self {
            Suit::Clubs | Suit::Spades => Colour::Black,
            Suit::Hearts | Suit::Diamonds => Colour::Red,
        }
    }
}

/// The four suits in canonical order.
pub open spec fn spec_suit_array() -> Seq<Suit> {
    seq![Suit::Clubs, Suit::Hearts, Suit::Diamonds, Suit::Spades]
}

/// The thirteen ranks in canonical order.
pub open spec fn spec_rank_array() -> Seq<Rank> {
    seq![
        Rank::Three,
        Rank::Four,
        Rank::Five,
        Rank::Six,
        Rank::Seven,
        Rank::Eight,
        Rank::Nine,
        Rank::Ten,
        Rank::Jack,
        Rank::Queen,
        Rank::King,
        Rank::Ace,
        Rank::Two,
    ]
}

/// The suits in canonical order: the default suit ordering of a round.
pub fn get_suit_array() -> (a: [Suit; 4])
    ensures
        a@ == spec_suit_array(),
{
    let a = [Suit::Clubs, Suit::Hearts, Suit::Diamonds, Suit::Spades];
    proof {
        assert(a@ =~= spec_suit_array());
    }
    a
}

/// The ranks in canonical order: the default rank ordering of a round.
pub fn get_rank_array() -> (a: [Rank; 13])
    ensures
        a@ == spec_rank_array(),
{
    let a = [
        Rank::Three,
        Rank::Four,
        Rank::Five,
        Rank::Six,
        Rank::Seven,
        Rank::Eight,
        Rank::Nine,
        Rank::Ten,
        Rank::Jack,
        Rank::Queen,
        Rank::King,
        Rank::Ace,
        Rank::Two,
    ];
    proof {
        assert(a@ =~= spec_rank_array());
    }
    a
}

/// The identity of a physical card: a rank and a suit, or the Joker.
///
/// Which physical deck a card came from is never significant: two cards are
/// the same for all game logic exactly when rank and suit match, or both
/// are the Joker.
#[derive(Clone, Copy, Debug, PartialEq, Eq, Structural)]
pub enum Card {
    Joker,
    Standard { rank: Rank, suit: Suit },
}

impl Card {
    /// The rank of a standard card; the Joker has none.
    pub fn get_rank(&self) -> (r: Option<Rank>)
        ensures
            r == (match *self {
                Card::Standard { rank, .. } => Some(rank),
                Card::Joker => None::<Rank>,
            }),
    {
        match *self {
            Card::Standard { rank, .. } => Some(rank),
            _ => None,
        }
    }

    /// The suit of a standard card; the Joker has none.
    pub fn get_suit(&self) -> (s: Option<Suit>)
        ensures
            s == (match *self {
                Card::Standard { suit, .. } => Some(suit),
                Card::Joker => None::<Suit>,
            }),
    {
        match *self {
            Card::Standard { suit, .. } => Some(suit),
            _ => None,
        }
    }
}

/// A card as committed to the table: it always carries a concrete rank and
/// suit, and the `is_joker` flag, not the rank or suit, distinguishes a
/// wildcard play.
#[derive(Clone, Copy, Debug, PartialEq, Eq, Structural)]
pub struct PlayedCard {
    pub rank: Rank,
    pub suit: Suit,
    pub is_joker: bool,
}

impl PlayedCard {
    /// Commit a card to the table under the given rank and suit.
    pub fn new(rank: Rank, suit: Suit, is_joker: bool) -> (c: PlayedCard)
        ensures
            c == (PlayedCard { rank, suit, is_joker }),
    {
        PlayedCard { rank, suit, is_joker }
    }

    pub fn get_rank(&self) -> (r: Rank)
        ensures
            r == self.rank,
    {
        self.rank
    }

    pub fn get_suit(&self) -> (s: Suit)
        ensures
            s == self.suit,
    {
        self.suit
    }

    pub fn get_is_joker(&self) -> (j: bool)
        ensures
            j == self.is_joker,
    {
        self.is_joker
    }

    /// The physical card this play stands for: the Joker when the play is a
    /// wildcard, otherwise the standard card of the same rank and suit.
    pub open spec fn spec_to_card(self) -> Card {
        if self.is_joker {
            Card::Joker
        } else {
            Card::Standard { rank: self.rank, suit: self.suit }
        }
    }

    /// Convert back to a physical card, forgetting the rank and suit a
    /// wildcard play was committed under.
    pub fn to_card(&self) -> (c: Card)
        ensures
            c == self.spec_to_card(),
    {
        if self.is_joker {
            Card::Joker
        } else {
            Card::Standard { rank: self.rank, suit: self.suit }
        }
    }
}

} // verus!

