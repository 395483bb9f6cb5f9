//! Rules engine for a multi-player shedding card game of the climbing
//! family: hands are singles, pairs, prials or five-card tricks, card
//! strength is given by a configurable ordering of ranks and suits, and a
//! four-of-a-kind trick may reverse that ordering mid-round.
//!
//! The crate provides the card value types, the hand classifier, the
//! strength comparator and the turn-taking round state machine, each with a
//! verified contract.

pub mod cards;
pub mod comparisons;
pub mod hands;
pub mod player;
pub mod round;
pub mod rulesets;

pub use cards::{Card, Colour, PlayedCard, Rank, Suit};
pub use cards::{get_rank_array, get_suit_array};
pub use comparisons::{compare_five_cards, compare_hands, sort_played_cards, sort_unplayed_cards};
pub use hands::{Hand, Trick, TrickType};
pub use player::{Player, PlayerError};
pub use round::{Round, SubmitError};
pub use rulesets::{FlushPrecedence, Ruleset};
