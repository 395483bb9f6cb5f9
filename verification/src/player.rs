//! A participant in a round: a stable identifier and the multiset of
//! cards still held, with the card-removal operation used when the round
//! accepts that player's move.

use vstd::prelude::*;

use crate::cards::{Card, PlayedCard};

verus! {

/// A rejected card-removal: the player does not hold a requested card.
#[derive(Debug, PartialEq, Eq, Structural)]
pub enum PlayerError {
    PlayerDoesntHaveCard,
}

/// The mathematical content of a player: its identifier and holding.
pub ghost struct PlayerV {
    pub id: Seq<char>,
    pub hand: Seq<Card>,
}

/// A participant and the cards it still holds. Duplicate cards are
/// permitted by design, since multiple physical decks may share rank and
/// suit.
#[derive(Clone, Debug)]
pub struct Player {
    pub id: String,
    pub hand: Vec<Card>,
}

impl View for Player {
    type V = PlayerV;

    open spec fn view(&self) -> PlayerV {
        PlayerV { id: self.id@, hand: self.hand@ }
    }
}

/// First position of a card in a holding; the holding's length when it
/// is absent.
pub open spec fn pos_in_cards(hand: Seq<Card>, c: Card) -> int
    decreases hand.len(),
{
    if hand.len() == 0 {
        0
    } else if hand[0] == c {
        0
    } else {
        1 + pos_in_cards(hand.drop_first(), c)
    }
}

/// `pos_in_cards` names the first occurrence of a card, or the length
/// when the card is absent.
pub proof fn lemma_pos_in_cards(hand: Seq<Card>, c: Card)
    ensures
        hand.contains(c) ==> {
            let p = pos_in_cards(hand, c);
            &&& 0 <= p < hand.len()
            &&& hand[p] == c
            &&& forall|k: int| 0 <= k < p ==> hand[k] != c
        },
        !hand.contains(c) ==> pos_in_cards(hand, c) == hand.len(),
    decreases hand.len(),
{
    if hand.len() > 0 && hand[0] != c {
        let d = hand.drop_first();
        lemma_pos_in_cards(d, c);
        assert(forall|i: int| 0 <= i < d.len() ==> #[trigger] d[i] == hand[i + 1]);
        if hand.contains(c) {
            let w = choose|i: int| 0 <= i < hand.len() && hand[i] == c;
            assert(d[w - 1] == c);
            assert(d.contains(c));
            let p = pos_in_cards(hand, c);
            let pd = pos_in_cards(d, c);
            assert(hand[p] == d[pd]);
            assert forall|k: int| 0 <= k < p implies hand[k] != c by {
                if k >= 1 {
                    assert(d[k - 1] != c);
                }
            }
        } else {
            assert(!d.contains(c)) by {
                if d.contains(c) {
                    let w = choose|i: int| 0 <= i < d.len() && d[i] == c;
                    assert(hand[w + 1] == c);
                }
            }
        }
    }
}

/// The holding after removing each played card one-for-one, first
/// occurrence first; nothing when some requested card is not present.
/// A play matches the physical card it stands for: rank and suit decide,
/// and a wildcard play matches only the Joker.
pub open spec fn spec_remove_cards(hand: Seq<Card>, plays: Seq<PlayedCard>) -> Option<Seq<Card>>
    decreases plays.len(),
{
    if plays.len() == 0 {
        Some(hand)
    } else {
        let c = plays[0].spec_to_card();
        if hand.contains(c) {
            spec_remove_cards(hand.remove(pos_in_cards(hand, c)), plays.drop_first())
        } else {
            None
        }
    }
}

/// A successful removal takes exactly one card out of the holding for
/// each played card.
pub proof fn lemma_remove_cards_len(hand: Seq<Card>, plays: Seq<PlayedCard>)
    ensures
        spec_remove_cards(hand, plays) matches Some(h) ==> h.len() == hand.len() - plays.len(),
    decreases plays.len(),
{
    if plays.len() > 0 {
        let c = plays[0].spec_to_card();
        if hand.contains(c) {
            lemma_pos_in_cards(hand, c);
            lemma_remove_cards_len(hand.remove(pos_in_cards(hand, c)), plays.drop_first());
        }
    }
}

impl Player {
    /// Create a player with a dealt holding.
    pub fn new(id: String, hand: Vec<Card>) -> (p: Player)
        ensures
            p@.id == id@,
            p@.hand == hand@,
    {
        Player { id, hand }
    }

    pub fn get_id(&self) -> (r: &str)
        ensures
            r@ == self@.id,
    {
        self.id.as_str()
    }

    /// A copy of the player's current holding.
    pub fn get_hand(&self) -> (h: Vec<Card>)
        ensures
            h@ == self@.hand,
    {
        self.hand.clone()
    }

    /// How many cards the player still holds.
    pub fn get_card_count(&self) -> (n: usize)
        ensures
            n == self@.hand.len(),
    {
        self.hand.len()
    }

    /// Does the player hold this card? Lookup is by the card's identity
    /// alone.
    pub fn has_card(&self, card: &Card) -> (r: bool)
        ensures
            r == self@.hand.contains(*card),
    {
        let mut i: usize = 0;
        while i < self.hand.len()
            invariant
                0 <= i <= self@.hand.len(),
                forall|k: int| 0 <= k < i ==> self@.hand[k] != *card,
            decreases self@.hand.len() - i,
        {
            if self.hand[i] == *card {
                return true;
            }
            i = i + 1;
        }
        false
    }

    /// An exact copy of this player.
    pub(crate) fn duplicate(&self) -> (p: Player)
        ensures
            p@ == self@,
    {
        Player { id: self.id.clone(), hand: self.hand.clone() }
    }

    /// Remove the played cards from the holding, one-for-one by card
    /// identity, and return the updated player. The removal is
    /// all-or-nothing: when some requested card is not present, the
    /// holding is left unchanged and `PlayerDoesntHaveCard` comes back.
    pub fn play_move(&mut self, cards: Vec<PlayedCard>) -> (r: Result<Player, PlayerError>)
        ensures
            old(self)@.id == final(self)@.id,
            match spec_remove_cards(old(self)@.hand, cards@) {
                Some(h) => {
                    &&& final(self)@.hand == h
                    &&& final(self)@.hand.len() == old(self)@.hand.len() - cards@.len()
                    &&& r matches Ok(p) && p@ == final(self)@
                },
                None => {
                    &&& final(self)@.hand == old(self)@.hand
                    &&& r == Err::<Player, PlayerError>(PlayerError::PlayerDoesntHaveCard)
                },
            },
    {
        let mut work: Vec<Card> = self.hand.clone();
        let mut i: usize = 0;
        proof {
            assert(cards@.skip(0) =~= cards@);
        }
        while i < cards.len()
            invariant
                0 <= i <= cards@.len(),
                spec_remove_cards(self@.hand, cards@) == spec_remove_cards(
                    work@,
                    cards@.skip(i as int),
                ),
            decreases cards@.len() - i,
        {
            let c = cards[i].to_card();
            proof {
                assert(cards@.skip(i as int)[0] == cards@[i as int]);
                assert(cards@.skip(i as int).drop_first() =~= cards@.skip(i as int + 1));
                lemma_pos_in_cards(work@, c);
            }
            let mut j: usize = 0;
            let mut found: bool = false;
            while j < work.len() && !found
                invariant
                    0 <= j <= work@.len(),
                    found ==> j < work@.len() && work@[j as int] == c && forall|k: int|
                        0 <= k < j ==> work@[k] != c,
                    !found ==> forall|k: int| 0 <= k < j ==> work@[k] != c,
                decreases work@.len() - j + (if found {
                    0int
                } else {
                    1int
                }),
            {
                if work[j] == c {
                    found = true;
                } else {
                    j = j + 1;
                }
            }
            if !found {
                proof {
                    assert(!work@.contains(c)) by {
                        if work@.contains(c) {
                            let w = choose|k: int| 0 <= k < work@.len() && work@[k] == c;
                        }
                    }
                }
                return Err(PlayerError::PlayerDoesntHaveCard);
            }
            proof {
                assert(work@.contains(c));
                assert(j as int == pos_in_cards(work@, c));
            }
            work.remove(j);
            i = i + 1;
        }
        proof {
            assert(cards@.skip(cards@.len() as int).len() == 0);
            lemma_remove_cards_len(self@.hand, cards@);
        }
        self.hand = work;
        let p = self.duplicate();
        Ok(p)
    }
}

} // verus!
