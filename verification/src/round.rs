//! The turn-taking state machine of one round of play.
//!
//! A round owns the per-player hands, whose turn comes next, the last
//! accepted move and its player, and the current strength orderings. It is
//! an immutable value: submitting a move never changes the round it was
//! submitted to, but yields a successor round or a typed rejection.

use vstd::prelude::*;

use crate::cards::{Card, PlayedCard, Rank, Suit};
use crate::comparisons::{
    compare_hands, is_rank_permutation, is_suit_permutation, spec_beats,
};
use crate::hands::{hand_wf, spec_build, Hand, Trick, TrickType};
use crate::player::{Player, PlayerV};

verus! {

broadcast use vstd::seq_lib::group_to_multiset_ensures, vstd::array::group_array_axioms;

/// A rejected move, surfaced from `submit_move`; the round is unchanged.
#[derive(Debug, PartialEq, Eq, Structural)]
pub enum SubmitError {
    /// the round has no history and the player passed
    FirstRoundPass,
    /// the opening hand omits the globally weakest card
    FirstHandMustContainLowestCard,
    /// the candidate hand fails the beat check against a live last move
    HandNotHighEnough,
    /// the wrong seat acted
    NotCurrentPlayer,
    /// the submitted cards classify into no legal shape
    InvalidHand,
    /// the acting player does not hold all submitted cards
    PlayerDoesntHaveCard,
}

/// The mathematical content of a round.
pub ghost struct RoundV {
    pub players: Seq<PlayerV>,
    pub next_player: Option<Seq<char>>,
    pub last_move: Option<Hand>,
    pub last_player: Option<Seq<char>>,
    pub suit_order: Seq<Suit>,
    pub rank_order: Seq<Rank>,
    pub reversals_enabled: bool,
}

/// The mathematical contents of a seated player list.
pub open spec fn views_of(players: Seq<Player>) -> Seq<PlayerV> {
    players.map_values(|p: Player| p@)
}

/// The content of an optional identifier.
pub open spec fn opt_str_view(o: Option<String>) -> Option<Seq<char>> {
    match o {
        Some(s) => Some(s@),
        None => None,
    }
}

/// An optional identifier stands for an optional content.
pub open spec fn option_id_matches(r: Option<String>, v: Option<Seq<char>>) -> bool {
    match (r, v) {
        (Some(s), Some(id)) => s@ == id,
        (None, None) => true,
        _ => false,
    }
}

/// Does a player still hold any cards?
pub open spec fn player_has_cards(p: PlayerV) -> bool {
    p.hand.len() > 0
}

/// `player_has_cards` as a predicate value, for use with filtering.
pub open spec fn still_in_pred() -> spec_fn(PlayerV) -> bool {
    |p: PlayerV| player_has_cards(p)
}

/// How many players still hold any cards.
pub open spec fn players_still_in(players: Seq<PlayerV>) -> int {
    players.filter(still_in_pred()).len() as int
}

/// Counting the players still in grows one prefix step at a time.
proof fn lemma_still_in_take_step(m: Seq<PlayerV>, i: int)
    requires
        0 <= i < m.len(),
    ensures
        players_still_in(m.take(i + 1)) == players_still_in(m.take(i)) + (if m[i].hand.len() > 0 {
            1int
        } else {
            0int
        }),
{
    reveal(Seq::filter);
    let t1 = m.take(i + 1);
    assert(t1.drop_last() =~= m.take(i));
    assert(t1.last() == m[i]);
    assert(t1.filter(still_in_pred()) == (if player_has_cards(m[i]) {
        m.take(i).filter(still_in_pred()).push(m[i])
    } else {
        m.take(i).filter(still_in_pred())
    }));
}

/// First seat whose player carries this identifier; the seat count when
/// no player does.
pub open spec fn player_index(players: Seq<PlayerV>, id: Seq<char>) -> int
    decreases players.len(),
{
    if players.len() == 0 {
        0
    } else if players[0].id == id {
        0
    } else {
        1 + player_index(players.drop_first(), id)
    }
}

/// Is some seated player carrying this identifier?
pub open spec fn has_player(players: Seq<PlayerV>, id: Seq<char>) -> bool {
    exists|i: int| 0 <= i < players.len() && (#[trigger] players[i]).id == id
}

/// `player_index` names the first seat with the identifier, or the seat
/// count when no player carries it.
pub proof fn lemma_player_index(players: Seq<PlayerV>, id: Seq<char>)
    ensures
        has_player(players, id) ==> {
            let p = player_index(players, id);
            &&& 0 <= p < players.len()
            &&& players[p].id == id
            &&& forall|k: int| 0 <= k < p ==> (#[trigger] players[k]).id != id
        },
        !has_player(players, id) ==> player_index(players, id) == players.len(),
    decreases players.len(),
{
    if players.len() > 0 && players[0].id != id {
        let d = players.drop_first();
        lemma_player_index(d, id);
        assert(forall|i: int| 0 <= i < d.len() ==> #[trigger] d[i] == players[i + 1]);
        if has_player(players, id) {
            let w = choose|i: int| 0 <= i < players.len() && (#[trigger] players[i]).id == id;
            assert(d[w - 1].id == id);
            assert(has_player(d, id));
            let p = player_index(players, id);
            let pd = player_index(d, id);
            assert(players[p] == d[pd]);
            assert forall|k: int| 0 <= k < p implies (#[trigger] players[k]).id != id by {
                if k >= 1 {
                    assert(d[k - 1].id != id);
                }
            }
        } else {
            assert(!has_player(d, id)) by {
                if has_player(d, id) {
                    let w = choose|i: int| 0 <= i < d.len() && (#[trigger] d[i]).id == id;
                    assert(players[w + 1].id == id);
                }
            }
        }
    }
}

/// First seat whose player holds this card; the seat count when none
/// does.
pub open spec fn first_holder(players: Seq<PlayerV>, c: Card) -> int
    decreases players.len(),
{
    if players.len() == 0 {
        0
    } else if players[0].hand.contains(c) {
        0
    } else {
        1 + first_holder(players.drop_first(), c)
    }
}

/// Does some seated player hold this card?
pub open spec fn some_player_holds(players: Seq<PlayerV>, c: Card) -> bool {
    exists|i: int| 0 <= i < players.len() && (#[trigger] players[i]).hand.contains(c)
}

/// `first_holder` names the first seat holding the card, or the seat
/// count when no player holds it.
pub proof fn lemma_first_holder(players: Seq<PlayerV>, c: Card)
    ensures
        some_player_holds(players, c) ==> {
            let p = first_holder(players, c);
            &&& 0 <= p < players.len()
            &&& players[p].hand.contains(c)
            &&& forall|k: int| 0 <= k < p ==> !(#[trigger] players[k]).hand.contains(c)
        },
        !some_player_holds(players, c) ==> first_holder(players, c) == players.len(),
    decreases players.len(),
{
    if players.len() > 0 && !players[0].hand.contains(c) {
        let d = players.drop_first();
        lemma_first_holder(d, c);
        assert(forall|i: int| 0 <= i < d.len() ==> #[trigger] d[i] == players[i + 1]);
        if some_player_holds(players, c) {
            let w = choose|i: int|
                0 <= i < players.len() && (#[trigger] players[i]).hand.contains(c);
            assert(d[w - 1].hand.contains(c));
            assert(some_player_holds(d, c));
            let p = first_holder(players, c);
            let pd = first_holder(d, c);
            assert(players[p] == d[pd]);
            assert forall|k: int| 0 <= k < p implies !(#[trigger] players[k]).hand.contains(c) by {
                if k >= 1 {
                    assert(!d[k - 1].hand.contains(c));
                }
            }
        } else {
            assert(!some_player_holds(d, c)) by {
                if some_player_holds(d, c) {
                    let w = choose|i: int| 0 <= i < d.len() && (#[trigger] d[i]).hand.contains(c);
                    assert(players[w + 1].hand.contains(c));
                }
            }
        }
    }
}

/// The globally weakest card of a round: the first rank of the rank
/// ordering in the first suit of the suit ordering.
pub open spec fn spec_lowest_card(v: RoundV) -> Card {
    Card::Standard { rank: v.rank_order[0], suit: v.suit_order[0] }
}

/// The player who opens a fresh round: the first seat holding the
/// globally weakest card, if any does.
pub open spec fn spec_starting_player(v: RoundV) -> Option<Seq<char>> {
    let h = first_holder(v.players, spec_lowest_card(v));
    if h < v.players.len() {
        Some(v.players[h].id)
    } else {
        None
    }
}

/// The player expected to move: the stored next player when one is set;
/// in a fresh round, the holder of the globally weakest card, or nobody
/// once fewer than two players hold cards.
pub open spec fn spec_current_player(v: RoundV) -> Option<Seq<char>> {
    match v.next_player {
        Some(id) => Some(id),
        None => if players_still_in(v.players) > 1 {
            spec_starting_player(v)
        } else {
            None
        },
    }
}

/// Do the submitted cards contain the globally weakest card? A play
/// counts by its committed rank and suit, whether or not it is a
/// wildcard.
pub open spec fn contains_lowest(cards: Seq<PlayedCard>, v: RoundV) -> bool {
    exists|i: int|
        0 <= i < cards.len() && (#[trigger] cards[i]).rank == v.rank_order[0] && cards[i].suit
            == v.suit_order[0]
}

/// The seat after a seat, wrapping to the first after the last.
pub open spec fn next_seat(players: Seq<PlayerV>, i: int) -> int {
    if i + 1 < players.len() {
        i + 1
    } else {
        0
    }
}

/// Walk the seating order from a seat: each visited seat is compared
/// against the last player — landing on them means the move went all the
/// way around uncontested and the table clears — and seats whose players
/// hold no cards are skipped. The walk stops at the first seat still
/// holding cards, or after `fuel` skips.
pub open spec fn rotation_result(
    players: Seq<PlayerV>,
    idx: int,
    lastp: Option<Seq<char>>,
    cleared: bool,
    fuel: nat,
) -> (int, bool)
    decreases fuel,
{
    let cleared2 = cleared || lastp == Some(players[idx].id);
    if players[idx].hand.len() > 0 || fuel == 0 {
        (idx, cleared2)
    } else {
        rotation_result(players, next_seat(players, idx), lastp, cleared2, (fuel - 1) as nat)
    }
}

/// The rotation after a move by the player at `user_idx`: walk from the
/// following seat, skipping emptied hands, with at most one full turn of
/// skips.
pub open spec fn spec_rotation(players: Seq<PlayerV>, user_idx: int, lastp: Option<Seq<char>>) -> (
    int,
    bool,
) {
    rotation_result(players, next_seat(players, user_idx), lastp, false, players.len())
}

/// Does a move with this hand reverse the orderings? Only a
/// four-of-a-kind trick does, and only when reversals are enabled.
pub open spec fn is_reversing_hand(h: Hand) -> bool {
    h matches Hand::FiveCardTrick(t) && t.trick_type == TrickType::FourOfAKind
}

impl RoundV {
    /// A round is well formed when at least one player is seated,
    /// identifiers are unique, the orderings are permutations, a stored
    /// next player names a seated player, and a stored last move is
    /// internally consistent.
    pub open spec fn wf(self) -> bool {
        &&& self.players.len() >= 1
        &&& forall|i: int, j: int|
            0 <= i < j < self.players.len() ==> (#[trigger] self.players[i]).id != (
            #[trigger] self.players[j]).id
        &&& is_suit_permutation(self.suit_order)
        &&& is_rank_permutation(self.rank_order)
        &&& (self.next_player matches Some(id) ==> has_player(self.players, id))
        &&& (self.last_move matches Some(h) ==> hand_wf(h))
    }
}

/// The first failing check of a submission, or nothing when the move is
/// accepted. The checks run in a fixed order: wrong seat, no legal
/// shape, the opening-move rules of a fresh round, the beat check
/// against a live last move, and the acting player's holding.
pub open spec fn spec_submit_error(v: RoundV, uid: Seq<char>, cards: Seq<PlayedCard>) -> Option<
    SubmitError,
> {
    if spec_current_player(v) != Some(uid) {
        Some(SubmitError::NotCurrentPlayer)
    } else {
        match spec_build(cards) {
            None => Some(SubmitError::InvalidHand),
            Some(hand) => {
                if v.last_move is None && cards.len() == 0 {
                    Some(SubmitError::FirstRoundPass)
                } else if v.last_move is None && !contains_lowest(cards, v) {
                    Some(SubmitError::FirstHandMustContainLowestCard)
                } else if v.last_move matches Some(lm) && !(lm is Pass) && !(hand is Pass)
                    && !spec_beats(lm, hand, v.suit_order, v.rank_order) {
                    Some(SubmitError::HandNotHighEnough)
                } else if spec_remove_player_hand(v, uid, cards) is None {
                    Some(SubmitError::PlayerDoesntHaveCard)
                } else {
                    None
                }
            },
        }
    }
}

/// The acting player's holding after removing the submitted cards.
pub open spec fn spec_remove_player_hand(v: RoundV, uid: Seq<char>, cards: Seq<PlayedCard>) -> Option<
    Seq<Card>,
> {
    crate::player::spec_remove_cards(v.players[player_index(v.players, uid)].hand, cards)
}

/// The successor round of an accepted submission: the acting player's
/// holding loses the played cards, a non-pass hand becomes the last move
/// and its player the last player, the turn rotates past emptied hands
/// and clears the table when it comes back to the last player, the next
/// player resolves to nobody once fewer than two players hold cards, and
/// a four-of-a-kind trick reverses both orderings when reversals are
/// enabled.
pub open spec fn spec_submit_ok(v: RoundV, uid: Seq<char>, cards: Seq<PlayedCard>) -> RoundV
    recommends
        spec_submit_error(v, uid, cards) is None,
{
    let hand = spec_build(cards)->0;
    let pi = player_index(v.players, uid);
    let newhand = spec_remove_player_hand(v, uid, cards)->0;
    let players2 = v.players.update(pi, PlayerV { id: v.players[pi].id, hand: newhand });
    let new_last_player = if hand is Pass {
        v.last_player
    } else {
        Some(uid)
    };
    let rot = spec_rotation(v.players, pi, new_last_player);
    let base_last_move = if hand is Pass {
        v.last_move->0
    } else {
        hand
    };
    let new_last_move = if rot.1 {
        Hand::Pass
    } else {
        base_last_move
    };
    let next = if players_still_in(players2) > 1 {
        Some(v.players[rot.0].id)
    } else {
        None
    };
    let reversed = v.reversals_enabled && is_reversing_hand(hand);
    RoundV {
        players: players2,
        next_player: next,
        last_move: Some(new_last_move),
        last_player: new_last_player,
        suit_order: if reversed {
            v.suit_order.reverse()
        } else {
            v.suit_order
        },
        rank_order: if reversed {
            v.rank_order.reverse()
        } else {
            v.rank_order
        },
        reversals_enabled: v.reversals_enabled,
    }
}

/// What `submit_move` returns: the first failing check as an error, or
/// the successor round of the accepted submission.
pub open spec fn submit_post(
    v: RoundV,
    uid: Seq<char>,
    cards: Seq<PlayedCard>,
    r: Result<Round, SubmitError>,
) -> bool {
    match spec_submit_error(v, uid, cards) {
        Some(e) => r matches Err(e2) && e2 == e,
        None => r matches Ok(r2) && r2@ == spec_submit_ok(v, uid, cards),
    }
}

/// Submitting a move is a pure function of the round, the acting player
/// and the cards: any two outcomes of the same submission agree, error
/// for error and successor state for successor state.
pub proof fn lemma_submit_move_pure(
    v: RoundV,
    uid: Seq<char>,
    cards: Seq<PlayedCard>,
    r1: Result<Round, SubmitError>,
    r2: Result<Round, SubmitError>,
)
    requires
        submit_post(v, uid, cards, r1),
        submit_post(v, uid, cards, r2),
    ensures
        r1 is Ok <==> r2 is Ok,
        r1 is Ok ==> (r1->Ok_0)@ == (r2->Ok_0)@,
        r1 is Err ==> r1->Err_0 == r2->Err_0,
{
}

/// The turn-taking state machine: seated players, whose turn comes
/// next, the last accepted move and its player, and the current
/// strength orderings.
#[derive(Clone, Debug)]
pub struct Round {
    pub players: Vec<Player>,
    pub next_player: Option<String>,
    pub last_move: Option<Hand>,
    pub last_player: Option<String>,
    pub suit_order: [Suit; 4],
    pub rank_order: [Rank; 13],
    pub reversals_enabled: bool,
}

impl View for Round {
    type V = RoundV;

    open spec fn view(&self) -> RoundV {
        RoundV {
            players: views_of(self.players@),
            next_player: opt_str_view(self.next_player),
            last_move: self.last_move,
            last_player: opt_str_view(self.last_player),
            suit_order: self.suit_order@,
            rank_order: self.rank_order@,
            reversals_enabled: self.reversals_enabled,
        }
    }
}

/// Are two borrowed strings the same text?
fn str_eq(a: &str, b: &str) -> (r: bool)
    ensures
        r == (a@ == b@),
{
    let sa = a.to_owned();
    let sb = b.to_owned();
    sa == sb
}

impl Round {
    /// Assemble a round from its parts.
    pub fn new(
        players: Vec<Player>,
        next_player: Option<String>,
        last_move: Option<Hand>,
        last_player: Option<String>,
        suit_order: [Suit; 4],
        rank_order: [Rank; 13],
        reversals_enabled: bool,
    ) -> (r: Round)
        ensures
            r@ == (RoundV {
                players: views_of(players@),
                next_player: opt_str_view(next_player),
                last_move: last_move,
                last_player: opt_str_view(last_player),
                suit_order: suit_order@,
                rank_order: rank_order@,
                reversals_enabled: reversals_enabled,
            }),
    {
        Round { players, next_player, last_move, last_player, suit_order, rank_order, reversals_enabled }
    }

    /// The most recent accepted hand, or nothing at round start.
    pub fn get_last_move(&self) -> (r: Option<Hand>)
        ensures
            r == self@.last_move,
    {
        self.last_move
    }

    /// Who made the most recent accepted non-pass move.
    pub fn get_last_player(&self) -> (r: Option<String>)
        ensures
            option_id_matches(r, self@.last_player),
    {
        match &self.last_player {
            None => None,
            Some(x) => Some(x.clone()),
        }
    }

    /// The current suit ordering, weakest suit first.
    pub fn get_suit_order(&self) -> (r: [Suit; 4])
        ensures
            r@ == self@.suit_order,
    {
        self.suit_order
    }

    /// The current rank ordering, weakest rank first.
    pub fn get_rank_order(&self) -> (r: [Rank; 13])
        ensures
            r@ == self@.rank_order,
    {
        self.rank_order
    }

    /// A copy of the seated player with this identifier, if any.
    pub fn get_player(&self, user_id: &str) -> (r: Option<Player>)
        ensures
            has_player(self@.players, user_id@) ==> (r matches Some(p) && p@ == self@.players[
                player_index(self@.players, user_id@)
            ]),
            !has_player(self@.players, user_id@) ==> r is None,
    {
        proof {
            lemma_player_index(self@.players, user_id@);
        }
        let mut i: usize = 0;
        while i < self.players.len()
            invariant
                0 <= i <= self@.players.len(),
                self@.players.len() == self.players@.len(),
                forall|k: int| 0 <= k < i ==> (#[trigger] self@.players[k]).id != user_id@,
        decreases self@.players.len() - i,
        {
            if str_eq(self.players[i].get_id(), user_id) {
                proof {
                    assert(self@.players[i as int].id == user_id@);
                    assert(has_player(self@.players, user_id@));
                    lemma_player_index(self@.players, user_id@);
                    let p = player_index(self@.players, user_id@);
                    if p < i as int {
                        assert(self@.players[p].id != user_id@);
                    }
                    if p > i as int {
                        assert(self@.players[i as int].id != user_id@);
                    }
                    assert(p == i as int);
                }
                return Some(self.players[i].duplicate());
            }
            i = i + 1;
        }
        proof {
            assert(!has_player(self@.players, user_id@));
        }
        None
    }

    /// The seat of the player with this identifier; the seat count when
    /// no player carries it.
    fn find_player_index(&self, user_id: &str) -> (pi: usize)
        ensures
            pi as int == player_index(self@.players, user_id@),
            pi <= self.players@.len(),
    {
        proof {
            lemma_player_index(self@.players, user_id@);
        }
        let mut i: usize = 0;
        while i < self.players.len()
            invariant
                0 <= i <= self@.players.len(),
                self@.players.len() == self.players@.len(),
                forall|k: int| 0 <= k < i ==> (#[trigger] self@.players[k]).id != user_id@,
        decreases self@.players.len() - i,
        {
            if str_eq(self.players[i].get_id(), user_id) {
                proof {
                    assert(self@.players[i as int].id == user_id@);
                    assert(has_player(self@.players, user_id@));
                    lemma_player_index(self@.players, user_id@);
                    let p = player_index(self@.players, user_id@);
                    if p < i as int {
                        assert(self@.players[p].id != user_id@);
                    }
                    if p > i as int {
                        assert(self@.players[i as int].id != user_id@);
                    }
                    assert(p == i as int);
                }
                return i;
            }
            i = i + 1;
        }
        proof {
            assert(!has_player(self@.players, user_id@));
        }
        self.players.len()
    }

    /// How many seated players still hold cards.
    fn count_still_in(players: &Vec<Player>) -> (n: usize)
        ensures
            n as int == players_still_in(views_of(players@)),
    {
        let ghost m = views_of(players@);
        let mut n: usize = 0;
        let mut i: usize = 0;
        proof {
            assert(m.take(0) =~= Seq::<PlayerV>::empty());
            assert(players_still_in(m.take(0)) == 0);
        }
        while i < players.len()
            invariant
                0 <= i <= players@.len(),
                m == views_of(players@),
                m.len() == players@.len(),
                n as int == players_still_in(m.take(i as int)),
                n <= i,
            decreases players@.len() - i,
        {
            proof {
                assert(m[i as int] == players@[i as int]@);
                lemma_still_in_take_step(m, i as int);
            }
            if players[i].get_card_count() > 0 {
                n = n + 1;
            }
            i = i + 1;
        }
        proof {
            assert(m.take(players@.len() as int) =~= m);
        }
        n
    }

    /// The player who opens a fresh round: the first seat holding the
    /// globally weakest card.
    fn get_starting_player(&self) -> (r: Option<String>)
        ensures
            option_id_matches(r, spec_starting_player(self@)),
    {
        let lowest = Card::Standard { rank: self.rank_order[0], suit: self.suit_order[0] };
        proof {
            assert(lowest == spec_lowest_card(self@));
            lemma_first_holder(self@.players, lowest);
        }
        let mut i: usize = 0;
        while i < self.players.len()
            invariant
                0 <= i <= self@.players.len(),
                self@.players.len() == self.players@.len(),
                lowest == spec_lowest_card(self@),
                forall|k: int|
                    0 <= k < i ==> !(#[trigger] self@.players[k]).hand.contains(lowest),
        decreases self@.players.len() - i,
        {
            if self.players[i].has_card(&lowest) {
                proof {
                    assert(self@.players[i as int].hand.contains(lowest));
                    assert(some_player_holds(self@.players, lowest));
                    lemma_first_holder(self@.players, lowest);
                    let p = first_holder(self@.players, lowest);
                    if p < i as int {
                        assert(self@.players[p].hand.contains(lowest));
                    }
                    if p > i as int {
                        assert(!self@.players[i as int].hand.contains(lowest));
                    }
                    assert(p == i as int);
                }
                return Some(self.players[i].id.clone());
            }
            i = i + 1;
        }
        proof {
            assert(!some_player_holds(self@.players, lowest));
        }
        None
    }

    /// The player expected to move, or nobody once fewer than two
    /// players hold cards in a fresh round.
    pub fn get_next_player(&self) -> (r: Option<String>)
        ensures
            option_id_matches(r, spec_current_player(self@)),
    {
        match &self.next_player {
            None => {
                if Self::count_still_in(&self.players) > 1 {
                    self.get_starting_player()
                } else {
                    None
                }
            },
            Some(x) => Some(x.clone()),
        }
    }
}

/// Reversing a suit permutation yields a suit permutation.
proof fn lemma_reverse_suit_perm(so: Seq<Suit>)
    requires
        is_suit_permutation(so),
    ensures
        is_suit_permutation(so.reverse()),
{
    let rev = so.reverse();
    assert forall|s: Suit| rev.contains(s) by {
        assert(so.contains(s));
        let i = choose|i: int| 0 <= i < so.len() && so[i] == s;
        assert(rev[so.len() - 1 - i] == s);
    }
    assert forall|i: int, j: int|
        0 <= i < rev.len() && 0 <= j < rev.len() && i != j implies rev[i] != rev[j] by {
        assert(rev[i] == so[so.len() - 1 - i]);
        assert(rev[j] == so[so.len() - 1 - j]);
    }
}

/// Reversing a rank permutation yields a rank permutation.
proof fn lemma_reverse_rank_perm(ro: Seq<Rank>)
    requires
        is_rank_permutation(ro),
    ensures
        is_rank_permutation(ro.reverse()),
{
    let rev = ro.reverse();
    assert forall|r: Rank| rev.contains(r) by {
        assert(ro.contains(r));
        let i = choose|i: int| 0 <= i < ro.len() && ro[i] == r;
        assert(rev[ro.len() - 1 - i] == r);
    }
    assert forall|i: int, j: int|
        0 <= i < rev.len() && 0 <= j < rev.len() && i != j implies rev[i] != rev[j] by {
        assert(rev[i] == ro[ro.len() - 1 - i]);
        assert(rev[j] == ro[ro.len() - 1 - j]);
    }
}

/// The expected player of a well-formed round is seated.
proof fn lemma_current_player_seated(v: RoundV)
    requires
        v.wf(),
        spec_current_player(v) is Some,
    ensures
        has_player(v.players, spec_current_player(v)->0),
{
    match v.next_player {
        Some(_) => {},
        None => {
            lemma_first_holder(v.players, spec_lowest_card(v));
            let h = first_holder(v.players, spec_lowest_card(v));
            assert(0 <= h < v.players.len());
            assert(v.players[h].id == spec_current_player(v)->0);
        },
    }
}

impl Round {
    /// Do the submitted cards contain the globally weakest card?
    fn contains_lowest_card(&self, cards: &Vec<PlayedCard>) -> (r: bool)
        ensures
            r == contains_lowest(cards@, self@),
    {
        let lr = self.rank_order[0];
        let ls = self.suit_order[0];
        let mut i: usize = 0;
        while i < cards.len()
            invariant
                0 <= i <= cards@.len(),
                lr == self@.rank_order[0],
                ls == self@.suit_order[0],
                forall|k: int|
                    0 <= k < i ==> !((#[trigger] cards@[k]).rank == self@.rank_order[0]
                        && cards@[k].suit == self@.suit_order[0]),
            decreases cards@.len() - i,
        {
            if cards[i].get_rank() == lr && cards[i].get_suit() == ls {
                proof {
                    assert(cards@[i as int].rank == self@.rank_order[0] && cards@[i as int].suit
                        == self@.suit_order[0]);
                }
                return true;
            }
            i = i + 1;
        }
        false
    }

    /// Is the stored identifier the same as this player's?
    fn opt_names(lastp: &Option<String>, id: &String) -> (r: bool)
        ensures
            r == (opt_str_view(*lastp) == Some(id@)),
    {
        match lastp {
            Some(s) => *s == *id,
            None => false,
        }
    }

    /// Walk the seating order as `rotation_result` describes, as an
    /// executable step.
    fn rotate_step(&self, idx: usize, lastp: &Option<String>, cleared: bool, fuel: usize) -> (r: (
        usize,
        bool,
    ))
        requires
            (idx as int) < self.players@.len(),
        ensures
            r.0 as int == rotation_result(
                self@.players,
                idx as int,
                opt_str_view(*lastp),
                cleared,
                fuel as nat,
            ).0,
            r.1 == rotation_result(
                self@.players,
                idx as int,
                opt_str_view(*lastp),
                cleared,
                fuel as nat,
            ).1,
            (r.0 as int) < self.players@.len(),
        decreases fuel,
    {
        let cleared2 = cleared || Self::opt_names(lastp, &self.players[idx].id);
        if self.players[idx].get_card_count() > 0 || fuel == 0 {
            (idx, cleared2)
        } else {
            let n = self.players.len();
            let nxt: usize = if idx < n - 1 {
                idx + 1
            } else {
                0
            };
            self.rotate_step(nxt, lastp, cleared2, fuel - 1)
        }
    }

    /// The suit ordering turned back to front.
    fn reversed_suits(a: &[Suit; 4]) -> (r: [Suit; 4])
        ensures
            r@ == a@.reverse(),
    {
        let r = [a[3], a[2], a[1], a[0]];
        proof {
            assert(r@ =~= a@.reverse());
        }
        r
    }

    /// The rank ordering turned back to front.
    fn reversed_ranks(a: &[Rank; 13]) -> (r: [Rank; 13])
        ensures
            r@ == a@.reverse(),
    {
        let r = [
            a[12], a[11], a[10], a[9], a[8], a[7], a[6], a[5], a[4], a[3], a[2], a[1], a[0],
        ];
        proof {
            assert(r@ =~= a@.reverse());
        }
        r
    }

    /// Submit a move for the given player: the single state transition of
    /// a round. The checks run in order — turn, shape, the opening-move
    /// rules of a fresh round, the beat check against a live last move,
    /// and the acting player's holding — and the first failing check
    /// rejects the move with the round unchanged. An accepted move yields
    /// the successor round described by `spec_submit_ok`, itself well
    /// formed.
    pub fn submit_move(&self, user_id: &str, cards: Vec<PlayedCard>) -> (r: Result<
        Round,
        SubmitError,
    >)
        requires
            self@.wf(),
        ensures
            submit_post(self@, user_id@, cards@, r),
            r matches Ok(r2) ==> r2@.wf(),
    {
        let ghost v = self@;
        let ghost uid = user_id@;
        let ghost cs = cards@;

        // Turn check.
        let current = self.get_next_player();
        let cur_ok = match &current {
            Some(s) => str_eq(user_id, s.as_str()),
            None => false,
        };
        proof {
            assert(cur_ok == (spec_current_player(v) == Some(uid)));
        }
        if !cur_ok {
            proof {
                assert(spec_submit_error(v, uid, cs) == Some(SubmitError::NotCurrentPlayer));
            }
            return Err(SubmitError::NotCurrentPlayer);
        }

        // Shape check.
        let cards2 = cards.clone();
        proof {
            assert(cards2@ =~= cs);
        }
        let hand_opt = crate::hands::Hand::build(cards2);
        let hand = match hand_opt {
            None => {
                proof {
                    assert(spec_submit_error(v, uid, cs) == Some(SubmitError::InvalidHand));
                }
                return Err(SubmitError::InvalidHand);
            },
            Some(h) => h,
        };
        proof {
            assert(Some(hand) == spec_build(cs));
        }
        let hand_pass = matches!(hand, Hand::Pass);

        // Opening-move and beat checks.
        match self.last_move {
            None => {
                if cards.len() == 0 {
                    proof {
                        assert(spec_submit_error(v, uid, cs) == Some(SubmitError::FirstRoundPass));
                    }
                    return Err(SubmitError::FirstRoundPass);
                }
                if !self.contains_lowest_card(&cards) {
                    proof {
                        assert(spec_submit_error(v, uid, cs) == Some(
                            SubmitError::FirstHandMustContainLowestCard,
                        ));
                    }
                    return Err(SubmitError::FirstHandMustContainLowestCard);
                }
            },
            Some(lm) => {
                let lm_pass = matches!(lm, Hand::Pass);
                if !lm_pass && !hand_pass {
                    if !compare_hands(lm, hand, self.suit_order, self.rank_order) {
                        proof {
                            assert(spec_submit_error(v, uid, cs) == Some(
                                SubmitError::HandNotHighEnough,
                            ));
                        }
                        return Err(SubmitError::HandNotHighEnough);
                    }
                }
            },
        }

        // Inventory check.
        let pi = self.find_player_index(user_id);
        proof {
            lemma_current_player_seated(v);
            lemma_player_index(v.players, uid);
            assert((pi as int) < v.players.len());
        }
        let mut player = self.players[pi].duplicate();
        let played = player.play_move(cards);
        if played.is_err() {
            proof {
                assert(spec_remove_player_hand(v, uid, cs) is None);
                assert(spec_submit_error(v, uid, cs) == Some(SubmitError::PlayerDoesntHaveCard));
            }
            return Err(SubmitError::PlayerDoesntHaveCard);
        }
        let ghost newhand = spec_remove_player_hand(v, uid, cs)->0;
        proof {
            assert(player@.id == v.players[pi as int].id);
            assert(player@.hand == newhand);
            assert(spec_submit_error(v, uid, cs) is None);
        }

        // The updated seating: only the acting player's holding changes.
        let ghost newpv = PlayerV { id: v.players[pi as int].id, hand: newhand };
        let mut players2: Vec<Player> = Vec::new();
        let mut i: usize = 0;
        while i < self.players.len()
            invariant
                0 <= i <= self.players@.len(),
                v == self@,
                v.players.len() == self.players@.len(),
                (pi as int) < v.players.len(),
                player@ == newpv,
                players2@.len() == i,
                forall|k: int|
                    0 <= k < i ==> (#[trigger] players2@[k])@ == (if k == pi as int {
                        newpv
                    } else {
                        v.players[k]
                    }),
            decreases self.players@.len() - i,
        {
            if i == pi {
                players2.push(player.duplicate());
            } else {
                players2.push(self.players[i].duplicate());
            }
            i = i + 1;
        }
        let ghost playersv2 = v.players.update(pi as int, newpv);
        proof {
            assert(views_of(players2@) =~= playersv2);
        }

        // Last-move bookkeeping.
        let new_last_player: Option<String> = if hand_pass {
            match &self.last_player {
                Some(s) => Some(s.clone()),
                None => None,
            }
        } else {
            Some(user_id.to_owned())
        };
        let ghost nlp = if spec_build(cs)->0 is Pass {
            v.last_player
        } else {
            Some(uid)
        };
        proof {
            assert(opt_str_view(new_last_player) == nlp);
        }

        // Rotation past emptied hands.
        let start: usize = if pi + 1 < self.players.len() {
            pi + 1
        } else {
            0
        };
        let rot = self.rotate_step(start, &new_last_player, false, self.players.len());
        let ghost rot_s = spec_rotation(v.players, pi as int, nlp);
        proof {
            assert(start as int == next_seat(v.players, pi as int));
            assert(rot.0 as int == rot_s.0 && rot.1 == rot_s.1);
        }

        let new_last_move: Hand = if rot.1 {
            Hand::Pass
        } else if hand_pass {
            self.last_move.unwrap()
        } else {
            hand
        };

        // Termination check.
        let still = Self::count_still_in(&players2);
        let next_player: Option<String> = if still > 1 {
            Some(self.players[rot.0].id.clone())
        } else {
            None
        };

        // Reversal.
        let reversing = self.reversals_enabled && matches!(
            hand,
            Hand::FiveCardTrick(Trick { trick_type: TrickType::FourOfAKind, cards: _ }),
        );
        let suit_order: [Suit; 4] = if reversing {
            Self::reversed_suits(&self.suit_order)
        } else {
            self.suit_order
        };
        let rank_order: [Rank; 13] = if reversing {
            Self::reversed_ranks(&self.rank_order)
        } else {
            self.rank_order
        };

        let result = Round {
            players: players2,
            next_player,
            last_move: Some(new_last_move),
            last_player: new_last_player,
            suit_order,
            rank_order,
            reversals_enabled: self.reversals_enabled,
        };
        proof {
            let expect = spec_submit_ok(v, uid, cs);
            assert(result@.players == expect.players);
            assert(result@.next_player == expect.next_player);
            assert(result@.last_move == expect.last_move);
            assert(result@.last_player == expect.last_player);
            assert(result@.suit_order == expect.suit_order);
            assert(result@.rank_order == expect.rank_order);
            assert(result@ == expect);

            // The successor round is well formed.
            assert(expect.players.len() == v.players.len());
            assert forall|a: int, b: int|
                0 <= a < b < expect.players.len() implies (#[trigger] expect.players[a]).id != (
            #[trigger] expect.players[b]).id by {
                assert(expect.players[a].id == v.players[a].id);
                assert(expect.players[b].id == v.players[b].id);
            }
            if reversing {
                lemma_reverse_suit_perm(v.suit_order);
                lemma_reverse_rank_perm(v.rank_order);
            }
            if expect.next_player is Some {
                assert(expect.players[rot_s.0].id == expect.next_player->0);
                assert(has_player(expect.players, expect.next_player->0));
            }
            crate::hands::lemma_spec_build_wf(cs);
            assert(hand_wf(new_last_move));
            assert(result@.wf());
        }
        Ok(result)
    }
}

} // verus!
