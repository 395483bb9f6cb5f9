//! The hand classifier: turning a set of played cards into a tagged hand
//! shape, or rejecting it.
//!
//! Shape detection is judged against the fixed canonical progression of
//! ranks and suits, never against the table's mutable strength orderings:
//! whether five cards form a straight cannot change mid-round when the
//! strength ordering reverses.

use vstd::prelude::*;
use vstd::multiset::Multiset;
use vstd::relations::{sorted_by, total_ordering};
use vstd::seq_lib::lemma_sorted_unique;

use crate::cards::{rank_idx, suit_idx, PlayedCard, Rank};
use crate::cards::{rank_index, suit_index};

verus! {

broadcast use vstd::seq_lib::group_to_multiset_ensures;

/// The kind of a five-card trick, weakest first: a strictly later variant
/// always beats an earlier one, whatever the cards.
#[derive(Clone, Copy, Debug, PartialEq, Eq, Structural)]
pub enum TrickType {
    /// a sequence of five consecutive canonical ranks
    Straight,
    /// five cards of one suit
    Flush,
    /// three cards of one rank over two of another
    FullHouse,
    /// four cards of one rank and one other card
    FourOfAKind,
    /// a straight in a single suit
    StraightFlush,
    /// five cards of one rank
    FiveOfAKind,
}

/// Position of a trick type in the fixed strength order of trick types,
/// from 0 (Straight) to 5 (FiveOfAKind).
pub open spec fn trick_type_idx(t: TrickType) -> int {
    match t {
        TrickType::Straight => 0,
        TrickType::Flush => 1,
        TrickType::FullHouse => 2,
        TrickType::FourOfAKind => 3,
        TrickType::StraightFlush => 4,
        TrickType::FiveOfAKind => 5,
    }
}

/// Strength position of a trick type, as an executable value.
pub fn trick_type_index(t: TrickType) -> (i: u8)
    ensures
        i as int == trick_type_idx(t),
{
    match t {
        TrickType::Straight => 0,
        TrickType::Flush => 1,
        TrickType::FullHouse => 2,
        TrickType::FourOfAKind => 3,
        TrickType::StraightFlush => 4,
        TrickType::FiveOfAKind => 5,
    }
}

/// A five-card trick: its kind and its five cards in canonical order.
#[derive(Clone, Copy, Debug, PartialEq, Eq)]
pub struct Trick {
    pub trick_type: TrickType,
    pub cards: [PlayedCard; 5],
}

/// A hand shape that can be played.
#[derive(Clone, Copy, Debug, PartialEq, Eq)]
pub enum Hand {
    /// no cards
    Pass,
    /// one card
    Single(PlayedCard),
    /// two cards of one rank
    Pair(PlayedCard, PlayedCard),
    /// three cards of one rank
    Prial(PlayedCard, PlayedCard, PlayedCard),
    /// five cards forming a trick
    FiveCardTrick(Trick),
}

/// Order bit of the wildcard flag in the canonical card order.
pub open spec fn joker_val(j: bool) -> int {
    if j {
        1
    } else {
        0
    }
}

/// The fixed canonical order on played cards: by canonical rank, by
/// canonical suit on equal ranks, plain cards before wildcards on equal
/// rank and suit. It is independent of the table's mutable orderings.
pub open spec fn canon_leq(a: PlayedCard, b: PlayedCard) -> bool {
    if rank_idx(a.rank) != rank_idx(b.rank) {
        rank_idx(a.rank) < rank_idx(b.rank)
    } else if suit_idx(a.suit) != suit_idx(b.suit) {
        suit_idx(a.suit) < suit_idx(b.suit)
    } else {
        joker_val(a.is_joker) <= joker_val(b.is_joker)
    }
}

/// The canonical order as a relation value, for use with sequence sorting.
pub open spec fn canon_le() -> spec_fn(PlayedCard, PlayedCard) -> bool {
    |a: PlayedCard, b: PlayedCard| canon_leq(a, b)
}

/// Two ranks with the same canonical position are the same rank.
pub proof fn lemma_rank_idx_injective(a: Rank, b: Rank)
    requires
        rank_idx(a) == rank_idx(b),
    ensures
        a == b,
{
}

/// The canonical card order is a total order.
pub proof fn lemma_canon_total()
    ensures
        total_ordering(canon_le()),
{
    assert forall|a: PlayedCard, b: PlayedCard| canon_leq(a, b) && canon_leq(b, a) implies a == b by {
        lemma_rank_idx_injective(a.rank, b.rank);
    }
}

/// The five cards of a trick submission in canonical order.
pub open spec fn sorted_of(cards: Seq<PlayedCard>) -> Seq<PlayedCard> {
    cards.sort_by(canon_le())
}

/// All five cards share one rank. Judged on the canonically sorted cards.
pub open spec fn is_five_of_a_kind_sorted(s: Seq<PlayedCard>) -> bool {
    forall|i: int| 0 <= i < s.len() ==> (#[trigger] s[i]).rank == s[0].rank
}

/// One rank occurs three times and another twice. Judged on the
/// canonically sorted cards, where the two groups are contiguous runs.
pub open spec fn is_full_house_sorted(s: Seq<PlayedCard>) -> bool {
    ||| (s[0].rank == s[2].rank && s[3].rank == s[4].rank && s[2].rank != s[3].rank)
    ||| (s[0].rank == s[1].rank && s[2].rank == s[4].rank && s[1].rank != s[2].rank)
}

/// One rank occurs four times and one other card stands beside it. Judged
/// on the canonically sorted cards.
pub open spec fn is_four_of_a_kind_sorted(s: Seq<PlayedCard>) -> bool {
    ||| (s[0].rank == s[3].rank && s[3].rank != s[4].rank)
    ||| (s[0].rank != s[1].rank && s[1].rank == s[4].rank)
}

/// Each card's rank is the canonical successor of the previous card's
/// rank. The canonical progression does not wrap: Three has no
/// predecessor and Two no successor. Judged on the canonically sorted
/// cards.
pub open spec fn is_straight_sorted(s: Seq<PlayedCard>) -> bool {
    forall|i: int| 1 <= i < s.len() ==> rank_idx((#[trigger] s[i]).rank) == rank_idx(s[i - 1].rank) + 1
}

/// All five cards share one suit.
pub open spec fn is_flush_sorted(s: Seq<PlayedCard>) -> bool {
    forall|i: int, j: int|
        0 <= i < s.len() && 0 <= j < s.len() ==> (#[trigger] s[i]).suit == (#[trigger] s[j]).suit
}

/// The kind of trick five cards form, if any. Any number of cards other
/// than five forms no trick.
pub open spec fn trick_type_of(cards: Seq<PlayedCard>) -> Option<TrickType> {
    if cards.len() != 5 {
        None
    } else {
        let s = sorted_of(cards);
        if is_five_of_a_kind_sorted(s) {
            Some(TrickType::FiveOfAKind)
        } else if is_full_house_sorted(s) {
            Some(TrickType::FullHouse)
        } else if is_four_of_a_kind_sorted(s) {
            Some(TrickType::FourOfAKind)
        } else if is_straight_sorted(s) && is_flush_sorted(s) {
            Some(TrickType::StraightFlush)
        } else if is_straight_sorted(s) {
            Some(TrickType::Straight)
        } else if is_flush_sorted(s) {
            Some(TrickType::Flush)
        } else {
            None
        }
    }
}

/// A trick's tag matches the shape its five cards actually form.
pub open spec fn trick_wf(t: Trick) -> bool {
    trick_type_of(t.cards@) == Some(t.trick_type)
}

/// A hand is internally consistent: a pair's cards share a rank, a
/// prial's three cards share a rank, and a trick's tag matches its cards.
/// The classifier only ever constructs consistent hands.
pub open spec fn hand_wf(h: Hand) -> bool {
    match h {
        Hand::Pass => true,
        Hand::Single(_) => true,
        Hand::Pair(a, b) => a.rank == b.rank,
        Hand::Prial(a, b, c) => a.rank == b.rank && b.rank == c.rank,
        Hand::FiveCardTrick(t) => trick_wf(t),
    }
}

/// The cards a hand consists of, in the order the hand stores them.
pub open spec fn spec_cards(h: Hand) -> Seq<PlayedCard> {
    match h {
        Hand::Pass => Seq::empty(),
        Hand::Single(a) => seq![a],
        Hand::Pair(a, b) => seq![a, b],
        Hand::Prial(a, b, c) => seq![a, b, c],
        Hand::FiveCardTrick(t) => t.cards@,
    }
}

/// What the classifier yields on a given card sequence: `Pass` for no
/// cards, `Single` for one, `Pair` and `Prial` for two or three cards of
/// one rank, a canonically sorted `FiveCardTrick` for five cards forming
/// a trick, and nothing otherwise.
pub open spec fn spec_build(cards: Seq<PlayedCard>) -> Option<Hand> {
    if cards.len() == 0 {
        Some(Hand::Pass)
    } else if cards.len() == 1 {
        Some(Hand::Single(cards[0]))
    } else if cards.len() == 2 {
        if cards[0].rank == cards[1].rank {
            Some(Hand::Pair(cards[0], cards[1]))
        } else {
            None
        }
    } else if cards.len() == 3 {
        if cards[0].rank == cards[1].rank && cards[1].rank == cards[2].rank {
            Some(Hand::Prial(cards[0], cards[1], cards[2]))
        } else {
            None
        }
    } else if cards.len() == 5 {
        match trick_type_of(cards) {
            Some(tt) => {
                let s = sorted_of(cards);
                Some(Hand::FiveCardTrick(Trick { trick_type: tt, cards: [s[0], s[1], s[2], s[3], s[4]] }))
            },
            None => None,
        }
    } else {
        None
    }
}

/// Sorting does not change what cards are on the table.
pub proof fn lemma_sorted_of_multiset(cards: Seq<PlayedCard>)
    ensures
        sorted_of(cards).to_multiset() == cards.to_multiset(),
        sorted_by(sorted_of(cards), canon_le()),
        sorted_of(cards).len() == cards.len(),
{
    lemma_canon_total();
    cards.lemma_sort_by_ensures(canon_le());
    broadcast use vstd::seq_lib::group_to_multiset_ensures;

    assert(sorted_of(cards).to_multiset() =~= cards.to_multiset());
    assert(sorted_of(cards).to_multiset().len() == sorted_of(cards).len());
    assert(cards.to_multiset().len() == cards.len());
}

/// The kind of trick five cards form depends only on which cards they
/// are, never on the order they were submitted in.
pub proof fn lemma_trick_type_multiset(c1: Seq<PlayedCard>, c2: Seq<PlayedCard>)
    requires
        c1.to_multiset() == c2.to_multiset(),
    ensures
        trick_type_of(c1) == trick_type_of(c2),
{
    broadcast use vstd::seq_lib::group_to_multiset_ensures;

    assert(c1.to_multiset().len() == c1.len());
    assert(c2.to_multiset().len() == c2.len());
    assert(c1.len() == c2.len());
    if c1.len() == 5 {
        lemma_canon_total();
        lemma_sorted_of_multiset(c1);
        lemma_sorted_of_multiset(c2);
        lemma_sorted_unique(sorted_of(c1), sorted_of(c2), canon_le());
        assert(sorted_of(c1) == sorted_of(c2));
    }
}

/// Two cards classify as a pair exactly when they share a rank, and
/// three cards as a prial exactly when all three share one rank; with
/// differing ranks the classifier rejects them.
pub proof fn lemma_pair_prial_classification(cards: Seq<PlayedCard>)
    ensures
        cards.len() == 2 ==> (spec_build(cards) == Some(Hand::Pair(cards[0], cards[1])) <==> cards[0].rank
            == cards[1].rank),
        cards.len() == 2 && cards[0].rank != cards[1].rank ==> spec_build(cards) is None,
        cards.len() == 3 ==> (spec_build(cards) == Some(Hand::Prial(cards[0], cards[1], cards[2]))
            <==> (cards[0].rank == cards[1].rank && cards[1].rank == cards[2].rank)),
        cards.len() == 3 && !(cards[0].rank == cards[1].rank && cards[1].rank == cards[2].rank)
            ==> spec_build(cards) is None,
{
}

/// Classifying five cards in submitted order and in canonical order
/// yields the same hand — in particular the same trick type: the shape
/// of a trick depends only on which cards are played.
pub proof fn lemma_build_sort_invariant(cards: Seq<PlayedCard>)
    requires
        cards.len() == 5,
    ensures
        spec_build(cards) == spec_build(sorted_of(cards)),
{
    let s = sorted_of(cards);
    lemma_canon_total();
    lemma_sorted_of_multiset(cards);
    lemma_sorted_of_multiset(s);
    lemma_trick_type_multiset(cards, s);
    lemma_sorted_unique(sorted_of(s), s, canon_le());
    assert(sorted_of(s) == s);
}

/// The classifier only yields internally consistent hands.
#[verifier::rlimit(50)]
pub proof fn lemma_spec_build_wf(cards: Seq<PlayedCard>)
    ensures
        spec_build(cards) matches Some(h) ==> hand_wf(h),
{
    if cards.len() == 5 && trick_type_of(cards) is Some {
        let s = sorted_of(cards);
        lemma_sorted_of_multiset(cards);
        let arr = [s[0], s[1], s[2], s[3], s[4]];
        assert(arr@ =~= s);
        lemma_trick_type_multiset(cards, s);
        assert(trick_type_of(arr@) == trick_type_of(cards));
        assert(spec_build(cards) matches Some(h) && h matches Hand::FiveCardTrick(t)
            && t.cards == arr && Some(t.trick_type) == trick_type_of(cards));
    }
}

impl Hand {
    /// Classify an unordered sequence of played cards into a hand shape,
    /// or reject it: no cards form a `Pass`, one a `Single`, two or three
    /// cards form a `Pair` or `Prial` exactly when they share one rank,
    /// and five cards form a `FiveCardTrick` exactly when they make one
    /// of the six trick shapes; any other length is rejected.
    pub fn build(cards: Vec<PlayedCard>) -> (r: Option<Hand>)
        ensures
            r == spec_build(cards@),
            r matches Some(h) ==> hand_wf(h),
    {
        match cards.len() {
            0 => Some(Hand::Pass),
            1 => Some(Hand::Single(cards[0])),
            2 => {
                if cards[0].get_rank() == cards[1].get_rank() {
                    Some(Hand::Pair(cards[0], cards[1]))
                } else {
                    None
                }
            },
            3 => {
                if cards[0].get_rank() == cards[1].get_rank() && cards[1].get_rank()
                    == cards[2].get_rank() {
                    Some(Hand::Prial(cards[0], cards[1], cards[2]))
                } else {
                    None
                }
            },
            5 => Self::check_valid_fct(&cards),
            _ => None,
        }
    }

    /// Classify five cards as a trick, or reject them.
    #[verifier::rlimit(50)]
    fn check_valid_fct(cards: &Vec<PlayedCard>) -> (r: Option<Hand>)
        requires
            cards@.len() == 5,
        ensures
            r == spec_build(cards@),
            r matches Some(h) ==> hand_wf(h),
    {
        let s = sort_cards(cards);
        let fk = is_five_of_a_kind_exec(&s);
        let fh = is_full_house_exec(&s);
        let fo = is_four_of_a_kind_exec(&s);
        let st = is_straight_exec(&s);
        let fl = is_flush_exec(&s);
        let tt = if fk {
            Some(TrickType::FiveOfAKind)
        } else if fh {
            Some(TrickType::FullHouse)
        } else if fo {
            Some(TrickType::FourOfAKind)
        } else if st && fl {
            Some(TrickType::StraightFlush)
        } else if st {
            Some(TrickType::Straight)
        } else if fl {
            Some(TrickType::Flush)
        } else {
            None
        };
        proof {
            // The sorted copy is itself canonically sorted, so sorting it
            // again leaves it unchanged, and the submitted cards and their
            // sorted copy hold the same cards.
            lemma_canon_total();
            lemma_sorted_of_multiset(cards@);
            lemma_sorted_of_multiset(s@);
            lemma_sorted_unique(sorted_of(s@), s@, canon_le());
            assert(sorted_of(s@) == s@);
            lemma_trick_type_multiset(cards@, s@);
            assert(trick_type_of(cards@) == trick_type_of(s@));
            assert(trick_type_of(s@) == tt);
        }
        match tt {
            Some(t) => {
                let trick = Trick { trick_type: t, cards: [s[0], s[1], s[2], s[3], s[4]] };
                proof {
                    assert(trick.cards@ =~= s@);
                }
                Some(Hand::FiveCardTrick(trick))
            },
            None => None,
        }
    }

    /// The cards this hand consists of, in the order the hand stores
    /// them.
    pub fn to_cards(&self) -> (v: Vec<PlayedCard>)
        ensures
            v@ == spec_cards(*self),
    {
        match *self {
            Hand::Pass => {
                let v: Vec<PlayedCard> = Vec::new();
                proof {
                    assert(v@ =~= spec_cards(*self));
                }
                v
            },
            Hand::Single(a) => {
                let v = vec![a];
                proof {
                    assert(v@ =~= spec_cards(*self));
                }
                v
            },
            Hand::Pair(a, b) => {
                let v = vec![a, b];
                proof {
                    assert(v@ =~= spec_cards(*self));
                }
                v
            },
            Hand::Prial(a, b, c) => {
                let v = vec![a, b, c];
                proof {
                    assert(v@ =~= spec_cards(*self));
                }
                v
            },
            Hand::FiveCardTrick(t) => {
                let v = vec![t.cards[0], t.cards[1], t.cards[2], t.cards[3], t.cards[4]];
                proof {
                    assert(v@ =~= spec_cards(*self));
                }
                v
            },
        }
    }
}

/// The canonical card order, as an executable comparison.
fn canon_le_exec(a: PlayedCard, b: PlayedCard) -> (r: bool)
    ensures
        r == canon_leq(a, b),
{
    let ar = rank_index(a.rank);
    let br = rank_index(b.rank);
    if ar != br {
        ar < br
    } else {
        let asu = suit_index(a.suit);
        let bsu = suit_index(b.suit);
        if asu != bsu {
            asu < bsu
        } else {
            !a.is_joker || b.is_joker
        }
    }
}

/// Sort played cards into the canonical order.
pub(crate) fn sort_cards(cards: &Vec<PlayedCard>) -> (out: Vec<PlayedCard>)
    ensures
        out@ == sorted_of(cards@),
        out@.len() == cards@.len(),
{
    let mut work: Vec<PlayedCard> = cards.clone();
    let mut out: Vec<PlayedCard> = Vec::new();
    proof {
        assert(out@.to_multiset().add(work@.to_multiset()) =~= cards@.to_multiset());
    }
    while work.len() > 0
        invariant
            out@.to_multiset().add(work@.to_multiset()) == cards@.to_multiset(),
            sorted_by(out@, canon_le()),
            forall|i: int, j: int|
                0 <= i < out@.len() && 0 <= j < work@.len() ==> canon_leq(out@[i], work@[j]),
        decreases work.len(),
    {
        let mut min_i: usize = 0;
        let mut k: usize = 1;
        while k < work.len()
            invariant
                0 < work.len(),
                min_i < k,
                k <= work.len(),
                forall|j: int| 0 <= j < k ==> canon_leq(work@[min_i as int], work@[j]),
            decreases work.len() - k,
        {
            if canon_le_exec(work[k], work[min_i]) {
                min_i = k;
            }
            k = k + 1;
        }
        let ghost old_out = out@;
        let ghost old_work = work@;
        let m = work.remove(min_i);
        out.push(m);
        proof {
            assert(old_work[min_i as int] == m);
            assert(old_work.contains(m));
            assert(old_work.to_multiset().count(m) > 0);
            assert(out@ == old_out.push(m));
            assert(work@ == old_work.remove(min_i as int));
            assert(old_work.remove(min_i as int).to_multiset() =~= old_work.to_multiset().remove(
                old_work[min_i as int],
            ));
            assert(work@.to_multiset() =~= old_work.to_multiset().remove(m));
            assert(old_out.push(m).to_multiset() =~= old_out.to_multiset().insert(m));
            assert(out@.to_multiset() =~= old_out.to_multiset().insert(m));
            assert(out@.to_multiset().add(work@.to_multiset()) =~= cards@.to_multiset());
            assert forall|i: int, j: int|
                0 <= i < out@.len() && 0 <= j < work@.len() implies canon_leq(
                out@[i],
                work@[j],
            ) by {
                assert(old_work.contains(work@[j]) || old_work.remove(min_i as int).contains(
                    work@[j],
                ));
            }
            assert(sorted_by(out@, canon_le()));
        }
    }
    proof {
        assert(work@.to_multiset() =~= Multiset::empty());
        assert(out@.to_multiset() =~= cards@.to_multiset());
        lemma_canon_total();
        lemma_sorted_of_multiset(cards@);
        lemma_sorted_unique(out@, sorted_of(cards@), canon_le());
        assert(out@ =~= sorted_of(cards@));
    }
    out
}

/// Do all five sorted cards share one rank?
fn is_five_of_a_kind_exec(s: &Vec<PlayedCard>) -> (r: bool)
    requires
        s@.len() == 5,
    ensures
        r == is_five_of_a_kind_sorted(s@),
{
    let r0 = s[0].get_rank();
    let r = s[1].get_rank() == r0 && s[2].get_rank() == r0 && s[3].get_rank() == r0 && s[4].get_rank()
        == r0;
    proof {
        if r {
            assert forall|i: int| 0 <= i < s@.len() implies (#[trigger] s@[i]).rank
                == s@[0].rank by {}
        }
    }
    r
}

/// Do the five sorted cards split into a run of three of one rank and two
/// of another?
fn is_full_house_exec(s: &Vec<PlayedCard>) -> (r: bool)
    requires
        s@.len() == 5,
    ensures
        r == is_full_house_sorted(s@),
{
    (s[0].get_rank() == s[2].get_rank() && s[3].get_rank() == s[4].get_rank() && s[2].get_rank()
        != s[3].get_rank()) || (s[0].get_rank() == s[1].get_rank() && s[2].get_rank()
        == s[4].get_rank() && s[1].get_rank() != s[2].get_rank())
}

/// Do the five sorted cards split into a run of four of one rank and one
/// other card?
fn is_four_of_a_kind_exec(s: &Vec<PlayedCard>) -> (r: bool)
    requires
        s@.len() == 5,
    ensures
        r == is_four_of_a_kind_sorted(s@),
{
    (s[0].get_rank() == s[3].get_rank() && s[3].get_rank() != s[4].get_rank()) || (s[0].get_rank()
        != s[1].get_rank() && s[1].get_rank() == s[4].get_rank())
}

/// Are the five sorted cards five consecutive canonical ranks?
fn is_straight_exec(s: &Vec<PlayedCard>) -> (r: bool)
    requires
        s@.len() == 5,
    ensures
        r == is_straight_sorted(s@),
{
    let i0 = rank_index(s[0].get_rank());
    let i1 = rank_index(s[1].get_rank());
    let i2 = rank_index(s[2].get_rank());
    let i3 = rank_index(s[3].get_rank());
    let i4 = rank_index(s[4].get_rank());
    let r = i1 == i0 + 1 && i2 == i1 + 1 && i3 == i2 + 1 && i4 == i3 + 1;
    proof {
        if r {
            assert forall|i: int|
                1 <= i < s@.len() implies rank_idx((#[trigger] s@[i]).rank) == rank_idx(
                s@[i - 1].rank,
            ) + 1 by {}
        }
    }
    r
}

/// Do all five cards share one suit?
fn is_flush_exec(s: &Vec<PlayedCard>) -> (r: bool)
    requires
        s@.len() == 5,
    ensures
        r == is_flush_sorted(s@),
{
    let s0 = s[0].get_suit();
    let r = s[1].get_suit() == s0 && s[2].get_suit() == s0 && s[3].get_suit() == s0
        && s[4].get_suit() == s0;
    proof {
        if r {
            assert forall|i: int, j: int|
                0 <= i < s@.len() && 0 <= j < s@.len() implies (#[trigger] s@[i]).suit == (
            #[trigger] s@[j]).suit by {}
        }
    }
    r
}

} // verus!
