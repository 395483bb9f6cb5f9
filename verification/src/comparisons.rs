//! The strength comparator: whether one hand outranks another under the
//! table's current suit and rank orderings.
//!
//! A card's strength is its position in the mutable orderings, not its
//! canonical position: the later a rank or suit appears in the ordering,
//! the stronger it is. Rank is compared first; suit only breaks rank ties.

use vstd::prelude::*;
use vstd::multiset::Multiset;
use vstd::relations::sorted_by;

use crate::cards::{Card, PlayedCard, Rank, Suit};
use crate::cards::rank_idx;
use crate::hands::{canon_le, canon_leq, hand_wf, sorted_of, sort_cards, spec_cards, trick_type_idx, trick_type_index, trick_wf};
use crate::hands::{lemma_rank_idx_injective, lemma_sorted_of_multiset};
use crate::hands::{Hand, Trick, TrickType};

verus! {

broadcast use vstd::seq_lib::group_to_multiset_ensures, vstd::array::group_array_axioms;

/// First position of a rank in an ordering; the ordering's length when it
/// is absent.
pub open spec fn pos_in_ranks(ro: Seq<Rank>, r: Rank) -> int
    decreases ro.len(),
{
    if ro.len() == 0 {
        0
    } else if ro[0] == r {
        0
    } else {
        1 + pos_in_ranks(ro.drop_first(), r)
    }
}

/// First position of a suit in an ordering; the ordering's length when it
/// is absent.
pub open spec fn pos_in_suits(so: Seq<Suit>, s: Suit) -> int
    decreases so.len(),
{
    if so.len() == 0 {
        0
    } else if so[0] == s {
        0
    } else {
        1 + pos_in_suits(so.drop_first(), s)
    }
}

/// A suit ordering is a permutation of the four suits.
pub open spec fn is_suit_permutation(so: Seq<Suit>) -> bool {
    so.len() == 4 && so.no_duplicates() && (forall|s: Suit| so.contains(s))
}

/// A rank ordering is a permutation of the thirteen ranks.
pub open spec fn is_rank_permutation(ro: Seq<Rank>) -> bool {
    ro.len() == 13 && ro.no_duplicates() && (forall|r: Rank| ro.contains(r))
}

/// `pos_in_ranks` names the first occurrence of a rank, or the length
/// when the rank is absent.
pub proof fn lemma_pos_in_ranks(ro: Seq<Rank>, r: Rank)
    ensures
        ro.contains(r) ==> {
            let p = pos_in_ranks(ro, r);
            &&& 0 <= p < ro.len()
            &&& ro[p] == r
            &&& forall|k: int| 0 <= k < p ==> ro[k] != r
        },
        !ro.contains(r) ==> pos_in_ranks(ro, r) == ro.len(),
    decreases ro.len(),
{
    if ro.len() > 0 && ro[0] != r {
        let d = ro.drop_first();
        lemma_pos_in_ranks(d, r);
        assert(forall|i: int| 0 <= i < d.len() ==> #[trigger] d[i] == ro[i + 1]);
        if ro.contains(r) {
            let w = choose|i: int| 0 <= i < ro.len() && ro[i] == r;
            assert(d[w - 1] == r);
            assert(d.contains(r));
            let p = pos_in_ranks(ro, r);
            let pd = pos_in_ranks(d, r);
            assert(ro[p] == d[pd]);
            assert forall|k: int| 0 <= k < p implies ro[k] != r by {
                if k >= 1 {
                    assert(d[k - 1] != r);
                }
            }
        } else {
            assert(!d.contains(r)) by {
                if d.contains(r) {
                    let w = choose|i: int| 0 <= i < d.len() && d[i] == r;
                    assert(ro[w + 1] == r);
                }
            }
        }
    }
}

/// `pos_in_suits` names the first occurrence of a suit, or the length
/// when the suit is absent.
pub proof fn lemma_pos_in_suits(so: Seq<Suit>, s: Suit)
    ensures
        so.contains(s) ==> {
            let p = pos_in_suits(so, s);
            &&& 0 <= p < so.len()
            &&& so[p] == s
            &&& forall|k: int| 0 <= k < p ==> so[k] != s
        },
        !so.contains(s) ==> pos_in_suits(so, s) == so.len(),
    decreases so.len(),
{
    if so.len() > 0 && so[0] != s {
        let d = so.drop_first();
        lemma_pos_in_suits(d, s);
        assert(forall|i: int| 0 <= i < d.len() ==> #[trigger] d[i] == so[i + 1]);
        if so.contains(s) {
            let w = choose|i: int| 0 <= i < so.len() && so[i] == s;
            assert(d[w - 1] == s);
            assert(d.contains(s));
            let p = pos_in_suits(so, s);
            let pd = pos_in_suits(d, s);
            assert(so[p] == d[pd]);
            assert forall|k: int| 0 <= k < p implies so[k] != s by {
                if k >= 1 {
                    assert(d[k - 1] != s);
                }
            }
        } else {
            assert(!d.contains(s)) by {
                if d.contains(s) {
                    let w = choose|i: int| 0 <= i < d.len() && d[i] == s;
                    assert(so[w + 1] == s);
                }
            }
        }
    }
}

/// In a reversed ordering without duplicates, a rank's position is the
/// mirror of its position in the original ordering.
pub proof fn lemma_pos_reverse_rank(ro: Seq<Rank>, r: Rank)
    requires
        ro.no_duplicates(),
        ro.contains(r),
    ensures
        pos_in_ranks(ro.reverse(), r) == ro.len() - 1 - pos_in_ranks(ro, r),
{
    let rev = ro.reverse();
    let p = pos_in_ranks(ro, r);
    lemma_pos_in_ranks(ro, r);
    assert(rev[ro.len() - 1 - p] == r);
    assert(rev.contains(r));
    lemma_pos_in_ranks(rev, r);
    let q = pos_in_ranks(rev, r);
    assert(rev[q] == r);
    assert(ro[ro.len() - 1 - q] == r);
    assert(ro.len() - 1 - q == p);
}

/// One played card is strictly stronger than another under the given
/// orderings: its rank stands later in the rank ordering, or the ranks
/// stand equal and its suit stands later in the suit ordering.
pub open spec fn stronger(a: PlayedCard, b: PlayedCard, so: Seq<Suit>, ro: Seq<Rank>) -> bool {
    ||| pos_in_ranks(ro, a.rank) > pos_in_ranks(ro, b.rank)
    ||| (pos_in_ranks(ro, a.rank) == pos_in_ranks(ro, b.rank) && pos_in_suits(so, a.suit)
        > pos_in_suits(so, b.suit))
}

/// The strongest card of a non-empty sequence under the given orderings;
/// on ties, the earliest of the tied cards.
pub open spec fn top_card(cards: Seq<PlayedCard>, so: Seq<Suit>, ro: Seq<Rank>) -> PlayedCard
    recommends
        cards.len() > 0,
    decreases cards.len(),
{
    if cards.len() <= 1 {
        cards[0]
    } else {
        let prev = top_card(cards.drop_last(), so, ro);
        if stronger(cards.last(), prev, so, ro) {
            cards.last()
        } else {
            prev
        }
    }
}

/// The top card is one of the cards, and no card is stronger than it.
pub proof fn lemma_top_card(cards: Seq<PlayedCard>, so: Seq<Suit>, ro: Seq<Rank>)
    requires
        cards.len() > 0,
    ensures
        cards.contains(top_card(cards, so, ro)),
        forall|i: int| 0 <= i < cards.len() ==> !stronger(cards[i], top_card(cards, so, ro), so, ro),
    decreases cards.len(),
{
    if cards.len() > 1 {
        lemma_top_card(cards.drop_last(), so, ro);
        let prev = top_card(cards.drop_last(), so, ro);
        assert(cards.drop_last().contains(prev));
        let j = choose|j: int|
            0 <= j < cards.drop_last().len() && cards.drop_last()[j] == prev;
        assert(cards[j] == prev);
        assert forall|i: int|
            0 <= i < cards.len() implies !stronger(cards[i], top_card(cards, so, ro), so, ro) by {
            if i < cards.len() - 1 {
                assert(cards.drop_last()[i] == cards[i]);
            }
        }
    }
}

/// The comparison cards of a trick: for a full house the three cards of
/// the triple rank, for four of a kind the four cards of the quadruple
/// rank, otherwise all five cards. The groups are contiguous runs of the
/// canonically sorted cards.
pub open spec fn comp_cards(t: Trick) -> Seq<PlayedCard> {
    let s = sorted_of(t.cards@);
    match t.trick_type {
        TrickType::FullHouse => if s[0].rank == s[2].rank {
            s.subrange(0, 3)
        } else {
            s.subrange(2, 5)
        },
        TrickType::FourOfAKind => if s[0].rank == s[3].rank {
            s.subrange(0, 4)
        } else {
            s.subrange(1, 5)
        },
        _ => t.cards@,
    }
}

/// Whether one five-card trick outranks another: a strictly higher trick
/// type always wins; on equal types the tricks' comparison cards decide.
pub open spec fn spec_beats_five(t1: Trick, t2: Trick, so: Seq<Suit>, ro: Seq<Rank>) -> bool {
    if trick_type_idx(t2.trick_type) > trick_type_idx(t1.trick_type) {
        true
    } else if trick_type_idx(t2.trick_type) < trick_type_idx(t1.trick_type) {
        false
    } else {
        stronger(top_card(comp_cards(t2), so, ro), top_card(comp_cards(t1), so, ro), so, ro)
    }
}

/// Whether the candidate hand legally outranks the previous hand under
/// the given orderings. Hands of different shapes never outrank each
/// other, and nothing outranks or is outranked by a pass; a single, pair
/// or prial is reduced to its strongest card.
pub open spec fn spec_beats(last: Hand, new: Hand, so: Seq<Suit>, ro: Seq<Rank>) -> bool {
    match (last, new) {
        (Hand::Single(_), Hand::Single(_)) | (Hand::Pair(_, _), Hand::Pair(_, _)) | (
            Hand::Prial(_, _, _),
            Hand::Prial(_, _, _),
        ) => stronger(
            top_card(spec_cards(new), so, ro),
            top_card(spec_cards(last), so, ro),
            so,
            ro,
        ),
        (Hand::FiveCardTrick(t1), Hand::FiveCardTrick(t2)) => spec_beats_five(t1, t2, so, ro),
        _ => false,
    }
}

/// No hand beats an identical hand: the comparator is irreflexive.
pub proof fn lemma_beats_irreflexive(h: Hand, so: Seq<Suit>, ro: Seq<Rank>)
    ensures
        !spec_beats(h, h, so, ro),
{
}

/// The single rank a hand of a rank-stable shape reduces to under
/// comparison, whatever the orderings: the shared rank of a single,
/// pair or prial, and the rank of the comparison group of a full house
/// or four of a kind.
pub open spec fn comp_rank(h: Hand) -> Rank {
    match h {
        Hand::Single(a) => a.rank,
        Hand::Pair(a, _) => a.rank,
        Hand::Prial(a, _, _) => a.rank,
        Hand::FiveCardTrick(t) => comp_cards(t)[0].rank,
        Hand::Pass => Rank::Three,
    }
}

/// The shape pairings whose comparison card keeps its rank when the
/// orderings reverse: singles, pairs and prials, and full houses or
/// four-of-a-kinds of equal trick type. A straight or flush is not
/// among them: reversing the orderings makes a different card of the
/// trick its comparison card.
pub open spec fn rank_stable_shapes(last: Hand, new: Hand) -> bool {
    match (last, new) {
        (Hand::Single(_), Hand::Single(_)) | (Hand::Pair(_, _), Hand::Pair(_, _)) | (
            Hand::Prial(_, _, _),
            Hand::Prial(_, _, _),
        ) => true,
        (Hand::FiveCardTrick(t1), Hand::FiveCardTrick(t2)) => t1.trick_type == t2.trick_type && (
        t1.trick_type == TrickType::FullHouse || t1.trick_type == TrickType::FourOfAKind),
        _ => false,
    }
}

/// All comparison cards of a well-formed full house or four of a kind
/// share one rank.
proof fn lemma_comp_cards_same_rank(t: Trick)
    requires
        trick_wf(t),
        t.trick_type == TrickType::FullHouse || t.trick_type == TrickType::FourOfAKind,
    ensures
        comp_cards(t).len() > 0,
        forall|i: int|
            0 <= i < comp_cards(t).len() ==> (#[trigger] comp_cards(t)[i]).rank == comp_cards(
                t,
            )[0].rank,
{
    let s = sorted_of(t.cards@);
    lemma_sorted_of_multiset(t.cards@);
    assert(s.len() == 5);
    assert forall|i: int, j: int| 0 <= i < j < 5 implies rank_idx(s[i].rank) <= rank_idx(
        s[j].rank,
    ) by {
        assert(canon_le()(s[i], s[j]));
        assert(canon_leq(s[i], s[j]));
    }
    assert forall|i: int, j: int|
        0 <= i < j < 5 && s[i].rank == s[j].rank implies forall|k: int|
            i <= k <= j ==> (#[trigger] s[k]).rank == s[i].rank by {
        assert forall|k: int| i <= k <= j implies (#[trigger] s[k]).rank == s[i].rank by {
            if i < k {
                assert(rank_idx(s[i].rank) <= rank_idx(s[k].rank));
            }
            if k < j {
                assert(rank_idx(s[k].rank) <= rank_idx(s[j].rank));
            }
            lemma_rank_idx_injective(s[k].rank, s[i].rank);
        }
    }
}

/// Two ranks at one position of an ordering are the same rank.
proof fn lemma_rank_pos_injective(ro: Seq<Rank>, r1: Rank, r2: Rank)
    requires
        ro.contains(r1),
        ro.contains(r2),
        pos_in_ranks(ro, r1) == pos_in_ranks(ro, r2),
    ensures
        r1 == r2,
{
    lemma_pos_in_ranks(ro, r1);
    lemma_pos_in_ranks(ro, r2);
}

/// The strongest of a set of cards of one rank keeps that rank.
proof fn lemma_top_rank(cards: Seq<PlayedCard>, so: Seq<Suit>, ro: Seq<Rank>, rk: Rank)
    requires
        cards.len() > 0,
        forall|i: int| 0 <= i < cards.len() ==> (#[trigger] cards[i]).rank == rk,
    ensures
        top_card(cards, so, ro).rank == rk,
{
    lemma_top_card(cards, so, ro);
    let c = top_card(cards, so, ro);
    let i = choose|i: int| 0 <= i < cards.len() && cards[i] == c;
    assert(cards[i].rank == rk);
}

/// A comparison that rank alone decided flips when both orderings are
/// reversed: what beat before no longer beats. This holds of the
/// rank-stable shape pairings with differing comparison ranks; a
/// comparison decided by suit on equal ranks, or one between straights
/// or flushes, need not flip, because the reversed comparison reduces
/// the hands to other cards.
pub proof fn lemma_beats_flips_under_reversal(last: Hand, new: Hand, so: Seq<Suit>, ro: Seq<Rank>)
    requires
        is_suit_permutation(so),
        is_rank_permutation(ro),
        hand_wf(last),
        hand_wf(new),
        rank_stable_shapes(last, new),
        comp_rank(last) != comp_rank(new),
        spec_beats(last, new, so, ro),
    ensures
        !spec_beats(last, new, so.reverse(), ro.reverse()),
{
    let rl = comp_rank(last);
    let rn = comp_rank(new);
    let rso = so.reverse();
    let rro = ro.reverse();
    let (cl, cn) = match (last, new) {
        (Hand::FiveCardTrick(t1), Hand::FiveCardTrick(t2)) => {
            lemma_comp_cards_same_rank(t1);
            lemma_comp_cards_same_rank(t2);
            (comp_cards(t1), comp_cards(t2))
        },
        _ => (spec_cards(last), spec_cards(new)),
    };
    assert(cl.len() > 0 && cn.len() > 0);
    assert(forall|i: int| 0 <= i < cl.len() ==> (#[trigger] cl[i]).rank == rl);
    assert(forall|i: int| 0 <= i < cn.len() ==> (#[trigger] cn[i]).rank == rn);
    lemma_top_rank(cl, so, ro, rl);
    lemma_top_rank(cn, so, ro, rn);
    lemma_top_rank(cl, rso, rro, rl);
    lemma_top_rank(cn, rso, rro, rn);
    assert(stronger(top_card(cn, so, ro), top_card(cl, so, ro), so, ro));
    assert(ro.contains(rl) && ro.contains(rn));
    if pos_in_ranks(ro, rn) == pos_in_ranks(ro, rl) {
        lemma_rank_pos_injective(ro, rn, rl);
        assert(false);
    }
    assert(pos_in_ranks(ro, rn) > pos_in_ranks(ro, rl));
    lemma_pos_reverse_rank(ro, rl);
    lemma_pos_reverse_rank(ro, rn);
    assert(pos_in_ranks(rro, rn) < pos_in_ranks(rro, rl));
    assert(!stronger(top_card(cn, rso, rro), top_card(cl, rso, rro), rso, rro));
}

/// First position of a rank in the rank ordering, or 13 when absent.
fn rank_pos_exec(rank_order: &[Rank; 13], r: Rank) -> (p: usize)
    ensures
        p as int == pos_in_ranks(rank_order@, r),
{
    let mut i: usize = 0;
    proof {
        assert(rank_order@.skip(0) =~= rank_order@);
    }
    while i < 13
        invariant
            0 <= i <= 13,
            rank_order@.len() == 13,
            pos_in_ranks(rank_order@, r) == i + pos_in_ranks(rank_order@.skip(i as int), r),
            forall|k: int| 0 <= k < i ==> rank_order@[k] != r,
        decreases 13 - i,
    {
        proof {
            assert(rank_order@.skip(i as int)[0] == rank_order@[i as int]);
        }
        if rank_order[i] == r {
            return i;
        }
        proof {
            assert(rank_order@.skip(i as int).drop_first() =~= rank_order@.skip(i as int + 1));
        }
        i = i + 1;
    }
    proof {
        assert(rank_order@.skip(13).len() == 0);
    }
    13
}

/// First position of a suit in the suit ordering, or 4 when absent.
fn suit_pos_exec(suit_order: &[Suit; 4], s: Suit) -> (p: usize)
    ensures
        p as int == pos_in_suits(suit_order@, s),
{
    let mut i: usize = 0;
    proof {
        assert(suit_order@.skip(0) =~= suit_order@);
    }
    while i < 4
        invariant
            0 <= i <= 4,
            suit_order@.len() == 4,
            pos_in_suits(suit_order@, s) == i + pos_in_suits(suit_order@.skip(i as int), s),
            forall|k: int| 0 <= k < i ==> suit_order@[k] != s,
        decreases 4 - i,
    {
        proof {
            assert(suit_order@.skip(i as int)[0] == suit_order@[i as int]);
        }
        if suit_order[i] == s {
            return i;
        }
        proof {
            assert(suit_order@.skip(i as int).drop_first() =~= suit_order@.skip(i as int + 1));
        }
        i = i + 1;
    }
    proof {
        assert(suit_order@.skip(4).len() == 0);
    }
    4
}

/// Is card `a` strictly stronger than card `b` under the orderings?
fn stronger_exec(a: PlayedCard, b: PlayedCard, suit_order: &[Suit; 4], rank_order: &[Rank; 13]) -> (r:
    bool)
    ensures
        r == stronger(a, b, suit_order@, rank_order@),
{
    let ar = rank_pos_exec(rank_order, a.get_rank());
    let br = rank_pos_exec(rank_order, b.get_rank());
    if ar != br {
        ar > br
    } else {
        let asu = suit_pos_exec(suit_order, a.get_suit());
        let bsu = suit_pos_exec(suit_order, b.get_suit());
        asu > bsu
    }
}

/// The strongest card of a non-empty collection of played cards; on
/// ties, the earliest of the tied cards.
fn get_top_card(cards: &Vec<PlayedCard>, suit_order: &[Suit; 4], rank_order: &[Rank; 13]) -> (c:
    PlayedCard)
    requires
        cards@.len() > 0,
    ensures
        c == top_card(cards@, suit_order@, rank_order@),
{
    let mut cur = cards[0];
    let mut i: usize = 1;
    proof {
        assert(cards@.take(1) =~= seq![cards@[0]]);
    }
    while i < cards.len()
        invariant
            1 <= i <= cards@.len(),
            cur == top_card(cards@.take(i as int), suit_order@, rank_order@),
        decreases cards@.len() - i,
    {
        proof {
            assert(cards@.take(i as int + 1).drop_last() =~= cards@.take(i as int));
            assert(cards@.take(i as int + 1).last() == cards@[i as int]);
        }
        if stronger_exec(cards[i], cur, suit_order, rank_order) {
            cur = cards[i];
        }
        i = i + 1;
    }
    proof {
        assert(cards@.take(cards@.len() as int) =~= cards@);
    }
    cur
}

/// The comparison cards of a trick, as an executable value.
fn trick_comp_cards(t: &Trick) -> (v: Vec<PlayedCard>)
    ensures
        v@ == comp_cards(*t),
        v@.len() > 0,
{
    let all = vec![t.cards[0], t.cards[1], t.cards[2], t.cards[3], t.cards[4]];
    proof {
        assert(all@ =~= t.cards@);
    }
    match t.trick_type {
        TrickType::FullHouse => {
            let s = sort_cards(&all);
            let v = if s[0].get_rank() == s[2].get_rank() {
                vec![s[0], s[1], s[2]]
            } else {
                vec![s[2], s[3], s[4]]
            };
            proof {
                if s@[0].rank == s@[2].rank {
                    assert(v@ =~= sorted_of(t.cards@).subrange(0, 3));
                } else {
                    assert(v@ =~= sorted_of(t.cards@).subrange(2, 5));
                }
            }
            v
        },
        TrickType::FourOfAKind => {
            let s = sort_cards(&all);
            let v = if s[0].get_rank() == s[3].get_rank() {
                vec![s[0], s[1], s[2], s[3]]
            } else {
                vec![s[1], s[2], s[3], s[4]]
            };
            proof {
                if s@[0].rank == s@[3].rank {
                    assert(v@ =~= sorted_of(t.cards@).subrange(0, 4));
                } else {
                    assert(v@ =~= sorted_of(t.cards@).subrange(1, 5));
                }
            }
            v
        },
        _ => all,
    }
}

/// Decide whether the candidate five-card trick outranks the previous
/// one: a strictly higher trick type always wins; on equal types, the
/// strongest card of the comparison group decides — all five cards for a
/// straight, flush, straight flush or five of a kind, the triple for a
/// full house, the quadruple for four of a kind.
pub fn compare_five_cards(
    last_move: Hand,
    new_hand: Hand,
    suit_order: [Suit; 4],
    rank_order: [Rank; 13],
) -> (r: bool)
    requires
        last_move is FiveCardTrick,
        new_hand is FiveCardTrick,
    ensures
        r == spec_beats(last_move, new_hand, suit_order@, rank_order@),
{
    let (t1, t2) = match (last_move, new_hand) {
        (Hand::FiveCardTrick(a), Hand::FiveCardTrick(b)) => (a, b),
        _ => {
            return false;
        },
    };
    let i1 = trick_type_index(t1.trick_type);
    let i2 = trick_type_index(t2.trick_type);
    if i2 > i1 {
        return true;
    }
    if i2 < i1 {
        return false;
    }
    let c1 = trick_comp_cards(&t1);
    let c2 = trick_comp_cards(&t2);
    let last_top = get_top_card(&c1, &suit_order, &rank_order);
    let new_top = get_top_card(&c2, &suit_order, &rank_order);
    stronger_exec(new_top, last_top, &suit_order, &rank_order)
}

/// Decide whether the candidate hand legally outranks the previous hand
/// under the current orderings: hands of different shapes never outrank
/// each other, nothing outranks or is outranked by a pass, a single,
/// pair or prial is reduced to its strongest card with rank compared
/// first and suit breaking rank ties, and five-card tricks compare by
/// trick type first and comparison card second.
pub fn compare_hands(
    last_move: Hand,
    new_hand: Hand,
    suit_order: [Suit; 4],
    rank_order: [Rank; 13],
) -> (r: bool)
    ensures
        r == spec_beats(last_move, new_hand, suit_order@, rank_order@),
{
    match (last_move, new_hand) {
        (Hand::Single(_), Hand::Single(_)) | (Hand::Pair(_, _), Hand::Pair(_, _)) | (
            Hand::Prial(_, _, _),
            Hand::Prial(_, _, _),
        ) => {
            let last_cards = last_move.to_cards();
            let new_cards = new_hand.to_cards();
            let last_top = get_top_card(&last_cards, &suit_order, &rank_order);
            let new_top = get_top_card(&new_cards, &suit_order, &rank_order);
            stronger_exec(new_top, last_top, &suit_order, &rank_order)
        },
        (Hand::FiveCardTrick(_), Hand::FiveCardTrick(_)) => compare_five_cards(
            last_move,
            new_hand,
            suit_order,
            rank_order,
        ),
        _ => false,
    }
}

/// Cards at least as strong as come earlier: the descending order on
/// played cards under the given orderings.
pub open spec fn desc_le(so: Seq<Suit>, ro: Seq<Rank>) -> spec_fn(PlayedCard, PlayedCard) -> bool {
    |a: PlayedCard, b: PlayedCard| !stronger(b, a, so, ro)
}

/// Sort played cards by descending strength under the given orderings:
/// the strongest card comes first. Cards of equal strength keep their
/// relative order.
pub fn sort_played_cards(
    hand: &Vec<PlayedCard>,
    suit_order: [Suit; 4],
    rank_order: [Rank; 13],
) -> (out: Vec<PlayedCard>)
    ensures
        sorted_by(out@, desc_le(suit_order@, rank_order@)),
        out@.to_multiset() == hand@.to_multiset(),
        out@.len() == hand@.len(),
{
    let mut work: Vec<PlayedCard> = hand.clone();
    let mut out: Vec<PlayedCard> = Vec::new();
    proof {
        assert(out@.to_multiset().add(work@.to_multiset()) =~= hand@.to_multiset());
    }
    while work.len() > 0
        invariant
            out@.to_multiset().add(work@.to_multiset()) == hand@.to_multiset(),
            out@.len() + work@.len() == hand@.len(),
            sorted_by(out@, desc_le(suit_order@, rank_order@)),
            forall|i: int, j: int|
                0 <= i < out@.len() && 0 <= j < work@.len() ==> !stronger(
                    work@[j],
                    out@[i],
                    suit_order@,
                    rank_order@,
                ),
        decreases work.len(),
    {
        let mut max_i: usize = 0;
        let mut k: usize = 1;
        while k < work.len()
            invariant
                0 < work.len(),
                max_i < k,
                k <= work.len(),
                forall|j: int|
                    0 <= j < k ==> !stronger(work@[j], work@[max_i as int], suit_order@, rank_order@),
            decreases work.len() - k,
        {
            if stronger_exec(work[k], work[max_i], &suit_order, &rank_order) {
                max_i = k;
            }
            k = k + 1;
        }
        let ghost old_out = out@;
        let ghost old_work = work@;
        let m = work.remove(max_i);
        out.push(m);
        proof {
            assert(old_work[max_i as int] == m);
            assert(old_work.contains(m));
            assert(old_work.to_multiset().count(m) > 0);
            assert(work@ == old_work.remove(max_i as int));
            assert(old_work.remove(max_i as int).to_multiset() =~= old_work.to_multiset().remove(
                old_work[max_i as int],
            ));
            assert(old_out.push(m).to_multiset() =~= old_out.to_multiset().insert(m));
            assert(out@.to_multiset().add(work@.to_multiset()) =~= hand@.to_multiset());
            assert forall|i: int, j: int|
                0 <= i < out@.len() && 0 <= j < work@.len() implies !stronger(
                work@[j],
                out@[i],
                suit_order@,
                rank_order@,
            ) by {
                assert(old_work.remove(max_i as int).contains(work@[j]));
                assert(old_work.contains(work@[j]));
            }
            assert(sorted_by(out@, desc_le(suit_order@, rank_order@)));
        }
    }
    proof {
        assert(work@.to_multiset() =~= Multiset::empty());
        assert(out@.to_multiset() =~= hand@.to_multiset());
    }
    out
}

/// Strength of a physical card's rank for sorting a holding: a standard
/// card's rank position, and one past the strongest position for the
/// Joker.
pub open spec fn unplayed_rank_strength(ro: Seq<Rank>, c: Card) -> int {
    match c {
        Card::Joker => ro.len() as int,
        Card::Standard { rank, .. } => pos_in_ranks(ro, rank),
    }
}

/// Strength of a physical card's suit for sorting a holding: a standard
/// card's suit position, and the strongest position for the Joker.
pub open spec fn unplayed_suit_strength(so: Seq<Suit>, c: Card) -> int {
    match c {
        Card::Joker => so.len() as int - 1,
        Card::Standard { suit, .. } => pos_in_suits(so, suit),
    }
}

/// One physical card is strictly stronger than another: the Joker stands
/// above every rank, and otherwise rank decides first with suit breaking
/// rank ties.
pub open spec fn stronger_unplayed(a: Card, b: Card, so: Seq<Suit>, ro: Seq<Rank>) -> bool {
    ||| unplayed_rank_strength(ro, a) > unplayed_rank_strength(ro, b)
    ||| (unplayed_rank_strength(ro, a) == unplayed_rank_strength(ro, b) && unplayed_suit_strength(
        so,
        a,
    ) > unplayed_suit_strength(so, b))
}

/// Cards at least as strong as come earlier: the descending order on
/// physical cards under the given orderings.
pub open spec fn desc_le_unplayed(so: Seq<Suit>, ro: Seq<Rank>) -> spec_fn(Card, Card) -> bool {
    |a: Card, b: Card| !stronger_unplayed(b, a, so, ro)
}

/// Is physical card `a` strictly stronger than `b` under the orderings?
fn stronger_unplayed_exec(a: Card, b: Card, suit_order: &[Suit; 4], rank_order: &[Rank; 13]) -> (r:
    bool)
    ensures
        r == stronger_unplayed(a, b, suit_order@, rank_order@),
{
    let ar = match a {
        Card::Joker => 13,
        Card::Standard { rank, .. } => rank_pos_exec(rank_order, rank),
    };
    let br = match b {
        Card::Joker => 13,
        Card::Standard { rank, .. } => rank_pos_exec(rank_order, rank),
    };
    if ar != br {
        ar > br
    } else {
        let asu = match a {
            Card::Joker => 3,
            Card::Standard { suit, .. } => suit_pos_exec(suit_order, suit),
        };
        let bsu = match b {
            Card::Joker => 3,
            Card::Standard { suit, .. } => suit_pos_exec(suit_order, suit),
        };
        asu > bsu
    }
}

/// Sort physical cards by descending strength under the given orderings:
/// the strongest card comes first, with the Joker above every standard
/// card. Cards of equal strength keep their relative order.
pub fn sort_unplayed_cards(hand: &Vec<Card>, suit_order: [Suit; 4], rank_order: [Rank; 13]) -> (out:
    Vec<Card>)
    ensures
        sorted_by(out@, desc_le_unplayed(suit_order@, rank_order@)),
        out@.to_multiset() == hand@.to_multiset(),
        out@.len() == hand@.len(),
{
    let mut work: Vec<Card> = hand.clone();
    let mut out: Vec<Card> = Vec::new();
    proof {
        assert(out@.to_multiset().add(work@.to_multiset()) =~= hand@.to_multiset());
    }
    while work.len() > 0
        invariant
            out@.to_multiset().add(work@.to_multiset()) == hand@.to_multiset(),
            out@.len() + work@.len() == hand@.len(),
            sorted_by(out@, desc_le_unplayed(suit_order@, rank_order@)),
            forall|i: int, j: int|
                0 <= i < out@.len() && 0 <= j < work@.len() ==> !stronger_unplayed(
                    work@[j],
                    out@[i],
                    suit_order@,
                    rank_order@,
                ),
        decreases work.len(),
    {
        let mut max_i: usize = 0;
        let mut k: usize = 1;
        while k < work.len()
            invariant
                0 < work.len(),
                max_i < k,
                k <= work.len(),
                forall|j: int|
                    0 <= j < k ==> !stronger_unplayed(
                        work@[j],
                        work@[max_i as int],
                        suit_order@,
                        rank_order@,
                    ),
            decreases work.len() - k,
        {
            if stronger_unplayed_exec(work[k], work[max_i], &suit_order, &rank_order) {
                max_i = k;
            }
            k = k + 1;
        }
        let ghost old_out = out@;
        let ghost old_work = work@;
        let m = work.remove(max_i);
        out.push(m);
        proof {
            assert(old_work[max_i as int] == m);
            assert(old_work.contains(m));
            assert(old_work.to_multiset().count(m) > 0);
            assert(work@ == old_work.remove(max_i as int));
            assert(old_work.remove(max_i as int).to_multiset() =~= old_work.to_multiset().remove(
                old_work[max_i as int],
            ));
            assert(old_out.push(m).to_multiset() =~= old_out.to_multiset().insert(m));
            assert(out@.to_multiset().add(work@.to_multiset()) =~= hand@.to_multiset());
            assert forall|i: int, j: int|
                0 <= i < out@.len() && 0 <= j < work@.len() implies !stronger_unplayed(
                work@[j],
                out@[i],
                suit_order@,
                rank_order@,
            ) by {
                assert(old_work.remove(max_i as int).contains(work@[j]));
                assert(old_work.contains(work@[j]));
            }
            assert(sorted_by(out@, desc_le_unplayed(suit_order@, rank_order@)));
        }
    }
    proof {
        assert(work@.to_multiset() =~= Multiset::empty());
        assert(out@.to_multiset() =~= hand@.to_multiset());
    }
    out
}

} // verus!
