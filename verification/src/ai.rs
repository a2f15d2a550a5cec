//! The computer player: choosing a bid and choosing cards to play.

use vstd::prelude::*;
use crate::tables::{Bid, Card, Game, GameConfig, Trick, TrickPlay, copy_card};
use crate::play::{
    in_hand_of, HAND, play_info, infos_of, play_infos, cards_ok, card_at, holds_card_id, card_with_id, card_problem,
    first_card_problem, ranks_sum, one_suit, seat_holds_suit, played_cards_error, ids_distinct,
    card_ids_distinct,
};
use crate::auction::{
    bids_in_order, last_real_bid, lemma_last_real_bid, find_last_real_bid, bid_error, call_of, has_real_bid,
    lemma_last_real_bid_position,
};
use crate::types::{
    bid_outranks, outranks, same_team, teammates, suit_bid_higher, PHASE_AUCTION, PHASE_FINISHED, PHASE_LOBBY,
    PHASE_PLAY,
};
use crate::logic::{winning_play_index, wins_trick, has_active_play, lemma_winner_unique, TrickPlayInfo};

verus! {

/// High-card points: A=4, K=3, Q=2, J=1, others 0.
pub open spec fn hcp_of(rank: u8) -> u8 {
    if rank == 14 {
        4
    } else if rank == 13 {
        3
    } else if rank == 12 {
        2
    } else if rank == 11 {
        1
    } else {
        0
    }
}

/// High-card points: A=4, K=3, Q=2, J=1
pub fn hcp(rank: u8) -> (r: u8)
    ensures
        r == hcp_of(rank),
{
    match rank {
        14 => 4,
        13 => 3,
        12 => 2,
        11 => 1,
        _ => 0,
    }
}

/// `x` placed into a suit listed highest rank first: after every card of at
/// least its rank, so that cards of equal rank keep the order they came in.
pub open spec fn insert_by_rank(sorted: Seq<(u8, u32)>, x: (u8, u32)) -> Seq<(u8, u32)>
    decreases sorted.len(),
{
    if sorted.len() == 0 {
        seq![x]
    } else if sorted.last().0 >= x.0 {
        sorted.push(x)
    } else {
        insert_by_rank(sorted.drop_last(), x).push(sorted.last())
    }
}

/// The pairs listed highest rank first, cards of equal rank in their given
/// order (a stable sort by rank, highest first).
pub open spec fn sort_by_rank(pairs: Seq<(u8, u32)>) -> Seq<(u8, u32)>
    decreases pairs.len(),
{
    if pairs.len() == 0 {
        pairs
    } else {
        insert_by_rank(sort_by_rank(pairs.drop_last()), pairs.last())
    }
}

proof fn lemma_insert_by_rank_multiset(sorted: Seq<(u8, u32)>, x: (u8, u32))
    ensures
        insert_by_rank(sorted, x).to_multiset() == sorted.to_multiset().insert(x),
    decreases sorted.len(),
{
    broadcast use vstd::seq_lib::group_to_multiset_ensures;
    if sorted.len() == 0 {
        assert(seq![x] =~= Seq::<(u8, u32)>::empty().push(x));
    } else {
        let pre = sorted.drop_last();
        assert(sorted =~= pre.push(sorted.last()));
        if sorted.last().0 < x.0 {
            lemma_insert_by_rank_multiset(pre, x);
            assert(insert_by_rank(sorted, x).to_multiset() =~= sorted.to_multiset().insert(x));
        }
    }
}

/// Sorting by rank keeps the same pairs.
proof fn lemma_sort_by_rank_multiset(pairs: Seq<(u8, u32)>)
    ensures
        sort_by_rank(pairs).to_multiset() == pairs.to_multiset(),
    decreases pairs.len(),
{
    broadcast use vstd::seq_lib::group_to_multiset_ensures;
    if pairs.len() > 0 {
        let pre = pairs.drop_last();
        lemma_sort_by_rank_multiset(pre);
        lemma_insert_by_rank_multiset(sort_by_rank(pre), pairs.last());
        assert(pairs =~= pre.push(pairs.last()));
    }
}

/// The cards of game `game_id` in the hand of `seat`, in list order.
pub open spec fn hand_of(cards: Seq<Card>, game_id: u64, seat: u8) -> Seq<Card> {
    cards.filter(|c: Card| in_hand_of(c, game_id, seat as int))
}

/// (rank, id) of the cards of suit `suit` in the hand, in hand order.
pub open spec fn suit_pairs(hand: Seq<Card>, suit: int) -> Seq<(u8, u32)> {
    hand.filter(|c: Card| c.suit == suit).map_values(|c: Card| (c.rank, c.card_id))
}

/// The cards of suit `suit` in the hand, highest rank first; cards of equal
/// rank in hand order.
pub open spec fn ranked(hand: Seq<Card>, suit: int) -> Seq<(u8, u32)> {
    sort_by_rank(suit_pairs(hand, suit))
}

/// The listing of a suit holds the suit's pairs of the hand.
proof fn lemma_ranked_multiset(hand: Seq<Card>, s: int)
    ensures
        ranked(hand, s).to_multiset() == suit_pairs(hand, s).to_multiset(),
{
    lemma_sort_by_rank_multiset(suit_pairs(hand, s));
}

/// The cards of game `game_id` in the hand of `seat`.
pub fn hand_cards(cards: &Vec<Card>, game_id: u64, seat: u8) -> (hand: Vec<Card>)
    ensures
        hand@ == hand_of(cards@, game_id, seat),
{
    let hand_loc = HAND.to_owned();
    let mut hand: Vec<Card> = Vec::new();
    let ghost pred = |c: Card| in_hand_of(c, game_id, seat as int);
    let n = cards.len();
    let mut k: usize = 0;
    while k < n
        invariant
            n == cards@.len(),
            k <= n,
            hand_loc@ == HAND@,
            pred == |c: Card| in_hand_of(c, game_id, seat as int),
            hand@ == cards@.take(k as int).filter(pred),
        decreases n - k,
    {
        proof {
            reveal_with_fuel(Seq::<_>::filter, 1);
            assert(cards@.take(k as int + 1).drop_last() =~= cards@.take(k as int));
            assert(cards@.take(k as int + 1).last() == cards@[k as int]);
        }
        let c = &cards[k];
        if c.game_id == game_id && c.owner_seat == seat && c.location == hand_loc {
            hand.push(copy_card(c));
        }
        k = k + 1;
    }
    assert(cards@.take(n as int) =~= cards@);
    hand
}

fn swap_pairs(v: &mut Vec<(u8, u32)>, i: usize, j: usize)
    requires
        i < old(v)@.len(),
        j < old(v)@.len(),
    ensures
        final(v)@ == old(v)@.update(i as int, old(v)@[j as int]).update(j as int, old(v)@[i as int]),
        final(v)@.to_multiset() == old(v)@.to_multiset(),
{
    broadcast use vstd::seq_lib::to_multiset_update;
    let ghost s = v@;
    let a = v[i];
    let b = v[j];
    v.set(i, b);
    v.set(j, a);
    proof {
        let s1 = s.update(i as int, b);
        assert(s1.to_multiset() == s.to_multiset().insert(b).remove(a));
        assert(v@.to_multiset() == s1.to_multiset().insert(a).remove(s1[j as int]));
        if i == j {
            assert(v@ =~= s);
        } else {
            assert(s1[j as int] == b);
            broadcast use vstd::seq_lib::group_to_multiset_ensures;
            assert(s.contains(a) && s.contains(b));
            let m = s.to_multiset();
            assert(m.count(a) > 0 && m.count(b) > 0);
            assert forall|x: (u8, u32)| #[trigger] v@.to_multiset().count(x) == m.count(x) by {}
            assert(v@.to_multiset() =~= m);
        }
    }
}

/// The cards of suit `suit` in the hand, highest rank first, as (rank, id).
pub fn suit_ranked(hand: &Vec<Card>, suit: u8) -> (r: Vec<(u8, u32)>)
    ensures
        r@ == ranked(hand@, suit as int),
{
    // collect the suit
    let mut pairs: Vec<(u8, u32)> = Vec::new();
    let ghost pred = |c: Card| c.suit == suit as int;
    let n = hand.len();
    let mut k: usize = 0;
    while k < n
        invariant
            n == hand@.len(),
            k <= n,
            pred == |c: Card| c.suit == suit as int,
            pairs@ == hand@.take(k as int).filter(pred).map_values(|c: Card| (c.rank, c.card_id)),
        decreases n - k,
    {
        proof {
            reveal_with_fuel(Seq::<_>::filter, 1);
            assert(hand@.take(k as int + 1).drop_last() =~= hand@.take(k as int));
            assert(hand@.take(k as int + 1).last() == hand@[k as int]);
        }
        let c = &hand[k];
        if c.suit == suit {
            pairs.push((c.rank, c.card_id));
            proof {
                let f = hand@.take(k as int + 1).filter(pred);
                assert(f.map_values(|c: Card| (c.rank, c.card_id)) =~= hand@.take(k as int).filter(pred).map_values(
                    |c: Card| (c.rank, c.card_id),
                ).push((hand@[k as int].rank, hand@[k as int].card_id)));
            }
        }
        k = k + 1;
    }
    assert(hand@.take(n as int) =~= hand@);
    assert(pairs@ == suit_pairs(hand@, suit as int));
    // insertion sort, highest rank first; equal ranks keep hand order
    let mut out: Vec<(u8, u32)> = Vec::new();
    let m = pairs.len();
    let mut k: usize = 0;
    assert(pairs@.take(0) =~= Seq::<(u8, u32)>::empty());
    while k < m
        invariant
            m == pairs@.len(),
            k <= m,
            out@ == sort_by_rank(pairs@.take(k as int)),
        decreases m - k,
    {
        let x = pairs[k];
        proof {
            assert(pairs@.take(k as int + 1).drop_last() =~= pairs@.take(k as int));
            assert(pairs@.take(k as int + 1).last() == x);
        }
        let ghost before = out@;
        out.push(x);
        let mut j: usize = out.len() - 1;
        proof {
            assert(before.take(j as int) =~= before);
            assert(before.skip(j as int) =~= Seq::<(u8, u32)>::empty());
            assert(out@ =~= before.take(j as int).push(x) + before.skip(j as int));
            assert(insert_by_rank(before, x) =~= insert_by_rank(before.take(j as int), x) + before.skip(j as int));
        }
        while j > 0 && out[j - 1].0 < out[j].0
            invariant
                j < out@.len(),
                j <= before.len(),
                out@ == before.take(j as int).push(x) + before.skip(j as int),
                insert_by_rank(before, x) == insert_by_rank(before.take(j as int), x) + before.skip(j as int),
            decreases j,
        {
            proof {
                let t = before.take(j as int);
                assert(out@[j as int] == x);
                assert(out@[j - 1] == before[j - 1]);
                assert(t.drop_last() =~= before.take(j - 1));
                assert(t.last() == before[j - 1]);
                assert(seq![before[j - 1]] + before.skip(j as int) =~= before.skip(j - 1));
                assert(insert_by_rank(t, x) == insert_by_rank(before.take(j - 1), x).push(before[j - 1]));
                assert(insert_by_rank(before.take(j - 1), x).push(before[j - 1]) + before.skip(j as int)
                    =~= insert_by_rank(before.take(j - 1), x) + before.skip(j - 1));
            }
            swap_pairs(&mut out, j - 1, j);
            proof {
                assert(out@ =~= before.take(j - 1).push(x) + before.skip(j - 1));
            }
            j = j - 1;
        }
        proof {
            if j == 0 {
                assert(before.take(0) =~= Seq::<(u8, u32)>::empty());
                assert(before.skip(0) =~= before);
            } else {
                assert(out@[j - 1] == before[j - 1]);
                assert(before.take(j as int).last() == before[j - 1]);
            }
        }
        k = k + 1;
    }
    proof {
        assert(pairs@.take(m as int) =~= pairs@);
    }
    out
}


/// High-card points of the cards of a hand.
pub open spec fn hand_hcp(hand: Seq<Card>) -> nat
    decreases hand.len(),
{
    if hand.len() == 0 {
        0
    } else {
        hand_hcp(hand.drop_last()) + hcp_of(hand.last().rank) as nat
    }
}

/// Number of cards of suit `suit` in the hand.
pub open spec fn suit_length(hand: Seq<Card>, suit: int) -> nat
    decreases hand.len(),
{
    if hand.len() == 0 {
        0
    } else {
        suit_length(hand.drop_last(), suit) + (if hand.last().suit == suit { 1nat } else { 0nat })
    }
}

/// High-card points of the cards of suit `suit` in the hand.
pub open spec fn suit_hcp(hand: Seq<Card>, suit: int) -> nat
    decreases hand.len(),
{
    if hand.len() == 0 {
        0
    } else {
        suit_hcp(hand.drop_last(), suit) + (if hand.last().suit == suit { hcp_of(hand.last().rank) as nat } else { 0nat })
    }
}

/// Distribution points of a suit of `count` cards: void 3, singleton 2,
/// doubleton 1, and one per card beyond four.
pub open spec fn shape_points(count: nat) -> nat {
    if count == 0 {
        3
    } else if count == 1 {
        2
    } else if count == 2 {
        1
    } else if count > 4 {
        (count - 4) as nat
    } else {
        0
    }
}

/// Strength of a hand: high-card points plus distribution points.
pub open spec fn hand_strength(hand: Seq<Card>) -> nat {
    hand_hcp(hand) + shape_points(suit_length(hand, 0)) + shape_points(suit_length(hand, 1)) + shape_points(
        suit_length(hand, 2),
    ) + shape_points(suit_length(hand, 3))
}

/// Suit `s` is preferred to suit `b` for a contract: longer, or as long with
/// more high-card points, or equal in both and higher.
pub open spec fn suit_preferred(hand: Seq<Card>, s: int, b: int) -> bool {
    suit_length(hand, s) > suit_length(hand, b) || (suit_length(hand, s) == suit_length(hand, b) && (suit_hcp(
        hand,
        s,
    ) > suit_hcp(hand, b) || (suit_hcp(hand, s) == suit_hcp(hand, b) && s > b)))
}

/// The most preferred suit among `from`..3, starting from `best`.
pub open spec fn preferred_suit_from(hand: Seq<Card>, from: int, best: int) -> int
    decreases 4 - from,
{
    if from >= 4 {
        best
    } else {
        preferred_suit_from(hand, from + 1, if suit_preferred(hand, from, best) { from } else { best })
    }
}

/// The hand's longest suit (ties: more high-card points, then the higher suit).
pub open spec fn longest_suit(hand: Seq<Card>) -> int {
    preferred_suit_from(hand, 0, 0)
}

/// The spread the computer bids with a hand of strength `strength` (at least 12):
/// 12-15 gives 1, 16-19 gives 2, and so on, at most 7.
pub open spec fn spread_for_strength(strength: nat) -> i8 {
    let sp = (strength - 12) / 4 + 1;
    if sp < 7 {
        sp as i8
    } else {
        7
    }
}

/// The computer's call with this hand after these bids: pass below strength 12;
/// otherwise a bid in the longest suit (No Trump when it has fewer than four
/// cards) with the spread for the strength, or a pass when that bid does not
/// outrank the latest bid.
pub open spec fn ai_call(hand: Seq<Card>, bids: Seq<Bid>) -> (Option<i8>, Option<u8>) {
    let st = hand_strength(hand);
    if st < 12 {
        (None, None)
    } else {
        let b = longest_suit(hand);
        let suit: Option<u8> = if suit_length(hand, b) >= 4 { Some(b as u8) } else { None };
        let sp = spread_for_strength(st);
        match last_real_bid(bids) {
            Some(prev) => if !outranks(sp, suit, prev.spread.unwrap(), prev.suit) {
                (None, None)
            } else {
                (Some(sp), suit)
            },
            None => (Some(sp), suit),
        }
    }
}

/// The preferred suit is `best` or one of the suits `from`..3.
proof fn lemma_preferred_suit_range(hand: Seq<Card>, from: int, best: int)
    requires
        0 <= from,
        0 <= best < 4,
    ensures
        0 <= preferred_suit_from(hand, from, best) < 4,
    decreases 4 - from,
{
    if from < 4 {
        lemma_preferred_suit_range(hand, from + 1, if suit_preferred(hand, from, best) { from } else { best });
    }
}

/// The computer's call is always one the auction accepts, when it is the
/// computer's turn in the auction (the rules are known and the auction has room
/// for another call).
pub proof fn lemma_computer_call_is_accepted(
    game: Game,
    config: Option<GameConfig>,
    bids: Seq<Bid>,
    cards: Seq<Card>,
    seat: u8,
)
    requires
        game.phase == PHASE_AUCTION,
        seat == game.turn_seat,
        seat < 4,
        config is Some,
        bids.len() < 65535,
        forall|i: int| 0 <= i < bids.len() ==> (#[trigger] bids[i]).seat < 4,
    ensures
        bid_error(
            game,
            config,
            bids,
            seat,
            ai_call(hand_of(cards, game.game_id, seat), bids).0,
            ai_call(hand_of(cards, game.game_id, seat), bids).1,
        ) is None,
{
    let hand = hand_of(cards, game.game_id, seat);
    lemma_preferred_suit_range(hand, 0, 0);
    lemma_last_real_bid(bids);
    let call = ai_call(hand, bids);
    let all = bids.push(call_of(game, bids, seat, call.0, call.1));
    lemma_last_real_bid(all);
    let st = hand_strength(hand);
    if st >= 12 {
        assert(spread_for_strength(st) > 0);
    }
    if has_real_bid(all) {
        lemma_last_real_bid_position(all);
        let k = choose|k: int|
            0 <= k < all.len() && all[k] == last_real_bid(all).unwrap() && forall|j: int|
                k < j < all.len() ==> (#[trigger] all[j]).spread is None;
        if k < bids.len() {
            assert(all[k] == bids[k]);
        }
    }
}

/// A hand as the computer reads it: at most the 13 cards dealt, all of suits 0..3.
pub open spec fn hand_ok(hand: Seq<Card>) -> bool {
    &&& hand.len() <= 13
    &&& forall|i: int| 0 <= i < hand.len() ==> (#[trigger] hand[i]).suit < 4
}

proof fn lemma_hand_sums_bound(hand: Seq<Card>)
    ensures
        hand_hcp(hand) <= 4 * hand.len(),
        forall|s: int| #[trigger] suit_length(hand, s) <= hand.len(),
        forall|s: int| #[trigger] suit_hcp(hand, s) <= 4 * hand.len(),
    decreases hand.len(),
{
    if hand.len() > 0 {
        lemma_hand_sums_bound(hand.drop_last());
        assert forall|s: int| #[trigger] suit_length(hand, s) <= hand.len() by {
            assert(suit_length(hand.drop_last(), s) <= hand.drop_last().len());
        }
        assert forall|s: int| #[trigger] suit_hcp(hand, s) <= 4 * hand.len() by {
            assert(suit_hcp(hand.drop_last(), s) <= 4 * hand.drop_last().len());
        }
    }
}

fn shape_pts(count: u8) -> (r: u8)
    requires
        count <= 13,
    ensures
        r == shape_points(count as nat),
        r <= 9,
{
    if count == 0 {
        3
    } else if count == 1 {
        2
    } else if count == 2 {
        1
    } else if count > 4 {
        count - 4
    } else {
        0
    }
}

/// The preferred suit is at least as long as `best` and as every suit from `from` to 3.
proof fn lemma_preferred_suit_longest(hand: Seq<Card>, from: int, best: int)
    requires
        0 <= from,
    ensures
        suit_length(hand, preferred_suit_from(hand, from, best)) >= suit_length(hand, best),
        forall|x: int| from <= x < 4 ==> suit_length(hand, preferred_suit_from(hand, from, best)) >= #[trigger] suit_length(
            hand,
            x,
        ),
    decreases 4 - from,
{
    if from < 4 {
        let nb = if suit_preferred(hand, from, best) { from } else { best };
        lemma_preferred_suit_longest(hand, from + 1, nb);
    }
}

/// The computer's call: it bids only with a strength of 12 or more, at a spread
/// of 1 to 7; a suit it bids is a longest suit of the hand and has at least four
/// cards; it bids No Trump only when no suit has four cards; and a bid it makes
/// outranks the latest bid.
pub proof fn lemma_computer_call_rules(hand: Seq<Card>, bids: Seq<Bid>)
    ensures
        ai_call(hand, bids).0 is None ==> ai_call(hand, bids).1 is None,
        ai_call(hand, bids).0 is Some ==> hand_strength(hand) >= 12,
        ai_call(hand, bids).0 matches Some(sp) ==> 1 <= sp <= 7,
        ai_call(hand, bids).1 matches Some(s) ==> forall|x: int|
            0 <= x < 4 ==> suit_length(hand, s as int) >= #[trigger] suit_length(hand, x),
        ai_call(hand, bids).1 matches Some(s) ==> s < 4 && suit_length(hand, s as int) >= 4,
        ai_call(hand, bids).0 is Some && ai_call(hand, bids).1 is None ==> forall|x: int|
            0 <= x < 4 ==> #[trigger] suit_length(hand, x) < 4,
        ai_call(hand, bids).0 matches Some(sp) ==> (last_real_bid(bids) matches Some(prev) ==> sp > prev.spread.unwrap()
            || (sp == prev.spread.unwrap() && suit_bid_higher(ai_call(hand, bids).1, prev.suit))),
{
    lemma_preferred_suit_longest(hand, 0, 0);
    lemma_preferred_suit_range(hand, 0, 0);
    let st = hand_strength(hand);
    if st >= 12 {
        assert(spread_for_strength(st) >= 1);
    }
}

/// Evaluate hand strength and pick a bid, or pass: (spread, suit) for a bid,
/// (None, None) for a pass.
pub fn ai_choose_bid(cards: &Vec<Card>, game_id: u64, seat: u8, bids: &Vec<Bid>) -> (r: (Option<i8>, Option<u8>))
    requires
        hand_ok(hand_of(cards@, game_id, seat)),
        bids_in_order(bids@),
    ensures
        r == ai_call(hand_of(cards@, game_id, seat), bids@),
        r.1 matches Some(s) ==> forall|x: int|
            0 <= x < 4 ==> suit_length(hand_of(cards@, game_id, seat), s as int) >= #[trigger] suit_length(
                hand_of(cards@, game_id, seat),
                x,
            ),
        r.1 matches Some(s) ==> s < 4 && suit_length(hand_of(cards@, game_id, seat), s as int) >= 4,
        r.0 is Some && r.1 is None ==> forall|x: int|
            0 <= x < 4 ==> #[trigger] suit_length(hand_of(cards@, game_id, seat), x) < 4,
        r.0 is None ==> r.1 is None,
        r.0 matches Some(sp) ==> 1 <= sp <= 7,
{
    proof {
        lemma_computer_call_rules(hand_of(cards@, game_id, seat), bids@);
    }
    let hand = hand_cards(cards, game_id, seat);
    let ghost h = hand@;
    proof { lemma_hand_sums_bound(h); }
    let mut total_hcp: u8 = 0;
    let mut suit_counts: [u8; 4] = [0u8, 0u8, 0u8, 0u8];
    let mut suit_points: [u8; 4] = [0u8, 0u8, 0u8, 0u8];
    let n = hand.len();
    let mut k: usize = 0;
    while k < n
        invariant
            n == h.len(),
            hand@ == h,
            hand_ok(h),
            k <= n,
            total_hcp == hand_hcp(h.take(k as int)),
            forall|s: int| 0 <= s < 4 ==> suit_counts@[s] == suit_length(h.take(k as int), s),
            forall|s: int| 0 <= s < 4 ==> suit_points@[s] == suit_hcp(h.take(k as int), s),
        decreases n - k,
    {
        proof {
            assert(h.take(k as int + 1).drop_last() =~= h.take(k as int));
            assert(h.take(k as int + 1).last() == h[k as int]);
            lemma_hand_sums_bound(h.take(k as int));
        }
        let c = &hand[k];
        let p = hcp(c.rank);
        total_hcp = total_hcp + p;
        let su = c.suit as usize;
        suit_counts[su] = suit_counts[su] + 1;
        suit_points[su] = suit_points[su] + p;
        k = k + 1;
    }
    assert(h.take(n as int) =~= h);
    let dist_pts: u8 = shape_pts(suit_counts[0]) + shape_pts(suit_counts[1]) + shape_pts(suit_counts[2]) + shape_pts(
        suit_counts[3],
    );
    let strength: u8 = total_hcp + dist_pts;
    if strength < 12 {
        return (None, None);
    }
    // longest suit, ties to more high-card points, then to the higher suit
    let mut best_suit: u8 = 0;
    let mut q: u8 = 0;
    while q < 4
        invariant
            q <= 4,
            forall|x: int| 0 <= x < 4 ==> suit_counts@[x] == suit_length(h, x),
            forall|x: int| 0 <= x < 4 ==> suit_points@[x] == suit_hcp(h, x),
            best_suit < 4,
            preferred_suit_from(h, q as int, best_suit as int) == longest_suit(h),
        decreases 4 - q,
    {
        let qi = q as usize;
        let bi = best_suit as usize;
        if suit_counts[qi] > suit_counts[bi] || (suit_counts[qi] == suit_counts[bi] && suit_points[qi] > suit_points[bi])
            || (suit_counts[qi] == suit_counts[bi] && suit_points[qi] == suit_points[bi] && q > best_suit) {
            best_suit = q;
        }
        q = q + 1;
    }
    let bid_suit: Option<u8> = if suit_counts[best_suit as usize] >= 4 {
        Some(best_suit)
    } else {
        None
    };
    let raw: i8 = ((strength as i8) - 12) / 4 + 1;
    let spread: i8 = if raw < 7 { raw } else { 7 };
    proof {
        lemma_last_real_bid(bids@);
    }
    let last = find_last_real_bid(bids);
    if let Some(prev) = last {
        if !bid_outranks(spread, bid_suit, prev.spread.unwrap(), prev.suit) {
            return (None, None);
        }
    }
    (Some(spread), bid_suit)
}


/// `idx` names positions of the listing from `from` on, in increasing order.
pub open spec fn is_pick_from(suited: Seq<(u8, u32)>, from: int, idx: Seq<usize>) -> bool {
    &&& forall|m: int| 0 <= m < idx.len() ==> from <= #[trigger] idx[m] < suited.len()
    &&& forall|m: int, q: int| 0 <= m < q < idx.len() ==> #[trigger] idx[m] < #[trigger] idx[q]
}

/// `idx` names different positions of the listing, in increasing order.
pub open spec fn is_pick(suited: Seq<(u8, u32)>, idx: Seq<usize>) -> bool {
    is_pick_from(suited, 0, idx)
}

/// Sum of the ranks at the picked positions.
pub open spec fn pick_total(suited: Seq<(u8, u32)>, idx: Seq<usize>) -> int
    decreases idx.len(),
{
    if idx.len() == 0 {
        0
    } else {
        pick_total(suited, idx.drop_last()) + suited[idx.last() as int].0
    }
}

/// The ids at the picked positions.
pub open spec fn pick_ids(suited: Seq<(u8, u32)>, idx: Seq<usize>) -> Seq<u32> {
    idx.map_values(|i: usize| suited[i as int].1)
}

/// The cheapest choice of `k` different cards from position `from` on whose
/// ranks together exceed `need`: the one of lowest total (on equal totals, the
/// one that keeps the higher cards), or None when no such choice exists.
pub open spec fn cheapest_pick(suited: Seq<(u8, u32)>, from: int, k: int, need: int) -> Option<Seq<usize>>
    decreases suited.len() - from,
{
    if k <= 0 {
        if 0 > need {
            Some(Seq::<usize>::empty())
        } else {
            None
        }
    } else if from < 0 || from >= suited.len() {
        None
    } else {
        let skip = cheapest_pick(suited, from + 1, k, need);
        let take = match cheapest_pick(suited, from + 1, k - 1, need - suited[from].0) {
            Some(rest) => Some(seq![from as usize] + rest),
            None => None,
        };
        match take {
            None => skip,
            Some(t) => match skip {
                None => Some(t),
                Some(u) => if pick_total(suited, t) < pick_total(suited, u) {
                    Some(t)
                } else {
                    Some(u)
                },
            },
        }
    }
}

/// The cheapest combination of `size` to `limit` cards that beats `target`: the
/// fewest cards that can, and of those the lowest total (see `cheapest_pick`).
pub open spec fn combo_from(suited: Seq<(u8, u32)>, target: u16, limit: int, size: int) -> Option<Seq<usize>>
    decreases limit + 1 - size,
{
    if size > limit {
        None
    } else {
        match cheapest_pick(suited, 0, size, target as int) {
            Some(p) => Some(p),
            None => combo_from(suited, target, limit, size + 1),
        }
    }
}

/// The cheapest combination of two to `max_size` cards of a suit whose total
/// value beats `target`, as the ids of its cards (in listing order).
pub open spec fn winning_combo(suited: Seq<(u8, u32)>, target: u16, max_size: int) -> Option<Seq<u32>> {
    match combo_from(suited, target, max_size, 2) {
        Some(p) => Some(pick_ids(suited, p)),
        None => None,
    }
}

/// Some choice of `lo` to `hi` different cards of the listing beats `target`.
pub open spec fn some_pick_beats(suited: Seq<(u8, u32)>, target: u16, lo: int, hi: int) -> bool {
    exists|idx: Seq<usize>| #[trigger] is_pick(suited, idx) && lo <= idx.len() <= hi && pick_total(suited, idx) > target
}

/// `p` is the cheapest combination of two to `max_size` cards beating `target`:
/// a choice of that many different cards whose ranks exceed `target`; no choice
/// of fewer cards (at least two) beats `target`; and no choice of as many cards
/// beats it with a lower total.
pub open spec fn cheapest_combo(suited: Seq<(u8, u32)>, target: u16, max_size: int, p: Seq<usize>) -> bool {
    &&& is_pick(suited, p)
    &&& 2 <= p.len() <= max_size
    &&& pick_total(suited, p) > target
    &&& !some_pick_beats(suited, target, 2, p.len() - 1)
    &&& forall|q: Seq<usize>|
        #[trigger] is_pick(suited, q) && q.len() == p.len() && pick_total(suited, q) > target ==> pick_total(suited, p)
            <= pick_total(suited, q)
}

proof fn lemma_pick_total_prepend(suited: Seq<(u8, u32)>, x: usize, p: Seq<usize>)
    ensures
        pick_total(suited, seq![x] + p) == suited[x as int].0 + pick_total(suited, p),
    decreases p.len(),
{
    let t = seq![x] + p;
    assert(t.len() > 0);
    if p.len() > 0 {
        assert(t.drop_last() =~= seq![x] + p.drop_last());
        assert(t.last() == p.last());
        lemma_pick_total_prepend(suited, x, p.drop_last());
        assert(pick_total(suited, t) == pick_total(suited, t.drop_last()) + suited[t.last() as int].0);
        assert(pick_total(suited, p) == pick_total(suited, p.drop_last()) + suited[p.last() as int].0);
    } else {
        assert(t =~= seq![x]);
        assert(t.drop_last() =~= Seq::<usize>::empty());
        assert(t.last() == x);
        assert(pick_total(suited, t) == pick_total(suited, t.drop_last()) + suited[t.last() as int].0);
        assert(pick_total(suited, Seq::<usize>::empty()) == 0);
    }
}

/// `cheapest_pick` finds a choice of `k` cards from `from` on that exceeds
/// `need`, and none of them exceeds `need` with a lower total.
proof fn lemma_cheapest_pick(suited: Seq<(u8, u32)>, from: int, k: int, need: int)
    requires
        0 <= from <= suited.len(),
        suited.len() <= usize::MAX,
        0 <= k,
    ensures
        cheapest_pick(suited, from, k, need) matches Some(p) ==> is_pick_from(suited, from, p) && p.len() == k
            && pick_total(suited, p) > need,
        forall|q: Seq<usize>|
            #[trigger] is_pick_from(suited, from, q) && q.len() == k && pick_total(suited, q) > need ==> (
            cheapest_pick(suited, from, k, need) matches Some(p) && pick_total(suited, p) <= pick_total(suited, q)),
    decreases suited.len() - from,
{
    if k == 0 {
        assert forall|q: Seq<usize>|
            #[trigger] is_pick_from(suited, from, q) && q.len() == k && pick_total(suited, q) > need implies (
            cheapest_pick(suited, from, k, need) matches Some(p) && pick_total(suited, p) <= pick_total(suited, q)) by {
            assert(q =~= Seq::<usize>::empty());
        }
    } else if from >= suited.len() {
        assert forall|q: Seq<usize>|
            #[trigger] is_pick_from(suited, from, q) && q.len() == k && pick_total(suited, q) > need implies false by {
            assert(from <= q[0] < suited.len());
        }
    } else {
        let r = suited[from].0 as int;
        lemma_cheapest_pick(suited, from + 1, k, need);
        lemma_cheapest_pick(suited, from + 1, k - 1, need - r);
        let skip = cheapest_pick(suited, from + 1, k, need);
        let rest = cheapest_pick(suited, from + 1, k - 1, need - r);
        if rest is Some {
            let t = seq![from as usize] + rest.unwrap();
            lemma_pick_total_prepend(suited, from as usize, rest.unwrap());
            assert(is_pick_from(suited, from, t)) by {
                assert forall|m: int, q: int| 0 <= m < q < t.len() implies #[trigger] t[m] < #[trigger] t[q] by {
                    if m > 0 {
                        assert(t[m] == rest.unwrap()[m - 1]);
                    }
                    assert(t[q] == rest.unwrap()[q - 1]);
                }
                assert forall|m: int| 0 <= m < t.len() implies from <= #[trigger] t[m] < suited.len() by {
                    if m > 0 {
                        assert(t[m] == rest.unwrap()[m - 1]);
                    }
                }
            }
        }
        if skip is Some {
            let u = skip.unwrap();
            assert(is_pick_from(suited, from, u)) by {
                assert forall|m: int| 0 <= m < u.len() implies from <= #[trigger] u[m] < suited.len() by {}
            }
        }
        assert forall|q: Seq<usize>|
            #[trigger] is_pick_from(suited, from, q) && q.len() == k && pick_total(suited, q) > need implies (
            cheapest_pick(suited, from, k, need) matches Some(p) && pick_total(suited, p) <= pick_total(suited, q)) by {
            if q[0] == from {
                let q1 = q.drop_first();
                assert(q =~= seq![from as usize] + q1);
                lemma_pick_total_prepend(suited, from as usize, q1);
                assert(is_pick_from(suited, from + 1, q1)) by {
                    assert forall|m: int| 0 <= m < q1.len() implies from + 1 <= #[trigger] q1[m] < suited.len() by {
                        assert(q1[m] == q[m + 1]);
                        assert(q[0] < q[m + 1]);
                    }
                    assert forall|m: int, n: int| 0 <= m < n < q1.len() implies #[trigger] q1[m] < #[trigger] q1[n] by {
                        assert(q1[m] == q[m + 1] && q1[n] == q[n + 1]);
                    }
                }
                assert(pick_total(suited, q1) > need - r);
            } else {
                assert(is_pick_from(suited, from + 1, q)) by {
                    assert forall|m: int| 0 <= m < q.len() implies from + 1 <= #[trigger] q[m] < suited.len() by {
                        if m > 0 {
                            assert(q[0] < q[m]);
                        }
                    }
                }
            }
        }
    }
}

/// The combination found from `size` on is the cheapest: it beats the target,
/// no choice of fewer cards (at least `size`) beats it, and no choice of as many
/// cards beats it with a lower total; and one is found exactly when some choice
/// of `size` to `limit` cards beats the target.
proof fn lemma_combo_from(suited: Seq<(u8, u32)>, target: u16, limit: int, size: int)
    requires
        1 <= size,
        suited.len() <= usize::MAX,
    ensures
        combo_from(suited, target, limit, size) matches Some(p) ==> {
            &&& is_pick(suited, p)
            &&& size <= p.len() <= limit
            &&& pick_total(suited, p) > target
            &&& !some_pick_beats(suited, target, size, p.len() - 1)
            &&& forall|q: Seq<usize>|
                #[trigger] is_pick(suited, q) && q.len() == p.len() && pick_total(suited, q) > target ==> pick_total(
                    suited,
                    p,
                ) <= pick_total(suited, q)
        },
        combo_from(suited, target, limit, size) is Some <==> some_pick_beats(suited, target, size, limit),
    decreases limit + 1 - size,
{
    if size > limit {
        if some_pick_beats(suited, target, size, limit) {
            let idx = choose|idx: Seq<usize>| #[trigger] is_pick(suited, idx) && size <= idx.len() <= limit
                && pick_total(suited, idx) > target;
        }
    } else {
        lemma_cheapest_pick(suited, 0, size, target as int);
        assert forall|q: Seq<usize>| #[trigger] is_pick(suited, q) implies is_pick_from(suited, 0, q) by {}
        match cheapest_pick(suited, 0, size, target as int) {
            Some(p) => {
                assert(is_pick(suited, p));
                assert(some_pick_beats(suited, target, size, limit));
                if some_pick_beats(suited, target, size, p.len() - 1) {
                    let idx = choose|idx: Seq<usize>| #[trigger] is_pick(suited, idx) && size <= idx.len() <= p.len() - 1
                        && pick_total(suited, idx) > target;
                }
                assert forall|q: Seq<usize>|
                    #[trigger] is_pick(suited, q) && q.len() == p.len() && pick_total(suited, q) > target implies pick_total(
                    suited,
                    p,
                ) <= pick_total(suited, q) by {
                    assert(is_pick_from(suited, 0, q));
                }
            },
            None => {
                lemma_combo_from(suited, target, limit, size + 1);
                // no choice of exactly `size` cards beats the target
                assert forall|q: Seq<usize>| #[trigger] is_pick(suited, q) && q.len() == size implies pick_total(suited, q)
                    <= target by {
                    assert(is_pick_from(suited, 0, q));
                }
                if some_pick_beats(suited, target, size, limit) {
                    let idx = choose|idx: Seq<usize>| #[trigger] is_pick(suited, idx) && size <= idx.len() <= limit
                        && pick_total(suited, idx) > target;
                    assert(idx.len() != size);
                    assert(some_pick_beats(suited, target, size + 1, limit));
                }
                if some_pick_beats(suited, target, size + 1, limit) {
                    let idx = choose|idx: Seq<usize>| #[trigger] is_pick(suited, idx) && size + 1 <= idx.len() <= limit
                        && pick_total(suited, idx) > target;
                    assert(some_pick_beats(suited, target, size, limit));
                }
                if combo_from(suited, target, limit, size + 1) is Some {
                    let p = combo_from(suited, target, limit, size + 1).unwrap();
                    if some_pick_beats(suited, target, size, p.len() - 1) {
                        let idx = choose|idx: Seq<usize>| #[trigger] is_pick(suited, idx) && size <= idx.len() <= p.len() - 1
                            && pick_total(suited, idx) > target;
                        assert(idx.len() != size);
                        assert(some_pick_beats(suited, target, size + 1, p.len() - 1));
                    }
                }
            },
        }
    }
}

/// Whether the computer can choose a call for `seat` (see `hand_ok`).
pub fn ai_bid_possible(cards: &Vec<Card>, game_id: u64, seat: u8) -> (r: bool)
    ensures
        r == hand_ok(hand_of(cards@, game_id, seat)),
{
    let hand = hand_cards(cards, game_id, seat);
    let n = hand.len();
    if n > 13 {
        return false;
    }
    let mut k: usize = 0;
    while k < n
        invariant
            n == hand@.len(),
            k <= n,
            hand@ == hand_of(cards@, game_id, seat),
            forall|i: int| 0 <= i < k ==> (#[trigger] hand@[i]).suit < 4,
        decreases n - k,
    {
        if hand[k].suit >= 4 {
            assert(hand@[k as int].suit >= 4);
            return false;
        }
        k = k + 1;
    }
    true
}

/// A choice of cards names no more positions than the listing has from `from` on.
proof fn lemma_pick_len(suited: Seq<(u8, u32)>, from: int, idx: Seq<usize>)
    requires
        0 <= from <= suited.len(),
        is_pick_from(suited, from, idx),
    ensures
        idx.len() <= suited.len() - from,
{
    if idx.len() > 0 {
        lemma_pick_last_at_least(suited, from, idx);
        let last = idx.len() - 1;
        assert(idx[last] >= from + last);
        assert(idx[last] < suited.len());
        assert(from + last < suited.len());
    }
}

/// The last of `m` picked positions from `from` on is at least `from + m - 1`.
proof fn lemma_pick_last_at_least(suited: Seq<(u8, u32)>, from: int, idx: Seq<usize>)
    requires
        is_pick_from(suited, from, idx),
        idx.len() > 0,
    ensures
        idx[idx.len() - 1] >= from + idx.len() - 1,
    decreases idx.len(),
{
    if idx.len() > 1 {
        let pre = idx.drop_last();
        assert(is_pick_from(suited, from, pre)) by {
            assert forall|m: int, q: int| 0 <= m < q < pre.len() implies #[trigger] pre[m] < #[trigger] pre[q] by {
                assert(idx[m] < idx[q]);
            }
            assert forall|m: int| 0 <= m < pre.len() implies from <= #[trigger] pre[m] < suited.len() by {
                assert(pre[m] == idx[m]);
            }
        }
        lemma_pick_last_at_least(suited, from, pre);
        assert(idx[idx.len() - 2] < idx[idx.len() - 1]);
    } else {
        assert(from <= idx[0]);
    }
}

/// Sum of the ranks at the given positions.
fn pick_sum(suited: &Vec<(u8, u32)>, p: &Vec<usize>) -> (total: u32)
    requires
        p@.len() <= 52,
        forall|m: int| 0 <= m < p@.len() ==> #[trigger] p@[m] < suited@.len(),
    ensures
        total == pick_total(suited@, p@),
{
    let mut total: u32 = 0;
    let mut i: usize = 0;
    while i < p.len()
        invariant
            p@.len() <= 52,
            i <= p@.len(),
            forall|m: int| 0 <= m < p@.len() ==> #[trigger] p@[m] < suited@.len(),
            total == pick_total(suited@, p@.take(i as int)),
            total <= 255 * i,
        decreases p@.len() - i,
    {
        proof {
            assert(p@.take(i as int + 1).drop_last() =~= p@.take(i as int));
            assert(p@.take(i as int + 1).last() == p@[i as int]);
        }
        total = total + suited[p[i]].0 as u32;
        i = i + 1;
    }
    assert(p@.take(p@.len() as int) =~= p@);
    total
}

/// The cheapest choice of `k` cards from position `from` on whose ranks exceed
/// `need` (see `cheapest_pick`).
fn find_cheapest_pick(suited: &Vec<(u8, u32)>, from: usize, k: usize, need: i32) -> (r: Option<Vec<usize>>)
    requires
        suited@.len() <= 52,
        from <= suited@.len(),
        k <= 52,
        need + 255 * from >= 0,
        need <= 65535,
    ensures
        match r {
            Some(v) => cheapest_pick(suited@, from as int, k as int, need as int) == Some(v@),
            None => cheapest_pick(suited@, from as int, k as int, need as int) is None,
        },
    decreases suited@.len() - from,
{
    if k == 0 {
        if 0 > need {
            return Some(Vec::new());
        }
        return None;
    }
    if from >= suited.len() {
        return None;
    }
    let r = suited[from].0 as i32;
    proof {
        lemma_cheapest_pick(suited@, from as int + 1, k as int, need as int);
        lemma_cheapest_pick(suited@, from as int + 1, k as int - 1, need - r);
    }
    let skip = find_cheapest_pick(suited, from + 1, k, need);
    let take = match find_cheapest_pick(suited, from + 1, k - 1, need - r) {
        Some(rest) => {
            let mut t: Vec<usize> = Vec::new();
            t.push(from);
            let mut i: usize = 0;
            while i < rest.len()
                invariant
                    i <= rest@.len(),
                    t@ == seq![from] + rest@.take(i as int),
                decreases rest@.len() - i,
            {
                proof {
                    assert(rest@.take(i as int + 1) =~= rest@.take(i as int).push(rest@[i as int]));
                }
                t.push(rest[i]);
                i = i + 1;
            }
            assert(rest@.take(rest@.len() as int) =~= rest@);
            Some(t)
        },
        None => None,
    };
    proof {
        if take is Some {
            let t = take.unwrap()@;
            let rest = cheapest_pick(suited@, from as int + 1, k as int - 1, need - r).unwrap();
            assert(t =~= seq![from as usize] + rest);
            assert forall|m: int| 0 <= m < t.len() implies #[trigger] t[m] < suited@.len() by {
                if m > 0 {
                    assert(t[m] == rest[m - 1]);
                }
            }
        }
    }
    match take {
        None => skip,
        Some(t) => match skip {
            None => Some(t),
            Some(u) => {
                if pick_sum(suited, &t) < pick_sum(suited, &u) {
                    Some(t)
                } else {
                    Some(u)
                }
            },
        },
    }
}

/// The combination `winning_combo` describes, found by trying 2, 3, ... cards.
fn combo_search(suited: &Vec<(u8, u32)>, target_value: u16, max_size: usize) -> (r: Option<Vec<usize>>)
    requires
        suited@.len() <= 52,
    ensures
        match r {
            Some(v) => combo_from(suited@, target_value, max_size as int, 2) == Some(v@),
            None => combo_from(suited@, target_value, max_size as int, 2) is None,
        },
{
    let n = suited.len();
    let limit = if max_size < n { max_size } else { n };
    let mut size: usize = 2;
    while size <= limit
        invariant
            n == suited@.len(),
            n <= 52,
            limit <= n,
            limit <= max_size,
            2 <= size,
            combo_from(suited@, target_value, max_size as int, 2) == combo_from(
                suited@,
                target_value,
                max_size as int,
                size as int,
            ),
        decreases limit + 1 - size,
    {
        match find_cheapest_pick(suited, 0, size, target_value as i32) {
            Some(p) => {
                return Some(p);
            },
            None => {},
        }
        size = size + 1;
    }
    proof {
        // more cards than the suit holds cannot be chosen
        lemma_combo_from(suited@, target_value, max_size as int, size as int);
        if combo_from(suited@, target_value, max_size as int, size as int) is Some {
            let q = combo_from(suited@, target_value, max_size as int, size as int).unwrap();
            lemma_pick_len(suited@, 0, q);
        }
    }
    None
}

/// Find the cheapest combo of cards from `suited` (sorted rank desc) whose total
/// value > target, using at most `max_size` cards: as few cards as possible, and
/// of those the lowest total; returned as the ids of its cards, in listing order.
pub fn find_winning_combo(suited: &Vec<(u8, u32)>, target_value: u16, max_size: usize) -> (r: Option<Vec<u32>>)
    requires
        suited@.len() <= 52,
    ensures
        r is Some <==> winning_combo(suited@, target_value, max_size as int) is Some,
        r matches Some(v) ==> v@ == winning_combo(suited@, target_value, max_size as int).unwrap(),
        r is Some <==> some_pick_beats(suited@, target_value, 2, max_size as int),
        r matches Some(v) ==> exists|p: Seq<usize>|
            #[trigger] cheapest_combo(suited@, target_value, max_size as int, p) && v@ == pick_ids(suited@, p),
{
    proof {
        lemma_combo_from(suited@, target_value, max_size as int, 2);
    }
    match combo_search(suited, target_value, max_size) {
        None => None,
        Some(p) => {
            proof {
                assert(cheapest_combo(suited@, target_value, max_size as int, p@));
            }
            let mut ids: Vec<u32> = Vec::new();
            let mut i: usize = 0;
            while i < p.len()
                invariant
                    i <= p@.len(),
                    forall|m: int| 0 <= m < p@.len() ==> #[trigger] p@[m] < suited@.len(),
                    ids@ == pick_ids(suited@, p@.take(i as int)),
                decreases p@.len() - i,
            {
                proof {
                    assert(pick_ids(suited@, p@.take(i as int + 1)) =~= pick_ids(suited@, p@.take(i as int)).push(
                        suited@[p@[i as int] as int].1,
                    ));
                }
                ids.push(suited[p[i]].1);
                i = i + 1;
            }
            assert(p@.take(p@.len() as int) =~= p@);
            Some(ids)
        },
    }
}

/// `cards[i]` is the first card of the hand (in hand order) with the highest rank.
pub open spec fn is_first_highest(hand: Seq<Card>, i: int) -> bool {
    &&& 0 <= i < hand.len()
    &&& forall|j: int| 0 <= j < hand.len() ==> (#[trigger] hand[j]).rank <= hand[i].rank
    &&& forall|j: int| 0 <= j < i ==> (#[trigger] hand[j]).rank < hand[i].rank
}

/// `cards[i]` is the first card of the hand (in hand order) with the lowest rank.
pub open spec fn is_first_lowest(hand: Seq<Card>, i: int) -> bool {
    &&& 0 <= i < hand.len()
    &&& forall|j: int| 0 <= j < hand.len() ==> (#[trigger] hand[j]).rank >= hand[i].rank
    &&& forall|j: int| 0 <= j < i ==> (#[trigger] hand[j]).rank > hand[i].rank
}

/// The id of the first highest card of a non-empty hand.
pub open spec fn first_highest_id(hand: Seq<Card>) -> u32 {
    hand[choose|i: int| is_first_highest(hand, i)].card_id
}

/// The id of the first lowest card of a non-empty hand.
pub open spec fn first_lowest_id(hand: Seq<Card>) -> u32 {
    hand[choose|i: int| is_first_lowest(hand, i)].card_id
}

fn first_highest(hand: &Vec<Card>) -> (r: u32)
    requires
        hand@.len() > 0,
    ensures
        r == first_highest_id(hand@),
{
    let mut best: usize = 0;
    let n = hand.len();
    let mut k: usize = 1;
    while k < n
        invariant
            n == hand@.len(),
            1 <= k <= n,
            best < k,
            is_first_highest(hand@.take(k as int), best as int),
        decreases n - k,
    {
        if hand[k].rank > hand[best].rank {
            best = k;
        }
        assert(is_first_highest(hand@.take(k as int + 1), best as int)) by {
            assert forall|j: int| 0 <= j < k + 1 implies hand@.take(k as int + 1)[j] == hand@[j] by {}
            assert forall|j: int| 0 <= j < k implies hand@.take(k as int)[j] == hand@[j] by {}
        }
        k = k + 1;
    }
    assert(hand@.take(n as int) =~= hand@);
    proof {
        let c = choose|i: int| is_first_highest(hand@, i);
        assert(is_first_highest(hand@, best as int));
        if c < best {
            assert(hand@[c].rank < hand@[best as int].rank);
        } else if best < c {
            assert(hand@[best as int].rank < hand@[c].rank);
        }
    }
    hand[best].card_id
}

fn first_lowest(hand: &Vec<Card>) -> (r: u32)
    requires
        hand@.len() > 0,
    ensures
        r == first_lowest_id(hand@),
{
    let mut best: usize = 0;
    let n = hand.len();
    let mut k: usize = 1;
    while k < n
        invariant
            n == hand@.len(),
            1 <= k <= n,
            best < k,
            is_first_lowest(hand@.take(k as int), best as int),
        decreases n - k,
    {
        if hand[k].rank < hand[best].rank {
            best = k;
        }
        assert(is_first_lowest(hand@.take(k as int + 1), best as int)) by {
            assert forall|j: int| 0 <= j < k + 1 implies hand@.take(k as int + 1)[j] == hand@[j] by {}
            assert forall|j: int| 0 <= j < k implies hand@.take(k as int)[j] == hand@[j] by {}
        }
        k = k + 1;
    }
    assert(hand@.take(n as int) =~= hand@);
    proof {
        let c = choose|i: int| is_first_lowest(hand@, i);
        assert(is_first_lowest(hand@, best as int));
        if c < best {
            assert(hand@[c].rank > hand@[best as int].rank);
        } else if best < c {
            assert(hand@[best as int].rank > hand@[c].rank);
        }
    }
    hand[best].card_id
}


/// The four suits of the hand, each highest rank first, as (rank, id).
pub fn ranked_suits(hand: &Vec<Card>) -> (r: Vec<Vec<(u8, u32)>>)
    ensures
        r@.len() == 4,
        forall|s: int| 0 <= s < 4 ==> (#[trigger] r@[s])@ == ranked(hand@, s),
{
    let mut r: Vec<Vec<(u8, u32)>> = Vec::new();
    let mut s: u8 = 0;
    while s < 4
        invariant
            s <= 4,
            r@.len() == s,
            forall|q: int| 0 <= q < s ==> (#[trigger] r@[q])@ == ranked(hand@, q),
        decreases 4 - s,
    {
        r.push(suit_ranked(hand, s));
        s = s + 1;
    }
    r
}

/// High-card points of the (up to) three highest cards of a suit listed highest first.
pub open spec fn top_hcp(suited: Seq<(u8, u32)>) -> int {
    (if suited.len() > 0 { hcp_of(suited[0].0) as int } else { 0 }) + (if suited.len() > 1 {
        hcp_of(suited[1].0) as int
    } else {
        0
    }) + (if suited.len() > 2 { hcp_of(suited[2].0) as int } else { 0 })
}

/// How attractive suit `s` is to lead: twice its top high-card points plus its
/// length, less 6 for the trump suit.
pub open spec fn lead_score(hand: Seq<Card>, trump_suit: Option<u8>, s: int) -> int {
    top_hcp(ranked(hand, s)) * 2 + ranked(hand, s).len() - (if trump_suit == Some(s as u8) { 6int } else { 0int })
}

/// The first non-empty suit from `from` on with a score above every score seen,
/// starting from `best` with score `best_score`.
pub open spec fn best_lead_from(hand: Seq<Card>, trump_suit: Option<u8>, from: int, best: Option<int>, best_score: int) -> Option<int>
    decreases 4 - from,
{
    if from >= 4 {
        best
    } else if ranked(hand, from).len() == 0 {
        best_lead_from(hand, trump_suit, from + 1, best, best_score)
    } else if lead_score(hand, trump_suit, from) > best_score {
        best_lead_from(hand, trump_suit, from + 1, Some(from), lead_score(hand, trump_suit, from))
    } else {
        best_lead_from(hand, trump_suit, from + 1, best, best_score)
    }
}

/// The suit to lead from: the first suit with the best score above -1 (suit 0 if none).
pub open spec fn lead_suit(hand: Seq<Card>, trump_suit: Option<u8>) -> int {
    match best_lead_from(hand, trump_suit, 0, None, -1) {
        Some(s) => s,
        None => 0,
    }
}

/// The first suit from `from` on holding one card of rank 10 or lower, other
/// than trumps, while the hand has at least two trumps.
pub open spec fn singleton_from(hand: Seq<Card>, trump: u8, from: int) -> Option<int>
    decreases 4 - from,
{
    if from >= 4 {
        None
    } else if ranked(hand, from).len() == 1 && trump != from && ranked(hand, trump as int).len() >= 2
        && ranked(hand, from)[0].0 <= 10 {
        Some(from)
    } else {
        singleton_from(hand, trump, from + 1)
    }
}

/// `seat` belongs to the declaring pair.
pub open spec fn on_declaring_side(seat: u8, game: Game) -> bool {
    match game.declarer_seat {
        Some(d) => teammates(seat as int, d as int),
        None => false,
    }
}

/// The computer's lead from a hand: with three cards or fewer, its first highest
/// card; with trumps, a low singleton (to void the suit) when it holds two
/// trumps or more; otherwise the top card of the best-scoring suit, or its ace and
/// king when the declaring side holds six or more of a side suit headed by both.
pub open spec fn ai_lead_choice(seat: u8, hand: Seq<Card>, trump_suit: Option<u8>, game: Game) -> Seq<u32> {
    if hand.len() <= 3 {
        seq![first_highest_id(hand)]
    } else if trump_suit is Some && singleton_from(hand, trump_suit.unwrap(), 0) is Some {
        seq![ranked(hand, singleton_from(hand, trump_suit.unwrap(), 0).unwrap())[0].1]
    } else {
        let s = lead_suit(hand, trump_suit);
        let sc = ranked(hand, s);
        if sc.len() >= 6 && sc[0].0 == 14 && sc[1].0 == 13 && on_declaring_side(seat, game) && trump_suit != Some(
            s as u8,
        ) {
            seq![sc[0].1, sc[1].1]
        } else {
            seq![sc[0].1]
        }
    }
}

/// The lead can be chosen: the hand has more than three cards only if the suit
/// chosen for the lead (when no singleton is led) holds cards.
pub open spec fn lead_defined(hand: Seq<Card>, trump_suit: Option<u8>) -> bool {
    hand.len() <= 3 || (trump_suit is Some && singleton_from(hand, trump_suit.unwrap(), 0) is Some) || ranked(
        hand,
        lead_suit(hand, trump_suit),
    ).len() > 0
}

proof fn lemma_ranked_len(hand: Seq<Card>, s: int)
    ensures
        ranked(hand, s).len() <= hand.len(),
{
    lemma_ranked_multiset(hand, s);
    suit_pairs(hand, s).to_multiset_ensures();
    ranked(hand, s).to_multiset_ensures();
    hand.lemma_filter_len(|c: Card| c.suit == s);
}

/// The suit chosen by score for a lead (see `best_lead_from`), from the ranked suits.
fn best_lead_suit(hand: &Vec<Card>, by_suit: &Vec<Vec<(u8, u32)>>, trump: Option<u8>) -> (r: Option<usize>)
    requires
        hand@.len() <= 52,
        by_suit@.len() == 4,
        forall|s: int| 0 <= s < 4 ==> (#[trigger] by_suit@[s])@ == ranked(hand@, s),
    ensures
        match r {
            Some(b) => b < 4 && best_lead_from(hand@, trump, 0, None, -1) == Some(b as int),
            None => best_lead_from(hand@, trump, 0, None, -1) is None,
        },
{
    proof {
        lemma_ranked_len(hand@, 0);
        lemma_ranked_len(hand@, 1);
        lemma_ranked_len(hand@, 2);
        lemma_ranked_len(hand@, 3);
    }
    // find the best suit to lead
    let mut best_suit_idx: Option<usize> = None;
    let mut best_score: i16 = -1;
    let mut s: usize = 0;
    while s < 4
        invariant
            s <= 4,
            by_suit@.len() == 4,
            forall|q: int| 0 <= q < 4 ==> (#[trigger] by_suit@[q])@ == ranked(hand@, q),
            forall|q: int| 0 <= q < 4 ==> #[trigger] ranked(hand@, q).len() <= 52,
            best_suit_idx matches Some(b) ==> b < 4,
            best_lead_from(hand@, trump, 0, None, -1) == best_lead_from(
                hand@,
                trump,
                s as int,
                match best_suit_idx { Some(b) => Some(b as int), None => None },
                best_score as int,
            ),
            -1 <= best_score <= 100,
        decreases 4 - s,
    {
        let suit_cards = &by_suit[s];
        if suit_cards.len() > 0 {
            let is_trump = match trump {
                Some(t) => t as usize == s,
                None => false,
            };
            let length_bonus = suit_cards.len() as i16;
            let mut top: i16 = 0;
            let mut i: usize = 0;
            while i < 3 && i < suit_cards.len()
                invariant
                    i <= 3,
                    i <= suit_cards@.len(),
                    top == (if i > 0 { hcp_of(suit_cards@[0].0) as int } else { 0 }) + (if i > 1 {
                        hcp_of(suit_cards@[1].0) as int
                    } else {
                        0
                    }) + (if i > 2 { hcp_of(suit_cards@[2].0) as int } else { 0 }),
                decreases 3 - i,
            {
                top = top + hcp(suit_cards[i].0) as i16;
                i = i + 1;
            }
            let score: i16 = top * 2 + length_bonus - if is_trump { 6 } else { 0 };
            assert(score == lead_score(hand@, trump, s as int));
            if score > best_score {
                best_score = score;
                best_suit_idx = Some(s);
            }
        }
        s = s + 1;
    }
    best_suit_idx
}

/// The singleton suit led to make a void (see `singleton_from`), from the ranked suits.
fn singleton_lead_suit(hand: &Vec<Card>, by_suit: &Vec<Vec<(u8, u32)>>, t: u8) -> (r: Option<usize>)
    requires
        t < 4,
        by_suit@.len() == 4,
        forall|s: int| 0 <= s < 4 ==> (#[trigger] by_suit@[s])@ == ranked(hand@, s),
    ensures
        match r {
            Some(b) => b < 4 && singleton_from(hand@, t, 0) == Some(b as int) && ranked(hand@, b as int).len() == 1,
            None => singleton_from(hand@, t, 0) is None,
        },
{
    let trump_count = by_suit[t as usize].len();
    let mut q: usize = 0;
    while q < 4
        invariant
            q <= 4,
            t < 4,
            by_suit@.len() == 4,
            forall|x: int| 0 <= x < 4 ==> (#[trigger] by_suit@[x])@ == ranked(hand@, x),
            trump_count == ranked(hand@, t as int).len(),
            singleton_from(hand@, t, 0) == singleton_from(hand@, t, q as int),
        decreases 4 - q,
    {
        if by_suit[q].len() == 1 && t as usize != q {
            let c = by_suit[q][0];
            if trump_count >= 2 && c.0 <= 10 {
                assert(singleton_from(hand@, t, q as int) == Some(q as int));
                return Some(q);
            }
        }
        q = q + 1;
    }
    None
}

/// AI leading logic: conserve cards, prefer single-card leads.
pub fn ai_lead(seat: u8, hand: &Vec<Card>, by_suit: &Vec<Vec<(u8, u32)>>, trump: Option<u8>, game: &Game) -> (r: Vec<u32>)
    requires
        hand@.len() > 0,
        hand@.len() <= 52,
        by_suit@.len() == 4,
        forall|s: int| 0 <= s < 4 ==> (#[trigger] by_suit@[s])@ == ranked(hand@, s),
        trump matches Some(t) ==> t < 4,
        lead_defined(hand@, trump),
    ensures
        r@ == ai_lead_choice(seat, hand@, trump, *game),
{
    let total_cards = hand.len();
    if total_cards <= 3 {
        let best = first_highest(hand);
        return vec![best];
    }
    proof {
        lemma_ranked_len(hand@, 0);
        lemma_ranked_len(hand@, 1);
        lemma_ranked_len(hand@, 2);
        lemma_ranked_len(hand@, 3);
    }
    let best_suit_idx = best_lead_suit(hand, by_suit, trump);
    // also consider leading a low singleton to create a void
    if let Some(t) = trump {
        if let Some(q) = singleton_lead_suit(hand, by_suit, t) {
            return vec![by_suit[q][0].1];
        }
    }
    let suit_idx = match best_suit_idx {
        Some(b) => b,
        None => 0,
    };
    assert(suit_idx as int == lead_suit(hand@, trump));
    assert(!(trump is Some && singleton_from(hand@, trump.unwrap(), 0) is Some));
    let suit_cards = &by_suit[suit_idx];
    let is_declarer_side = match game.declarer_seat {
        Some(d) => same_team(seat, d),
        None => false,
    };
    let is_suit_trump = match trump {
        Some(t) => t as usize == suit_idx,
        None => false,
    };
    if suit_cards.len() >= 6 && suit_cards[0].0 == 14 && suit_cards[1].0 == 13 && is_declarer_side && !is_suit_trump {
        return vec![suit_cards[0].1, suit_cards[1].1];
    }
    vec![suit_cards[0].1]
}


/// The strongest play of the trick so far, if any card was played.
pub open spec fn leading_play(infos: Seq<TrickPlayInfo>, trump_suit: Option<u8>, led_suit: Option<u8>) -> Option<TrickPlayInfo> {
    if exists|i: int| wins_trick(infos, trump_suit, led_suit, i) {
        Some(infos[choose|i: int| wins_trick(infos, trump_suit, led_suit, i)])
    } else {
        None
    }
}

/// Get the current best play in the trick as (seat, value, suit): the play
/// that would win if the trick ended now, or None when every action is a pass.
pub fn current_trick_winner(plays: &Vec<TrickPlay>, trump_suit: Option<u8>, led_suit: Option<u8>) -> (r: Option<(u8, u16, Option<u8>)>)
    ensures
        r == match leading_play(plays@.map_values(|p: TrickPlay| play_info(p)), trump_suit, led_suit) {
            Some(p) => Some((p.seat, p.play_value, p.suit)),
            None => None,
        },
{
    let infos = infos_of(plays);
    match winning_play_index(infos.as_slice(), trump_suit, led_suit) {
        None => {
            proof {
                if exists|i: int| wins_trick(infos@, trump_suit, led_suit, i) {
                    let i = choose|i: int| wins_trick(infos@, trump_suit, led_suit, i);
                    assert(!infos@[i].is_pass);
                }
            }
            None
        },
        Some(b) => {
            proof {
                let c = choose|i: int| wins_trick(infos@, trump_suit, led_suit, i);
                lemma_winner_unique(infos@, trump_suit, led_suit, c, b as int);
            }
            let p = &infos[b];
            Some((p.seat, p.play_value, p.suit))
        },
    }
}

/// The most cards any non-pass action of the trick used (0 when none).
pub open spec fn most_cards_played(plays: Seq<TrickPlay>) -> nat
    decreases plays.len(),
{
    if plays.len() == 0 {
        0
    } else {
        let m = most_cards_played(plays.drop_last());
        let p = plays.last();
        if !p.is_pass && p.card_ids@.len() > m {
            p.card_ids@.len()
        } else {
            m
        }
    }
}

/// The number of cards the strongest play used, as the computer estimates it:
/// the most cards of any play so far, or 1 when nobody played cards.
pub open spec fn winner_card_count(plays: Seq<TrickPlay>) -> nat {
    if exists|i: int| 0 <= i < plays.len() && !(#[trigger] plays[i]).is_pass {
        most_cards_played(plays)
    } else {
        1
    }
}

fn cards_used_by_winner(plays: &Vec<TrickPlay>) -> (r: usize)
    ensures
        r == winner_card_count(plays@),
{
    let mut most: usize = 0;
    let mut any = false;
    let n = plays.len();
    let mut k: usize = 0;
    while k < n
        invariant
            n == plays@.len(),
            k <= n,
            most == most_cards_played(plays@.take(k as int)),
            any <==> exists|i: int| 0 <= i < k && !(#[trigger] plays@[i]).is_pass,
        decreases n - k,
    {
        proof {
            assert(plays@.take(k as int + 1).drop_last() =~= plays@.take(k as int));
            assert(plays@.take(k as int + 1).last() == plays@[k as int]);
        }
        let p = &plays[k];
        if !p.is_pass {
            any = true;
            if p.card_ids.len() > most {
                most = p.card_ids.len();
            }
        }
        k = k + 1;
    }
    assert(plays@.take(n as int) =~= plays@);
    if any {
        most
    } else {
        1
    }
}

/// The id of the lowest card of a suit listed highest first that beats `value`.
pub open spec fn cheapest_above(suited: Seq<(u8, u32)>, value: u16) -> Option<u32>
    decreases suited.len(),
{
    if suited.len() == 0 {
        None
    } else if suited.last().0 as u16 > value {
        Some(suited.last().1)
    } else {
        cheapest_above(suited.drop_last(), value)
    }
}

fn find_cheapest_above(suited: &Vec<(u8, u32)>, value: u16) -> (r: Option<u32>)
    ensures
        r == cheapest_above(suited@, value),
{
    let mut k = suited.len();
    assert(suited@.subrange(0, k as int) =~= suited@);
    while k > 0
        invariant
            k <= suited@.len(),
            cheapest_above(suited@, value) == cheapest_above(suited@.subrange(0, k as int), value),
        decreases k,
    {
        proof {
            assert(suited@.subrange(0, k as int).drop_last() =~= suited@.subrange(0, k - 1));
        }
        if (suited[k - 1].0 as u16) > value {
            return Some(suited[k - 1].1);
        }
        k = k - 1;
    }
    None
}

/// The computer's play when following in a trick it does not lead.
pub open spec fn ai_follow_choice(
    seat: u8,
    hand: Seq<Card>,
    trump_suit: Option<u8>,
    led_suit: Option<u8>,
    plays: Seq<TrickPlay>,
) -> Seq<u32> {
    let win = leading_play(plays.map_values(|p: TrickPlay| play_info(p)), trump_suit, led_suit);
    let wcc = winner_card_count(plays);
    let partner_winning = win is Some && teammates(seat as int, win.unwrap().seat as int);
    match led_suit {
        None => seq![first_lowest_id(hand)],
        Some(led) => {
            let suited = ranked(hand, led as int);
            if suited.len() > 0 {
                if partner_winning {
                    Seq::empty()
                } else if win is Some {
                    let w = win.unwrap();
                    if trump_suit is Some && w.suit == trump_suit && Some(led) != trump_suit {
                        Seq::empty()
                    } else {
                        let spend: int = if wcc >= 3 { 1 } else { 2 };
                        match cheapest_above(suited, w.play_value) {
                            Some(id) => seq![id],
                            None => if spend >= 2 && winning_combo(suited, w.play_value, spend) is Some {
                                winning_combo(suited, w.play_value, spend).unwrap()
                            } else {
                                Seq::empty()
                            },
                        }
                    }
                } else {
                    seq![suited.last().1]
                }
            } else if partner_winning {
                Seq::empty()
            } else if wcc >= 3 {
                Seq::empty()
            } else if trump_suit is Some && ranked(hand, trump_suit.unwrap() as int).len() > 0 {
                let ts = trump_suit.unwrap();
                let trumps = ranked(hand, ts as int);
                if win is Some && win.unwrap().suit == Some(ts) {
                    match cheapest_above(trumps, win.unwrap().play_value) {
                        Some(id) => seq![id],
                        None => Seq::empty(),
                    }
                } else {
                    seq![trumps.last().1]
                }
            } else {
                Seq::empty()
            }
        },
    }
}

/// The cards the computer plays for `seat` (empty for a pass): nothing with an
/// empty hand; the lead when it leads the trick; otherwise a follow that saves
/// cards when its partner is winning or the winner spent many cards, beats the
/// winner as cheaply as it can (one card, or at most two when the winner used
/// fewer than three), or ruffs with its lowest trump when void.
pub open spec fn ai_choice(
    cards: Seq<Card>,
    game_id: u64,
    seat: u8,
    trick: Trick,
    game: Game,
    plays: Seq<TrickPlay>,
) -> Seq<u32> {
    let hand = hand_of(cards, game_id, seat);
    if hand.len() == 0 {
        Seq::empty()
    } else if seat == trick.leader_seat {
        ai_lead_choice(seat, hand, game.trump_suit, game)
    } else {
        ai_follow_choice(seat, hand, game.trump_suit, trick.led_suit, plays)
    }
}

/// The computer can choose a play here: its hand holds at most one deck of cards
/// of suits 0..3, the led and trump suits are suits 0..3, and a lead from it is defined.
pub open spec fn ai_play_defined(cards: Seq<Card>, game_id: u64, seat: u8, trick: Trick, game: Game) -> bool {
    let hand = hand_of(cards, game_id, seat);
    &&& hand.len() <= 52
    &&& forall|i: int| 0 <= i < hand.len() ==> (#[trigger] hand[i]).suit < 4
    &&& trick.led_suit matches Some(l) ==> l < 4
    &&& game.trump_suit matches Some(t) ==> t < 4
    &&& (hand.len() > 0 && seat == trick.leader_seat ==> lead_defined(hand, game.trump_suit))
}

/// The cards the computer chooses, as `ai_choice` describes them.
fn choose_cards(
    cards: &Vec<Card>,
    game_id: u64,
    seat: u8,
    trick: &Trick,
    game: &Game,
    plays: &Vec<TrickPlay>,
) -> (r: Vec<u32>)
    requires
        ai_play_defined(cards@, game_id, seat, *trick, *game),
    ensures
        r@ == ai_choice(cards@, game_id, seat, *trick, *game, plays@),
{
    let hand = hand_cards(cards, game_id, seat);
    if hand.len() == 0 {
        return Vec::new();
    }
    let trump = game.trump_suit;
    let by_suit = ranked_suits(&hand);
    if seat == trick.leader_seat {
        return ai_lead(seat, &hand, &by_suit, trump, game);
    }
    let winner = current_trick_winner(plays, trump, trick.led_suit);
    let winner_cards = cards_used_by_winner(plays);
    let partner_winning = match winner {
        Some((w, _, _)) => same_team(seat, w),
        None => false,
    };
    let led_suit = match trick.led_suit {
        Some(s) => s,
        None => {
            return vec![first_lowest(&hand)];
        },
    };
    proof {
        lemma_ranked_len(hand@, led_suit as int);
    }
    let suited = &by_suit[led_suit as usize];
    if suited.len() > 0 {
        if partner_winning {
            return Vec::new();
        }
        if let Some((_, best_val, best_suit)) = winner {
            let best_is_trump = trump.is_some() && best_suit == trump;
            if best_is_trump && Some(led_suit) != trump {
                return Vec::new();
            }
            let max_cards_to_spend: usize = if winner_cards >= 3 { 1 } else { 2 };
            if let Some(id) = find_cheapest_above(suited, best_val) {
                return vec![id];
            }
            if max_cards_to_spend >= 2 {
                if let Some(ids) = find_winning_combo(suited, best_val, max_cards_to_spend) {
                    return ids;
                }
            }
            return Vec::new();
        }
        return vec![suited[suited.len() - 1].1];
    }
    if partner_winning {
        return Vec::new();
    }
    if winner_cards >= 3 {
        return Vec::new();
    }
    if let Some(ts) = trump {
        let trumps = &by_suit[ts as usize];
        if trumps.len() > 0 {
            if let Some((_, best_val, best_suit)) = winner {
                if best_suit == Some(ts) {
                    return match find_cheapest_above(trumps, best_val) {
                        Some(id) => vec![id],
                        None => Vec::new(),
                    };
                }
            }
            return vec![trumps[trumps.len() - 1].1];
        }
    }
    Vec::new()
}

/// Pick cards for the AI to play. Returns empty vec for a pass. Void in the led
/// suit against an opponent's winning trump, it over-trumps or passes.
pub fn ai_select_cards(
    cards: &Vec<Card>,
    game_id: u64,
    seat: u8,
    trick: &Trick,
    game: &Game,
    plays: &Vec<TrickPlay>,
) -> (r: Vec<u32>)
    requires
        ai_play_defined(cards@, game_id, seat, *trick, *game),
    ensures
        r@ == ai_choice(cards@, game_id, seat, *trick, *game, plays@),
        ({
            let hand = hand_of(cards@, game_id, seat);
            let win = leading_play(play_infos(plays@), game.trump_suit, trick.led_suit);
            seat != trick.leader_seat && trick.led_suit is Some && (forall|j: int|
                0 <= j < hand.len() ==> (#[trigger] hand[j]).suit != trick.led_suit.unwrap()) && win is Some
                && !teammates(seat as int, win.unwrap().seat as int) && game.trump_suit is Some && win.unwrap().suit
                == game.trump_suit ==> forall|k: int|
                0 <= k < r@.len() ==> #[trigger] suit_card_beating(hand, game.trump_suit.unwrap(), win.unwrap().play_value, r@[k])
        }),
{
    let r = choose_cards(cards, game_id, seat, trick, game, plays);
    proof {
        lemma_computer_overtrumps_or_passes(cards@, game_id, seat, *trick, *game, plays@);
        let ids = ai_choice(cards@, game_id, seat, *trick, *game, plays@);
        assert(r@ == ids);
    }
    r
}


/// What the computer does next in a game.
#[derive(Debug, Clone, Copy, PartialEq, Eq, Structural)]
pub enum AiTurn {
    /// Nothing: the game is in the lobby or finished, it is not the computer's
    /// turn, or the phase is unknown.
    Stop,
    /// Call in the auction for the seat whose turn it is.
    Bid,
    /// Play in the current trick for the seat whose turn it is.
    Play,
}

/// The computer acts for the seat whose turn it is, when that seat is the
/// computer's, in the auction (a call) and in the play (cards or a pass).
pub fn next_ai_turn(game: &Game, turn_is_computer: bool) -> (r: AiTurn)
    ensures
        r == (if game.phase == PHASE_FINISHED || game.phase == PHASE_LOBBY || !turn_is_computer {
            AiTurn::Stop
        } else if game.phase == PHASE_AUCTION {
            AiTurn::Bid
        } else if game.phase == PHASE_PLAY {
            AiTurn::Play
        } else {
            AiTurn::Stop
        }),
{
    if game.phase == PHASE_FINISHED || game.phase == PHASE_LOBBY || !turn_is_computer {
        AiTurn::Stop
    } else if game.phase == PHASE_AUCTION {
        AiTurn::Bid
    } else if game.phase == PHASE_PLAY {
        AiTurn::Play
    } else {
        AiTurn::Stop
    }
}

/// Whether the computer can choose a play for `seat` (see `ai_play_defined`).
pub fn ai_play_possible(cards: &Vec<Card>, game_id: u64, seat: u8, trick: &Trick, game: &Game) -> (r: bool)
    ensures
        r == ai_play_defined(cards@, game_id, seat, *trick, *game),
{
    let hand = hand_cards(cards, game_id, seat);
    if hand.len() > 52 {
        return false;
    }
    let n = hand.len();
    let mut k: usize = 0;
    while k < n
        invariant
            n == hand@.len(),
            k <= n,
            hand@ == hand_of(cards@, game_id, seat),
            forall|i: int| 0 <= i < k ==> (#[trigger] hand@[i]).suit < 4,
        decreases n - k,
    {
        if hand[k].suit >= 4 {
            assert(hand@[k as int].suit >= 4);
            return false;
        }
        k = k + 1;
    }
    match trick.led_suit {
        Some(l) => {
            if l >= 4 {
                return false;
            }
        },
        None => {},
    }
    match game.trump_suit {
        Some(t) => {
            if t >= 4 {
                return false;
            }
        },
        None => {},
    }
    if hand.len() == 0 || seat != trick.leader_seat || hand.len() <= 3 {
        return true;
    }
    let by_suit = ranked_suits(&hand);
    if let Some(t) = game.trump_suit {
        if singleton_lead_suit(&hand, &by_suit, t).is_some() {
            return true;
        }
    }
    let idx = match best_lead_suit(&hand, &by_suit, game.trump_suit) {
        Some(b) => b,
        None => 0,
    };
    assert(idx as int == lead_suit(hand@, game.trump_suit));
    assert(!(game.trump_suit is Some && singleton_from(hand@, game.trump_suit.unwrap(), 0) is Some));
    by_suit[idx].len() > 0
}


/// Some card of suit `s` in the hand has the id `id`.
pub open spec fn suit_card_id(hand: Seq<Card>, s: int, id: u32) -> bool {
    exists|j: int| 0 <= j < hand.len() && (#[trigger] hand[j]).suit == s && hand[j].card_id == id
}

/// Every id of `ids` is the id of a card of suit `s` in the hand.
pub open spec fn ids_in_suit(hand: Seq<Card>, s: int, ids: Seq<u32>) -> bool {
    forall|k: int| 0 <= k < ids.len() ==> suit_card_id(hand, s, #[trigger] ids[k])
}

/// Some pair of a suit listing has the id `id`.
pub open spec fn listed_id(suited: Seq<(u8, u32)>, id: u32) -> bool {
    exists|j: int| 0 <= j < suited.len() && (#[trigger] suited[j]).1 == id
}

/// Every pair listed for suit `s` is a card of suit `s` in the hand.
proof fn lemma_ranked_from_hand(hand: Seq<Card>, s: int, i: int)
    requires
        0 <= i < ranked(hand, s).len(),
    ensures
        suit_card_id(hand, s, ranked(hand, s)[i].1),
{
    let sp = suit_pairs(hand, s);
    let r = ranked(hand, s);
    lemma_ranked_multiset(hand, s);
    sp.to_multiset_ensures();
    r.to_multiset_ensures();
    let x = r[i];
    assert(r.contains(x));
    assert(r.to_multiset().count(x) > 0);
    assert(sp.to_multiset().count(x) > 0);
    assert(sp.contains(x));
    let m = choose|m: int| 0 <= m < sp.len() && sp[m] == x;
    let pred = |c: Card| c.suit == s;
    let f = hand.filter(pred);
    assert(sp[m] == (f[m].rank, f[m].card_id));
    hand.lemma_filter_pred(pred, m);
    assert(f.contains(f[m]));
    hand.lemma_filter_contains_rev(pred, f[m]);
    let j = choose|j: int| 0 <= j < hand.len() && hand[j] == f[m];
    assert(hand[j].suit == s && hand[j].card_id == x.1);
}

/// A listed id of suit `s` is a card of suit `s` in the hand.
proof fn lemma_listed_from_hand(hand: Seq<Card>, s: int, id: u32)
    requires
        listed_id(ranked(hand, s), id),
    ensures
        suit_card_id(hand, s, id),
{
    let j = choose|j: int| 0 <= j < ranked(hand, s).len() && (#[trigger] ranked(hand, s)[j]).1 == id;
    lemma_ranked_from_hand(hand, s, j);
}

/// A suit with nothing listed has no card in the hand.
proof fn lemma_ranked_empty(hand: Seq<Card>, s: int, j: int)
    requires
        ranked(hand, s).len() == 0,
        0 <= j < hand.len(),
    ensures
        hand[j].suit != s,
{
    let sp = suit_pairs(hand, s);
    lemma_ranked_multiset(hand, s);
    sp.to_multiset_ensures();
    ranked(hand, s).to_multiset_ensures();
    let pred = |c: Card| c.suit == s;
    if hand[j].suit == s {
        hand.lemma_filter_contains(pred, j);
        assert(hand.filter(pred).len() > 0);
    }
}

/// A card of suit `s` in the seat's hand is the game's card with its id, and the
/// seat can play it.
proof fn lemma_hand_card_playable(cards: Seq<Card>, game_id: u64, seat: u8, s: int, id: u32)
    requires
        cards_ok(cards),
        suit_card_id(hand_of(cards, game_id, seat), s, id),
    ensures
        holds_card_id(cards, id),
        card_problem(cards, game_id, seat, id) is None,
        card_with_id(cards, id).suit == s,
{
    let hand = hand_of(cards, game_id, seat);
    let pred = |c: Card| in_hand_of(c, game_id, seat as int);
    let j = choose|j: int| 0 <= j < hand.len() && (#[trigger] hand[j]).suit == s && hand[j].card_id == id;
    cards.lemma_filter_pred(pred, j);
    cards.lemma_filter_contains_rev(pred, hand[j]);
    let i = choose|i: int| 0 <= i < cards.len() && cards[i] == hand[j];
    assert(card_at(cards, id, i));
    let c = choose|c: int| card_at(cards, id, c);
    assert(c == i);
}

/// When no card of the seat's hand is of suit `s`, the seat holds none of it.
proof fn lemma_no_suit_in_hand(cards: Seq<Card>, game_id: u64, seat: u8, s: u8)
    requires
        forall|j: int| 0 <= j < hand_of(cards, game_id, seat).len() ==> (#[trigger] hand_of(cards, game_id, seat)[j]).suit != s,
    ensures
        !seat_holds_suit(cards, game_id, seat, s),
{
    let pred = |c: Card| in_hand_of(c, game_id, seat as int);
    let hand = hand_of(cards, game_id, seat);
    if seat_holds_suit(cards, game_id, seat, s) {
        let i = choose|i: int|
            0 <= i < cards.len() && (#[trigger] cards[i]).game_id == game_id && cards[i].owner_seat == seat
                && cards[i].location@ == HAND@ && cards[i].suit == s;
        cards.lemma_filter_contains(pred, i);
        let j = choose|j: int| 0 <= j < hand.len() && hand[j] == cards[i];
        assert(hand[j].suit != s);
    }
}

proof fn lemma_no_first_problem(cards: Seq<Card>, game_id: u64, seat: u8, ids: Seq<u32>)
    requires
        forall|k: int| 0 <= k < ids.len() ==> card_problem(cards, game_id, seat, #[trigger] ids[k]) is None,
    ensures
        first_card_problem(cards, game_id, seat, ids) is None,
    decreases ids.len(),
{
    if ids.len() > 0 {
        let pre = ids.drop_last();
        assert forall|k: int| 0 <= k < pre.len() implies card_problem(cards, game_id, seat, #[trigger] pre[k]) is None by {
            assert(pre[k] == ids[k]);
        }
        lemma_no_first_problem(cards, game_id, seat, pre);
        assert(card_problem(cards, game_id, seat, ids[ids.len() - 1]) is None);
    }
}

proof fn lemma_ranks_sum_small(cards: Seq<Card>, ids: Seq<u32>)
    ensures
        ranks_sum(cards, ids) <= 255 * ids.len(),
    decreases ids.len(),
{
    if ids.len() > 0 {
        lemma_ranks_sum_small(cards, ids.drop_last());
    }
}

proof fn lemma_cheapest_above_listed(suited: Seq<(u8, u32)>, value: u16)
    ensures
        cheapest_above(suited, value) matches Some(id) ==> listed_id(suited, id),
    decreases suited.len(),
{
    if suited.len() > 0 {
        let pre = suited.drop_last();
        lemma_cheapest_above_listed(pre, value);
        if suited.last().0 as u16 > value {
            assert(suited[suited.len() - 1].1 == suited.last().1);
        } else if cheapest_above(pre, value) is Some {
            let id = cheapest_above(pre, value).unwrap();
            let j = choose|j: int| 0 <= j < pre.len() && (#[trigger] pre[j]).1 == id;
            assert(suited[j] == pre[j]);
        }
    }
}

/// The listed pairs have different ids.
pub open spec fn listing_ids_distinct(suited: Seq<(u8, u32)>) -> bool {
    forall|a: int, b: int| 0 <= a < suited.len() && 0 <= b < suited.len() && a != b ==> suited[a].1 != suited[b].1
}

proof fn lemma_combo_listed(suited: Seq<(u8, u32)>, target: u16, max_size: int)
    requires
        suited.len() <= usize::MAX,
    ensures
        winning_combo(suited, target, max_size) matches Some(v) ==> {
            &&& v.len() <= max_size
            &&& forall|k: int| 0 <= k < v.len() ==> listed_id(suited, #[trigger] v[k])
            &&& listing_ids_distinct(suited) ==> ids_distinct(v)
        },
{
    lemma_combo_from(suited, target, max_size, 2);
    if combo_from(suited, target, max_size, 2) is Some {
        let p = combo_from(suited, target, max_size, 2).unwrap();
        let v = pick_ids(suited, p);
        assert forall|k: int| 0 <= k < v.len() implies listed_id(suited, #[trigger] v[k]) by {
            assert(v[k] == suited[p[k] as int].1);
            assert(0 <= p[k] < suited.len());
        }
        if listing_ids_distinct(suited) {
            assert forall|a: int, b: int| 0 <= a < v.len() && 0 <= b < v.len() && a != b implies v[a] != v[b] by {
                assert(v[a] == suited[p[a] as int].1);
                assert(v[b] == suited[p[b] as int].1);
                if a < b {
                    assert(p[a] < p[b]);
                } else {
                    assert(p[b] < p[a]);
                }
            }
        }
    }
}

proof fn lemma_first_highest_exists(hand: Seq<Card>)
    requires
        hand.len() > 0,
    ensures
        exists|i: int| is_first_highest(hand, i),
    decreases hand.len(),
{
    if hand.len() == 1 {
        assert(is_first_highest(hand, 0));
    } else {
        let pre = hand.drop_last();
        lemma_first_highest_exists(pre);
        let i = choose|i: int| is_first_highest(pre, i);
        let n = hand.len() - 1;
        assert forall|j: int| 0 <= j < n implies #[trigger] hand[j] == pre[j] by {}
        if hand[n].rank > hand[i].rank {
            assert forall|j: int| 0 <= j < hand.len() implies (#[trigger] hand[j]).rank <= hand[n].rank by {
                if j < n {
                    assert(pre[j].rank <= pre[i].rank);
                }
            }
            assert(is_first_highest(hand, n));
        } else {
            assert forall|j: int| 0 <= j < hand.len() implies (#[trigger] hand[j]).rank <= hand[i].rank by {
                if j < n {
                    assert(pre[j].rank <= pre[i].rank);
                }
            }
            assert forall|j: int| 0 <= j < i implies (#[trigger] hand[j]).rank < hand[i].rank by {
                assert(pre[j].rank < pre[i].rank);
            }
            assert(is_first_highest(hand, i));
        }
    }
}

proof fn lemma_first_lowest_exists(hand: Seq<Card>)
    requires
        hand.len() > 0,
    ensures
        exists|i: int| is_first_lowest(hand, i),
    decreases hand.len(),
{
    if hand.len() == 1 {
        assert(is_first_lowest(hand, 0));
    } else {
        let pre = hand.drop_last();
        lemma_first_lowest_exists(pre);
        let i = choose|i: int| is_first_lowest(pre, i);
        let n = hand.len() - 1;
        assert forall|j: int| 0 <= j < n implies #[trigger] hand[j] == pre[j] by {}
        if hand[n].rank < hand[i].rank {
            assert forall|j: int| 0 <= j < hand.len() implies (#[trigger] hand[j]).rank >= hand[n].rank by {
                if j < n {
                    assert(pre[j].rank >= pre[i].rank);
                }
            }
            assert(is_first_lowest(hand, n));
        } else {
            assert forall|j: int| 0 <= j < hand.len() implies (#[trigger] hand[j]).rank >= hand[i].rank by {
                if j < n {
                    assert(pre[j].rank >= pre[i].rank);
                }
            }
            assert forall|j: int| 0 <= j < i implies (#[trigger] hand[j]).rank > hand[i].rank by {
                assert(pre[j].rank > pre[i].rank);
            }
            assert(is_first_lowest(hand, i));
        }
    }
}

proof fn lemma_singleton_from(hand: Seq<Card>, t: u8, from: int)
    ensures
        singleton_from(hand, t, from) matches Some(q) ==> ranked(hand, q).len() == 1,
    decreases 4 - from,
{
    if from < 4 {
        lemma_singleton_from(hand, t, from + 1);
    }
}

/// Keeping some cards of a list with distinct ids keeps the ids distinct.
proof fn lemma_filter_ids_distinct(cards: Seq<Card>, pred: spec_fn(Card) -> bool)
    requires
        card_ids_distinct(cards),
    ensures
        card_ids_distinct(cards.filter(pred)),
    decreases cards.len(),
{
    reveal_with_fuel(Seq::<_>::filter, 1);
    if cards.len() > 0 {
        let pre = cards.drop_last();
        assert(card_ids_distinct(pre)) by {
            assert forall|i: int, j: int| 0 <= i < pre.len() && 0 <= j < pre.len() && i != j implies (
            #[trigger] pre[i]).card_id != (#[trigger] pre[j]).card_id by {
                assert(pre[i] == cards[i] && pre[j] == cards[j]);
            }
        }
        lemma_filter_ids_distinct(pre, pred);
        let f = pre.filter(pred);
        let last = cards.last();
        if pred(last) {
            assert forall|i: int| 0 <= i < f.len() implies (#[trigger] f[i]).card_id != last.card_id by {
                assert(f.contains(f[i]));
                pre.lemma_filter_contains_rev(pred, f[i]);
                let k = choose|k: int| 0 <= k < pre.len() && pre[k] == f[i];
                assert(cards[k] == pre[k]);
                assert(cards[cards.len() - 1] == last);
            }
            let g = f.push(last);
            assert forall|i: int, j: int| 0 <= i < g.len() && 0 <= j < g.len() && i != j implies (
            #[trigger] g[i]).card_id != (#[trigger] g[j]).card_id by {
                if i < f.len() && j < f.len() {
                    assert(g[i] == f[i] && g[j] == f[j]);
                } else if i < f.len() {
                    assert(g[i] == f[i]);
                } else {
                    assert(g[j] == f[j]);
                }
            }
        }
    }
}

/// In a hand with distinct card ids, the listing of a suit names each card once.
proof fn lemma_ranked_ids_distinct(hand: Seq<Card>, s: int)
    requires
        card_ids_distinct(hand),
    ensures
        listing_ids_distinct(ranked(hand, s)),
{
    broadcast use vstd::seq_lib::group_to_multiset_ensures;
    let pred = |c: Card| c.suit == s;
    let f = hand.filter(pred);
    lemma_filter_ids_distinct(hand, pred);
    let sp = suit_pairs(hand, s);
    let r = ranked(hand, s);
    assert(sp.len() == f.len());
    assert forall|a: int, b: int| 0 <= a < sp.len() && 0 <= b < sp.len() && a != b implies sp[a].1 != sp[b].1 by {
        assert(sp[a] == (f[a].rank, f[a].card_id));
        assert(sp[b] == (f[b].rank, f[b].card_id));
    }
    assert(sp.no_duplicates());
    sp.lemma_multiset_has_no_duplicates();
    lemma_ranked_multiset(hand, s);
    assert forall|x: (u8, u32)| r.to_multiset().contains(x) implies r.to_multiset().count(x) == 1 by {
        assert(sp.to_multiset().contains(x));
    }
    r.lemma_multiset_has_no_duplicates_conv();
    assert forall|a: int, b: int| 0 <= a < r.len() && 0 <= b < r.len() && a != b implies r[a].1 != r[b].1 by {
        assert(r.contains(r[a]));
        assert(r.contains(r[b]));
        assert(sp.to_multiset().count(r[a]) > 0);
        assert(sp.to_multiset().count(r[b]) > 0);
        let x = choose|x: int| 0 <= x < sp.len() && sp[x] == r[a];
        let y = choose|y: int| 0 <= y < sp.len() && sp[y] == r[b];
        if r[a].1 == r[b].1 {
            assert(x == y);
            assert(r[a] == r[b]);
        }
    }
}

/// The cards of the seat's hand in a game with distinct card ids have distinct ids.
proof fn lemma_hand_ids_distinct(cards: Seq<Card>, game_id: u64, seat: u8)
    requires
        cards_ok(cards),
    ensures
        card_ids_distinct(hand_of(cards, game_id, seat)),
{
    lemma_filter_ids_distinct(cards, |c: Card| in_hand_of(c, game_id, seat as int));
}

/// The suit of the computer's lead, with the lead's cards all of it.
proof fn lemma_lead_in_one_suit(seat: u8, hand: Seq<Card>, trump_suit: Option<u8>, game: Game) -> (s: int)
    requires
        hand.len() > 0,
        lead_defined(hand, trump_suit),
        card_ids_distinct(hand),
    ensures
        ids_in_suit(hand, s, ai_lead_choice(seat, hand, trump_suit, game)),
        1 <= ai_lead_choice(seat, hand, trump_suit, game).len() <= 2,
        ids_distinct(ai_lead_choice(seat, hand, trump_suit, game)),
{
    let ids = ai_lead_choice(seat, hand, trump_suit, game);
    if hand.len() <= 3 {
        lemma_first_highest_exists(hand);
        let i = choose|i: int| is_first_highest(hand, i);
        assert(suit_card_id(hand, hand[i].suit as int, ids[0]));
        hand[i].suit as int
    } else if trump_suit is Some && singleton_from(hand, trump_suit.unwrap(), 0) is Some {
        let q = singleton_from(hand, trump_suit.unwrap(), 0).unwrap();
        lemma_singleton_from(hand, trump_suit.unwrap(), 0);
        lemma_ranked_from_hand(hand, q, 0);
        q
    } else {
        let s = lead_suit(hand, trump_suit);
        lemma_ranked_from_hand(hand, s, 0);
        if ranked(hand, s).len() >= 2 {
            lemma_ranked_from_hand(hand, s, 1);
            lemma_ranked_ids_distinct(hand, s);
        }
        s
    }
}

/// The suit of the computer's cards when following (when it plays any), with the
/// cards all of it; when that suit is not the led suit, the hand has no card of
/// the led suit.
proof fn lemma_follow_in_one_suit(
    seat: u8,
    hand: Seq<Card>,
    trump_suit: Option<u8>,
    led_suit: Option<u8>,
    plays: Seq<TrickPlay>,
) -> (s: int)
    requires
        hand.len() > 0,
        hand.len() <= 52,
        card_ids_distinct(hand),
    ensures
        ids_in_suit(hand, s, ai_follow_choice(seat, hand, trump_suit, led_suit, plays)),
        ai_follow_choice(seat, hand, trump_suit, led_suit, plays).len() <= 2,
        ids_distinct(ai_follow_choice(seat, hand, trump_suit, led_suit, plays)),
        led_suit matches Some(l) ==> (s != l ==> forall|j: int| 0 <= j < hand.len() ==> (#[trigger] hand[j]).suit != l),
{
    let ids = ai_follow_choice(seat, hand, trump_suit, led_suit, plays);
    let win = leading_play(plays.map_values(|p: TrickPlay| play_info(p)), trump_suit, led_suit);
    let wcc = winner_card_count(plays);
    match led_suit {
        None => {
            lemma_first_lowest_exists(hand);
            let i = choose|i: int| is_first_lowest(hand, i);
            assert(suit_card_id(hand, hand[i].suit as int, ids[0]));
            hand[i].suit as int
        },
        Some(led) => {
            let suited = ranked(hand, led as int);
            if suited.len() > 0 {
                if win is Some {
                    let w = win.unwrap();
                    let spend: int = if wcc >= 3 { 1 } else { 2 };
                    lemma_cheapest_above_listed(suited, w.play_value);
                    if cheapest_above(suited, w.play_value) is Some {
                        lemma_listed_from_hand(hand, led as int, cheapest_above(suited, w.play_value).unwrap());
                    }
                    lemma_ranked_len(hand, led as int);
                    lemma_combo_listed(suited, w.play_value, spend);
                    lemma_ranked_ids_distinct(hand, led as int);
                    assert forall|k: int| 0 <= k < ids.len() implies suit_card_id(hand, led as int, #[trigger] ids[k]) by {
                        if cheapest_above(suited, w.play_value) is None {
                            lemma_listed_from_hand(hand, led as int, ids[k]);
                        }
                    }
                } else {
                    lemma_ranked_from_hand(hand, led as int, suited.len() - 1);
                }
                led as int
            } else {
                assert forall|j: int| 0 <= j < hand.len() implies (#[trigger] hand[j]).suit != led by {
                    lemma_ranked_empty(hand, led as int, j);
                }
                match trump_suit {
                    Some(ts) => {
                        let trumps = ranked(hand, ts as int);
                        if trumps.len() > 0 {
                            lemma_cheapest_above_listed(trumps, if win is Some { win.unwrap().play_value } else { 0 });
                            if win is Some && win.unwrap().suit == Some(ts) {
                                if cheapest_above(trumps, win.unwrap().play_value) is Some {
                                    lemma_listed_from_hand(hand, ts as int, cheapest_above(trumps, win.unwrap().play_value).unwrap());
                                }
                            } else {
                                lemma_ranked_from_hand(hand, ts as int, trumps.len() - 1);
                            }
                        }
                        ts as int
                    },
                    None => led as int,
                }
            }
        },
    }
}

/// Some card of suit `s` in the hand has rank `rank` and id `id`.
pub open spec fn suit_card(hand: Seq<Card>, s: int, rank: u8, id: u32) -> bool {
    exists|j: int| 0 <= j < hand.len() && (#[trigger] hand[j]).suit == s && hand[j].rank == rank && hand[j].card_id == id
}

/// Every pair listed for suit `s` is the rank and id of a card of suit `s` in the hand.
proof fn lemma_ranked_pair_from_hand(hand: Seq<Card>, s: int, i: int)
    requires
        0 <= i < ranked(hand, s).len(),
    ensures
        suit_card(hand, s, ranked(hand, s)[i].0, ranked(hand, s)[i].1),
{
    let sp = suit_pairs(hand, s);
    let r = ranked(hand, s);
    lemma_ranked_multiset(hand, s);
    sp.to_multiset_ensures();
    r.to_multiset_ensures();
    let x = r[i];
    assert(r.contains(x));
    assert(r.to_multiset().count(x) > 0);
    assert(sp.to_multiset().count(x) > 0);
    assert(sp.contains(x));
    let m = choose|m: int| 0 <= m < sp.len() && sp[m] == x;
    let pred = |c: Card| c.suit == s;
    let f = hand.filter(pred);
    assert(sp[m] == (f[m].rank, f[m].card_id));
    hand.lemma_filter_pred(pred, m);
    assert(f.contains(f[m]));
    hand.lemma_filter_contains_rev(pred, f[m]);
    let j = choose|j: int| 0 <= j < hand.len() && hand[j] == f[m];
    assert(hand[j].suit == s && hand[j].rank == x.0 && hand[j].card_id == x.1);
}

/// A hand with no card of suit `s` lists nothing for it.
proof fn lemma_no_card_nothing_listed(hand: Seq<Card>, s: int)
    requires
        forall|j: int| 0 <= j < hand.len() ==> (#[trigger] hand[j]).suit != s,
    ensures
        ranked(hand, s).len() == 0,
{
    let pred = |c: Card| c.suit == s;
    let f = hand.filter(pred);
    if f.len() > 0 {
        hand.lemma_filter_pred(pred, 0);
        assert(f.contains(f[0]));
        hand.lemma_filter_contains_rev(pred, f[0]);
    }
    lemma_ranked_multiset(hand, s);
    suit_pairs(hand, s).to_multiset_ensures();
    ranked(hand, s).to_multiset_ensures();
}

/// The card named by `cheapest_above` beats `value`.
proof fn lemma_cheapest_above_beats(suited: Seq<(u8, u32)>, value: u16)
    ensures
        cheapest_above(suited, value) matches Some(id) ==> exists|j: int|
            0 <= j < suited.len() && (#[trigger] suited[j]).1 == id && suited[j].0 as u16 > value,
    decreases suited.len(),
{
    if suited.len() > 0 {
        let pre = suited.drop_last();
        lemma_cheapest_above_beats(pre, value);
        if suited.last().0 as u16 > value {
            assert(suited[suited.len() - 1] == suited.last());
        } else if cheapest_above(pre, value) is Some {
            let id = cheapest_above(pre, value).unwrap();
            let j = choose|j: int| 0 <= j < pre.len() && (#[trigger] pre[j]).1 == id && pre[j].0 as u16 > value;
            assert(suited[j] == pre[j]);
        }
    }
}

/// When the computer follows a trick it is void in, and an opponent's trump play
/// is winning it, any card it plays is a trump of a higher rank than that play's
/// value: it over-trumps or it passes.
pub proof fn lemma_computer_overtrumps_or_passes(
    cards: Seq<Card>,
    game_id: u64,
    seat: u8,
    trick: Trick,
    game: Game,
    plays: Seq<TrickPlay>,
)
    ensures
        ({
            let hand = hand_of(cards, game_id, seat);
            let ids = ai_choice(cards, game_id, seat, trick, game, plays);
            let win = leading_play(play_infos(plays), game.trump_suit, trick.led_suit);
            seat != trick.leader_seat && trick.led_suit is Some && (forall|j: int|
                0 <= j < hand.len() ==> (#[trigger] hand[j]).suit != trick.led_suit.unwrap()) && win is Some
                && !teammates(seat as int, win.unwrap().seat as int) && game.trump_suit is Some && win.unwrap().suit
                == game.trump_suit ==> forall|k: int|
                0 <= k < ids.len() ==> #[trigger] suit_card_beating(hand, game.trump_suit.unwrap(), win.unwrap().play_value, ids[k])
        }),
{
    let hand = hand_of(cards, game_id, seat);
    let ids = ai_choice(cards, game_id, seat, trick, game, plays);
    let win = leading_play(play_infos(plays), game.trump_suit, trick.led_suit);
    if seat != trick.leader_seat && trick.led_suit is Some && (forall|j: int|
        0 <= j < hand.len() ==> (#[trigger] hand[j]).suit != trick.led_suit.unwrap()) && win is Some && !teammates(
        seat as int,
        win.unwrap().seat as int,
    ) && game.trump_suit is Some && win.unwrap().suit == game.trump_suit && hand.len() > 0 {
        let l = trick.led_suit.unwrap();
        let t = game.trump_suit.unwrap();
        let v = win.unwrap().play_value;
        lemma_no_card_nothing_listed(hand, l as int);
        let trumps = ranked(hand, t as int);
        lemma_cheapest_above_beats(trumps, v);
        if ids.len() > 0 {
            assert(trumps.len() > 0);
            assert(cheapest_above(trumps, v) is Some);
            let id = cheapest_above(trumps, v).unwrap();
            let j = choose|j: int| 0 <= j < trumps.len() && (#[trigger] trumps[j]).1 == id && trumps[j].0 as u16 > v;
            lemma_ranked_pair_from_hand(hand, t as int, j);
            assert(ids[0] == id);
            assert(suit_card_beating(hand, t, v, ids[0]));
        }
    }
}

/// Some card of suit `s` in the hand has the id `id` and a rank above `value`.
pub open spec fn suit_card_beating(hand: Seq<Card>, s: u8, value: u16, id: u32) -> bool {
    exists|j: int|
        0 <= j < hand.len() && (#[trigger] hand[j]).suit == s && hand[j].card_id == id && hand[j].rank as u16 > value
}

/// The computer's play passes every check on the cards of a play: leading with
/// cards in hand it plays at least one; any cards it plays (at most two) are its
/// own cards of this game in hand, each named once, all of one suit, and of the
/// led suit whenever it holds that suit.
pub proof fn lemma_computer_play_is_legal(
    cards: Seq<Card>,
    game_id: u64,
    seat: u8,
    trick: Trick,
    game: Game,
    plays: Seq<TrickPlay>,
)
    requires
        cards_ok(cards),
        ai_play_defined(cards, game_id, seat, trick, game),
        seat == trick.leader_seat ==> trick.led_suit is None,
    ensures
        ai_choice(cards, game_id, seat, trick, game, plays).len() <= 2,
        hand_of(cards, game_id, seat).len() > 0 && seat == trick.leader_seat ==> ai_choice(
            cards,
            game_id,
            seat,
            trick,
            game,
            plays,
        ).len() > 0,
        ai_choice(cards, game_id, seat, trick, game, plays).len() > 0 ==> played_cards_error(
            cards,
            game_id,
            seat,
            trick.led_suit,
            ai_choice(cards, game_id, seat, trick, game, plays),
        ) is None,
{
    let hand = hand_of(cards, game_id, seat);
    let ids = ai_choice(cards, game_id, seat, trick, game, plays);
    lemma_hand_ids_distinct(cards, game_id, seat);
    if hand.len() > 0 {
        let s = if seat == trick.leader_seat {
            lemma_lead_in_one_suit(seat, hand, game.trump_suit, game)
        } else {
            lemma_follow_in_one_suit(seat, hand, game.trump_suit, trick.led_suit, plays)
        };
        if ids.len() > 0 {
            assert forall|k: int| 0 <= k < ids.len() implies card_problem(cards, game_id, seat, #[trigger] ids[k]) is None
                && card_with_id(cards, ids[k]).suit == s by {
                lemma_hand_card_playable(cards, game_id, seat, s, ids[k]);
            }
            lemma_no_first_problem(cards, game_id, seat, ids);
            assert(one_suit(cards, ids));
            lemma_ranks_sum_small(cards, ids);
            if trick.led_suit is Some && s != trick.led_suit.unwrap() {
                lemma_no_suit_in_hand(cards, game_id, seat, trick.led_suit.unwrap());
            }
        }
    }
}

} // verus!
