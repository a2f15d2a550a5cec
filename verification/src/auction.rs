//! The auction: placing bids and passes, and deciding the contract.

use vstd::prelude::*;
use crate::tables::{Bid, Game, GameConfig, GameError, Trick, copy_game};
use crate::types::{
    next_seat, bid_outranks, outranks, seat_after, suit_bid_higher, LEAD_LEFT_OF_DECLARER, PHASE_AUCTION, PHASE_FINISHED,
    PHASE_PLAY,
};

verus! {

/// What a game's result reads when all four seats pass without a bid.
pub const ALL_PASSED_RESULT: &'static str = "All passed — no contract";

/// The bids are listed in auction order: the bid at position i carries sequence number i.
pub open spec fn bids_in_order(bids: Seq<Bid>) -> bool {
    &&& bids.len() <= 65535
    &&& forall|i: int| 0 <= i < bids.len() ==> (#[trigger] bids[i]).sequence == i
}

/// The sequence numbers of the bids are exactly the positions 0 .. n-1, each once.
pub open spec fn sequences_are_positions(bids: Seq<Bid>) -> bool {
    &&& bids.len() <= 65535
    &&& forall|j: int| 0 <= j < bids.len() ==> (#[trigger] bids[j]).sequence < bids.len()
    &&& forall|j: int, k: int|
        0 <= j < bids.len() && 0 <= k < bids.len() && j != k ==> (#[trigger] bids[j]).sequence != (
        #[trigger] bids[k]).sequence
    &&& forall|i: int| 0 <= i < bids.len() ==> #[trigger] carries_sequence(bids, i)
}

/// Some bid carries sequence number `i`.
pub open spec fn carries_sequence(bids: Seq<Bid>, i: int) -> bool {
    exists|j: int| 0 <= j < bids.len() && (#[trigger] bids[j]).sequence == i
}

/// Puts a game's bids, listed in any order, into auction order. Returns None
/// when their sequence numbers are not exactly 0 .. n-1.
pub fn order_bids(bids: &Vec<Bid>) -> (r: Option<Vec<Bid>>)
    ensures
        r is Some <==> sequences_are_positions(bids@),
        r matches Some(v) ==> {
            &&& bids_in_order(v@)
            &&& v@.len() == bids@.len()
            &&& forall|j: int| 0 <= j < bids@.len() ==> v@[bids@[j].sequence as int] == #[trigger] bids@[j]
        },
{
    let n = bids.len();
    if n > 65535 {
        return None;
    }
    let mut slots: Vec<Option<Bid>> = Vec::new();
    let mut i: usize = 0;
    while i < n
        invariant
            i <= n,
            slots@.len() == i,
            forall|k: int| 0 <= k < i ==> slots@[k] is None,
        decreases n - i,
    {
        slots.push(None);
        i = i + 1;
    }
    let mut j: usize = 0;
    while j < n
        invariant
            n == bids@.len(),
            n <= 65535,
            j <= n,
            slots@.len() == n,
            forall|k: int| 0 <= k < j ==> (#[trigger] bids@[k]).sequence < n,
            forall|k: int, l: int|
                0 <= k < j && 0 <= l < j && k != l ==> (#[trigger] bids@[k]).sequence != (#[trigger] bids@[l]).sequence,
            forall|k: int| 0 <= k < j ==> slots@[(#[trigger] bids@[k]).sequence as int] == Some(bids@[k]),
            forall|s: int|
                0 <= s < n && (#[trigger] slots@[s]) is Some ==> exists|k: int| 0 <= k < j && bids@[k].sequence == s,
        decreases n - j,
    {
        let b = bids[j];
        let s = b.sequence as usize;
        if s >= n {
            return None;
        }
        match slots[s] {
            Some(_) => {
                return None;
            },
            None => {},
        }
        slots.set(s, Some(b));
        j = j + 1;
    }
    let mut v: Vec<Bid> = Vec::new();
    let mut i: usize = 0;
    while i < n
        invariant
            n == bids@.len(),
            n <= 65535,
            i <= n,
            slots@.len() == n,
            v@.len() == i,
            forall|k: int| 0 <= k < n ==> (#[trigger] bids@[k]).sequence < n,
            forall|k: int, l: int|
                0 <= k < n && 0 <= l < n && k != l ==> (#[trigger] bids@[k]).sequence != (#[trigger] bids@[l]).sequence,
            forall|k: int| 0 <= k < n ==> slots@[(#[trigger] bids@[k]).sequence as int] == Some(bids@[k]),
            forall|s: int|
                0 <= s < n && (#[trigger] slots@[s]) is Some ==> exists|k: int| 0 <= k < n && bids@[k].sequence == s,
            forall|s: int| 0 <= s < i ==> slots@[s] == Some(#[trigger] v@[s]),
            forall|s: int| 0 <= s < i ==> (#[trigger] v@[s]).sequence == s,
        decreases n - i,
    {
        match slots[i] {
            Some(b) => {
                proof {
                    let k = choose|k: int| 0 <= k < n && bids@[k].sequence == i;
                    assert(slots@[bids@[k].sequence as int] == Some(bids@[k]));
                }
                v.push(b);
            },
            None => {
                proof {
                    assert forall|k: int| 0 <= k < n implies bids@[k].sequence != i by {
                        assert(slots@[bids@[k].sequence as int] == Some(bids@[k]));
                    }
                    assert(!carries_sequence(bids@, i as int));
                }
                return None;
            },
        }
        i = i + 1;
    }
    proof {
        assert forall|s: int| 0 <= s < n implies #[trigger] carries_sequence(bids@, s) by {
            assert(slots@[s] == Some(v@[s]));
        }
    }
    Some(v)
}

/// The latest real (non-pass) bid of the auction, if any.
pub open spec fn last_real_bid(bids: Seq<Bid>) -> Option<Bid>
    decreases bids.len(),
{
    if bids.len() == 0 {
        None
    } else if bids.last().spread is Some {
        Some(bids.last())
    } else {
        last_real_bid(bids.drop_last())
    }
}

/// Some bid of the auction is not a pass.
pub open spec fn has_real_bid(bids: Seq<Bid>) -> bool {
    exists|i: int| 0 <= i < bids.len() && (#[trigger] bids[i]).spread is Some
}

/// The last three calls of the auction are passes.
pub open spec fn ends_with_three_passes(bids: Seq<Bid>) -> bool {
    &&& bids.len() >= 3
    &&& bids[bids.len() - 1].spread is None
    &&& bids[bids.len() - 2].spread is None
    &&& bids[bids.len() - 3].spread is None
}

/// The auction is over with a contract: a real bid was made and three passes followed.
pub open spec fn auction_won(bids: Seq<Bid>) -> bool {
    has_real_bid(bids) && ends_with_three_passes(bids)
}

/// The auction is over without a contract: four or more calls, none of them a bid.
pub open spec fn auction_passed_out(bids: Seq<Bid>) -> bool {
    !has_real_bid(bids) && bids.len() >= 4
}

/// The configuration says the first trick is led by the seat left of the declarer.
pub open spec fn leads_left_of_declarer(config: GameConfig) -> bool {
    config.lead_after_bid@ == LEAD_LEFT_OF_DECLARER@
}

/// The call that `seat` makes, as the next bid of the auction.
pub open spec fn call_of(game: Game, bids: Seq<Bid>, seat: u8, spread: Option<i8>, suit: Option<u8>) -> Bid {
    Bid { bid_id: 0, game_id: game.game_id, seat, spread, suit, sequence: bids.len() as u16 }
}

/// Why the call is refused, if it is.
pub open spec fn bid_error(
    game: Game,
    config: Option<GameConfig>,
    bids: Seq<Bid>,
    seat: u8,
    spread: Option<i8>,
    suit: Option<u8>,
) -> Option<GameError> {
    let all = bids.push(call_of(game, bids, seat, spread, suit));
    if game.phase != PHASE_AUCTION {
        Some(GameError::NotInAuction)
    } else if seat != game.turn_seat {
        Some(GameError::NotThisSeatsTurn)
    } else if suit matches Some(s) && s > 3 {
        Some(GameError::InvalidSuit)
    } else if spread matches Some(sp) && sp <= 0 {
        Some(GameError::SpreadNotPositive)
    } else if spread matches Some(sp) && last_real_bid(bids) matches Some(prev) && !outranks(
        sp,
        suit,
        prev.spread.unwrap(),
        prev.suit,
    ) {
        Some(GameError::BidMustOutrank)
    } else if bids.len() >= 65535 {
        Some(GameError::Overflow)
    } else if auction_won(all) && config is None {
        Some(GameError::ConfigNotFound)
    } else if auction_won(all) && leads_left_of_declarer(config.unwrap()) && last_real_bid(all).unwrap().seat == 255 {
        Some(GameError::Overflow)
    } else if !auction_won(all) && !auction_passed_out(all) && game.turn_seat == 255 {
        Some(GameError::Overflow)
    } else {
        None
    }
}

/// What an accepted call records, and the trick it opens when it ends the auction.
pub struct BidEffect {
    /// The call to store (its id is assigned when it is stored).
    pub bid: Bid,
    /// The first trick of the play, when the call ended the auction with a contract
    /// (its id is assigned when it is stored; the game's `current_trick_id` is then set to it).
    pub opens_trick: Option<Trick>,
}

/// How an accepted call changes the game.
pub open spec fn bid_applied(
    game: Game,
    config: Option<GameConfig>,
    bids: Seq<Bid>,
    seat: u8,
    spread: Option<i8>,
    suit: Option<u8>,
    eff: BidEffect,
    after: Game,
) -> bool {
    let call = call_of(game, bids, seat, spread, suit);
    let all = bids.push(call);
    &&& eff.bid == call
    &&& if auction_won(all) {
        let w = last_real_bid(all).unwrap();
        let leader: u8 = if leads_left_of_declarer(config.unwrap()) {
            seat_after(w.seat as int) as u8
        } else {
            w.seat
        };
        &&& eff.opens_trick == Some(
            Trick {
                trick_id: 0,
                game_id: game.game_id,
                trick_number: 1,
                leader_seat: leader,
                led_suit: None,
                winner_seat: None,
            },
        )
        &&& after == Game {
            phase: PHASE_PLAY,
            turn_seat: leader,
            contract_spread: w.spread,
            trump_suit: w.suit,
            declarer_seat: Some(w.seat),
            ..game
        }
    } else if auction_passed_out(all) {
        &&& eff.opens_trick is None
        &&& after.result matches Some(t) && t@ == ALL_PASSED_RESULT@
        &&& after == Game { phase: PHASE_FINISHED, result: after.result, ..game }
    } else {
        &&& eff.opens_trick is None
        &&& after == Game { turn_seat: seat_after(game.turn_seat as int) as u8, ..game }
    }
}

/// The latest real bid exists exactly when some bid is real, and it is a real bid.
pub proof fn lemma_last_real_bid(bids: Seq<Bid>)
    ensures
        last_real_bid(bids) is Some <==> has_real_bid(bids),
        last_real_bid(bids) matches Some(b) ==> b.spread is Some,
    decreases bids.len(),
{
    if bids.len() > 0 {
        let pre = bids.drop_last();
        lemma_last_real_bid(pre);
        if has_real_bid(bids) && bids.last().spread is None {
            let i = choose|i: int| 0 <= i < bids.len() && (#[trigger] bids[i]).spread is Some;
            assert(pre[i] == bids[i]);
        }
        if has_real_bid(pre) {
            let i = choose|i: int| 0 <= i < pre.len() && (#[trigger] pre[i]).spread is Some;
            assert(pre[i] == bids[i]);
        }
    }
}

/// The latest real bid of an auction kept in order, found from the end.
pub(crate) fn find_last_real_bid(bids: &Vec<Bid>) -> (r: Option<Bid>)
    ensures
        r == last_real_bid(bids@),
{
    let mut k = bids.len();
    assert(bids@.subrange(0, k as int) =~= bids@);
    while k > 0
        invariant
            k <= bids@.len(),
            last_real_bid(bids@) == last_real_bid(bids@.subrange(0, k as int)),
        decreases k,
    {
        proof {
            assert(bids@.subrange(0, k as int).drop_last() =~= bids@.subrange(0, k - 1));
        }
        if bids[k - 1].spread.is_some() {
            return Some(bids[k - 1]);
        }
        k = k - 1;
    }
    None
}

/// Place a bid (`spread` Some) or a pass (`spread` None) for `seat`.
///
/// A bid must have a positive spread and outrank the latest bid. After the
/// call, the auction ends with a contract when a bid has been made and three
/// passes followed it: the latest bid becomes the contract, its bidder the
/// declarer, and the first trick is led by the seat the configuration names.
/// Four calls without any bid end the game with no contract. Otherwise the turn
/// moves one seat clockwise. A refused call leaves the game unchanged.
pub fn place_bid(
    game: &mut Game,
    config: &Option<GameConfig>,
    bids: &Vec<Bid>,
    seat: u8,
    spread: Option<i8>,
    suit: Option<u8>,
) -> (r: Result<BidEffect, GameError>)
    requires
        bids_in_order(bids@),
    ensures
        r is Ok <==> bid_error(*old(game), *config, bids@, seat, spread, suit) is None,
        r matches Err(e) ==> bid_error(*old(game), *config, bids@, seat, spread, suit) == Some(e)
            && *final(game) == *old(game),
        r matches Ok(eff) ==> bid_applied(*old(game), *config, bids@, seat, spread, suit, eff, *final(game)),
        r is Ok ==> (spread matches Some(sp) ==> (last_real_bid(bids@) matches Some(prev) ==> sp > prev.spread.unwrap()
            || (sp == prev.spread.unwrap() && suit_bid_higher(suit, prev.suit)))),
{
    if game.phase != PHASE_AUCTION {
        return Err(GameError::NotInAuction);
    }
    if seat != game.turn_seat {
        return Err(GameError::NotThisSeatsTurn);
    }
    if let Some(s) = suit {
        if s > 3 {
            return Err(GameError::InvalidSuit);
        }
    }
    if let Some(bid_spread) = spread {
        if bid_spread <= 0 {
            return Err(GameError::SpreadNotPositive);
        }
        proof {
            lemma_last_real_bid(bids@);
        }
        match find_last_real_bid(bids) {
            Some(prev) => {
                if !bid_outranks(bid_spread, suit, prev.spread.unwrap(), prev.suit) {
                    return Err(GameError::BidMustOutrank);
                }
            },
            None => {},
        }
    }
    let n = bids.len();
    if n >= 65535 {
        return Err(GameError::Overflow);
    }
    let call = Bid { bid_id: 0, game_id: game.game_id, seat, spread, suit, sequence: n as u16 };
    let ghost all = bids@.push(call);
    let mut history = bids.clone();
    history.push(call);
    assert(history@ =~= all);

    // has a real bid been made?
    let mut has_real = false;
    let mut k: usize = 0;
    while k < history.len()
        invariant
            history@ == all,
            k <= all.len(),
            has_real <==> exists|i: int| 0 <= i < k && (#[trigger] all[i]).spread is Some,
        decreases all.len() - k,
    {
        if history[k].spread.is_some() {
            has_real = true;
        }
        k = k + 1;
    }
    let len = history.len();
    let three_passes = len >= 3 && history[len - 1].spread.is_none() && history[len - 2].spread.is_none()
        && history[len - 3].spread.is_none();

    proof {
        lemma_last_real_bid(all);
    }
    if has_real && three_passes {
        let winning = find_last_real_bid(&history).unwrap();
        let cfg = match config {
            Some(c) => c,
            None => {
                return Err(GameError::ConfigNotFound);
            },
        };
        let left = LEAD_LEFT_OF_DECLARER.to_owned();
        let leader = if cfg.lead_after_bid == left {
            if winning.seat == 255 {
                return Err(GameError::Overflow);
            }
            next_seat(winning.seat)
        } else {
            winning.seat
        };
        let trick = Trick {
            trick_id: 0,
            game_id: game.game_id,
            trick_number: 1,
            leader_seat: leader,
            led_suit: None,
            winner_seat: None,
        };
        game.contract_spread = winning.spread;
        game.trump_suit = winning.suit;
        game.declarer_seat = Some(winning.seat);
        game.phase = PHASE_PLAY;
        game.turn_seat = leader;
        Ok(BidEffect { bid: call, opens_trick: Some(trick) })
    } else if !has_real && len >= 4 {
        game.phase = PHASE_FINISHED;
        game.result = Some(ALL_PASSED_RESULT.to_owned());
        Ok(BidEffect { bid: call, opens_trick: None })
    } else {
        if game.turn_seat == 255 {
            return Err(GameError::Overflow);
        }
        game.turn_seat = next_seat(game.turn_seat);
        Ok(BidEffect { bid: call, opens_trick: None })
    }
}


/// Every real bid of the auction outranks every earlier real bid.
pub open spec fn bids_rise(bids: Seq<Bid>) -> bool {
    forall|i: int, j: int|
        0 <= i < j < bids.len() && (#[trigger] bids[i]).spread is Some && (#[trigger] bids[j]).spread is Some
            ==> outranks(bids[j].spread.unwrap(), bids[j].suit, bids[i].spread.unwrap(), bids[i].suit)
}

/// The latest real bid is one of the bids, and every call after it is a pass.
pub proof fn lemma_last_real_bid_position(bids: Seq<Bid>)
    requires
        has_real_bid(bids),
    ensures
        exists|k: int|
            0 <= k < bids.len() && bids[k] == last_real_bid(bids).unwrap() && forall|j: int|
                k < j < bids.len() ==> (#[trigger] bids[j]).spread is None,
    decreases bids.len(),
{
    lemma_last_real_bid(bids);
    let n = bids.len() as int;
    if bids.last().spread is Some {
        assert(bids[n - 1] == last_real_bid(bids).unwrap());
    } else {
        let pre = bids.drop_last();
        let i = choose|i: int| 0 <= i < bids.len() && (#[trigger] bids[i]).spread is Some;
        assert(pre[i] == bids[i]);
        lemma_last_real_bid_position(pre);
        let k = choose|k: int|
            0 <= k < pre.len() && pre[k] == last_real_bid(pre).unwrap() && forall|j: int|
                k < j < pre.len() ==> (#[trigger] pre[j]).spread is None;
        assert forall|j: int| k < j < bids.len() implies (#[trigger] bids[j]).spread is None by {
            if j < n - 1 {
                assert(pre[j] == bids[j]);
            }
        }
        assert(bids[k] == pre[k]);
    }
}

/// Bidding only ever goes up: an accepted call keeps every real bid above all
/// earlier ones, and keeps the calls in auction order.
pub proof fn lemma_accepted_call_keeps_auction_rising(
    game: Game,
    config: Option<GameConfig>,
    bids: Seq<Bid>,
    seat: u8,
    spread: Option<i8>,
    suit: Option<u8>,
)
    requires
        bids_in_order(bids),
        bids_rise(bids),
        bid_error(game, config, bids, seat, spread, suit) is None,
    ensures
        bids_in_order(bids.push(call_of(game, bids, seat, spread, suit))),
        bids_rise(bids.push(call_of(game, bids, seat, spread, suit))),
{
    let call = call_of(game, bids, seat, spread, suit);
    let all = bids.push(call);
    let n = bids.len() as int;
    assert forall|i: int| 0 <= i < all.len() implies (#[trigger] all[i]).sequence == i by {
        if i < n {
            assert(all[i] == bids[i]);
        }
    }
    if spread is Some && has_real_bid(bids) {
        lemma_last_real_bid(bids);
        lemma_last_real_bid_position(bids);
        let k = choose|k: int|
            0 <= k < bids.len() && bids[k] == last_real_bid(bids).unwrap() && forall|j: int|
                k < j < bids.len() ==> (#[trigger] bids[j]).spread is None;
        assert forall|i: int, j: int|
            0 <= i < j < all.len() && (#[trigger] all[i]).spread is Some && (#[trigger] all[j]).spread is Some
            implies outranks(all[j].spread.unwrap(), all[j].suit, all[i].spread.unwrap(), all[i].suit) by {
            assert(all[i] == bids[i]);
            if j == n {
                assert(i <= k);
                if i < k {
                    assert(bids[i].spread is Some && bids[k].spread is Some);
                }
            } else {
                assert(all[j] == bids[j]);
            }
        }
    } else if spread is Some {
        assert forall|i: int, j: int|
            0 <= i < j < all.len() && (#[trigger] all[i]).spread is Some && (#[trigger] all[j]).spread is Some
            implies outranks(all[j].spread.unwrap(), all[j].suit, all[i].spread.unwrap(), all[i].suit) by {
            assert(all[i] == bids[i]);
            assert(bids[i].spread is Some);
        }
    } else {
        assert forall|i: int, j: int|
            0 <= i < j < all.len() && (#[trigger] all[i]).spread is Some && (#[trigger] all[j]).spread is Some
            implies outranks(all[j].spread.unwrap(), all[j].suit, all[i].spread.unwrap(), all[i].suit) by {
            assert(all[i] == bids[i]);
            assert(all[j] == bids[j]);
        }
    }
}

/// The contract is the highest bid of a rising auction: when the auction ends
/// with a contract, the contract bid outranks every other real bid.
pub proof fn lemma_contract_is_highest_bid(bids: Seq<Bid>)
    requires
        bids_rise(bids),
        auction_won(bids),
    ensures
        forall|i: int|
            0 <= i < bids.len() && (#[trigger] bids[i]).spread is Some && bids[i] != last_real_bid(bids).unwrap()
                ==> outranks(
                last_real_bid(bids).unwrap().spread.unwrap(),
                last_real_bid(bids).unwrap().suit,
                bids[i].spread.unwrap(),
                bids[i].suit,
            ),
{
    lemma_last_real_bid(bids);
    lemma_last_real_bid_position(bids);
    let k = choose|k: int|
        0 <= k < bids.len() && bids[k] == last_real_bid(bids).unwrap() && forall|j: int|
            k < j < bids.len() ==> (#[trigger] bids[j]).spread is None;
    assert forall|i: int|
        0 <= i < bids.len() && (#[trigger] bids[i]).spread is Some && bids[i] != last_real_bid(bids).unwrap()
        implies outranks(
        last_real_bid(bids).unwrap().spread.unwrap(),
        last_real_bid(bids).unwrap().suit,
        bids[i].spread.unwrap(),
        bids[i].suit,
    ) by {
        assert(i != k);
        assert(i < k);
        assert(bids[k].spread is Some);
    }
}

} // verus!
