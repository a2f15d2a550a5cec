//! Trick evaluation, turn order and contract progress.

use vstd::prelude::*;
use crate::types::{next_seat, partner_seat, is_ns, seat_after, seat_across};

verus! {

/// Represents a single player's play in a trick.
#[derive(Debug, Clone, Copy)]
pub struct TrickPlayInfo {
    pub seat: u8,
    pub is_pass: bool,
    /// sum of card ranks (0 if pass)
    pub play_value: u16,
    /// suit of played cards (None if pass)
    pub suit: Option<u8>,
    /// order within trick (0-3)
    pub sequence: u8,
}

/// Result of evaluating a trick.
#[derive(Debug, Clone, Copy)]
pub struct TrickResult {
    pub winner_seat: Option<u8>,
}

/// The play is in the trump suit.
pub open spec fn is_trump(p: TrickPlayInfo, trump_suit: Option<u8>) -> bool {
    match (p.suit, trump_suit) {
        (Some(ps), Some(ts)) => ps == ts,
        _ => false,
    }
}

/// The play is in the suit that was led.
pub open spec fn is_led(p: TrickPlayInfo, led_suit: Option<u8>) -> bool {
    match (p.suit, led_suit) {
        (Some(ps), Some(ls)) => ps == ls,
        _ => false,
    }
}

/// Strength class of a play: trump above led suit above anything else.
pub open spec fn play_class(p: TrickPlayInfo, trump_suit: Option<u8>, led_suit: Option<u8>) -> int {
    if is_trump(p, trump_suit) {
        2
    } else if is_led(p, led_suit) {
        1
    } else {
        0
    }
}

/// `c` beats `b`: a higher class, or the same class and a higher value,
/// or the same class and value and an earlier position in the trick.
pub open spec fn beats(c: TrickPlayInfo, b: TrickPlayInfo, trump_suit: Option<u8>, led_suit: Option<u8>) -> bool {
    let cc = play_class(c, trump_suit, led_suit);
    let bc = play_class(b, trump_suit, led_suit);
    cc > bc || (cc == bc && (c.play_value > b.play_value || (c.play_value == b.play_value
        && c.sequence < b.sequence)))
}

/// Play `i` wins the trick: it is not a pass, no play beats it, and it beats
/// every play listed before it (so it is the first of the strongest plays).
pub open spec fn wins_trick(plays: Seq<TrickPlayInfo>, trump_suit: Option<u8>, led_suit: Option<u8>, i: int) -> bool {
    &&& 0 <= i < plays.len()
    &&& !plays[i].is_pass
    &&& forall|j: int| 0 <= j < plays.len() && !plays[j].is_pass ==> !beats(plays[j], plays[i], trump_suit, led_suit)
    &&& forall|j: int| 0 <= j < i && !plays[j].is_pass ==> beats(plays[i], plays[j], trump_suit, led_suit)
}

/// The seat that wins the trick, or None when every play is a pass.
pub open spec fn trick_winner(plays: Seq<TrickPlayInfo>, trump_suit: Option<u8>, led_suit: Option<u8>) -> Option<u8> {
    if exists|i: int| wins_trick(plays, trump_suit, led_suit, i) {
        Some(plays[choose|i: int| wins_trick(plays, trump_suit, led_suit, i)].seat)
    } else {
        None
    }
}

/// Some play of the trick is not a pass.
pub open spec fn has_active_play(plays: Seq<TrickPlayInfo>) -> bool {
    exists|i: int| 0 <= i < plays.len() && !plays[i].is_pass
}

/// At most one play wins a trick.
pub proof fn lemma_winner_unique(plays: Seq<TrickPlayInfo>, trump_suit: Option<u8>, led_suit: Option<u8>, i: int, j: int)
    requires
        wins_trick(plays, trump_suit, led_suit, i),
        wins_trick(plays, trump_suit, led_suit, j),
    ensures
        i == j,
{
    if i < j {
        assert(beats(plays[j], plays[i], trump_suit, led_suit));
    } else if j < i {
        assert(beats(plays[i], plays[j], trump_suit, led_suit));
    }
}

/// Play `i` wins by the rules of the game, read directly from the plays: it is
/// not a pass; when any play is in the trump suit, so is it; when no play is in
/// the trump suit and some play follows the led suit, it follows the led suit;
/// no other play of its suit has a higher value; and of the plays of its suit
/// with its value, none has a lower sequence number.
pub open spec fn wins_by_the_rules(plays: Seq<TrickPlayInfo>, trump_suit: Option<u8>, led_suit: Option<u8>, i: int) -> bool {
    &&& 0 <= i < plays.len()
    &&& !plays[i].is_pass
    &&& forall|j: int|
        0 <= j < plays.len() && !plays[j].is_pass && trump_suit is Some && plays[j].suit == trump_suit
            ==> plays[i].suit == trump_suit
    &&& (forall|j: int| 0 <= j < plays.len() && !plays[j].is_pass ==> !(trump_suit is Some && plays[j].suit == trump_suit))
        && led_suit is Some && (exists|j: int| 0 <= j < plays.len() && !plays[j].is_pass && plays[j].suit == led_suit)
        ==> plays[i].suit == led_suit
    &&& forall|j: int|
        0 <= j < plays.len() && !plays[j].is_pass && plays[j].suit == plays[i].suit ==> plays[j].play_value
            <= plays[i].play_value
    &&& forall|j: int|
        0 <= j < plays.len() && !plays[j].is_pass && plays[j].suit == plays[i].suit && plays[j].play_value
            == plays[i].play_value ==> plays[i].sequence <= plays[j].sequence
}

/// The winning play of a trick wins by the rules of the game: trump beats any
/// other play, a play in the led suit beats any play in neither, and among plays
/// of one suit the highest value wins, ties going to the earlier play.
pub proof fn lemma_winner_wins_by_the_rules(plays: Seq<TrickPlayInfo>, trump_suit: Option<u8>, led_suit: Option<u8>, i: int)
    requires
        wins_trick(plays, trump_suit, led_suit, i),
    ensures
        wins_by_the_rules(plays, trump_suit, led_suit, i),
{
    assert forall|j: int|
        0 <= j < plays.len() && !plays[j].is_pass && trump_suit is Some && plays[j].suit == trump_suit implies plays[i].suit
        == trump_suit by {
        assert(!beats(plays[j], plays[i], trump_suit, led_suit));
    }
    if (forall|j: int| 0 <= j < plays.len() && !plays[j].is_pass ==> !(trump_suit is Some && plays[j].suit == trump_suit))
        && led_suit is Some && (exists|j: int| 0 <= j < plays.len() && !plays[j].is_pass && plays[j].suit == led_suit) {
        let j = choose|j: int| 0 <= j < plays.len() && !plays[j].is_pass && plays[j].suit == led_suit;
        assert(!beats(plays[j], plays[i], trump_suit, led_suit));
        assert(!(trump_suit is Some && plays[i].suit == trump_suit));
    }
    assert forall|j: int|
        0 <= j < plays.len() && !plays[j].is_pass && plays[j].suit == plays[i].suit implies plays[j].play_value
        <= plays[i].play_value by {
        assert(!beats(plays[j], plays[i], trump_suit, led_suit));
    }
    assert forall|j: int|
        0 <= j < plays.len() && !plays[j].is_pass && plays[j].suit == plays[i].suit && plays[j].play_value
            == plays[i].play_value implies plays[i].sequence <= plays[j].sequence by {
        assert(!beats(plays[j], plays[i], trump_suit, led_suit));
    }
}

/// Position of the play that wins the trick, or None when every play is a pass.
pub fn winning_play_index(plays: &[TrickPlayInfo], trump_suit: Option<u8>, led_suit: Option<u8>) -> (r: Option<usize>)
    ensures
        r is None <==> !has_active_play(plays@),
        r matches Some(b) ==> wins_trick(plays@, trump_suit, led_suit, b as int),
{
    let n = plays.len();
    let mut best: Option<usize> = None;
    let mut k: usize = 0;
    while k < n
        invariant
            n == plays@.len(),
            k <= n,
            best is None <==> forall|j: int| 0 <= j < k ==> plays@[j].is_pass,
            best matches Some(b) ==> b < k && wins_trick(plays@.subrange(0, k as int), trump_suit, led_suit, b as int),
        decreases n - k,
    {
        let play = &plays[k];
        let take = if play.is_pass {
            false
        } else {
            match best {
                None => true,
                Some(b) => play_beats(play, &plays[b], trump_suit, led_suit),
            }
        };
        proof {
            let pre = plays@.subrange(0, k as int);
            let post = plays@.subrange(0, k as int + 1);
            assert forall|j: int| 0 <= j < k implies post[j] == pre[j] by {}
            assert(post[k as int] == plays@[k as int]);
        }
        if take {
            best = Some(k);
        }
        k = k + 1;
    }
    proof {
        assert(plays@.subrange(0, n as int) =~= plays@);
    }
    best
}

/// Evaluate a completed trick and determine the winner.
///
/// Rules:
/// 1. Collect all non-pass plays
/// 2. If no plays exist, return None (void trick)
/// 3. Trump plays beat non-trump plays regardless of value
/// 4. Among same category: highest value wins
/// 5. Ties: lowest sequence number wins (first player)
pub fn evaluate_trick(plays: &[TrickPlayInfo], trump_suit: Option<u8>, led_suit: Option<u8>) -> (r: TrickResult)
    ensures
        r.winner_seat == trick_winner(plays@, trump_suit, led_suit),
        r.winner_seat is None <==> !has_active_play(plays@),
        r.winner_seat is Some ==> exists|i: int| wins_trick(plays@, trump_suit, led_suit, i),
        r.winner_seat matches Some(w) ==> exists|i: int|
            #[trigger] wins_by_the_rules(plays@, trump_suit, led_suit, i) && plays@[i].seat == w,
{
    let best = winning_play_index(plays, trump_suit, led_suit);
    proof {
        match best {
            Some(b) => {
                lemma_winner_wins_by_the_rules(plays@, trump_suit, led_suit, b as int);
                assert forall|i: int| wins_trick(plays@, trump_suit, led_suit, i) implies i == b by {
                    lemma_winner_unique(plays@, trump_suit, led_suit, i, b as int);
                }
            },
            None => {},
        }
    }
    match best {
        None => TrickResult { winner_seat: None },
        Some(b) => TrickResult { winner_seat: Some(plays[b].seat) },
    }
}

/// Returns true if `challenger` beats `current_best`.
fn play_beats(
    challenger: &TrickPlayInfo,
    current_best: &TrickPlayInfo,
    trump_suit: Option<u8>,
    led_suit: Option<u8>,
) -> (r: bool)
    ensures
        r == beats(*challenger, *current_best, trump_suit, led_suit),
{
    let c_is_trump = is_trump_play(challenger, trump_suit);
    let b_is_trump = is_trump_play(current_best, trump_suit);
    let c_is_led = is_led_suit_play(challenger, led_suit);
    let b_is_led = is_led_suit_play(current_best, led_suit);

    // Trump beats non-trump
    if c_is_trump && !b_is_trump {
        return true;
    }
    if !c_is_trump && b_is_trump {
        return false;
    }
    // Both trump: compare values
    if c_is_trump && b_is_trump {
        return if challenger.play_value > current_best.play_value {
            true
        } else if challenger.play_value == current_best.play_value {
            challenger.sequence < current_best.sequence
        } else {
            false
        };
    }
    // Neither is trump: a led-suit play beats a play off the led suit
    if c_is_led && !b_is_led {
        return true;
    }
    if !c_is_led && b_is_led {
        return false;
    }
    if challenger.play_value > current_best.play_value {
        true
    } else if challenger.play_value == current_best.play_value {
        challenger.sequence < current_best.sequence
    } else {
        false
    }
}

fn is_trump_play(play: &TrickPlayInfo, trump_suit: Option<u8>) -> (r: bool)
    ensures
        r == is_trump(*play, trump_suit),
{
    match (play.suit, trump_suit) {
        (Some(ps), Some(ts)) => ps == ts,
        _ => false,
    }
}

fn is_led_suit_play(play: &TrickPlayInfo, led_suit: Option<u8>) -> (r: bool)
    ensures
        r == is_led(*play, led_suit),
{
    match (play.suit, led_suit) {
        (Some(ps), Some(ls)) => ps == ls,
        _ => false,
    }
}


/// The hand holds a card of `suit`.
pub open spec fn holds_suit(hand: Seq<(u8, u8)>, suit: u8) -> bool {
    exists|i: int| 0 <= i < hand.len() && hand[i].0 == suit
}

/// Check if a player has any cards of the given suit in their hand.
/// `hand` is a slice of (suit, rank) tuples.
pub fn has_suit(hand: &[(u8, u8)], suit: u8) -> (r: bool)
    ensures
        r == holds_suit(hand@, suit),
{
    let n = hand.len();
    let mut k: usize = 0;
    while k < n
        invariant
            n == hand@.len(),
            k <= n,
            forall|j: int| 0 <= j < k ==> hand@[j].0 != suit,
        decreases n - k,
    {
        if hand[k].0 == suit {
            return true;
        }
        k = k + 1;
    }
    false
}

/// The seat `steps` places clockwise from `seat`.
pub open spec fn seat_plus(seat: int, steps: int) -> int {
    (seat + steps) % 4
}

/// `s` is the first seat after `current` (going clockwise, coming back to
/// `current` itself last) that still holds cards.
pub open spec fn is_next_active(current: int, cards_remaining: Seq<u8>, s: int) -> bool {
    exists|k: int|
        1 <= k <= 4 && s == seat_plus(current, k) && cards_remaining[s] > 0 && forall|m: int|
            1 <= m < k ==> cards_remaining[#[trigger] seat_plus(current, m)] == 0
}

/// Determine the next player to act after `current_seat`, skipping
/// players with no cards. Returns None if no player can act (all out).
/// `cards_remaining` is indexed by seat (0-3).
pub fn next_active_seat(current_seat: u8, cards_remaining: &[u8; 4]) -> (r: Option<u8>)
    requires
        current_seat < 255,
    ensures
        r is None <==> forall|s: int| 0 <= s < 4 ==> cards_remaining@[s] == 0,
        r matches Some(s) ==> s < 4 && is_next_active(current_seat as int, cards_remaining@, s as int),
{
    let mut seat = next_seat(current_seat);
    let mut k: usize = 0;
    while k < 4
        invariant
            k <= 4,
            seat == seat_plus(current_seat as int, k as int + 1),
            forall|m: int| 1 <= m <= k ==> cards_remaining@[#[trigger] seat_plus(current_seat as int, m)] == 0,
        decreases 4 - k,
    {
        if cards_remaining[seat as usize] > 0 {
            assert(is_next_active(current_seat as int, cards_remaining@, seat as int)) by {
                assert(1 <= k + 1 <= 4);
            }
            return Some(seat);
        }
        seat = next_seat(seat);
        k = k + 1;
    }
    assert forall|s: int| 0 <= s < 4 implies cards_remaining@[s] == 0 by {
        let m = if s > current_seat % 4 { s - current_seat % 4 } else { s - current_seat % 4 + 4 };
        assert(seat_plus(current_seat as int, m) == s);
    }
    None
}

/// Determine who leads the next trick after a winner.
/// If the winner has no cards, transfer to partner.
/// If partner has no cards, return None (opposing pair sweeps).
pub fn resolve_leader(winner_seat: u8, cards_remaining: &[u8; 4]) -> (r: Option<u8>)
    requires
        winner_seat < 4,
    ensures
        r == (if cards_remaining@[winner_seat as int] > 0 {
            Some(winner_seat)
        } else if cards_remaining@[seat_across(winner_seat as int)] > 0 {
            Some(seat_across(winner_seat as int) as u8)
        } else {
            None
        }),
{
    if cards_remaining[winner_seat as usize] > 0 {
        return Some(winner_seat);
    }
    let partner = partner_seat(winner_seat);
    if cards_remaining[partner as usize] > 0 {
        return Some(partner);
    }
    None
}

/// The signed value that `x as i8` gives for a byte.
pub open spec fn signed_byte(x: u8) -> int {
    if x < 128 {
        x as int
    } else {
        x as int - 256
    }
}

/// Tricks taken by the declaring pair.
pub open spec fn declarer_pair_tricks(ns_tricks: u8, ew_tricks: u8, declarer_seat: u8) -> u8 {
    if declarer_seat % 2 == 0 {
        ns_tricks
    } else {
        ew_tricks
    }
}

/// Tricks taken by the defending pair.
pub open spec fn defender_pair_tricks(ns_tricks: u8, ew_tricks: u8, declarer_seat: u8) -> u8 {
    if declarer_seat % 2 == 0 {
        ew_tricks
    } else {
        ns_tricks
    }
}

/// The declaring pair's current spread: their tricks minus the defenders'
/// (each count read as a signed byte).
pub open spec fn spread_now(ns_tricks: u8, ew_tricks: u8, declarer_seat: u8) -> int {
    signed_byte(declarer_pair_tricks(ns_tricks, ew_tricks, declarer_seat)) - signed_byte(
        defender_pair_tricks(ns_tricks, ew_tricks, declarer_seat),
    )
}

/// Tricks still to be played: the total minus those played, never below zero.
pub open spec fn tricks_left(ns_tricks: u8, ew_tricks: u8, total_possible_tricks: u8) -> int {
    if total_possible_tricks >= ns_tricks + ew_tricks {
        total_possible_tricks - (ns_tricks + ew_tricks)
    } else {
        0
    }
}

/// The best spread the declaring pair can still reach (the tricks left read as a signed byte).
pub open spec fn spread_reachable(ns_tricks: u8, ew_tricks: u8, declarer_seat: u8, total_possible_tricks: u8) -> int {
    spread_now(ns_tricks, ew_tricks, declarer_seat) + signed_byte(
        tricks_left(ns_tricks, ew_tricks, total_possible_tricks) as u8,
    )
}

/// The byte arithmetic of `check_spread` stays in range on these inputs.
pub open spec fn spread_check_in_range(
    ns_tricks: u8,
    ew_tricks: u8,
    contract_spread: i8,
    declarer_seat: u8,
    total_possible_tricks: u8,
) -> bool {
    let now = spread_now(ns_tricks, ew_tricks, declarer_seat);
    &&& ns_tricks + ew_tricks <= 255
    &&& -128 <= now <= 127
    &&& (now >= contract_spread || -128 <= spread_reachable(
        ns_tricks,
        ew_tricks,
        declarer_seat,
        total_possible_tricks,
    ) <= 127)
}

/// Contract status: made once the spread reaches the contract, failed once
/// even winning every remaining trick cannot reach it, open otherwise.
pub open spec fn spread_status(
    ns_tricks: u8,
    ew_tricks: u8,
    contract_spread: i8,
    declarer_seat: u8,
    total_possible_tricks: u8,
) -> Option<bool> {
    if spread_now(ns_tricks, ew_tricks, declarer_seat) >= contract_spread {
        Some(true)
    } else if spread_reachable(ns_tricks, ew_tricks, declarer_seat, total_possible_tricks) < contract_spread {
        Some(false)
    } else {
        None
    }
}

pub(crate) fn as_signed(x: u8) -> (r: i8)
    ensures
        r == signed_byte(x),
{
    let r = x as i8;
    assert(x < 128 ==> r == x) by (bit_vector)
        requires
            r == x as i8,
    ;
    assert(x >= 128 ==> r == x - 256) by (bit_vector)
        requires
            r == x as i8,
    ;
    r
}

/// Check if the declaring pair has achieved the required spread.
/// Returns Some(true) if contract made, Some(false) if contract failed,
/// None if still in progress.
pub fn check_spread(
    ns_tricks: u8,
    ew_tricks: u8,
    contract_spread: i8,
    declarer_seat: u8,
    total_possible_tricks: u8,
) -> (r: Option<bool>)
    requires
        spread_check_in_range(ns_tricks, ew_tricks, contract_spread, declarer_seat, total_possible_tricks),
    ensures
        r == spread_status(ns_tricks, ew_tricks, contract_spread, declarer_seat, total_possible_tricks),
{
    let declarer_is_ns = is_ns(declarer_seat);
    let (decl_tricks, def_tricks) = if declarer_is_ns {
        (ns_tricks, ew_tricks)
    } else {
        (ew_tricks, ns_tricks)
    };
    let current_spread = as_signed(decl_tricks) - as_signed(def_tricks);
    let tricks_played = ns_tricks + ew_tricks;
    let remaining = total_possible_tricks.saturating_sub(tricks_played);

    // Contract achieved
    if current_spread >= contract_spread {
        return Some(true);
    }
    // Even if declarer wins all remaining, can't make it
    let best_possible = current_spread + as_signed(remaining);
    if best_possible < contract_spread {
        return Some(false);
    }
    None
}

/// Like `check_spread`, but returns None where `check_spread`'s byte arithmetic
/// would overflow, and Some(status) otherwise.
pub fn try_check_spread(
    ns_tricks: u8,
    ew_tricks: u8,
    contract_spread: i8,
    declarer_seat: u8,
    total_possible_tricks: u8,
) -> (r: Option<Option<bool>>)
    ensures
        r is Some <==> spread_check_in_range(ns_tricks, ew_tricks, contract_spread, declarer_seat, total_possible_tricks),
        r matches Some(st) ==> st == spread_status(ns_tricks, ew_tricks, contract_spread, declarer_seat, total_possible_tricks),
{
    let (decl_tricks, def_tricks) = if is_ns(declarer_seat) {
        (ns_tricks, ew_tricks)
    } else {
        (ew_tricks, ns_tricks)
    };
    let now: i16 = as_signed(decl_tricks) as i16 - as_signed(def_tricks) as i16;
    let played: u16 = ns_tricks as u16 + ew_tricks as u16;
    if played > 255 || now < -128 || now > 127 {
        return None;
    }
    if now < contract_spread as i16 {
        let remaining = total_possible_tricks.saturating_sub(played as u8);
        let best = now + as_signed(remaining) as i16;
        if best < -128 || best > 127 {
            return None;
        }
    }
    Some(check_spread(ns_tricks, ew_tricks, contract_spread, declarer_seat, total_possible_tricks))
}

/// Number of cards in `cards` held by `seat`.
pub open spec fn seat_card_count(cards: Seq<(u8, u8, u8)>, seat: int) -> nat
    decreases cards.len(),
{
    if cards.len() == 0 {
        0
    } else {
        seat_card_count(cards.drop_last(), seat) + (if cards.last().0 == seat {
            1nat
        } else {
            0nat
        })
    }
}

/// Count cards remaining for each seat.
/// Returns [north_count, east_count, south_count, west_count]
pub fn count_cards_per_seat(cards: &[(u8, u8, u8)]) -> (counts: [u8; 4])
    requires
        forall|i: int| 0 <= i < cards@.len() ==> cards@[i].0 < 4,
        forall|s: int| 0 <= s < 4 ==> seat_card_count(cards@, s) <= 255,
    ensures
        forall|s: int| 0 <= s < 4 ==> counts@[s] == seat_card_count(cards@, s),
{
    let mut counts: [u8; 4] = [0u8, 0u8, 0u8, 0u8];
    let n = cards.len();
    let mut k: usize = 0;
    while k < n
        invariant
            n == cards@.len(),
            k <= n,
            forall|i: int| 0 <= i < cards@.len() ==> cards@[i].0 < 4,
            forall|s: int| 0 <= s < 4 ==> seat_card_count(cards@, s) <= 255,
            forall|s: int| 0 <= s < 4 ==> counts@[s] == seat_card_count(cards@.subrange(0, k as int), s),
        decreases n - k,
    {
        let seat = cards[k].0;
        proof {
            let pre = cards@.subrange(0, k as int);
            let post = cards@.subrange(0, k as int + 1);
            assert(post.drop_last() =~= pre);
            lemma_seat_count_prefix_bound(cards@, k as int + 1, seat as int);
        }
        counts[seat as usize] = counts[seat as usize] + 1;
        k = k + 1;
    }
    assert(cards@.subrange(0, n as int) =~= cards@);
    counts
}

/// A prefix never holds more of a seat's cards than the whole list.
pub proof fn lemma_seat_count_prefix_bound(cards: Seq<(u8, u8, u8)>, k: int, seat: int)
    requires
        0 <= k <= cards.len(),
    ensures
        seat_card_count(cards.subrange(0, k), seat) <= seat_card_count(cards, seat),
    decreases cards.len() - k,
{
    if k < cards.len() {
        lemma_seat_count_prefix_bound(cards, k + 1, seat);
        assert(cards.subrange(0, k + 1).drop_last() =~= cards.subrange(0, k));
    } else {
        assert(cards.subrange(0, k) =~= cards);
    }
}

/// Every trick with at least one non-pass play has a winning play.
pub proof fn lemma_winner_exists(plays: Seq<TrickPlayInfo>, trump_suit: Option<u8>, led_suit: Option<u8>)
    requires
        has_active_play(plays),
    ensures
        exists|i: int| wins_trick(plays, trump_suit, led_suit, i),
    decreases plays.len(),
{
    let n = plays.len() as int;
    let pre = plays.drop_last();
    assert forall|j: int| 0 <= j < n - 1 implies pre[j] == plays[j] by {}
    if has_active_play(pre) {
        lemma_winner_exists(pre, trump_suit, led_suit);
        let b = choose|i: int| wins_trick(pre, trump_suit, led_suit, i);
        if !plays[n - 1].is_pass && beats(plays[n - 1], plays[b], trump_suit, led_suit) {
            assert(wins_trick(plays, trump_suit, led_suit, n - 1));
        } else {
            assert(wins_trick(plays, trump_suit, led_suit, b));
        }
    } else {
        assert(!plays[n - 1].is_pass);
        assert(wins_trick(plays, trump_suit, led_suit, n - 1));
    }
}

/// What the winning play of a trick is: not a pass; a trump play whenever anyone
/// played trump; otherwise a led-suit play whenever anyone followed the led suit;
/// of the highest value within its class; and of two equal plays in that class,
/// the one with the lower sequence number (the first one listed when sequences tie).
pub proof fn lemma_trick_winner_rules(plays: Seq<TrickPlayInfo>, trump_suit: Option<u8>, led_suit: Option<u8>, i: int)
    requires
        wins_trick(plays, trump_suit, led_suit, i),
    ensures
        !plays[i].is_pass,
        (exists|j: int| 0 <= j < plays.len() && !plays[j].is_pass && is_trump(plays[j], trump_suit))
            ==> is_trump(plays[i], trump_suit),
        (exists|j: int| 0 <= j < plays.len() && !plays[j].is_pass && is_led(plays[j], led_suit))
            ==> is_trump(plays[i], trump_suit) || is_led(plays[i], led_suit),
        forall|j: int|
            0 <= j < plays.len() && !plays[j].is_pass && play_class(plays[j], trump_suit, led_suit)
                == play_class(plays[i], trump_suit, led_suit) ==> plays[j].play_value <= plays[i].play_value,
        forall|j: int|
            0 <= j < plays.len() && j != i && !plays[j].is_pass && play_class(plays[j], trump_suit, led_suit)
                == play_class(plays[i], trump_suit, led_suit) && plays[j].play_value == plays[i].play_value
                ==> plays[i].sequence <= plays[j].sequence && (plays[i].sequence == plays[j].sequence ==> i < j),
{
    assert forall|j: int|
        0 <= j < plays.len() && !plays[j].is_pass && is_trump(plays[j], trump_suit) implies is_trump(
        plays[i],
        trump_suit,
    ) by {
        assert(!beats(plays[j], plays[i], trump_suit, led_suit));
    }
    assert forall|j: int|
        0 <= j < plays.len() && !plays[j].is_pass && is_led(plays[j], led_suit) implies is_trump(
        plays[i],
        trump_suit,
    ) || is_led(plays[i], led_suit) by {
        assert(!beats(plays[j], plays[i], trump_suit, led_suit));
    }
    assert forall|j: int|
        0 <= j < plays.len() && j != i && !plays[j].is_pass && play_class(plays[j], trump_suit, led_suit)
            == play_class(plays[i], trump_suit, led_suit) && plays[j].play_value == plays[i].play_value
        implies plays[i].sequence <= plays[j].sequence && (plays[i].sequence == plays[j].sequence ==> i < j) by {
        assert(!beats(plays[j], plays[i], trump_suit, led_suit));
        if j < i {
            assert(beats(plays[i], plays[j], trump_suit, led_suit));
        }
    }
}

/// The winner of a trick does not depend on the order in which its plays are
/// listed, as long as no two non-pass plays share a sequence number.
pub proof fn lemma_trick_winner_order_free(
    a: Seq<TrickPlayInfo>,
    b: Seq<TrickPlayInfo>,
    trump_suit: Option<u8>,
    led_suit: Option<u8>,
)
    requires
        a.to_multiset() == b.to_multiset(),
        forall|i: int, j: int|
            0 <= i < a.len() && 0 <= j < a.len() && i != j && !a[i].is_pass && !a[j].is_pass
                ==> a[i].sequence != a[j].sequence,
    ensures
        trick_winner(a, trump_suit, led_suit) == trick_winner(b, trump_suit, led_suit),
{
    broadcast use vstd::seq_lib::group_to_multiset_ensures;

    if has_active_play(a) {
        lemma_winner_exists(a, trump_suit, led_suit);
        let ia = choose|i: int| wins_trick(a, trump_suit, led_suit, i);
        assert(a.contains(a[ia]));
        assert(b.to_multiset().count(a[ia]) > 0);
        let jb = choose|j: int| 0 <= j < b.len() && b[j] == a[ia];
        assert(has_active_play(b));
        lemma_winner_exists(b, trump_suit, led_suit);
        let ib = choose|i: int| wins_trick(b, trump_suit, led_suit, i);
        assert(b.contains(b[ib]));
        assert(a.to_multiset().count(b[ib]) > 0);
        let ja = choose|j: int| 0 <= j < a.len() && a[j] == b[ib];
        assert(!beats(b[jb], b[ib], trump_suit, led_suit));
        assert(!beats(a[ja], a[ia], trump_suit, led_suit));
        assert(ja == ia);
    } else {
        assert forall|j: int| 0 <= j < b.len() implies b[j].is_pass by {
            assert(b.contains(b[j]));
            assert(a.to_multiset().count(b[j]) > 0);
            let k = choose|k: int| 0 <= k < a.len() && a[k] == b[j];
        }
        if exists|i: int| wins_trick(b, trump_suit, led_suit, i) {
            let i = choose|i: int| wins_trick(b, trump_suit, led_suit, i);
            assert(false);
        }
        if exists|i: int| wins_trick(a, trump_suit, led_suit, i) {
            let i = choose|i: int| wins_trick(a, trump_suit, led_suit, i);
            assert(false);
        }
    }
}

/// A failed contract stays failed: once `check_spread` reports failure, no split
/// of any of the remaining tricks between the two pairs makes the contract
/// (trick counts below 128, so that every count reads as itself).
pub proof fn lemma_failed_contract_stays_failed(
    ns_tricks: u8,
    ew_tricks: u8,
    contract_spread: i8,
    declarer_seat: u8,
    total_possible_tricks: u8,
    ns_more: u8,
    ew_more: u8,
)
    requires
        total_possible_tricks < 128,
        ns_tricks as int + ew_tricks as int + ns_more as int + ew_more as int <= total_possible_tricks,
        spread_status(ns_tricks, ew_tricks, contract_spread, declarer_seat, total_possible_tricks) == Some(false),
    ensures
        spread_status(
            (ns_tricks + ns_more) as u8,
            (ew_tricks + ew_more) as u8,
            contract_spread,
            declarer_seat,
            total_possible_tricks,
        ) == Some(false),
{
}

/// A made contract is reported as soon as the spread reaches it, whatever the
/// number of tricks left; and the contract is reported failed only when the
/// declaring pair cannot reach it by taking every remaining trick.
pub proof fn lemma_spread_status_meaning(
    ns_tricks: u8,
    ew_tricks: u8,
    contract_spread: i8,
    declarer_seat: u8,
    total_possible_tricks: u8,
)
    requires
        total_possible_tricks < 128,
        ns_tricks as int + ew_tricks as int <= total_possible_tricks,
    ensures
        spread_status(ns_tricks, ew_tricks, contract_spread, declarer_seat, total_possible_tricks) == Some(true)
            <==> declarer_pair_tricks(ns_tricks, ew_tricks, declarer_seat) - defender_pair_tricks(
            ns_tricks,
            ew_tricks,
            declarer_seat,
        ) >= contract_spread,
        spread_status(ns_tricks, ew_tricks, contract_spread, declarer_seat, total_possible_tricks) == Some(false)
            <==> declarer_pair_tricks(ns_tricks, ew_tricks, declarer_seat) + (total_possible_tricks - ns_tricks
            - ew_tricks) - defender_pair_tricks(ns_tricks, ew_tricks, declarer_seat) < contract_spread,
        spread_check_in_range(ns_tricks, ew_tricks, contract_spread, declarer_seat, total_possible_tricks),
{
}

/// Every card with a seat below 4 is counted for exactly one seat.
pub proof fn lemma_seat_counts_total(cards: Seq<(u8, u8, u8)>)
    requires
        forall|i: int| 0 <= i < cards.len() ==> cards[i].0 < 4,
    ensures
        seat_card_count(cards, 0) + seat_card_count(cards, 1) + seat_card_count(cards, 2) + seat_card_count(
            cards,
            3,
        ) == cards.len(),
    decreases cards.len(),
{
    if cards.len() > 0 {
        lemma_seat_counts_total(cards.drop_last());
    }
}

} // verus!
