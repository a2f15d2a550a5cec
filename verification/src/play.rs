//! Card play: validating a play, recording it, completing tricks, and scoring.

use vstd::prelude::*;
use crate::tables::{Card, Game, GameConfig, GameError, Trick, TrickPlay};
use crate::logic::{
    count_cards_per_seat, seat_card_count, lemma_seat_counts_total, spread_now, spread_status,
    spread_check_in_range, try_check_spread, next_active_seat, is_next_active, seat_plus, resolve_leader,
    evaluate_trick, trick_winner, TrickPlayInfo, as_signed, signed_byte, wins_by_the_rules,
    lemma_winner_wins_by_the_rules, wins_trick, has_active_play,
};
use crate::types::{is_ns, seat_across, PHASE_PLAY, PHASE_FINISHED, ALL_PASS_LEADER_WINS};

verus! {

/// Where a card held in a hand is.
pub const HAND: &'static str = "hand";

/// The character for a decimal digit 0..9.
pub open spec fn digit_char(d: int) -> char {
    if d == 0 { '0' }
    else if d == 1 { '1' }
    else if d == 2 { '2' }
    else if d == 3 { '3' }
    else if d == 4 { '4' }
    else if d == 5 { '5' }
    else if d == 6 { '6' }
    else if d == 7 { '7' }
    else if d == 8 { '8' }
    else { '9' }
}

/// The decimal digits of `n`, most significant first, without leading zeros.
pub open spec fn decimal(n: nat) -> Seq<char>
    decreases n,
{
    if n < 10 {
        seq![digit_char(n as int)]
    } else {
        decimal(n / 10).push(digit_char((n % 10) as int))
    }
}

/// `n` in decimal, with a leading '-' when negative.
pub open spec fn signed_decimal(n: int) -> Seq<char> {
    if n < 0 {
        seq!['-'] + decimal((-n) as nat)
    } else {
        decimal(n as nat)
    }
}

/// Location of a card played into trick `trick_id`: "trick:{trick_id}".
pub open spec fn trick_location_text(trick_id: u32) -> Seq<char> {
    "trick:"@ + decimal(trick_id as nat)
}

/// Location of a card in the tricks won by `seat`: "won:{seat}".
pub open spec fn won_location_text(seat: u8) -> Seq<char> {
    "won:"@ + decimal(seat as nat)
}

/// `format!("trick:{}", trick_id)`: integers are written in decimal by `Display`.
#[verifier::external_body]
fn trick_location(trick_id: u32) -> (s: String)
    ensures
        s@ == trick_location_text(trick_id),
{
    format!("trick:{}", trick_id)
}

/// `format!("won:{}", seat)`: integers are written in decimal by `Display`.
#[verifier::external_body]
fn won_location(seat: u8) -> (s: String)
    ensures
        s@ == won_location_text(seat),
{
    format!("won:{}", seat)
}

/// Cards in tricks and in won piles are never "in hand".
pub proof fn lemma_locations_differ(trick_id: u32, seat: u8)
    ensures
        trick_location_text(trick_id) != HAND@,
        won_location_text(seat) != HAND@,
        won_location_text(seat) != trick_location_text(trick_id),
{
    reveal_strlit("hand");
    reveal_strlit("trick:");
    reveal_strlit("won:");
    assert(trick_location_text(trick_id)[0] == 't');
    assert(won_location_text(seat)[0] == 'w');
    assert(HAND@[0] == 'h');
}

/// Card `i` of the list has the id `id`.
pub open spec fn card_at(cards: Seq<Card>, id: u32, i: int) -> bool {
    0 <= i < cards.len() && cards[i].card_id == id
}

/// Some card of the list has the id `id`.
pub open spec fn holds_card_id(cards: Seq<Card>, id: u32) -> bool {
    exists|i: int| card_at(cards, id, i)
}

/// The card with id `id` (meaningful when there is one).
pub open spec fn card_with_id(cards: Seq<Card>, id: u32) -> Card {
    cards[choose|i: int| card_at(cards, id, i)]
}

/// No two cards of the list share an id.
pub open spec fn card_ids_distinct(cards: Seq<Card>) -> bool {
    forall|i: int, j: int|
        0 <= i < cards.len() && 0 <= j < cards.len() && i != j ==> (#[trigger] cards[i]).card_id != (
        #[trigger] cards[j]).card_id
}

/// Position of the card with id `id`, if the game has it.
fn find_card(cards: &Vec<Card>, id: u32) -> (r: Option<usize>)
    requires
        card_ids_distinct(cards@),
    ensures
        r is None <==> !holds_card_id(cards@, id),
        r matches Some(i) ==> card_at(cards@, id, i as int) && cards@[i as int] == card_with_id(cards@, id),
{
    let n = cards.len();
    let mut k: usize = 0;
    while k < n
        invariant
            n == cards@.len(),
            k <= n,
            card_ids_distinct(cards@),
            forall|j: int| 0 <= j < k ==> cards@[j].card_id != id,
        decreases n - k,
    {
        if cards[k].card_id == id {
            proof {
                assert(card_at(cards@, id, k as int));
                let c = choose|i: int| card_at(cards@, id, i);
                assert(c == k);
            }
            return Some(k);
        }
        k = k + 1;
    }
    None
}

/// Why card `id` cannot be played by `seat` in game `game_id`, if it cannot.
pub open spec fn card_problem(cards: Seq<Card>, game_id: u64, seat: u8, id: u32) -> Option<GameError> {
    if !holds_card_id(cards, id) {
        Some(GameError::CardNotInGame(id))
    } else {
        let c = card_with_id(cards, id);
        if c.game_id != game_id {
            Some(GameError::CardNotInGame(id))
        } else if c.owner_seat != seat {
            Some(GameError::NotYourCard)
        } else if c.location@ != HAND@ {
            Some(GameError::CardNotInHand)
        } else {
            None
        }
    }
}

/// The problem with the first unplayable card of `ids`, checked in order.
pub open spec fn first_card_problem(cards: Seq<Card>, game_id: u64, seat: u8, ids: Seq<u32>) -> Option<GameError>
    decreases ids.len(),
{
    if ids.len() == 0 {
        None
    } else {
        match first_card_problem(cards, game_id, seat, ids.drop_last()) {
            Some(e) => Some(e),
            None => card_problem(cards, game_id, seat, ids.last()),
        }
    }
}

/// Sum of the ranks of the cards with the given ids.
pub open spec fn ranks_sum(cards: Seq<Card>, ids: Seq<u32>) -> nat
    decreases ids.len(),
{
    if ids.len() == 0 {
        0
    } else {
        ranks_sum(cards, ids.drop_last()) + card_with_id(cards, ids.last()).rank as nat
    }
}

/// All cards with the given ids are of the suit of the first one.
pub open spec fn one_suit(cards: Seq<Card>, ids: Seq<u32>) -> bool {
    forall|k: int| 0 <= k < ids.len() ==> card_with_id(cards, #[trigger] ids[k]).suit == card_with_id(cards, ids[0]).suit
}

/// `seat` still holds a card of `suit` in game `game_id`.
pub open spec fn seat_holds_suit(cards: Seq<Card>, game_id: u64, seat: u8, suit: u8) -> bool {
    exists|i: int|
        0 <= i < cards.len() && (#[trigger] cards[i]).game_id == game_id && cards[i].owner_seat == seat
            && cards[i].location@ == HAND@ && cards[i].suit == suit
}

/// No id is listed twice.
pub open spec fn ids_distinct(ids: Seq<u32>) -> bool {
    forall|i: int, j: int| 0 <= i < ids.len() && 0 <= j < ids.len() && i != j ==> ids[i] != ids[j]
}

/// Why the cards `ids` (at least one) cannot be played by `seat`, if they cannot:
/// a card that is not the seat's own card in hand, a card named twice, cards of more than one suit,
/// a suit other than the led suit while holding the led suit, or a total value
/// above `u16::MAX`.
pub open spec fn played_cards_error(
    cards: Seq<Card>,
    game_id: u64,
    seat: u8,
    led_suit: Option<u8>,
    ids: Seq<u32>,
) -> Option<GameError> {
    let suit = card_with_id(cards, ids[0]).suit;
    if first_card_problem(cards, game_id, seat, ids) is Some {
        first_card_problem(cards, game_id, seat, ids)
    } else if !ids_distinct(ids) {
        Some(GameError::RepeatedCard)
    } else if !one_suit(cards, ids) {
        Some(GameError::MixedSuits)
    } else if led_suit matches Some(led) && suit != led && seat_holds_suit(cards, game_id, seat, led) {
        Some(GameError::MustFollowSuit)
    } else if ranks_sum(cards, ids) > u16::MAX {
        Some(GameError::Overflow)
    } else {
        None
    }
}

/// Checks the cards of a play (at least one) and returns their suit and total value.
fn check_played_cards(
    cards: &Vec<Card>,
    game_id: u64,
    seat: u8,
    led_suit: Option<u8>,
    ids: &Vec<u32>,
) -> (r: Result<(u8, u16), GameError>)
    requires
        ids@.len() > 0,
        card_ids_distinct(cards@),
    ensures
        r is Ok <==> played_cards_error(cards@, game_id, seat, led_suit, ids@) is None,
        r matches Err(e) ==> played_cards_error(cards@, game_id, seat, led_suit, ids@) == Some(e),
        r matches Ok((s, v)) ==> s == card_with_id(cards@, ids@[0]).suit && v == ranks_sum(cards@, ids@),
{
    let n = ids.len();
    let hand = HAND.to_owned();
    // ownership and location of every card, in order
    let mut k: usize = 0;
    while k < n
        invariant
            n == ids@.len(),
            k <= n,
            hand@ == HAND@,
            card_ids_distinct(cards@),
            first_card_problem(cards@, game_id, seat, ids@.subrange(0, k as int)) is None,
        decreases n - k,
    {
        let id = ids[k];
        proof {
            assert(ids@.subrange(0, k as int + 1).drop_last() =~= ids@.subrange(0, k as int));
            assert(ids@.subrange(0, k as int + 1).last() == id);
        }
        match find_card(cards, id) {
            None => {
                proof { lemma_first_problem_extends(cards@, game_id, seat, ids@, k as int); }
                return Err(GameError::CardNotInGame(id));
            },
            Some(i) => {
                let c = &cards[i];
                if c.game_id != game_id {
                    proof { lemma_first_problem_extends(cards@, game_id, seat, ids@, k as int); }
                    return Err(GameError::CardNotInGame(id));
                }
                if c.owner_seat != seat {
                    proof { lemma_first_problem_extends(cards@, game_id, seat, ids@, k as int); }
                    return Err(GameError::NotYourCard);
                }
                if !(c.location == hand) {
                    proof { lemma_first_problem_extends(cards@, game_id, seat, ids@, k as int); }
                    return Err(GameError::CardNotInHand);
                }
            },
        }
        k = k + 1;
    }
    assert(ids@.subrange(0, n as int) =~= ids@);
    // each card named once
    let mut a: usize = 0;
    while a < n
        invariant
            n == ids@.len(),
            a <= n,
            first_card_problem(cards@, game_id, seat, ids@) is None,
            forall|i: int, j: int| 0 <= i < a && 0 <= j < n && i != j ==> ids@[i] != ids@[j],
        decreases n - a,
    {
        let mut b: usize = 0;
        while b < n
            invariant
                n == ids@.len(),
                a < n,
                b <= n,
                first_card_problem(cards@, game_id, seat, ids@) is None,
                forall|i: int, j: int| 0 <= i < a && 0 <= j < n && i != j ==> ids@[i] != ids@[j],
                forall|j: int| 0 <= j < b && j != a ==> ids@[a as int] != ids@[j],
            decreases n - b,
        {
            if b != a && ids[a] == ids[b] {
                assert(!ids_distinct(ids@)) by {
                    assert(ids@[a as int] == ids@[b as int]);
                }
                return Err(GameError::RepeatedCard);
            }
            b = b + 1;
        }
        a = a + 1;
    }
    assert(ids_distinct(ids@)) by {
        assert forall|i: int, j: int| 0 <= i < n && 0 <= j < n && i != j implies ids@[i] != ids@[j] by {
            if i < j {
                assert(ids@[j] != ids@[i]);
            }
        }
    }
    // all of one suit
    proof { lemma_no_problem_has_card(cards@, game_id, seat, ids@, 0); }
    let first = find_card(cards, ids[0]).unwrap();
    let suit = cards[first].suit;
    let mut k: usize = 0;
    while k < n
        invariant
            n == ids@.len(),
            k <= n,
            card_ids_distinct(cards@),
            first_card_problem(cards@, game_id, seat, ids@) is None,
            ids_distinct(ids@),
            suit == card_with_id(cards@, ids@[0]).suit,
            forall|j: int| 0 <= j < k ==> card_with_id(cards@, #[trigger] ids@[j]).suit == suit,
        decreases n - k,
    {
        proof { lemma_no_problem_has_card(cards@, game_id, seat, ids@, k as int); }
        let i = find_card(cards, ids[k]).unwrap();
        if cards[i].suit != suit {
            return Err(GameError::MixedSuits);
        }
        k = k + 1;
    }
    assert(one_suit(cards@, ids@));
    // follow suit
    if let Some(led) = led_suit {
        if suit != led {
            let m = cards.len();
            let mut j: usize = 0;
            while j < m
                invariant
                    m == cards@.len(),
                    j <= m,
                    hand@ == HAND@,
                    first_card_problem(cards@, game_id, seat, ids@) is None,
            ids_distinct(ids@),
                    one_suit(cards@, ids@),
                    suit == card_with_id(cards@, ids@[0]).suit,
                    led_suit == Some(led),
                    suit != led,
                    forall|q: int|
                        0 <= q < j ==> !((#[trigger] cards@[q]).game_id == game_id && cards@[q].owner_seat == seat
                            && cards@[q].location@ == HAND@ && cards@[q].suit == led),
                decreases m - j,
            {
                let c = &cards[j];
                if c.game_id == game_id && c.owner_seat == seat && c.location == hand && c.suit == led {
                    return Err(GameError::MustFollowSuit);
                }
                j = j + 1;
            }
        }
    }
    // total value
    let mut total: u32 = 0;
    let mut k: usize = 0;
    while k < n
        invariant
            n == ids@.len(),
            k <= n,
            card_ids_distinct(cards@),
            first_card_problem(cards@, game_id, seat, ids@) is None,
            ids_distinct(ids@),
            one_suit(cards@, ids@),
            suit == card_with_id(cards@, ids@[0]).suit,
            !(led_suit matches Some(led) && suit != led && seat_holds_suit(cards@, game_id, seat, led)),
            total == ranks_sum(cards@, ids@.subrange(0, k as int)),
            total <= u16::MAX,
        decreases n - k,
    {
        proof {
            lemma_no_problem_has_card(cards@, game_id, seat, ids@, k as int);
            assert(ids@.subrange(0, k as int + 1).drop_last() =~= ids@.subrange(0, k as int));
            assert(ids@.subrange(0, k as int + 1).last() == ids@[k as int]);
        }
        let i = find_card(cards, ids[k]).unwrap();
        total = total + cards[i].rank as u32;
        if total > 65535 {
            proof { lemma_ranks_sum_grows(cards@, ids@, k as int + 1); }
            return Err(GameError::Overflow);
        }
        k = k + 1;
    }
    assert(ids@.subrange(0, n as int) =~= ids@);
    Ok((suit, total as u16))
}

/// When the first `k` ids are fine, the first problem of the whole list is the
/// problem of id `k`, if it has one.
proof fn lemma_first_problem_extends(cards: Seq<Card>, game_id: u64, seat: u8, ids: Seq<u32>, k: int)
    requires
        0 <= k < ids.len(),
        first_card_problem(cards, game_id, seat, ids.subrange(0, k)) is None,
        card_problem(cards, game_id, seat, ids[k]) is Some,
    ensures
        first_card_problem(cards, game_id, seat, ids) == card_problem(cards, game_id, seat, ids[k]),
    decreases ids.len() - k,
{
    assert(ids.subrange(0, k + 1).drop_last() =~= ids.subrange(0, k));
    lemma_first_problem_prefix(cards, game_id, seat, ids, k + 1);
}

/// A problem found in a prefix is the first problem of the whole list.
proof fn lemma_first_problem_prefix(cards: Seq<Card>, game_id: u64, seat: u8, ids: Seq<u32>, k: int)
    requires
        0 <= k <= ids.len(),
        first_card_problem(cards, game_id, seat, ids.subrange(0, k)) is Some,
    ensures
        first_card_problem(cards, game_id, seat, ids) == first_card_problem(cards, game_id, seat, ids.subrange(0, k)),
    decreases ids.len() - k,
{
    if k < ids.len() {
        assert(ids.subrange(0, k + 1).drop_last() =~= ids.subrange(0, k));
        lemma_first_problem_prefix(cards, game_id, seat, ids, k + 1);
    } else {
        assert(ids.subrange(0, k) =~= ids);
    }
}

/// When no id of the list has a problem, every one of them names a card of the
/// seat's hand in this game.
proof fn lemma_no_problem_has_card(cards: Seq<Card>, game_id: u64, seat: u8, ids: Seq<u32>, k: int)
    requires
        0 <= k < ids.len(),
        first_card_problem(cards, game_id, seat, ids) is None,
    ensures
        holds_card_id(cards, ids[k]),
        card_problem(cards, game_id, seat, ids[k]) is None,
    decreases ids.len(),
{
    if k < ids.len() - 1 {
        assert(ids.drop_last()[k] == ids[k]);
        lemma_no_problem_has_card(cards, game_id, seat, ids.drop_last(), k);
    }
}

/// The rank sum of a prefix is at most the rank sum of the whole list.
proof fn lemma_ranks_sum_grows(cards: Seq<Card>, ids: Seq<u32>, k: int)
    requires
        0 <= k <= ids.len(),
    ensures
        ranks_sum(cards, ids.subrange(0, k)) <= ranks_sum(cards, ids),
    decreases ids.len() - k,
{
    if k < ids.len() {
        assert(ids.subrange(0, k + 1).drop_last() =~= ids.subrange(0, k));
        lemma_ranks_sum_grows(cards, ids, k + 1);
    } else {
        assert(ids.subrange(0, k) =~= ids);
    }
}


/// The card is in the hand of `seat` in game `game_id`.
pub open spec fn in_hand_of(c: Card, game_id: u64, seat: int) -> bool {
    c.game_id == game_id && c.owner_seat == seat && c.location@ == HAND@
}

/// Number of cards of game `game_id` in the hand of `seat`.
pub open spec fn hand_count(cards: Seq<Card>, game_id: u64, seat: int) -> nat
    decreases cards.len(),
{
    if cards.len() == 0 {
        0
    } else {
        hand_count(cards.drop_last(), game_id, seat) + (if in_hand_of(cards.last(), game_id, seat) {
            1nat
        } else {
            0nat
        })
    }
}

/// (seat, suit, rank) of the cards of game `game_id` that are in a hand, in list order.
pub open spec fn hand_tuples(cards: Seq<Card>, game_id: u64) -> Seq<(u8, u8, u8)>
    decreases cards.len(),
{
    if cards.len() == 0 {
        Seq::empty()
    } else {
        let c = cards.last();
        let pre = hand_tuples(cards.drop_last(), game_id);
        if c.game_id == game_id && c.location@ == HAND@ {
            pre.push((c.owner_seat, c.suit, c.rank))
        } else {
            pre
        }
    }
}

proof fn lemma_hand_tuples(cards: Seq<Card>, game_id: u64)
    requires
        forall|i: int| 0 <= i < cards.len() ==> (#[trigger] cards[i]).owner_seat < 4,
    ensures
        hand_tuples(cards, game_id).len() <= cards.len(),
        forall|i: int| 0 <= i < hand_tuples(cards, game_id).len() ==> (#[trigger] hand_tuples(cards, game_id)[i]).0 < 4,
        forall|s: int| 0 <= s < 4 ==> seat_card_count(hand_tuples(cards, game_id), s) == #[trigger] hand_count(cards, game_id, s),
    decreases cards.len(),
{
    if cards.len() > 0 {
        let pre = cards.drop_last();
        assert forall|i: int| 0 <= i < pre.len() implies (#[trigger] pre[i]).owner_seat < 4 by {
            assert(pre[i] == cards[i]);
        }
        lemma_hand_tuples(pre, game_id);
        let c = cards.last();
        let tp = hand_tuples(pre, game_id);
        let ht = hand_tuples(cards, game_id);
        if c.game_id == game_id && c.location@ == HAND@ {
            assert(ht.drop_last() =~= tp);
            assert(ht.last() == (c.owner_seat, c.suit, c.rank));
        }
        assert forall|s: int| 0 <= s < 4 implies seat_card_count(ht, s) == #[trigger] hand_count(cards, game_id, s) by {
            assert(seat_card_count(tp, s) == hand_count(pre, game_id, s));
            if c.game_id == game_id && c.location@ == HAND@ {
                assert(ht.drop_last() =~= tp);
                assert(seat_card_count(ht, s) == seat_card_count(tp, s) + (if c.owner_seat == s { 1nat } else { 0nat }));
            } else {
                assert(ht == tp);
            }
        }
        assert forall|i: int| 0 <= i < ht.len() implies (#[trigger] ht[i]).0 < 4 by {
            if c.game_id == game_id && c.location@ == HAND@ && i == ht.len() - 1 {
            } else {
                assert(ht[i] == tp[i]);
            }
        }
    }
}

/// Cards left in each seat's hand, computed from the cards of game `game_id`.
fn hand_counts(cards: &Vec<Card>, game_id: u64) -> (counts: [u8; 4])
    requires
        cards@.len() <= 255,
        forall|i: int| 0 <= i < cards@.len() ==> (#[trigger] cards@[i]).owner_seat < 4,
    ensures
        forall|s: int| 0 <= s < 4 ==> counts@[s] == #[trigger] hand_count(cards@, game_id, s),
{
    let hand = HAND.to_owned();
    let mut tuples: Vec<(u8, u8, u8)> = Vec::new();
    let n = cards.len();
    let mut k: usize = 0;
    while k < n
        invariant
            n == cards@.len(),
            k <= n,
            hand@ == HAND@,
            tuples@ == hand_tuples(cards@.subrange(0, k as int), game_id),
        decreases n - k,
    {
        proof {
            assert(cards@.subrange(0, k as int + 1).drop_last() =~= cards@.subrange(0, k as int));
        }
        let c = &cards[k];
        if c.game_id == game_id && c.location == hand {
            tuples.push((c.owner_seat, c.suit, c.rank));
        }
        k = k + 1;
    }
    proof {
        assert(cards@.subrange(0, n as int) =~= cards@);
        lemma_hand_tuples(cards@, game_id);
        lemma_seat_counts_total(tuples@);
    }
    count_cards_per_seat(tuples.as_slice())
}

/// The play names card `c` (a play of at least one card).
pub open spec fn is_played(ids: Seq<u32>, c: Card) -> bool {
    ids.len() > 0 && ids.contains(c.card_id)
}

/// The card is in the hand of `seat` and is not among the cards being played.
pub open spec fn kept_in_hand(c: Card, game_id: u64, ids: Seq<u32>, seat: int) -> bool {
    in_hand_of(c, game_id, seat) && !is_played(ids, c)
}

/// Number of cards of `seat` still in hand once the cards `ids` are played.
pub open spec fn kept_count(cards: Seq<Card>, game_id: u64, ids: Seq<u32>, seat: int) -> nat
    decreases cards.len(),
{
    if cards.len() == 0 {
        0
    } else {
        kept_count(cards.drop_last(), game_id, ids, seat) + (if kept_in_hand(cards.last(), game_id, ids, seat) {
            1nat
        } else {
            0nat
        })
    }
}

/// The cards left in the four hands once the cards `ids` are played.
pub open spec fn cards_left(cards: Seq<Card>, game_id: u64, ids: Seq<u32>) -> Seq<u8> {
    seq![
        kept_count(cards, game_id, ids, 0) as u8,
        kept_count(cards, game_id, ids, 1) as u8,
        kept_count(cards, game_id, ids, 2) as u8,
        kept_count(cards, game_id, ids, 3) as u8,
    ]
}

/// `after` is `before` with the played cards moved to location `loc`.
pub open spec fn moved_to(before: Seq<Card>, ids: Seq<u32>, loc: Seq<char>, after: Seq<Card>) -> bool {
    &&& after.len() == before.len()
    &&& forall|i: int|
        0 <= i < before.len() ==> if is_played(ids, #[trigger] before[i]) {
            after[i] == Card { location: after[i].location, ..before[i] } && after[i].location@ == loc
        } else {
            after[i] == before[i]
        }
}

proof fn lemma_kept_count_bound(cards: Seq<Card>, game_id: u64, ids: Seq<u32>, seat: int)
    ensures
        kept_count(cards, game_id, ids, seat) <= cards.len(),
    decreases cards.len(),
{
    if cards.len() > 0 {
        lemma_kept_count_bound(cards.drop_last(), game_id, ids, seat);
    }
}

/// After moving the played cards to a trick, the hand counts are the kept counts.
proof fn lemma_hand_count_after_move(before: Seq<Card>, ids: Seq<u32>, loc: Seq<char>, after: Seq<Card>, game_id: u64, seat: int)
    requires
        moved_to(before, ids, loc, after),
        loc != HAND@,
    ensures
        hand_count(after, game_id, seat) == kept_count(before, game_id, ids, seat),
    decreases before.len(),
{
    if before.len() > 0 {
        let n = before.len() as int;
        assert(moved_to(before.drop_last(), ids, loc, after.drop_last())) by {
            assert forall|i: int| 0 <= i < n - 1 implies before.drop_last()[i] == before[i] && after.drop_last()[i] == after[i] by {}
        }
        lemma_hand_count_after_move(before.drop_last(), ids, loc, after.drop_last(), game_id, seat);
        assert(before[n - 1] == before.last());
    }
}

/// Moves every card named in `ids` to the location `loc`.
fn move_played_cards(cards: &mut Vec<Card>, ids: &Vec<u32>, loc: &String)
    requires
        ids@.len() > 0,
    ensures
        moved_to(old(cards)@, ids@, loc@, final(cards)@),
{
    let n = cards.len();
    let mut k: usize = 0;
    while k < n
        invariant
            n == cards@.len(),
            n == old(cards)@.len(),
            k <= n,
            ids@.len() > 0,
            forall|i: int|
                0 <= i < k ==> if is_played(ids@, #[trigger] old(cards)@[i]) {
                    cards@[i] == Card { location: cards@[i].location, ..old(cards)@[i] } && cards@[i].location@ == loc@
                } else {
                    cards@[i] == old(cards)@[i]
                },
            forall|i: int| k <= i < n ==> cards@[i] == old(cards)@[i],
        decreases n - k,
    {
        let id = cards[k].card_id;
        let mut found = false;
        let mut j: usize = 0;
        while j < ids.len()
            invariant
                j <= ids@.len(),
                found <==> exists|q: int| 0 <= q < j && ids@[q] == id,
            decreases ids@.len() - j,
        {
            if ids[j] == id {
                found = true;
            }
            j = j + 1;
        }
        proof {
            if found {
                let q = choose|q: int| 0 <= q < ids@.len() && ids@[q] == id;
                assert(ids@.contains(id));
            } else {
                assert(!ids@.contains(id));
            }
        }
        if found {
            let c = &cards[k];
            let moved = Card {
                card_id: c.card_id,
                game_id: c.game_id,
                owner_seat: c.owner_seat,
                suit: c.suit,
                rank: c.rank,
                location: loc.clone(),
            };
            cards.set(k, moved);
        }
        k = k + 1;
    }
}

/// `after` is `before` with the cards of game `game_id` at location `from` moved to `to`.
pub open spec fn relocated(before: Seq<Card>, game_id: u64, from: Seq<char>, to: Seq<char>, after: Seq<Card>) -> bool {
    &&& after.len() == before.len()
    &&& forall|i: int|
        0 <= i < before.len() ==> if (#[trigger] before[i]).game_id == game_id && before[i].location@ == from {
            after[i] == Card { location: after[i].location, ..before[i] } && after[i].location@ == to
        } else {
            after[i] == before[i]
        }
}

/// Moves the cards of game `game_id` lying at `from` to `to`.
fn relocate_cards(cards: &mut Vec<Card>, game_id: u64, from: &String, to: &String)
    ensures
        relocated(old(cards)@, game_id, from@, to@, final(cards)@),
{
    let n = cards.len();
    let mut k: usize = 0;
    while k < n
        invariant
            n == cards@.len(),
            n == old(cards)@.len(),
            k <= n,
            forall|i: int|
                0 <= i < k ==> if (#[trigger] old(cards)@[i]).game_id == game_id && old(cards)@[i].location@ == from@ {
                    cards@[i] == Card { location: cards@[i].location, ..old(cards)@[i] } && cards@[i].location@ == to@
                } else {
                    cards@[i] == old(cards)@[i]
                },
            forall|i: int| k <= i < n ==> cards@[i] == old(cards)@[i],
        decreases n - k,
    {
        if cards[k].game_id == game_id && cards[k].location == *from {
            let c = &cards[k];
            let moved = Card {
                card_id: c.card_id,
                game_id: c.game_id,
                owner_seat: c.owner_seat,
                suit: c.suit,
                rank: c.rank,
                location: to.clone(),
            };
            cards.set(k, moved);
        }
        k = k + 1;
    }
}

/// Moving cards between two locations that are not "hand" leaves the hands as they are.
proof fn lemma_relocation_keeps_hands(before: Seq<Card>, game_id: u64, from: Seq<char>, to: Seq<char>, after: Seq<Card>, seat: int)
    requires
        relocated(before, game_id, from, to, after),
        from != HAND@,
        to != HAND@,
    ensures
        hand_count(after, game_id, seat) == hand_count(before, game_id, seat),
    decreases before.len(),
{
    if before.len() > 0 {
        let n = before.len() as int;
        assert(relocated(before.drop_last(), game_id, from, to, after.drop_last())) by {
            assert forall|i: int| 0 <= i < n - 1 implies before.drop_last()[i] == before[i] && after.drop_last()[i] == after[i] by {}
        }
        lemma_relocation_keeps_hands(before.drop_last(), game_id, from, to, after.drop_last(), seat);
        assert(before[n - 1] == before.last());
    }
}


/// "Contract made! Spread: {spread}. Overtricks: {overtricks}"
pub open spec fn made_text(spread: int, overtricks: int) -> Seq<char> {
    "Contract made! Spread: "@ + signed_decimal(spread) + ". Overtricks: "@ + signed_decimal(overtricks)
}

/// "Contract failed. Spread: {spread}. Undertricks: {undertricks}"
pub open spec fn failed_text(spread: int, undertricks: int) -> Seq<char> {
    "Contract failed. Spread: "@ + signed_decimal(spread) + ". Undertricks: "@ + signed_decimal(undertricks)
}

/// `format!` of the made-contract result: integers are written in decimal by `Display`.
#[verifier::external_body]
fn made_result(spread: i8, overtricks: u8) -> (s: String)
    ensures
        s@ == made_text(spread as int, overtricks as int),
{
    format!("Contract made! Spread: {}. Overtricks: {}", spread, overtricks)
}

/// `format!` of the failed-contract result: integers are written in decimal by `Display`.
#[verifier::external_body]
fn failed_result(spread: i8, undertricks: i8) -> (s: String)
    ensures
        s@ == failed_text(spread as int, undertricks as int),
{
    format!("Contract failed. Spread: {}. Undertricks: {}", spread, undertricks)
}

/// The declarer, or North when the game has none.
pub open spec fn declarer_or_north(game: Game) -> u8 {
    match game.declarer_seat {
        Some(d) => d,
        None => 0,
    }
}

/// The contracted spread, or 0 when the game has none.
pub open spec fn contract_or_zero(game: Game) -> int {
    match game.contract_spread {
        Some(c) => c as int,
        None => 0,
    }
}

/// The declaring pair's spread at the end of the game.
pub open spec fn final_spread(game: Game) -> int {
    spread_now(game.ns_tricks, game.ew_tricks, declarer_or_north(game))
}

/// Cards the declaring pair still holds, given the cards left per seat.
pub open spec fn declaring_pair_left(game: Game, left: Seq<u8>) -> int {
    if declarer_or_north(game) % 2 == 0 {
        left[0] + left[2]
    } else {
        left[1] + left[3]
    }
}

/// Where scoring the game would leave the range of its byte counters.
pub open spec fn finish_error(game: Game, left: Seq<u8>) -> Option<GameError> {
    let sp = final_spread(game);
    let c = contract_or_zero(game);
    if sp < -128 || sp > 127 {
        Some(GameError::Overflow)
    } else if sp >= c {
        if sp - c > 127 || sp - c + declaring_pair_left(game, left) > 255 {
            Some(GameError::Overflow)
        } else {
            None
        }
    } else if c - sp > 127 {
        Some(GameError::Overflow)
    } else {
        None
    }
}

/// The game's result: made, with the spread above the contract plus every card
/// the declaring pair still holds as overtricks; or failed, with the shortfall
/// as undertricks.
pub open spec fn finish_text(game: Game, left: Seq<u8>) -> Seq<char> {
    let sp = final_spread(game);
    let c = contract_or_zero(game);
    if sp >= c {
        made_text(sp, sp - c + declaring_pair_left(game, left))
    } else {
        failed_text(sp, c - sp)
    }
}

/// The cards left in the four hands.
pub open spec fn hands_left(cards: Seq<Card>, game_id: u64) -> Seq<u8> {
    seq![
        hand_count(cards, game_id, 0) as u8,
        hand_count(cards, game_id, 1) as u8,
        hand_count(cards, game_id, 2) as u8,
        hand_count(cards, game_id, 3) as u8,
    ]
}

/// The cards of a game are within the ranges the rules keep them in: at most one
/// deck of cards with distinct ids, held by seats 0..3.
pub open spec fn cards_ok(cards: Seq<Card>) -> bool {
    &&& cards.len() <= 52
    &&& forall|i: int| 0 <= i < cards.len() ==> (#[trigger] cards[i]).owner_seat < 4
    &&& card_ids_distinct(cards)
}

proof fn lemma_hand_count_bound(cards: Seq<Card>, game_id: u64, seat: int)
    ensures
        hand_count(cards, game_id, seat) <= cards.len(),
    decreases cards.len(),
{
    if cards.len() > 0 {
        lemma_hand_count_bound(cards.drop_last(), game_id, seat);
    }
}

/// End the game: phase finished, and the result records the declaring pair's
/// spread with overtricks (contract made) or undertricks (contract failed).
/// Refused, leaving the game as it was, where a byte counter would overflow.
pub fn finish_game(game: &mut Game, cards: &Vec<Card>) -> (r: Result<(), GameError>)
    requires
        cards_ok(cards@),
    ensures
        r is Ok <==> finish_error(*old(game), hands_left(cards@, old(game).game_id)) is None,
        r matches Err(e) ==> finish_error(*old(game), hands_left(cards@, old(game).game_id)) == Some(e)
            && *final(game) == *old(game),
        r is Ok ==> {
            &&& *final(game) == (Game { phase: PHASE_FINISHED, result: final(game).result, ..*old(game) })
            &&& final(game).result matches Some(t) && t@ == finish_text(*old(game), hands_left(cards@, old(game).game_id))
        },
{
    let declarer: u8 = match game.declarer_seat {
        Some(d) => d,
        None => 0,
    };
    let (decl_tricks, def_tricks) = if is_ns(declarer) {
        (game.ns_tricks, game.ew_tricks)
    } else {
        (game.ew_tricks, game.ns_tricks)
    };
    let sp: i16 = as_signed(decl_tricks) as i16 - as_signed(def_tricks) as i16;
    if sp < -128 || sp > 127 {
        return Err(GameError::Overflow);
    }
    let spread = sp as i8;
    let contract: i8 = match game.contract_spread {
        Some(c) => c,
        None => 0,
    };
    let counts = hand_counts(cards, game.game_id);
    proof {
        lemma_hand_count_bound(cards@, game.game_id, 0);
        lemma_hand_count_bound(cards@, game.game_id, 1);
        lemma_hand_count_bound(cards@, game.game_id, 2);
        lemma_hand_count_bound(cards@, game.game_id, 3);
    }
    let decl_remaining: u16 = if is_ns(declarer) {
        counts[0] as u16 + counts[2] as u16
    } else {
        counts[1] as u16 + counts[3] as u16
    };
    let text = if spread >= contract {
        let d: i16 = spread as i16 - contract as i16;
        if d > 127 {
            return Err(GameError::Overflow);
        }
        let over: u16 = d as u16 + decl_remaining;
        if over > 255 {
            return Err(GameError::Overflow);
        }
        made_result(spread, over as u8)
    } else {
        let u: i16 = contract as i16 - spread as i16;
        if u > 127 {
            return Err(GameError::Overflow);
        }
        failed_result(spread, u as i8)
    };
    game.phase = PHASE_FINISHED;
    game.result = Some(text);
    Ok(())
}


/// What `play_cards` reads: the game, its rules, the current trick, the actions
/// already taken in that trick, and all cards of the game.
pub struct PlayTable {
    pub game: Game,
    pub config: GameConfig,
    pub trick: Trick,
    pub plays: Vec<TrickPlay>,
    pub cards: Vec<Card>,
}

/// The rows of a play table are within the ranges the rules keep them in.
pub open spec fn play_table_ok(t: PlayTable) -> bool {
    &&& cards_ok(t.cards@)
    &&& t.plays@.len() <= 3
    &&& forall|i: int| 0 <= i < t.plays@.len() ==> (#[trigger] t.plays@[i]).seat < 4
    &&& t.game.turn_seat < 4
    &&& t.trick.leader_seat < 4
}

/// Whether the cards are within the ranges the rules keep them in (see `cards_ok`).
pub fn cards_valid(cards: &Vec<Card>) -> (r: bool)
    ensures
        r == cards_ok(cards@),
{
    let n = cards.len();
    if n > 52 {
        return false;
    }
    let mut i: usize = 0;
    while i < n
        invariant
            n == cards@.len(),
            n <= 52,
            i <= n,
            forall|a: int| 0 <= a < i ==> (#[trigger] cards@[a]).owner_seat < 4,
            forall|a: int, b: int|
                0 <= a < i && 0 <= b < n && a != b ==> (#[trigger] cards@[a]).card_id != (#[trigger] cards@[b]).card_id,
        decreases n - i,
    {
        if cards[i].owner_seat >= 4 {
            return false;
        }
        let mut j: usize = 0;
        while j < n
            invariant
                n == cards@.len(),
                i < n,
                j <= n,
                forall|b: int| 0 <= b < j && b != i ==> cards@[i as int].card_id != (#[trigger] cards@[b]).card_id,
            decreases n - j,
        {
            if j != i && cards[j].card_id == cards[i].card_id {
                assert(!card_ids_distinct(cards@)) by {
                    assert(cards@[i as int].card_id == cards@[j as int].card_id);
                }
                return false;
            }
            j = j + 1;
        }
        i = i + 1;
    }
    true
}

/// Whether a play table is within the ranges the rules keep it in (see `play_table_ok`).
pub fn table_valid(t: &PlayTable) -> (r: bool)
    ensures
        r == play_table_ok(*t),
{
    if !cards_valid(&t.cards) || t.plays.len() > 3 || t.game.turn_seat >= 4 || t.trick.leader_seat >= 4 {
        return false;
    }
    let n = t.plays.len();
    let mut k: usize = 0;
    while k < n
        invariant
            n == t.plays@.len(),
            k <= n,
            forall|i: int| 0 <= i < k ==> (#[trigger] t.plays@[i]).seat < 4,
        decreases n - k,
    {
        if t.plays[k].seat >= 4 {
            return false;
        }
        k = k + 1;
    }
    true
}

/// The rows after an accepted play. Rows with id 0 are new; when `next_trick`
/// is Some, it is stored and the game's `current_trick_id` is set to its id.
pub struct PlayOutcome {
    pub game: Game,
    pub trick: Trick,
    pub plays: Vec<TrickPlay>,
    pub cards: Vec<Card>,
    pub next_trick: Option<Trick>,
}

/// The decisions a play makes, in numbers.
pub struct PlayDecision {
    /// The seat the trick is awarded to, if the play completed it and it was awarded.
    pub trick_winner: Option<u8>,
    pub ns_tricks: u8,
    pub ew_tricks: u8,
    /// The game ended with this play.
    pub finished: bool,
    /// Whose turn it is next (unchanged when the game ended).
    pub turn_seat: u8,
    /// The leader of the trick that opens next, if one does.
    pub next_leader: Option<u8>,
}

/// The summary of a trick action that trick evaluation reads.
pub open spec fn play_info(p: TrickPlay) -> TrickPlayInfo {
    TrickPlayInfo { seat: p.seat, is_pass: p.is_pass, play_value: p.play_value, suit: p.play_suit, sequence: p.sequence }
}

/// The action that `seat` adds to the trick by playing `ids` (a pass when empty).
pub open spec fn recorded_play(t: PlayTable, seat: u8, ids: Vec<u32>) -> TrickPlay {
    let is_pass = ids@.len() == 0;
    TrickPlay {
        play_id: 0,
        trick_id: t.trick.trick_id,
        game_id: t.game.game_id,
        seat,
        is_pass,
        card_ids: ids,
        play_value: if is_pass { 0 } else { ranks_sum(t.cards@, ids@) as u16 },
        play_suit: if is_pass { None } else { Some(card_with_id(t.cards@, ids@[0]).suit) },
        sequence: t.plays@.len() as u8,
    }
}

/// The trick's led suit after the play: set by the first card play of the trick.
pub open spec fn led_after(t: PlayTable, ids: Seq<u32>) -> Option<u8> {
    if ids.len() > 0 && t.trick.led_suit is None {
        Some(card_with_id(t.cards@, ids[0]).suit)
    } else {
        t.trick.led_suit
    }
}

/// `seat` has an action in the trick.
pub open spec fn seat_has_acted(plays: Seq<TrickPlay>, seat: int) -> bool {
    exists|i: int| 0 <= i < plays.len() && (#[trigger] plays[i]).seat == seat
}

/// Every seat has acted or has no cards left, or four actions were taken.
pub open spec fn trick_done(plays: Seq<TrickPlay>, left: Seq<u8>) -> bool {
    (forall|s: int| 0 <= s < 4 ==> seat_has_acted(plays, s) || left[s] == 0) || plays.len() >= 4
}

/// Seats from `from` up to 3 that have not acted and have no cards: they pass
/// automatically when the trick completes.
pub open spec fn auto_pass_seats(plays: Seq<TrickPlay>, left: Seq<u8>, from: int) -> Seq<u8>
    decreases 4 - from,
{
    if from >= 4 {
        Seq::empty()
    } else {
        (if !seat_has_acted(plays, from) && left[from] == 0 {
            seq![from as u8]
        } else {
            Seq::empty()
        }) + auto_pass_seats(plays, left, from + 1)
    }
}

/// The automatic pass of `seat` at position `sequence` of the trick.
pub open spec fn auto_pass_info(seat: u8, sequence: int) -> TrickPlayInfo {
    TrickPlayInfo { seat, is_pass: true, play_value: 0, suit: None, sequence: sequence as u8 }
}

/// The actions of a completed trick, automatic passes included, as evaluated.
pub open spec fn final_infos(plays: Seq<TrickPlay>, left: Seq<u8>) -> Seq<TrickPlayInfo> {
    let m = auto_pass_seats(plays, left, 0);
    plays.map_values(|p: TrickPlay| play_info(p)) + Seq::new(
        m.len(),
        |k: int| auto_pass_info(m[k], plays.len() + k),
    )
}

/// `out` is `plays` followed by the automatic passes, new rows of trick
/// `trick_id` of game `game_id`.
pub open spec fn plays_with_auto_passes(
    plays: Seq<TrickPlay>,
    left: Seq<u8>,
    trick_id: u32,
    game_id: u64,
    out: Seq<TrickPlay>,
) -> bool {
    let m = auto_pass_seats(plays, left, 0);
    &&& out.len() == plays.len() + m.len()
    &&& forall|i: int| 0 <= i < plays.len() ==> out[i] == plays[i]
    &&& forall|k: int|
        0 <= k < m.len() ==> {
            let p = #[trigger] out[plays.len() + k];
            &&& p == TrickPlay {
                play_id: 0,
                trick_id,
                game_id,
                seat: m[k],
                is_pass: true,
                card_ids: p.card_ids,
                play_value: 0,
                play_suit: None,
                sequence: (plays.len() + k) as u8,
            }
            &&& p.card_ids@.len() == 0
        }
}

/// The first seat after `current` that still holds cards.
pub open spec fn next_active_of(current: u8, left: Seq<u8>) -> Option<u8> {
    if exists|s: int| 0 <= s < 4 && is_next_active(current as int, left, s) {
        Some((choose|s: int| 0 <= s < 4 && is_next_active(current as int, left, s)) as u8)
    } else {
        None
    }
}

/// While some seat holds cards, some seat is the first one after `current` that does.
proof fn lemma_next_active_exists(current: int, left: Seq<u8>, q: int)
    requires
        0 <= current,
        0 <= q < 4,
        left[q] > 0,
    ensures
        exists|s: int| 0 <= s < 4 && is_next_active(current, left, s),
{
    let s1 = seat_plus(current, 1);
    let s2 = seat_plus(current, 2);
    let s3 = seat_plus(current, 3);
    let s4 = seat_plus(current, 4);
    assert(q == s1 || q == s2 || q == s3 || q == s4);
    if left[s1] > 0 {
        assert(is_next_active(current, left, s1));
    } else if left[s2] > 0 {
        assert(is_next_active(current, left, s2)) by {
            assert forall|m: int| 1 <= m < 2 implies left[#[trigger] seat_plus(current, m)] == 0 by {
                assert(m == 1);
            }
        }
    } else if left[s3] > 0 {
        assert(is_next_active(current, left, s3)) by {
            assert forall|m: int| 1 <= m < 3 implies left[#[trigger] seat_plus(current, m)] == 0 by {
                assert(m == 1 || m == 2);
            }
        }
    } else {
        assert(is_next_active(current, left, s4)) by {
            assert forall|m: int| 1 <= m < 4 implies left[#[trigger] seat_plus(current, m)] == 0 by {
                assert(m == 1 || m == 2 || m == 3);
            }
        }
    }
}

/// A trick that is not done has a seat that has not acted and still holds
/// cards, so there is always a next seat to act.
proof fn lemma_incomplete_trick_has_next(current: int, plays: Seq<TrickPlay>, left: Seq<u8>)
    requires
        0 <= current,
        !trick_done(plays, left),
    ensures
        exists|s: int| 0 <= s < 4 && is_next_active(current, left, s),
{
    let q = choose|q: int| 0 <= q < 4 && !(seat_has_acted(plays, q) || left[q] == 0);
    lemma_next_active_exists(current, left, q);
}

/// Who leads after `winner` takes a trick: the winner if it has cards, else its
/// partner if the partner has cards, else nobody.
pub open spec fn leader_after(winner: u8, left: Seq<u8>) -> Option<u8> {
    if left[winner as int] > 0 {
        Some(winner)
    } else if left[seat_across(winner as int)] > 0 {
        Some(seat_across(winner as int) as u8)
    } else {
        None
    }
}

/// The configuration says an all-pass trick goes to its leader.
pub open spec fn leader_wins_all_pass(config: GameConfig) -> bool {
    config.all_pass_trick@ == ALL_PASS_LEADER_WINS@
}

/// What a play decides, or why it is refused.
///
/// A play is refused outside the play phase, out of turn, when the leader
/// passes, with more cards than the configured maximum, or
/// when its cards are not playable (see `played_cards_error`). An accepted play
/// is recorded; if every seat has now acted or has no cards (or four actions were
/// taken), seats without cards pass automatically and the trick is evaluated: its
/// winner's pair takes the trick (with no winner, the leader's pair takes it when
/// the configuration says so). When one pair has no cards left, the other pair
/// takes a trick for each card it still holds; the game ends when no cards are
/// left, after such a sweep, when early finish is on and the contract is made, or
/// when neither the winner nor its partner has cards. Otherwise the next trick is
/// led by the winner (or its partner), or by the same leader after a trick nobody
/// won. An incomplete trick passes the turn to the next seat holding cards.
pub open spec fn play_decision(t: PlayTable, seat: u8, ids: Vec<u32>) -> Result<PlayDecision, GameError> {
    let g = t.game;
    let gid = g.game_id;
    let is_pass = ids@.len() == 0;
    let left = cards_left(t.cards@, gid, ids@);
    let plays1 = t.plays@.push(recorded_play(t, seat, ids));
    if g.phase != PHASE_PLAY {
        Err(GameError::NotInPlay)
    } else if seat != g.turn_seat {
        Err(GameError::NotThisSeatsTurn)
    } else if is_pass && seat == t.trick.leader_seat {
        Err(GameError::LeaderMustPlay)
    } else if !is_pass && ids@.len() > t.config.max_combo_size {
        Err(GameError::TooManyCards)
    } else if !is_pass && played_cards_error(t.cards@, gid, seat, t.trick.led_suit, ids@) is Some {
        Err(played_cards_error(t.cards@, gid, seat, t.trick.led_suit, ids@).unwrap())
    } else if !trick_done(plays1, left) {
        Ok(
            PlayDecision {
                trick_winner: None,
                ns_tricks: g.ns_tricks,
                ew_tricks: g.ew_tricks,
                finished: false,
                turn_seat: next_active_of(seat, left).unwrap(),
                next_leader: None,
            },
        )
    } else {
        completion_decision(g, t.config, t.trick.leader_seat, t.trick.trick_number, led_after(t, ids@), plays1, left)
    }
}

/// What completing a trick decides, or why it is refused: the trick is evaluated
/// with the automatic passes added, the trick is awarded, sweeps and the early
/// finish are checked, and the game either ends or the next trick opens.
pub open spec fn completion_decision(
    g: Game,
    config: GameConfig,
    leader_seat: u8,
    trick_number: u8,
    led: Option<u8>,
    plays1: Seq<TrickPlay>,
    left: Seq<u8>,
) -> Result<PlayDecision, GameError> {
    let w = trick_winner(final_infos(plays1, left), g.trump_suit, led);
    let awarded: Option<u8> = match w {
        Some(x) => Some(x),
        None => if leader_wins_all_pass(config) {
            Some(leader_seat)
        } else {
            None
        },
    };
    let ns1: int = g.ns_tricks + (if awarded matches Some(a) && a % 2 == 0 { 1int } else { 0int });
    let ew1: int = g.ew_tricks + (if awarded matches Some(a) && a % 2 != 0 { 1int } else { 0int });
    let total: int = left[0] + left[1] + left[2] + left[3];
    let ns_cards: int = left[0] + left[2];
    let ew_cards: int = left[1] + left[3];
    let sweep_ew = ns_cards == 0 && ew_cards > 0;
    let sweep_ns = !sweep_ew && ew_cards == 0 && ns_cards > 0;
    let ns2: int = if sweep_ns { ns1 + ns_cards } else { ns1 };
    let ew2: int = if sweep_ew { ew1 + ew_cards } else { ew1 };
    let over0 = total == 0 || sweep_ew || sweep_ns;
    let early = !over0 && config.early_finish && g.contract_spread is Some;
    let tt: int = ns2 + ew2 + (if total / 4 > 1 { total / 4 } else { 1 });
    let g2 = Game { ns_tricks: ns2 as u8, ew_tricks: ew2 as u8, ..g };
    if ns1 > 255 || ew1 > 255 || ns2 > 255 || ew2 > 255 {
        Err(GameError::Overflow)
    } else if early && tt > 255 {
        Err(GameError::Overflow)
    } else if early && !spread_check_in_range(
        ns2 as u8,
        ew2 as u8,
        g.contract_spread.unwrap(),
        declarer_or_north(g),
        tt as u8,
    ) {
        Err(GameError::Overflow)
    } else {
        let made = early && spread_status(
            ns2 as u8,
            ew2 as u8,
            g.contract_spread.unwrap(),
            declarer_or_north(g),
            tt as u8,
        ) == Some(true);
        let ends = over0 || made || (w matches Some(x) && leader_after(x, left) is None);
        if ends {
            if finish_error(g2, left) is Some {
                Err(finish_error(g2, left).unwrap())
            } else {
                Ok(
                    PlayDecision {
                        trick_winner: awarded,
                        ns_tricks: ns2 as u8,
                        ew_tricks: ew2 as u8,
                        finished: true,
                        turn_seat: g.turn_seat,
                        next_leader: None,
                    },
                )
            }
        } else {
            let leader = match w {
                Some(x) => leader_after(x, left).unwrap(),
                None => leader_seat,
            };
            if trick_number == 255 {
                Err(GameError::Overflow)
            } else {
                Ok(
                    PlayDecision {
                        trick_winner: awarded,
                        ns_tricks: ns2 as u8,
                        ew_tricks: ew2 as u8,
                        finished: false,
                        turn_seat: leader,
                        next_leader: Some(leader),
                    },
                )
            }
        }
    }
}

/// The rows after completing a trick, as `completion_decision` decided it.
pub open spec fn completion_applied(
    g: Game,
    trick1: Trick,
    plays1: Seq<TrickPlay>,
    left: Seq<u8>,
    cards1: Seq<Card>,
    d: PlayDecision,
    out: PlayOutcome,
) -> bool {
    let w = trick_winner(final_infos(plays1, left), g.trump_suit, trick1.led_suit);
    let g2 = Game { ns_tricks: d.ns_tricks, ew_tricks: d.ew_tricks, ..g };
    &&& out.trick == Trick {
        winner_seat: if d.trick_winner is Some { d.trick_winner } else { trick1.winner_seat },
        ..trick1
    }
    &&& plays_with_auto_passes(plays1, left, trick1.trick_id, g.game_id, out.plays@)
    &&& match w {
        Some(x) => relocated(cards1, g.game_id, trick_location_text(trick1.trick_id), won_location_text(x), out.cards@),
        None => out.cards@ == cards1,
    }
    &&& out.next_trick == match d.next_leader {
        Some(l) => Some(
            Trick {
                trick_id: 0,
                game_id: g.game_id,
                trick_number: (trick1.trick_number + 1) as u8,
                leader_seat: l,
                led_suit: None,
                winner_seat: None,
            },
        ),
        None => None,
    }
    &&& if d.finished {
        &&& out.game == Game { phase: PHASE_FINISHED, result: out.game.result, ..g2 }
        &&& out.game.result matches Some(txt) && txt@ == finish_text(g2, left)
    } else {
        out.game == Game { turn_seat: d.turn_seat, ..g2 }
    }
}

/// The rows after an accepted play, as `play_decision` decided it.
pub open spec fn play_applied(t: PlayTable, seat: u8, ids: Vec<u32>, d: PlayDecision, out: PlayOutcome) -> bool {
    let gid = t.game.game_id;
    let left = cards_left(t.cards@, gid, ids@);
    let plays1 = t.plays@.push(recorded_play(t, seat, ids));
    let done = trick_done(plays1, left);
    let w = if done {
        trick_winner(final_infos(plays1, left), t.game.trump_suit, led_after(t, ids@))
    } else {
        None
    };
    let g2 = Game { ns_tricks: d.ns_tricks, ew_tricks: d.ew_tricks, ..t.game };
    let trick_text = trick_location_text(t.trick.trick_id);
    &&& out.trick == Trick {
        led_suit: led_after(t, ids@),
        winner_seat: if d.trick_winner is Some { d.trick_winner } else { t.trick.winner_seat },
        ..t.trick
    }
    &&& if done {
        plays_with_auto_passes(plays1, left, t.trick.trick_id, gid, out.plays@)
    } else {
        out.plays@ == plays1
    }
    &&& out.cards@.len() == t.cards@.len()
    &&& forall|i: int|
        0 <= i < t.cards@.len() ==> {
            let c = #[trigger] t.cards@[i];
            if w is Some && c.game_id == gid && (is_played(ids@, c) || c.location@ == trick_text) {
                out.cards@[i] == Card { location: out.cards@[i].location, ..c } && out.cards@[i].location@
                    == won_location_text(w.unwrap())
            } else if is_played(ids@, c) {
                out.cards@[i] == Card { location: out.cards@[i].location, ..c } && out.cards@[i].location@
                    == trick_text
            } else {
                out.cards@[i] == c
            }
        }
    &&& out.next_trick == match d.next_leader {
        Some(l) => Some(
            Trick {
                trick_id: 0,
                game_id: gid,
                trick_number: (t.trick.trick_number + 1) as u8,
                leader_seat: l,
                led_suit: None,
                winner_seat: None,
            },
        ),
        None => None,
    }
    &&& if d.finished {
        &&& out.game == Game { phase: PHASE_FINISHED, result: out.game.result, ..g2 }
        &&& out.game.result matches Some(txt) && txt@ == finish_text(g2, left)
    } else {
        out.game == Game { turn_seat: d.turn_seat, ..g2 }
    }
}


/// `seat` has an action among the first `upto` actions of the trick.
fn seat_acted(plays: &Vec<TrickPlay>, upto: usize, seat: u8) -> (r: bool)
    requires
        upto <= plays@.len(),
    ensures
        r == seat_has_acted(plays@.subrange(0, upto as int), seat as int),
{
    let ghost pre = plays@.subrange(0, upto as int);
    let mut k: usize = 0;
    while k < upto
        invariant
            upto <= plays@.len(),
            pre == plays@.subrange(0, upto as int),
            k <= upto,
            forall|i: int| 0 <= i < k ==> plays@[i].seat != seat,
        decreases upto - k,
    {
        if plays[k].seat == seat {
            assert(pre[k as int].seat == seat);
            return true;
        }
        k = k + 1;
    }
    assert forall|i: int| 0 <= i < pre.len() implies (#[trigger] pre[i]).seat != seat by {
        assert(pre[i] == plays@[i]);
    }
    false
}

/// Adds the automatic passes of the seats that have not acted and hold no cards.
fn add_auto_passes(plays: &mut Vec<TrickPlay>, counts: &[u8; 4], trick_id: u32, game_id: u64)
    requires
        old(plays)@.len() <= 4,
    ensures
        plays_with_auto_passes(old(plays)@, counts@, trick_id, game_id, final(plays)@),
        forall|k: int| old(plays)@.len() <= k < final(plays)@.len() ==> (#[trigger] final(plays)@[k]).trick_id == trick_id
            && final(plays)@[k].game_id == game_id,
{
    let n1 = plays.len();
    let ghost base = plays@;
    let ghost mut added: Seq<u8> = Seq::empty();
    let mut s: u8 = 0;
    while s < 4
        invariant
            n1 == base.len(),
            n1 <= 4,
            s <= 4,
            auto_pass_seats(base, counts@, 0) == added + auto_pass_seats(base, counts@, s as int),
            plays@.len() == n1 + added.len(),
            added.len() <= s,
            forall|i: int| 0 <= i < n1 ==> plays@[i] == base[i],
            forall|k: int|
                0 <= k < added.len() ==> {
                    let p = #[trigger] plays@[n1 + k];
                    &&& p == TrickPlay {
                        play_id: 0,
                        trick_id,
                        game_id,
                        seat: added[k],
                        is_pass: true,
                        card_ids: p.card_ids,
                        play_value: 0,
                        play_suit: None,
                        sequence: (n1 + k) as u8,
                    }
                    &&& p.card_ids@.len() == 0
                },
        decreases 4 - s,
    {
        let acted = seat_acted(plays, n1, s);
        proof {
            assert(plays@.subrange(0, n1 as int) =~= base);
        }
        let ghost before = auto_pass_seats(base, counts@, s as int);
        if !acted && counts[s as usize] == 0 {
            let seq_no = plays.len() as u8;
            let p = TrickPlay {
                play_id: 0,
                trick_id,
                game_id,
                seat: s,
                is_pass: true,
                card_ids: Vec::new(),
                play_value: 0,
                play_suit: None,
                sequence: seq_no,
            };
            plays.push(p);
            proof {
                assert(before == seq![s] + auto_pass_seats(base, counts@, s as int + 1));
                added = added.push(s);
                assert(auto_pass_seats(base, counts@, 0) =~= added + auto_pass_seats(base, counts@, s as int + 1));
            }
        } else {
            proof {
                assert(before =~= auto_pass_seats(base, counts@, s as int + 1));
            }
        }
        s = s + 1;
    }
    proof {
        assert(auto_pass_seats(base, counts@, 4) =~= Seq::<u8>::empty());
        assert(added =~= auto_pass_seats(base, counts@, 0));
        assert forall|k: int| n1 <= k < plays@.len() implies (#[trigger] plays@[k]).trick_id == trick_id
            && plays@[k].game_id == game_id by {
            let j = k - n1;
            assert(plays@[n1 + j] == plays@[k]);
        }
    }
}

/// The trick actions as trick evaluation reads them.
pub(crate) fn infos_of(plays: &Vec<TrickPlay>) -> (r: Vec<TrickPlayInfo>)
    ensures
        r@ == plays@.map_values(|p: TrickPlay| play_info(p)),
{
    let mut r: Vec<TrickPlayInfo> = Vec::new();
    let n = plays.len();
    let mut k: usize = 0;
    while k < n
        invariant
            n == plays@.len(),
            k <= n,
            r@ == plays@.subrange(0, k as int).map_values(|p: TrickPlay| play_info(p)),
        decreases n - k,
    {
        let p = &plays[k];
        r.push(TrickPlayInfo { seat: p.seat, is_pass: p.is_pass, play_value: p.play_value, suit: p.play_suit, sequence: p.sequence });
        proof {
            assert(plays@.subrange(0, k as int + 1).map_values(|p: TrickPlay| play_info(p)) =~= plays@.subrange(
                0,
                k as int,
            ).map_values(|p: TrickPlay| play_info(p)).push(play_info(plays@[k as int])));
        }
        k = k + 1;
    }
    assert(plays@.subrange(0, n as int) =~= plays@);
    r
}

/// The automatically passing seats are seats 0..3.
proof fn lemma_auto_pass_seats_range(plays: Seq<TrickPlay>, left: Seq<u8>, from: int)
    requires
        0 <= from <= 4,
    ensures
        forall|k: int| 0 <= k < auto_pass_seats(plays, left, from).len() ==> #[trigger] auto_pass_seats(plays, left, from)[k] < 4,
        auto_pass_seats(plays, left, from).len() <= 4 - from,
    decreases 4 - from,
{
    if from < 4 {
        lemma_auto_pass_seats_range(plays, left, from + 1);
    }
}

/// With the automatic passes added, the trick evaluates the final actions.
proof fn lemma_final_infos(plays: Seq<TrickPlay>, left: Seq<u8>, trick_id: u32, game_id: u64, out: Seq<TrickPlay>)
    requires
        plays_with_auto_passes(plays, left, trick_id, game_id, out),
    ensures
        out.map_values(|p: TrickPlay| play_info(p)) =~= final_infos(plays, left),
{
    let m = auto_pass_seats(plays, left, 0);
    let a = out.map_values(|p: TrickPlay| play_info(p));
    let b = final_infos(plays, left);
    assert forall|i: int| 0 <= i < a.len() implies a[i] == b[i] by {
        if i >= plays.len() {
            let k = i - plays.len();
            assert(out[plays.len() + k] == out[i]);
        }
    }
}


/// At most one seat is the next active seat.
proof fn lemma_next_active_unique(current: int, left: Seq<u8>, s1: int, s2: int)
    requires
        is_next_active(current, left, s1),
        is_next_active(current, left, s2),
    ensures
        s1 == s2,
{
    let k1 = choose|k: int|
        1 <= k <= 4 && s1 == seat_plus(current, k) && left[s1] > 0 && forall|m: int|
            1 <= m < k ==> left[#[trigger] seat_plus(current, m)] == 0;
    let k2 = choose|k: int|
        1 <= k <= 4 && s2 == seat_plus(current, k) && left[s2] > 0 && forall|m: int|
            1 <= m < k ==> left[#[trigger] seat_plus(current, m)] == 0;
    if k1 < k2 {
        assert(left[seat_plus(current, k1)] == 0);
    } else if k2 < k1 {
        assert(left[seat_plus(current, k2)] == 0);
    }
}

/// The winner of a trick whose actions are all by seats 0..3 is a seat 0..3.
proof fn lemma_winner_seat_range(infos: Seq<TrickPlayInfo>, trump_suit: Option<u8>, led_suit: Option<u8>)
    requires
        forall|i: int| 0 <= i < infos.len() ==> (#[trigger] infos[i]).seat < 4,
    ensures
        trick_winner(infos, trump_suit, led_suit) matches Some(x) ==> x < 4,
{
    if exists|i: int| crate::logic::wins_trick(infos, trump_suit, led_suit, i) {
        let i = choose|i: int| crate::logic::wins_trick(infos, trump_suit, led_suit, i);
        assert(infos[i].seat < 4);
    }
}

/// Completes the current trick: automatic passes, evaluation, award, sweeps,
/// early finish, and either the end of the game or the next trick.
#[verifier::rlimit(50)]
fn complete_trick(
    game: Game,
    config: &GameConfig,
    trick: Trick,
    plays: Vec<TrickPlay>,
    cards: Vec<Card>,
    counts: [u8; 4],
) -> (r: Result<PlayOutcome, GameError>)
    requires
        cards_ok(cards@),
        hands_left(cards@, game.game_id) == counts@,
        plays@.len() <= 4,
        forall|i: int| 0 <= i < plays@.len() ==> (#[trigger] plays@[i]).seat < 4,
    ensures
        r is Ok <==> completion_decision(game, *config, trick.leader_seat, trick.trick_number, trick.led_suit, plays@, counts@) is Ok,
        r matches Err(e) ==> completion_decision(game, *config, trick.leader_seat, trick.trick_number, trick.led_suit, plays@, counts@)
            == Err::<PlayDecision, GameError>(e),
        r matches Ok(out) ==> match completion_decision(game, *config, trick.leader_seat, trick.trick_number, trick.led_suit, plays@, counts@) {
            Ok(d) => completion_applied(game, trick, plays@, counts@, cards@, d, out),
            Err(_) => false,
        },
{
    let ghost plays1 = plays@;
    let ghost cards1 = cards@;
    let ghost left = counts@;
    let gid = game.game_id;
    let mut game = game;
    let mut trick = trick;
    let mut plays = plays;
    let mut cards = cards;
    add_auto_passes(&mut plays, &counts, trick.trick_id, gid);
    let infos = infos_of(&plays);
    proof {
        lemma_final_infos(plays1, left, trick.trick_id, gid, plays@);
        lemma_auto_pass_seats_range(plays1, left, 0);
        let fi = final_infos(plays1, left);
        assert forall|i: int| 0 <= i < fi.len() implies (#[trigger] fi[i]).seat < 4 by {
            if i < plays1.len() {
                assert(fi[i] == play_info(plays1[i]));
            }
        }
        lemma_winner_seat_range(fi, game.trump_suit, trick.led_suit);
    }
    let result = evaluate_trick(infos.as_slice(), game.trump_suit, trick.led_suit);
    let winner = result.winner_seat;
    let leader_wins = config.all_pass_trick == ALL_PASS_LEADER_WINS.to_owned();
    let awarded: Option<u8> = match winner {
        Some(w) => Some(w),
        None => if leader_wins {
            Some(trick.leader_seat)
        } else {
            None
        },
    };
    let mut ns: u16 = game.ns_tricks as u16;
    let mut ew: u16 = game.ew_tricks as u16;
    match awarded {
        Some(a) => {
            if is_ns(a) {
                ns = ns + 1;
            } else {
                ew = ew + 1;
            }
            trick.winner_seat = Some(a);
        },
        None => {},
    }
    if ns > 255 || ew > 255 {
        return Err(GameError::Overflow);
    }
    let ghost cards2_before = cards@;
    match winner {
        Some(w) => {
            let from = trick_location(trick.trick_id);
            let to = won_location(w);
            relocate_cards(&mut cards, gid, &from, &to);
            proof {
                lemma_locations_differ(trick.trick_id, w);
                lemma_relocation_keeps_hands(cards2_before, gid, from@, to@, cards@, 0);
                lemma_relocation_keeps_hands(cards2_before, gid, from@, to@, cards@, 1);
                lemma_relocation_keeps_hands(cards2_before, gid, from@, to@, cards@, 2);
                lemma_relocation_keeps_hands(cards2_before, gid, from@, to@, cards@, 3);
            }
        },
        None => {},
    }
    proof {
        assert(hands_left(cards@, gid) =~= left);
        assert(cards_ok(cards@)) by {
            assert forall|i: int| 0 <= i < cards@.len() implies (#[trigger] cards@[i]).owner_seat < 4 by {
                assert(cards1[i].owner_seat < 4);
            }
            assert forall|i: int, j: int| 0 <= i < cards@.len() && 0 <= j < cards@.len() && i != j
                implies (#[trigger] cards@[i]).card_id != (#[trigger] cards@[j]).card_id by {
                assert(cards1[i].card_id != cards1[j].card_id);
            }
        }
    }
    let total: u16 = counts[0] as u16 + counts[1] as u16 + counts[2] as u16 + counts[3] as u16;
    let ns_cards: u16 = counts[0] as u16 + counts[2] as u16;
    let ew_cards: u16 = counts[1] as u16 + counts[3] as u16;
    let mut game_over = total == 0;
    if ns_cards == 0 && ew_cards > 0 {
        ew = ew + ew_cards;
        game_over = true;
    } else if ew_cards == 0 && ns_cards > 0 {
        ns = ns + ns_cards;
        game_over = true;
    }
    if ns > 255 || ew > 255 {
        return Err(GameError::Overflow);
    }
    game.ns_tricks = ns as u8;
    game.ew_tricks = ew as u8;
    if !game_over && config.early_finish {
        if let Some(contract) = game.contract_spread {
            let quarter: u16 = total / 4;
            let tt: u16 = ns + ew + if quarter > 1 { quarter } else { 1 };
            if tt > 255 {
                return Err(GameError::Overflow);
            }
            let declarer: u8 = match game.declarer_seat {
                Some(d) => d,
                None => 0,
            };
            match try_check_spread(game.ns_tricks, game.ew_tricks, contract, declarer, tt as u8) {
                None => {
                    return Err(GameError::Overflow);
                },
                Some(made) => {
                    if made == Some(true) {
                        game_over = true;
                    }
                },
            }
        }
    }
    if game_over {
        match finish_game(&mut game, &cards) {
            Err(e) => {
                return Err(e);
            },
            Ok(()) => {},
        }
        return Ok(PlayOutcome { game, trick, plays, cards, next_trick: None });
    }
    let leader_seat: u8 = match winner {
        Some(w) => match resolve_leader(w, &counts) {
            Some(l) => l,
            None => {
                match finish_game(&mut game, &cards) {
                    Err(e) => {
                        return Err(e);
                    },
                    Ok(()) => {},
                }
                return Ok(PlayOutcome { game, trick, plays, cards, next_trick: None });
            },
        },
        None => trick.leader_seat,
    };
    if trick.trick_number == 255 {
        return Err(GameError::Overflow);
    }
    let next_trick = Trick {
        trick_id: 0,
        game_id: gid,
        trick_number: trick.trick_number + 1,
        leader_seat,
        led_suit: None,
        winner_seat: None,
    };
    game.turn_seat = leader_seat;
    Ok(PlayOutcome { game, trick, plays, cards, next_trick: Some(next_trick) })
}

/// Carries out a play as `play_decision` and `play_applied` describe it.
fn apply_play(table: PlayTable, seat: u8, card_ids: Vec<u32>) -> (r: Result<PlayOutcome, GameError>)
    requires
        play_table_ok(table),
    ensures
        r is Ok <==> play_decision(table, seat, card_ids) is Ok,
        r matches Err(e) ==> play_decision(table, seat, card_ids) == Err::<PlayDecision, GameError>(e),
        r matches Ok(out) ==> match play_decision(table, seat, card_ids) {
            Ok(d) => play_applied(table, seat, card_ids, d, out),
            Err(_) => false,
        },
{
    let ghost t = table;
    let ghost ids = card_ids;
    let PlayTable { game, config, trick, plays, cards } = table;
    let mut game = game;
    let mut trick = trick;
    let mut plays = plays;
    let mut cards = cards;
    let gid = game.game_id;
    if game.phase != PHASE_PLAY {
        return Err(GameError::NotInPlay);
    }
    if seat != game.turn_seat {
        return Err(GameError::NotThisSeatsTurn);
    }
    let is_pass = card_ids.len() == 0;
    if is_pass && seat == trick.leader_seat {
        return Err(GameError::LeaderMustPlay);
    }
    let (play_suit, play_value): (Option<u8>, u16) = if is_pass {
        (None, 0)
    } else {
        if card_ids.len() > config.max_combo_size as usize {
            return Err(GameError::TooManyCards);
        }
        match check_played_cards(&cards, gid, seat, trick.led_suit, &card_ids) {
            Err(e) => {
                return Err(e);
            },
            Ok((s, v)) => (Some(s), v),
        }
    };
    let ghost trick_text = trick_location_text(trick.trick_id);
    proof {
        lemma_locations_differ(trick.trick_id, 0);
    }
    let ghost cards0 = cards@;
    if !is_pass {
        if trick.led_suit.is_none() {
            trick.led_suit = play_suit;
        }
        let loc = trick_location(trick.trick_id);
        move_played_cards(&mut cards, &card_ids, &loc);
    }
    proof {
        if is_pass {
            assert(moved_to(cards0, ids@, trick_text, cards@));
        }
        assert forall|i: int| 0 <= i < cards@.len() implies (#[trigger] cards@[i]).owner_seat < 4 by {
            assert(cards0[i].owner_seat < 4);
        }
    }
    let ghost cards1 = cards@;
    let counts = hand_counts(&cards, gid);
    let ghost left = cards_left(t.cards@, gid, ids@);
    proof {
        lemma_hand_count_after_move(cards0, ids@, trick_text, cards1, gid, 0);
        lemma_hand_count_after_move(cards0, ids@, trick_text, cards1, gid, 1);
        lemma_hand_count_after_move(cards0, ids@, trick_text, cards1, gid, 2);
        lemma_hand_count_after_move(cards0, ids@, trick_text, cards1, gid, 3);
        lemma_kept_count_bound(cards0, gid, ids@, 0);
        lemma_kept_count_bound(cards0, gid, ids@, 1);
        lemma_kept_count_bound(cards0, gid, ids@, 2);
        lemma_kept_count_bound(cards0, gid, ids@, 3);
        assert(counts@ =~= left);
    }
    let play_count = plays.len() as u8;
    let play = TrickPlay {
        play_id: 0,
        trick_id: trick.trick_id,
        game_id: gid,
        seat,
        is_pass,
        card_ids,
        play_value,
        play_suit,
        sequence: play_count,
    };
    plays.push(play);
    let ghost plays1 = plays@;
    assert(plays1 == t.plays@.push(recorded_play(t, seat, ids)));
    let total_plays = play_count + 1;

    // has every seat acted or run out of cards?
    let mut all_done = true;
    let mut s: u8 = 0;
    while s < 4
        invariant
            s <= 4,
            plays@ == plays1,
            counts@ == left,
            all_done <==> forall|q: int| 0 <= q < s ==> seat_has_acted(plays1, q) || left[q] == 0,
        decreases 4 - s,
    {
        let acted = seat_acted(&plays, plays.len(), s);
        proof {
            assert(plays@.subrange(0, plays@.len() as int) =~= plays1);
        }
        if !(acted || counts[s as usize] == 0) {
            all_done = false;
        }
        s = s + 1;
    }
    if !(all_done || total_plays >= 4) {
        proof {
            lemma_incomplete_trick_has_next(seat as int, plays1, left);
        }
        let next = next_active_seat(seat, &counts);
        // a seat that has not acted still holds cards, so `next` is a seat
        let n: u8 = match next {
            Some(n) => n,
            None => {
                proof {
                    let q = choose|q: int| 0 <= q < 4 && is_next_active(seat as int, left, q);
                    assert(left[q] > 0);
                }
                seat
            },
        };
        proof {
            let q = choose|q: int| 0 <= q < 4 && is_next_active(seat as int, left, q);
            lemma_next_active_unique(seat as int, left, q, n as int);
        }
        game.turn_seat = n;
        return Ok(PlayOutcome { game, trick, plays, cards, next_trick: None });
    }
    proof {
        assert(cards_ok(cards1)) by {
            assert forall|i: int, j: int| 0 <= i < cards1.len() && 0 <= j < cards1.len() && i != j
                implies (#[trigger] cards1[i]).card_id != (#[trigger] cards1[j]).card_id by {
                assert(cards0[i].card_id != cards0[j].card_id);
            }
        }
        assert(hands_left(cards1, gid) =~= counts@);
        assert forall|i: int| 0 <= i < plays1.len() implies (#[trigger] plays1[i]).seat < 4 by {
            if i < t.plays@.len() {
                assert(plays1[i] == t.plays@[i]);
            }
        }
    }
    assert(trick == Trick { led_suit: led_after(t, ids@), ..t.trick });
    let out = complete_trick(game, &config, trick, plays, cards, counts);
    proof {
        if let Ok(o) = &out {
            {
                let w = trick_winner(final_infos(plays1, left), t.game.trump_suit, led_after(t, ids@));
                lemma_compose_cards(cards0, ids@, trick_text, cards1, gid, w, o.cards@);
            }
        }
    }
    out
}

/// What trick evaluation reads of a trick's actions.
pub open spec fn play_infos(plays: Seq<TrickPlay>) -> Seq<TrickPlayInfo> {
    plays.map_values(|p: TrickPlay| play_info(p))
}

/// After an accepted play: the led suit, once set, stays as it was; the first
/// card play of a trick sets it to that play's suit; a pass leaves it as it was;
/// and a trick completed by the play, with any card in it, is won by a play
/// that wins by the rules of the game for the trump suit and that led suit.
proof fn lemma_play_follows_the_rules(t: PlayTable, seat: u8, ids: Vec<u32>, d: PlayDecision, out: PlayOutcome)
    requires
        play_table_ok(t),
        play_decision(t, seat, ids) == Ok::<PlayDecision, GameError>(d),
        play_applied(t, seat, ids, d, out),
    ensures
        t.trick.led_suit is Some ==> out.trick.led_suit == t.trick.led_suit,
        t.trick.led_suit is None && ids@.len() > 0 ==> out.trick.led_suit == Some(card_with_id(t.cards@, ids@[0]).suit),
        ids@.len() == 0 ==> out.trick.led_suit == t.trick.led_suit,
        t.trick.winner_seat is None ==> (out.trick.winner_seat matches Some(w) ==> ((exists|j: int|
            0 <= j < out.plays@.len() && !out.plays@[j].is_pass) ==> exists|i: int|
            #[trigger] wins_by_the_rules(
                play_infos(out.plays@),
                t.game.trump_suit,
                out.trick.led_suit,
                i,
            ) && out.plays@[i].seat == w)),
{
    let gid = t.game.game_id;
    let left = cards_left(t.cards@, gid, ids@);
    let plays1 = t.plays@.push(recorded_play(t, seat, ids));
    if trick_done(plays1, left) {
        lemma_final_infos(plays1, left, t.trick.trick_id, gid, out.plays@);
        let infos = final_infos(plays1, left);
        let led = led_after(t, ids@);
        assert(play_infos(out.plays@) == infos);
        if t.trick.winner_seat is None && out.trick.winner_seat is Some && (exists|j: int|
            0 <= j < out.plays@.len() && !out.plays@[j].is_pass) {
            let j = choose|j: int| 0 <= j < out.plays@.len() && !out.plays@[j].is_pass;
            assert(!infos[j].is_pass);
            assert(has_active_play(infos));
            crate::logic::lemma_winner_exists(infos, t.game.trump_suit, led);
            let i = choose|i: int| wins_trick(infos, t.game.trump_suit, led, i);
            lemma_winner_wins_by_the_rules(infos, t.game.trump_suit, led, i);
            assert(infos[i] == play_info(out.plays@[i]));
            assert(trick_winner(infos, t.game.trump_suit, led) == Some(infos[i].seat));
            assert(wins_by_the_rules(play_infos(out.plays@), t.game.trump_suit, out.trick.led_suit, i));
        }
    }
}

/// Play `card_ids` (a pass when empty) for `seat` in the current trick, as
/// `play_decision` describes; the rows after the play are described by
/// `play_applied`. The led suit, once set, stays as it was, and a completed trick
/// is won by a play that wins by the rules of the game.
pub fn play_cards(table: PlayTable, seat: u8, card_ids: Vec<u32>) -> (r: Result<PlayOutcome, GameError>)
    requires
        play_table_ok(table),
    ensures
        r is Ok <==> play_decision(table, seat, card_ids) is Ok,
        r matches Err(e) ==> play_decision(table, seat, card_ids) == Err::<PlayDecision, GameError>(e),
        r matches Ok(out) ==> match play_decision(table, seat, card_ids) {
            Ok(d) => play_applied(table, seat, card_ids, d, out),
            Err(_) => false,
        },
        r matches Ok(out) ==> (table.trick.led_suit is Some ==> out.trick.led_suit == table.trick.led_suit),
        r matches Ok(out) ==> (table.trick.led_suit is None && card_ids@.len() > 0 ==> out.trick.led_suit == Some(
            card_with_id(table.cards@, card_ids@[0]).suit,
        )),
        r matches Ok(out) ==> (card_ids@.len() == 0 ==> out.trick.led_suit == table.trick.led_suit),
        r matches Ok(out) ==> (table.trick.winner_seat is None ==> (out.trick.winner_seat matches Some(w) ==> ((exists|
            j: int,
        | 0 <= j < out.plays@.len() && !out.plays@[j].is_pass) ==> exists|i: int|
            #[trigger] wins_by_the_rules(
                play_infos(out.plays@),
                table.game.trump_suit,
                out.trick.led_suit,
                i,
            ) && out.plays@[i].seat == w))),
{
    let ghost t = table;
    let ghost ids = card_ids;
    let r = apply_play(table, seat, card_ids);
    proof {
        if r is Ok {
            lemma_play_follows_the_rules(t, seat, ids, play_decision(t, seat, ids).unwrap(), r.unwrap());
        }
    }
    r
}

/// Moving the played cards into the trick and then, when the trick has a winner,
/// the trick's cards to the winner's pile, as one change of the card list.
proof fn lemma_compose_cards(
    before: Seq<Card>,
    ids: Seq<u32>,
    trick_text: Seq<char>,
    cards1: Seq<Card>,
    gid: u64,
    w: Option<u8>,
    out: Seq<Card>,
)
    requires
        moved_to(before, ids, trick_text, cards1),
        match w {
            Some(x) => relocated(cards1, gid, trick_text, won_location_text(x), out),
            None => out == cards1,
        },
    ensures
        out.len() == before.len(),
        forall|i: int|
            0 <= i < before.len() ==> {
                let c = #[trigger] before[i];
                if w is Some && c.game_id == gid && (is_played(ids, c) || c.location@ == trick_text) {
                    out[i] == Card { location: out[i].location, ..c } && out[i].location@ == won_location_text(w.unwrap())
                } else if is_played(ids, c) {
                    out[i] == Card { location: out[i].location, ..c } && out[i].location@ == trick_text
                } else {
                    out[i] == c
                }
            },
{
    assert forall|i: int| 0 <= i < before.len() implies {
        let c = #[trigger] before[i];
        if w is Some && c.game_id == gid && (is_played(ids, c) || c.location@ == trick_text) {
            out[i] == Card { location: out[i].location, ..c } && out[i].location@ == won_location_text(w.unwrap())
        } else if is_played(ids, c) {
            out[i] == Card { location: out[i].location, ..c } && out[i].location@ == trick_text
        } else {
            out[i] == c
        }
    } by {
        let c = before[i];
        let m = cards1[i];
        match w {
            Some(x) => {
                assert(m.game_id == gid && m.location@ == trick_text ==> out[i] == Card { location: out[i].location, ..m });
            },
            None => {},
        }
    }
}


/// The actions of a trick after the automatic passes are all by seats 0..3.
proof fn lemma_final_infos_seats(plays: Seq<TrickPlay>, left: Seq<u8>)
    requires
        forall|i: int| 0 <= i < plays.len() ==> (#[trigger] plays[i]).seat < 4,
    ensures
        forall|i: int| 0 <= i < final_infos(plays, left).len() ==> (#[trigger] final_infos(plays, left)[i]).seat < 4,
{
    lemma_auto_pass_seats_range(plays, left, 0);
    let fi = final_infos(plays, left);
    assert forall|i: int| 0 <= i < fi.len() implies (#[trigger] fi[i]).seat < 4 by {
        if i < plays.len() {
            assert(fi[i] == play_info(plays[i]));
        }
    }
}

/// Every accepted play keeps the game's rows in range: when the game goes on,
/// the table for the next action again satisfies `play_table_ok` (with the
/// same trick, or with the new trick and no actions yet).
pub proof fn lemma_play_keeps_table_ok(t: PlayTable, seat: u8, ids: Vec<u32>, d: PlayDecision, out: PlayOutcome)
    requires
        play_table_ok(t),
        play_decision(t, seat, ids) == Ok::<PlayDecision, GameError>(d),
        play_applied(t, seat, ids, d, out),
        !d.finished,
    ensures
        cards_ok(out.cards@),
        out.next_trick is None ==> play_table_ok(
            PlayTable { game: out.game, config: t.config, trick: out.trick, plays: out.plays, cards: out.cards },
        ),
        out.next_trick matches Some(nt) ==> out.game.turn_seat < 4 && nt.leader_seat < 4 && nt.leader_seat
            == out.game.turn_seat,
{
    let gid = t.game.game_id;
    let left = cards_left(t.cards@, gid, ids@);
    let plays1 = t.plays@.push(recorded_play(t, seat, ids));
    assert forall|i: int| 0 <= i < out.cards@.len() implies (#[trigger] out.cards@[i]).owner_seat < 4 by {
        assert(t.cards@[i].owner_seat < 4);
    }
    assert forall|i: int, j: int| 0 <= i < out.cards@.len() && 0 <= j < out.cards@.len() && i != j
        implies (#[trigger] out.cards@[i]).card_id != (#[trigger] out.cards@[j]).card_id by {
        assert(t.cards@[i].card_id != t.cards@[j].card_id);
    }
    assert forall|i: int| 0 <= i < plays1.len() implies (#[trigger] plays1[i]).seat < 4 by {
        if i < t.plays@.len() {
            assert(plays1[i] == t.plays@[i]);
        }
    }
    if trick_done(plays1, left) {
        lemma_final_infos_seats(plays1, left);
        lemma_winner_seat_range(final_infos(plays1, left), t.game.trump_suit, led_after(t, ids@));
    } else {
        lemma_incomplete_trick_has_next(seat as int, plays1, left);
    }
}

/// A play only moves cards: the list keeps its length, and every card keeps its
/// id, game, owner, suit and rank.
pub proof fn lemma_play_keeps_cards(t: PlayTable, seat: u8, ids: Vec<u32>, d: PlayDecision, out: PlayOutcome)
    requires
        play_applied(t, seat, ids, d, out),
    ensures
        out.cards@.len() == t.cards@.len(),
        forall|i: int|
            0 <= i < t.cards@.len() ==> {
                let a = #[trigger] out.cards@[i];
                let b = t.cards@[i];
                a.card_id == b.card_id && a.game_id == b.game_id && a.owner_seat == b.owner_seat && a.suit == b.suit
                    && a.rank == b.rank
            },
{
    assert forall|i: int| 0 <= i < t.cards@.len() implies {
        let a = #[trigger] out.cards@[i];
        let b = t.cards@[i];
        a.card_id == b.card_id && a.game_id == b.game_id && a.owner_seat == b.owner_seat && a.suit == b.suit
            && a.rank == b.rank
    } by {
        let c = t.cards@[i];
    }
}

/// The cards of a play leave the hand, and no other card does: after an accepted
/// play, a card is in a hand exactly when it was in that hand before and was not
/// played. In particular a pass keeps every hand as it was.
pub proof fn lemma_play_moves_only_played_cards(t: PlayTable, seat: u8, ids: Vec<u32>, d: PlayDecision, out: PlayOutcome)
    requires
        play_applied(t, seat, ids, d, out),
    ensures
        forall|i: int|
            0 <= i < t.cards@.len() ==> ((#[trigger] out.cards@[i]).location@ == HAND@ <==> (
            t.cards@[i].location@ == HAND@ && !is_played(ids@, t.cards@[i]))),
{
    assert forall|i: int|
        0 <= i < t.cards@.len() implies ((#[trigger] out.cards@[i]).location@ == HAND@ <==> (
        t.cards@[i].location@ == HAND@ && !is_played(ids@, t.cards@[i]))) by {
        let c = t.cards@[i];
        lemma_locations_differ(t.trick.trick_id, 0);
        let gid = t.game.game_id;
        let left = cards_left(t.cards@, gid, ids@);
        let plays1 = t.plays@.push(recorded_play(t, seat, ids));
        let w = if trick_done(plays1, left) {
            trick_winner(final_infos(plays1, left), t.game.trump_suit, led_after(t, ids@))
        } else {
            None
        };
        if w is Some {
            lemma_locations_differ(t.trick.trick_id, w.unwrap());
        }
    }
}

/// After an accepted play that leaves the trick incomplete, the turn is at the
/// first seat clockwise from the player that still holds cards.
pub proof fn lemma_turn_passes_to_next_holder(t: PlayTable, seat: u8, ids: Vec<u32>, d: PlayDecision, out: PlayOutcome)
    requires
        play_decision(t, seat, ids) == Ok::<PlayDecision, GameError>(d),
        play_applied(t, seat, ids, d, out),
        !trick_done(t.plays@.push(recorded_play(t, seat, ids)), cards_left(t.cards@, t.game.game_id, ids@)),
    ensures
        out.game.turn_seat < 4,
        is_next_active(seat as int, cards_left(t.cards@, t.game.game_id, ids@), out.game.turn_seat as int),
        out.next_trick is None,
        !d.finished,
{
    let left = cards_left(t.cards@, t.game.game_id, ids@);
    lemma_incomplete_trick_has_next(seat as int, t.plays@.push(recorded_play(t, seat, ids)), left);
}


/// An accepted play of cards is legal: it is made in the play phase by the seat
/// whose turn it is, with no more cards than the configuration allows, every
/// card is a card of this game in the player's hand, named once, all of one
/// suit, and that suit is the led suit unless the player holds none of it.
pub proof fn lemma_accepted_play_is_legal(t: PlayTable, seat: u8, ids: Vec<u32>)
    requires
        play_decision(t, seat, ids) is Ok,
        ids@.len() > 0,
    ensures
        t.game.phase == PHASE_PLAY,
        seat == t.game.turn_seat,
        ids@.len() <= t.config.max_combo_size,
        ids_distinct(ids@),
        forall|k: int|
            0 <= k < ids@.len() ==> {
                let c = card_with_id(t.cards@, #[trigger] ids@[k]);
                &&& holds_card_id(t.cards@, ids@[k])
                &&& in_hand_of(c, t.game.game_id, seat as int)
                &&& c.suit == card_with_id(t.cards@, ids@[0]).suit
            },
        t.trick.led_suit matches Some(led) ==> (card_with_id(t.cards@, ids@[0]).suit != led ==> !seat_holds_suit(
            t.cards@,
            t.game.game_id,
            seat,
            led,
        )),
{
    let gid = t.game.game_id;
    assert forall|k: int| 0 <= k < ids@.len() implies {
        let c = card_with_id(t.cards@, #[trigger] ids@[k]);
        &&& holds_card_id(t.cards@, ids@[k])
        &&& in_hand_of(c, gid, seat as int)
        &&& c.suit == card_with_id(t.cards@, ids@[0]).suit
    } by {
        lemma_no_problem_has_card(t.cards@, gid, seat, ids@, k);
    }
}


/// The winner of the trick completed by a play, if the play completes it.
pub open spec fn completed_trick_winner(t: PlayTable, seat: u8, ids: Vec<u32>) -> Option<u8> {
    let left = cards_left(t.cards@, t.game.game_id, ids@);
    let plays1 = t.plays@.push(recorded_play(t, seat, ids));
    if trick_done(plays1, left) {
        trick_winner(final_infos(plays1, left), t.game.trump_suit, led_after(t, ids@))
    } else {
        None
    }
}

/// The winner of a trick takes it: the trick records the winner, the winner's
/// pair counts one trick more (the other pair's count grows only by a sweep), and
/// unless the game ends the winner leads the next trick, or its partner when the
/// winner holds no cards. When neither holds cards, the game ends.
pub proof fn lemma_winner_takes_trick_and_leads(t: PlayTable, seat: u8, ids: Vec<u32>, d: PlayDecision, out: PlayOutcome)
    requires
        play_table_ok(t),
        play_decision(t, seat, ids) == Ok::<PlayDecision, GameError>(d),
        play_applied(t, seat, ids, d, out),
        completed_trick_winner(t, seat, ids) is Some,
    ensures
        ({
            let x = completed_trick_winner(t, seat, ids).unwrap();
            let left = cards_left(t.cards@, t.game.game_id, ids@);
            &&& x < 4
            &&& out.trick.winner_seat == Some(x)
            &&& x % 2 == 0 ==> out.game.ns_tricks >= t.game.ns_tricks + 1
            &&& x % 2 == 1 ==> out.game.ew_tricks >= t.game.ew_tricks + 1
            &&& left[x as int] == 0 && left[seat_across(x as int)] == 0 ==> out.game.phase == PHASE_FINISHED
            &&& out.game.phase != PHASE_FINISHED ==> (out.next_trick matches Some(nt) && nt.leader_seat == (if left[
                x as int] > 0 {
                x
            } else {
                seat_across(x as int) as u8
            }) && out.game.turn_seat == nt.leader_seat)
        }),
{
    let gid = t.game.game_id;
    let left = cards_left(t.cards@, gid, ids@);
    let plays1 = t.plays@.push(recorded_play(t, seat, ids));
    assert forall|i: int| 0 <= i < plays1.len() implies (#[trigger] plays1[i]).seat < 4 by {
        if i < t.plays@.len() {
            assert(plays1[i] == t.plays@[i]);
        }
    }
    lemma_final_infos_seats(plays1, left);
    lemma_winner_seat_range(final_infos(plays1, left), t.game.trump_suit, led_after(t, ids@));
}


/// With early finish on, the game ends as soon as a completed trick brings the
/// declaring pair's spread up to the contract.
pub proof fn lemma_made_contract_ends_game(t: PlayTable, seat: u8, ids: Vec<u32>, d: PlayDecision, out: PlayOutcome)
    requires
        play_decision(t, seat, ids) == Ok::<PlayDecision, GameError>(d),
        play_applied(t, seat, ids, d, out),
        trick_done(t.plays@.push(recorded_play(t, seat, ids)), cards_left(t.cards@, t.game.game_id, ids@)),
        t.config.early_finish,
        t.game.contract_spread matches Some(c) && spread_now(out.game.ns_tricks, out.game.ew_tricks, declarer_or_north(
            t.game,
        )) >= c,
    ensures
        out.game.phase == PHASE_FINISHED,
        out.next_trick is None,
{
}


/// When a completed trick leaves one pair without cards, the game ends; if the
/// other pair still holds cards, it takes one trick for each of them.
pub proof fn lemma_pair_out_of_cards_ends_game(t: PlayTable, seat: u8, ids: Vec<u32>, d: PlayDecision, out: PlayOutcome)
    requires
        play_decision(t, seat, ids) == Ok::<PlayDecision, GameError>(d),
        play_applied(t, seat, ids, d, out),
        trick_done(t.plays@.push(recorded_play(t, seat, ids)), cards_left(t.cards@, t.game.game_id, ids@)),
        ({
            let left = cards_left(t.cards@, t.game.game_id, ids@);
            left[0] + left[2] == 0 || left[1] + left[3] == 0
        }),
    ensures
        out.game.phase == PHASE_FINISHED,
        out.next_trick is None,
        ({
            let left = cards_left(t.cards@, t.game.game_id, ids@);
            let won_ns: int = if d.trick_winner matches Some(a) && a % 2 == 0 { 1 } else { 0 };
            let won_ew: int = if d.trick_winner matches Some(a) && a % 2 == 1 { 1 } else { 0 };
            &&& left[0] + left[2] == 0 && left[1] + left[3] > 0 ==> out.game.ew_tricks == t.game.ew_tricks + won_ew
                + left[1] + left[3] && out.game.ns_tricks == t.game.ns_tricks + won_ns
            &&& left[1] + left[3] == 0 && left[0] + left[2] > 0 ==> out.game.ns_tricks == t.game.ns_tricks + won_ns
                + left[0] + left[2] && out.game.ew_tricks == t.game.ew_tricks + won_ew
        }),
{
}

} // verus!
