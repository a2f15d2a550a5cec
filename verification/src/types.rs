//! Shared constants, seats and bid ranking.

use vstd::prelude::*;

verus! {

/// Suit constants: Clubs=0, Diamonds=1, Hearts=2, Spades=3
pub const CLUBS: u8 = 0;
pub const DIAMONDS: u8 = 1;
pub const HEARTS: u8 = 2;
pub const SPADES: u8 = 3;

/// Number of suits
pub const NUM_SUITS: u8 = 4;

/// Seat constants: North=0, East=1, South=2, West=3
pub const NORTH: u8 = 0;
pub const EAST: u8 = 1;
pub const SOUTH: u8 = 2;
pub const WEST: u8 = 3;

/// Number of seats
pub const NUM_SEATS: u8 = 4;

/// Game phase constants
pub const PHASE_LOBBY: u8 = 0;
pub const PHASE_AUCTION: u8 = 1;
pub const PHASE_PLAY: u8 = 2;
pub const PHASE_FINISHED: u8 = 3;

/// Lead-after-bid options
pub const LEAD_LEFT_OF_DECLARER: &'static str = "LeftOfDeclarer";
pub const LEAD_DECLARER: &'static str = "Declarer";

/// All-pass trick behavior
pub const ALL_PASS_VOID: &'static str = "VoidTrick";
pub const ALL_PASS_LEADER_WINS: &'static str = "LeaderWins";

/// The seat after `seat` in clockwise order.
pub open spec fn seat_after(seat: int) -> int {
    (seat + 1) % 4
}

/// The seat across the table from `seat`.
pub open spec fn seat_across(seat: int) -> int {
    (seat + 2) % 4
}

/// Two seats belong to the same partnership.
pub open spec fn teammates(a: int, b: int) -> bool {
    a % 2 == b % 2
}

/// The rank of a bid's denomination: the suit itself, or 4 for No Trump.
pub open spec fn denomination_rank(suit: Option<u8>) -> int {
    match suit {
        Some(s) => s as int,
        None => 4,
    }
}

/// A bid of (`new_spread`, `new_suit`) is higher than (`old_spread`, `old_suit`):
/// a larger spread, or the same spread in a higher denomination.
pub open spec fn outranks(new_spread: i8, new_suit: Option<u8>, old_spread: i8, old_suit: Option<u8>) -> bool {
    new_spread > old_spread || (new_spread == old_spread && denomination_rank(new_suit) > denomination_rank(old_suit))
}

/// At the same spread, the denomination `new_suit` is higher than `old_suit`,
/// read from the suit numbers: Clubs 0 < Diamonds 1 < Hearts 2 < Spades 3 < No
/// Trump (None).
pub open spec fn suit_bid_higher(new_suit: Option<u8>, old_suit: Option<u8>) -> bool {
    match (new_suit, old_suit) {
        (Some(s), Some(t)) => s > t,
        (None, Some(t)) => t < 4,
        (Some(s), None) => s > 4,
        (None, None) => false,
    }
}

/// Returns the next seat clockwise: N->E->S->W->N
pub fn next_seat(seat: u8) -> (r: u8)
    requires
        seat < 255,
    ensures
        r == seat_after(seat as int),
        r < 4,
{
    (seat + 1) % NUM_SEATS
}

/// Returns the partner's seat (N<->S, E<->W)
pub fn partner_seat(seat: u8) -> (r: u8)
    requires
        seat < 254,
    ensures
        r == seat_across(seat as int),
        r < 4,
{
    (seat + 2) % NUM_SEATS
}

/// Returns true if two seats are on the same team (N-S or E-W)
pub fn same_team(a: u8, b: u8) -> (r: bool)
    ensures
        r == teammates(a as int, b as int),
{
    (a % 2) == (b % 2)
}

/// Returns true if the seat is on the N-S team
pub fn is_ns(seat: u8) -> (r: bool)
    ensures
        r == (seat % 2 == 0),
        r == teammates(seat as int, NORTH as int),
{
    seat % 2 == 0
}

/// Suit ranking for bidding: Clubs=0 < Diamonds=1 < Hearts=2 < Spades=3 < NT=4
pub fn bid_outranks(new_spread: i8, new_suit: Option<u8>, old_spread: i8, old_suit: Option<u8>) -> (r: bool)
    ensures
        r == outranks(new_spread, new_suit, old_spread, old_suit),
        new_spread > old_spread ==> r,
        new_spread < old_spread ==> !r,
        new_spread == old_spread ==> r == suit_bid_higher(new_suit, old_suit),
{
    if new_spread > old_spread {
        return true;
    }
    if new_spread < old_spread {
        return false;
    }
    let new_rank: u8 = match new_suit {
        Some(s) => s,
        None => 4,
    };
    let old_rank: u8 = match old_suit {
        Some(s) => s,
        None => 4,
    };
    new_rank > old_rank
}

/// At equal spreads the suits rank Clubs < Diamonds < Hearts < Spades, by their
/// numbers, and No Trump ranks above every suit; a higher spread always wins.
pub proof fn lemma_bids_rank_by_suit(x: i8, y: i8, s: u8, t: u8)
    requires
        s < 4,
        t < 4,
    ensures
        outranks(x, Some(s), x, Some(t)) == (s > t),
        outranks(x, None, x, Some(t)),
        !outranks(x, Some(s), x, None),
        x > y ==> outranks(x, Some(s), y, Some(t)) && outranks(x, Some(s), y, None),
{
}

/// Four steps clockwise lead back to the same seat, and no fewer do.
pub proof fn lemma_seats_cycle(seat: int)
    requires
        0 <= seat < 4,
    ensures
        seat_after(seat_after(seat_after(seat_after(seat)))) == seat,
        seat_after(seat) != seat,
        seat_after(seat_after(seat)) != seat,
        seat_after(seat_after(seat_after(seat))) != seat,
{
}

/// The partner of one's partner is oneself; partners are on the same team,
/// and the partner is two seats clockwise away.
pub proof fn lemma_partner_involution(seat: int)
    requires
        0 <= seat < 4,
    ensures
        seat_across(seat_across(seat)) == seat,
        seat_across(seat) != seat,
        teammates(seat, seat_across(seat)),
        seat_across(seat) == seat_after(seat_after(seat)),
{
}

/// Being on the same team is an equivalence relation, and the next seat
/// clockwise always belongs to the other team.
pub proof fn lemma_teams_partition(a: int, b: int, c: int)
    requires
        0 <= a < 4,
        0 <= b < 4,
        0 <= c < 4,
    ensures
        teammates(a, a),
        teammates(a, b) == teammates(b, a),
        teammates(a, b) && teammates(b, c) ==> teammates(a, c),
        !teammates(a, seat_after(a)),
        teammates(a, b) <==> (b == a || b == seat_across(a)),
{
}

/// Bids are strictly ordered: no bid outranks itself, two bids never outrank each
/// other, the order is transitive, and of two different bids (suits below 4)
/// one always outranks the other.
pub proof fn lemma_outranks_strict_total(
    s1: i8, d1: Option<u8>,
    s2: i8, d2: Option<u8>,
    s3: i8, d3: Option<u8>,
)
    requires
        d1 matches Some(x) ==> x < 4,
        d2 matches Some(x) ==> x < 4,
    ensures
        !outranks(s1, d1, s1, d1),
        outranks(s1, d1, s2, d2) ==> !outranks(s2, d2, s1, d1),
        outranks(s1, d1, s2, d2) && outranks(s2, d2, s3, d3) ==> outranks(s1, d1, s3, d3),
        (s1, d1) != (s2, d2) ==> outranks(s1, d1, s2, d2) || outranks(s2, d2, s1, d1),
{
}

} // verus!
