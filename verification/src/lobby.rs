//! Creating, joining, leaving and resetting games.

use vstd::prelude::*;
use crate::tables::{Game, GameConfig, GameError};
use crate::types::{
    next_seat, seat_after, ALL_PASS_VOID, LEAD_LEFT_OF_DECLARER, PHASE_AUCTION, PHASE_FINISHED, PHASE_LOBBY,
    PHASE_PLAY,
};

verus! {

/// A new game in the lobby: dealer and turn at North, no contract, no tricks.
pub fn new_game() -> (g: Game)
    ensures
        g == (Game {
            game_id: 0,
            phase: PHASE_LOBBY,
            dealer_seat: 0,
            turn_seat: 0,
            trump_suit: None,
            contract_spread: None,
            declarer_seat: None,
            ns_tricks: 0,
            ew_tricks: 0,
            current_trick_id: 0,
            result: None,
        }),
{
    Game {
        game_id: 0,
        phase: PHASE_LOBBY,
        dealer_seat: 0,
        turn_seat: 0,
        trump_suit: None,
        contract_spread: None,
        declarer_seat: None,
        ns_tricks: 0,
        ew_tricks: 0,
        current_trick_id: 0,
        result: None,
    }
}

/// The rules of a new game: a combination size of 0 means the default of 2, and an empty rule
/// name means the default (first lead left of the declarer; an all-pass trick is void).
pub fn new_game_config(
    game_id: u64,
    max_combo_size: u8,
    dummy_open: bool,
    early_finish: bool,
    lead_after_bid: String,
    all_pass_trick: String,
) -> (c: GameConfig)
    ensures
        c.game_id == game_id,
        c.max_combo_size == (if max_combo_size == 0 { 2 } else { max_combo_size }),
        c.dummy_open == dummy_open,
        c.early_finish == early_finish,
        c.lead_after_bid@ == (if lead_after_bid@.len() == 0 { LEAD_LEFT_OF_DECLARER@ } else { lead_after_bid@ }),
        c.all_pass_trick@ == (if all_pass_trick@.len() == 0 { ALL_PASS_VOID@ } else { all_pass_trick@ }),
{
    let lead = if lead_after_bid.as_str().is_empty() {
        LEAD_LEFT_OF_DECLARER.to_owned()
    } else {
        lead_after_bid
    };
    let all_pass = if all_pass_trick.as_str().is_empty() {
        ALL_PASS_VOID.to_owned()
    } else {
        all_pass_trick
    };
    GameConfig {
        game_id,
        max_combo_size: if max_combo_size == 0 { 2 } else { max_combo_size },
        dummy_open,
        early_finish,
        lead_after_bid: lead,
        all_pass_trick: all_pass,
    }
}

/// The lowest seat 0..3 that is not taken.
pub open spec fn lowest_open_seat(taken: Seq<u8>) -> Option<u8> {
    if !taken.contains(0) {
        Some(0u8)
    } else if !taken.contains(1) {
        Some(1u8)
    } else if !taken.contains(2) {
        Some(2u8)
    } else if !taken.contains(3) {
        Some(3u8)
    } else {
        None
    }
}

fn is_taken(taken: &Vec<u8>, seat: u8) -> (r: bool)
    ensures
        r == taken@.contains(seat),
{
    let n = taken.len();
    let mut k: usize = 0;
    while k < n
        invariant
            n == taken@.len(),
            k <= n,
            forall|j: int| 0 <= j < k ==> taken@[j] != seat,
        decreases n - k,
    {
        if taken[k] == seat {
            assert(taken@[k as int] == seat);
            return true;
        }
        k = k + 1;
    }
    false
}

/// Find the next open seat among 0..3, given the seats taken by players and by
/// the computer.
pub fn first_open_seat(taken: &Vec<u8>) -> (r: Option<u8>)
    ensures
        r == lowest_open_seat(taken@),
{
    let mut s: u8 = 0;
    while s < 4
        invariant
            s <= 4,
            forall|q: u8| q < s ==> taken@.contains(q),
        decreases 4 - s,
    {
        if !is_taken(taken, s) {
            return Some(s);
        }
        s = s + 1;
    }
    None
}

/// Seat a new player in a game: refused once the game has started, when the
/// player is already in a game, or when all four seats are taken.
pub fn join_seat(game: &Game, already_in_game: bool, taken: &Vec<u8>) -> (r: Result<u8, GameError>)
    ensures
        r == (if game.phase != PHASE_LOBBY {
            Err::<u8, GameError>(GameError::GameAlreadyStarted)
        } else if already_in_game {
            Err(GameError::AlreadyInGame)
        } else {
            match lowest_open_seat(taken@) {
                Some(s) => Ok(s),
                None => Err(GameError::GameFull),
            }
        }),
{
    if game.phase != PHASE_LOBBY {
        return Err(GameError::GameAlreadyStarted);
    }
    if already_in_game {
        return Err(GameError::AlreadyInGame);
    }
    match first_open_seat(taken) {
        Some(s) => Ok(s),
        None => Err(GameError::GameFull),
    }
}

/// The seats 0..3 that are not taken, in increasing order.
pub open spec fn open_seats(taken: Seq<u8>) -> Seq<u8> {
    Seq::new(4, |i: int| i as u8).filter(|s: u8| !taken.contains(s))
}

/// Seats for the computer in a game still in the lobby: every seat not taken,
/// in increasing order.
pub fn seats_for_ai(game: &Game, taken: &Vec<u8>) -> (r: Result<Vec<u8>, GameError>)
    ensures
        game.phase != PHASE_LOBBY ==> r == Err::<Vec<u8>, GameError>(GameError::GameAlreadyStarted),
        game.phase == PHASE_LOBBY ==> r is Ok,
        r matches Ok(v) ==> v@ == open_seats(taken@),
{
    if game.phase != PHASE_LOBBY {
        return Err(GameError::GameAlreadyStarted);
    }
    let mut seats: Vec<u8> = Vec::new();
    let ghost all = Seq::new(4, |i: int| i as u8);
    let ghost pred = |s: u8| !taken@.contains(s);
    let mut s: u8 = 0;
    while s < 4
        invariant
            s <= 4,
            all == Seq::new(4, |i: int| i as u8),
            pred == |s: u8| !taken@.contains(s),
            seats@ == all.take(s as int).filter(pred),
        decreases 4 - s,
    {
        proof {
            reveal_with_fuel(Seq::<_>::filter, 1);
            assert(all.take(s as int + 1).drop_last() =~= all.take(s as int));
            assert(all.take(s as int + 1).last() == s);
        }
        if !is_taken(taken, s) {
            seats.push(s);
        }
        s = s + 1;
    }
    assert(all.take(4) =~= all);
    Ok(seats)
}

/// Seating the computer fills the table: once the open seats are taken too,
/// every seat 0..3 is taken and no seat is open, so seating it again adds nothing.
pub proof fn lemma_seating_computer_fills_table(taken: Seq<u8>)
    ensures
        forall|s: u8| s < 4 ==> #[trigger] (taken + open_seats(taken)).contains(s),
        open_seats(taken + open_seats(taken)).len() == 0,
{
    let all = Seq::new(4, |i: int| i as u8);
    let pred = |s: u8| !taken.contains(s);
    let both = taken + open_seats(taken);
    assert forall|s: u8| s < 4 implies #[trigger] both.contains(s) by {
        if taken.contains(s) {
            let i = choose|i: int| 0 <= i < taken.len() && taken[i] == s;
            assert(both[i] == s);
        } else {
            assert(all[s as int] == s);
            all.lemma_filter_contains(pred, s as int);
            let o = open_seats(taken);
            let k = choose|k: int| 0 <= k < o.len() && o[k] == s;
            assert(both[taken.len() + k] == s);
        }
    }
    let pred2 = |s: u8| !both.contains(s);
    let f = all.filter(pred2);
    if f.len() > 0 {
        all.lemma_filter_pred(pred2, 0);
        assert(f.contains(f[0]));
        all.lemma_filter_contains_rev(pred2, f[0]);
        let i = choose|i: int| 0 <= i < all.len() && all[i] == f[0];
        assert(f[0] < 4);
        assert(both.contains(f[0]));
    }
}

/// The display names of the computer's seats.
pub open spec fn ai_name_text(seat: u8) -> Seq<char> {
    if seat == 0 {
        "AI-North"@
    } else if seat == 1 {
        "AI-East"@
    } else if seat == 2 {
        "AI-South"@
    } else {
        "AI-West"@
    }
}

/// The name of the computer player at `seat`.
pub fn ai_seat_name(seat: u8) -> (name: String)
    requires
        seat < 4,
    ensures
        name@ == ai_name_text(seat),
{
    if seat == 0 {
        "AI-North".to_owned()
    } else if seat == 1 {
        "AI-East".to_owned()
    } else if seat == 2 {
        "AI-South".to_owned()
    } else {
        "AI-West".to_owned()
    }
}

/// "{name} left — game aborted"
pub open spec fn aborted_text(name: Seq<char>) -> Seq<char> {
    name + " left — game aborted"@
}

/// The result of a game aborted because `name` left.
fn aborted_result(name: &String) -> (s: String)
    ensures
        s@ == aborted_text(name@),
{
    name.clone().concat(" left — game aborted")
}

/// A player leaves game `game_id`: refused when the player is in another game.
pub fn check_leave(player_game_id: u64, game_id: u64) -> (r: Result<(), GameError>)
    ensures
        r == (if player_game_id == game_id { Ok::<(), GameError>(()) } else { Err(GameError::NotInThisGame) }),
{
    if player_game_id == game_id {
        Ok(())
    } else {
        Err(GameError::NotInThisGame)
    }
}

/// When a player leaves a game in the auction or the play, the game ends and its
/// result names the player. Returns whether the game was aborted.
pub fn abort_on_leave(game: &mut Game, leaver_name: &String) -> (aborted: bool)
    ensures
        aborted == (old(game).phase == PHASE_AUCTION || old(game).phase == PHASE_PLAY),
        !aborted ==> *final(game) == *old(game),
        aborted ==> {
            &&& *final(game) == (Game { phase: PHASE_FINISHED, result: final(game).result, ..*old(game) })
            &&& final(game).result matches Some(t) && t@ == aborted_text(leaver_name@)
        },
{
    if game.phase == PHASE_AUCTION || game.phase == PHASE_PLAY {
        game.phase = PHASE_FINISHED;
        game.result = Some(aborted_result(leaver_name));
        true
    } else {
        false
    }
}

/// A game may be deleted by one of its players, or by anyone once no player is left in it.
pub fn check_delete(caller_in_game: bool, no_humans: bool) -> (r: Result<(), GameError>)
    ensures
        r == (if caller_in_game || no_humans { Ok::<(), GameError>(()) } else { Err(GameError::OnlyPlayerCanDelete) }),
{
    if caller_in_game || no_humans {
        Ok(())
    } else {
        Err(GameError::OnlyPlayerCanDelete)
    }
}

/// A player acting in game `game_id` must be seated in it, and it must be the player's turn.
pub fn check_player_turn(player_game_id: u64, player_seat: u8, game: &Game) -> (r: Result<(), GameError>)
    ensures
        r == (if player_game_id != game.game_id {
            Err::<(), GameError>(GameError::NotInThisGame)
        } else if player_seat != game.turn_seat {
            Err(GameError::NotYourTurn)
        } else {
            Ok(())
        }),
{
    if player_game_id != game.game_id {
        return Err(GameError::NotInThisGame);
    }
    if player_seat != game.turn_seat {
        return Err(GameError::NotYourTurn);
    }
    Ok(())
}

/// Reset a finished game for the next deal: back to the lobby, the dealer one
/// seat clockwise, turn at North, no contract, no tricks, no result. Refused,
/// leaving the game unchanged, unless the game is finished (or when the dealer seat is 255).
pub fn reset_for_next_hand(game: &mut Game) -> (r: Result<(), GameError>)
    ensures
        old(game).phase != PHASE_FINISHED ==> r == Err::<(), GameError>(GameError::GameNotFinished),
        old(game).phase == PHASE_FINISHED && old(game).dealer_seat == 255 ==> r == Err::<(), GameError>(GameError::Overflow),
        r is Err ==> *final(game) == *old(game),
        r is Ok <==> old(game).phase == PHASE_FINISHED && old(game).dealer_seat < 255,
        r is Ok ==> *final(game) == (Game {
            game_id: old(game).game_id,
            phase: PHASE_LOBBY,
            dealer_seat: seat_after(old(game).dealer_seat as int) as u8,
            turn_seat: 0,
            trump_suit: None,
            contract_spread: None,
            declarer_seat: None,
            ns_tricks: 0,
            ew_tricks: 0,
            current_trick_id: 0,
            result: None,
        }),
{
    if game.phase != PHASE_FINISHED {
        return Err(GameError::GameNotFinished);
    }
    if game.dealer_seat == 255 {
        return Err(GameError::Overflow);
    }
    let new_dealer = next_seat(game.dealer_seat);
    game.phase = PHASE_LOBBY;
    game.dealer_seat = new_dealer;
    game.turn_seat = 0;
    game.trump_suit = None;
    game.contract_spread = None;
    game.declarer_seat = None;
    game.ns_tricks = 0;
    game.ew_tricks = 0;
    game.current_trick_id = 0;
    game.result = None;
    Ok(())
}

} // verus!
