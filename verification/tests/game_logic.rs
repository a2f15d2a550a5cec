use kortbridge::logic::{
    check_spread, count_cards_per_seat, evaluate_trick, has_suit, next_active_seat, resolve_leader,
    TrickPlayInfo,
};
use kortbridge::types::{
    bid_outranks, next_seat, partner_seat, same_team, CLUBS, DIAMONDS, EAST, HEARTS, NORTH, SOUTH,
    SPADES, WEST,
};

fn make_play(seat: u8, value: u16, suit: Option<u8>, seq: u8) -> TrickPlayInfo {
    TrickPlayInfo {
        seat,
        is_pass: false,
        play_value: value,
        suit,
        sequence: seq,
    }
}

fn make_pass(seat: u8, seq: u8) -> TrickPlayInfo {
    TrickPlayInfo {
        seat,
        is_pass: true,
        play_value: 0,
        suit: None,
        sequence: seq,
    }
}

// ---- evaluate_trick ----

#[test]
fn test_simple_trick_highest_card_wins() {
    let plays = vec![
        make_play(NORTH, 14, Some(SPADES), 0),
        make_play(EAST, 13, Some(SPADES), 1),
        make_play(SOUTH, 12, Some(SPADES), 2),
        make_play(WEST, 11, Some(SPADES), 3),
    ];
    let result = evaluate_trick(&plays, None, Some(SPADES));
    assert_eq!(result.winner_seat, Some(NORTH));
}

#[test]
fn test_trump_beats_led_suit() {
    let plays = vec![
        make_play(NORTH, 14, Some(SPADES), 0),
        make_play(EAST, 2, Some(HEARTS), 1),
        make_play(SOUTH, 13, Some(SPADES), 2),
        make_play(WEST, 12, Some(SPADES), 3),
    ];
    let result = evaluate_trick(&plays, Some(HEARTS), Some(SPADES));
    assert_eq!(result.winner_seat, Some(EAST));
}

#[test]
fn test_higher_trump_beats_lower_trump() {
    let plays = vec![
        make_play(NORTH, 14, Some(SPADES), 0),
        make_play(EAST, 2, Some(HEARTS), 1),
        make_play(SOUTH, 5, Some(HEARTS), 2),
        make_play(WEST, 12, Some(SPADES), 3),
    ];
    let result = evaluate_trick(&plays, Some(HEARTS), Some(SPADES));
    assert_eq!(result.winner_seat, Some(SOUTH));
}

#[test]
fn test_combination_play_sum_wins() {
    let plays = vec![
        make_play(NORTH, 14, Some(DIAMONDS), 0),
        make_pass(EAST, 1),
        make_pass(SOUTH, 2),
        make_play(WEST, 15, Some(DIAMONDS), 3),
    ];
    let result = evaluate_trick(&plays, None, Some(DIAMONDS));
    assert_eq!(result.winner_seat, Some(WEST));
}

#[test]
fn test_all_pass_returns_none() {
    let plays = vec![
        make_pass(NORTH, 0),
        make_pass(EAST, 1),
        make_pass(SOUTH, 2),
        make_pass(WEST, 3),
    ];
    let result = evaluate_trick(&plays, None, None);
    assert_eq!(result.winner_seat, None);
}

#[test]
fn test_tie_first_player_wins() {
    let plays = vec![
        make_play(NORTH, 10, Some(SPADES), 0),
        make_play(EAST, 10, Some(SPADES), 1),
        make_pass(SOUTH, 2),
        make_pass(WEST, 3),
    ];
    let result = evaluate_trick(&plays, None, Some(SPADES));
    assert_eq!(result.winner_seat, Some(NORTH));
}

#[test]
fn test_off_suit_play_loses_to_led_suit() {
    let plays = vec![
        make_play(NORTH, 5, Some(SPADES), 0),
        make_play(EAST, 14, Some(DIAMONDS), 1),
        make_pass(SOUTH, 2),
        make_pass(WEST, 3),
    ];
    let result = evaluate_trick(&plays, None, Some(SPADES));
    assert_eq!(result.winner_seat, Some(NORTH));
}

#[test]
fn test_no_trump_game_highest_led_suit_wins() {
    let plays = vec![
        make_play(NORTH, 10, Some(CLUBS), 0),
        make_play(EAST, 14, Some(CLUBS), 1),
        make_play(SOUTH, 8, Some(CLUBS), 2),
        make_play(WEST, 3, Some(CLUBS), 3),
    ];
    let result = evaluate_trick(&plays, None, Some(CLUBS));
    assert_eq!(result.winner_seat, Some(EAST));
}

#[test]
fn test_single_player_wins_others_pass() {
    let plays = vec![
        make_play(NORTH, 2, Some(HEARTS), 0),
        make_pass(EAST, 1),
        make_pass(SOUTH, 2),
        make_pass(WEST, 3),
    ];
    let result = evaluate_trick(&plays, None, Some(HEARTS));
    assert_eq!(result.winner_seat, Some(NORTH));
}

#[test]
fn test_trump_combination_beats_single_trump() {
    let plays = vec![
        make_play(NORTH, 10, Some(SPADES), 0),
        make_play(EAST, 2, Some(HEARTS), 1),
        make_play(SOUTH, 7, Some(HEARTS), 2),
        make_pass(WEST, 3),
    ];
    let result = evaluate_trick(&plays, Some(HEARTS), Some(SPADES));
    assert_eq!(result.winner_seat, Some(SOUTH));
}

// ---- next_active_seat ----

#[test]
fn test_next_active_normal() {
    let cards = [5, 5, 5, 5];
    assert_eq!(next_active_seat(NORTH, &cards), Some(EAST));
}

#[test]
fn test_next_active_skip_empty() {
    let cards = [5, 0, 5, 5];
    assert_eq!(next_active_seat(NORTH, &cards), Some(SOUTH));
}

#[test]
fn test_next_active_all_empty() {
    let cards = [0, 0, 0, 0];
    assert_eq!(next_active_seat(NORTH, &cards), None);
}

#[test]
fn test_next_active_wraps_around() {
    let cards = [5, 0, 0, 0];
    assert_eq!(next_active_seat(WEST, &cards), Some(NORTH));
}

// ---- resolve_leader ----

#[test]
fn test_resolve_leader_winner_has_cards() {
    let cards = [5, 5, 5, 5];
    assert_eq!(resolve_leader(NORTH, &cards), Some(NORTH));
}

#[test]
fn test_resolve_leader_winner_empty_partner_leads() {
    let cards = [0, 5, 5, 5];
    assert_eq!(resolve_leader(NORTH, &cards), Some(SOUTH));
}

#[test]
fn test_resolve_leader_both_empty_opponents_sweep() {
    let cards = [0, 5, 0, 5];
    assert_eq!(resolve_leader(NORTH, &cards), None);
}

// ---- check_spread ----

#[test]
fn test_spread_achieved() {
    assert_eq!(check_spread(5, 2, 3, NORTH, 13), Some(true));
}

#[test]
fn test_spread_impossible() {
    assert_eq!(check_spread(1, 6, 5, NORTH, 13), Some(false));
}

#[test]
fn test_spread_still_possible() {
    assert_eq!(check_spread(2, 1, 3, NORTH, 13), None);
}

#[test]
fn test_spread_ew_declarer() {
    assert_eq!(check_spread(1, 3, 2, EAST, 13), Some(true));
}

// ---- has_suit ----

#[test]
fn test_has_suit_true() {
    let hand = vec![(SPADES, 14), (HEARTS, 10), (CLUBS, 5)];
    assert!(has_suit(&hand, SPADES));
}

#[test]
fn test_has_suit_false() {
    let hand = vec![(SPADES, 14), (HEARTS, 10)];
    assert!(!has_suit(&hand, DIAMONDS));
}

// ---- seats and bids ----

#[test]
fn test_next_seat() {
    assert_eq!(next_seat(NORTH), EAST);
    assert_eq!(next_seat(EAST), SOUTH);
    assert_eq!(next_seat(SOUTH), WEST);
    assert_eq!(next_seat(WEST), NORTH);
}

#[test]
fn test_partner_seat() {
    assert_eq!(partner_seat(NORTH), SOUTH);
    assert_eq!(partner_seat(SOUTH), NORTH);
    assert_eq!(partner_seat(EAST), WEST);
    assert_eq!(partner_seat(WEST), EAST);
}

#[test]
fn test_same_team() {
    assert!(same_team(NORTH, SOUTH));
    assert!(same_team(EAST, WEST));
    assert!(!same_team(NORTH, EAST));
    assert!(!same_team(SOUTH, WEST));
}

#[test]
fn test_bid_outranks() {
    assert!(bid_outranks(2, Some(CLUBS), 1, Some(SPADES)));
    assert!(bid_outranks(1, Some(SPADES), 1, Some(HEARTS)));
    assert!(bid_outranks(1, None, 1, Some(SPADES)));
    assert!(!bid_outranks(1, Some(CLUBS), 1, Some(DIAMONDS)));
    assert!(!bid_outranks(1, Some(SPADES), 2, Some(CLUBS)));
}

// ---- further cases of the same functions ----

#[test]
fn evaluate_trick_higher_led_card_wins_two_plays() {
    let plays = vec![
        make_play(NORTH, 9, Some(CLUBS), 0),
        make_play(EAST, 11, Some(CLUBS), 1),
    ];
    let result = evaluate_trick(&plays, None, Some(CLUBS));
    assert_eq!(result.winner_seat, Some(EAST));
}

#[test]
fn evaluate_trick_empty_has_no_winner() {
    let plays: Vec<TrickPlayInfo> = Vec::new();
    let result = evaluate_trick(&plays, Some(HEARTS), None);
    assert_eq!(result.winner_seat, None);
}

#[test]
fn evaluate_trick_same_for_any_listing_order() {
    let a = vec![
        make_play(NORTH, 10, Some(SPADES), 0),
        make_play(EAST, 10, Some(SPADES), 1),
        make_play(SOUTH, 3, Some(HEARTS), 2),
    ];
    let b = vec![a[2], a[1], a[0]];
    let ra = evaluate_trick(&a, Some(HEARTS), Some(SPADES));
    let rb = evaluate_trick(&b, Some(HEARTS), Some(SPADES));
    assert_eq!(ra.winner_seat, Some(SOUTH));
    assert_eq!(ra.winner_seat, rb.winner_seat);
    let rc = evaluate_trick(&vec![a[1], a[0]], None, Some(SPADES));
    assert_eq!(rc.winner_seat, Some(NORTH));
}

#[test]
fn next_active_seat_skips_own_seat_unless_only_holder() {
    assert_eq!(next_active_seat(EAST, &[0, 3, 0, 0]), Some(EAST));
    assert_eq!(next_active_seat(SOUTH, &[0, 0, 0, 1]), Some(WEST));
}

#[test]
fn resolve_leader_returns_partner_for_every_seat() {
    assert_eq!(resolve_leader(EAST, &[1, 0, 1, 2]), Some(WEST));
    assert_eq!(resolve_leader(WEST, &[1, 2, 1, 0]), Some(EAST));
    assert_eq!(resolve_leader(SOUTH, &[1, 0, 0, 1]), Some(NORTH));
}

#[test]
fn check_spread_exact_and_failed_once_failed() {
    // The spread equals the contract: made.
    assert_eq!(check_spread(4, 1, 3, SOUTH, 13), Some(true));
    // Once failed, one more trick either way leaves it failed.
    assert_eq!(check_spread(1, 6, 5, NORTH, 13), Some(false));
    assert_eq!(check_spread(2, 6, 5, NORTH, 13), Some(false));
    assert_eq!(check_spread(1, 7, 5, NORTH, 13), Some(false));
    // West declares: EW tricks count for the declarer.
    assert_eq!(check_spread(7, 0, 1, WEST, 13), Some(false));
}

#[test]
fn count_cards_per_seat_counts_each_seat() {
    let cards = vec![
        (NORTH, SPADES, 14),
        (EAST, HEARTS, 2),
        (NORTH, CLUBS, 7),
        (WEST, DIAMONDS, 9),
    ];
    assert_eq!(count_cards_per_seat(&cards), [2, 1, 0, 1]);
    let none: Vec<(u8, u8, u8)> = Vec::new();
    assert_eq!(count_cards_per_seat(&none), [0, 0, 0, 0]);
}

#[test]
fn seats_cycle_and_partners() {
    for s in 0u8..4 {
        assert_eq!(next_seat(next_seat(next_seat(next_seat(s)))), s);
        assert_eq!(partner_seat(partner_seat(s)), s);
        assert!(same_team(s, partner_seat(s)));
        assert!(!same_team(s, next_seat(s)));
    }
}

#[test]
fn bid_outranks_is_strict() {
    assert!(!bid_outranks(3, Some(HEARTS), 3, Some(HEARTS)));
    assert!(!bid_outranks(2, None, 2, None));
    assert!(bid_outranks(-1, Some(CLUBS), -2, None));
}
