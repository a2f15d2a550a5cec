use kortbridge::ai::{
    ai_bid_possible, ai_choose_bid, ai_play_possible, ai_select_cards, current_trick_winner, find_winning_combo,
    hcp, next_ai_turn, suit_ranked, AiTurn,
};
use kortbridge::deal::{
    begin_auction, check_can_start, deal_cards, shuffle_draws, shuffle_with, shuffled_deck, standard_deck,
};
use kortbridge::lobby::{
    abort_on_leave, ai_seat_name, check_delete, check_leave, check_player_turn, first_open_seat, join_seat,
    new_game, new_game_config, reset_for_next_hand, seats_for_ai,
};
use kortbridge::play::HAND;
use kortbridge::tables::{Bid, Card, Game, GameError, Trick, TrickPlay};
use kortbridge::types::{
    ALL_PASS_VOID, CLUBS, DIAMONDS, EAST, HEARTS, LEAD_LEFT_OF_DECLARER, NORTH, PHASE_AUCTION, PHASE_FINISHED,
    PHASE_LOBBY, PHASE_PLAY, SOUTH, SPADES, WEST,
};
use spacetimedb::ReducerContext;

const GID: u64 = 3;

fn card(id: u32, seat: u8, suit: u8, rank: u8) -> Card {
    Card { card_id: id, game_id: GID, owner_seat: seat, suit, rank, location: HAND.to_string() }
}

fn lobby_game() -> Game {
    let mut g = new_game();
    g.game_id = GID;
    g
}

// ---- lobby ----

#[test]
fn new_game_starts_in_lobby() {
    let g = new_game();
    assert_eq!(g.phase, PHASE_LOBBY);
    assert_eq!(g.dealer_seat, 0);
    assert_eq!(g.turn_seat, 0);
    assert_eq!(g.contract_spread, None);
    assert_eq!(g.result, None);
}

#[test]
fn new_game_config_fills_defaults() {
    let c = new_game_config(GID, 0, true, false, String::new(), String::new());
    assert_eq!(c.max_combo_size, 2);
    assert_eq!(c.lead_after_bid, LEAD_LEFT_OF_DECLARER);
    assert_eq!(c.all_pass_trick, ALL_PASS_VOID);
    assert!(c.dummy_open);
    assert!(!c.early_finish);
    let c = new_game_config(GID, 3, false, true, "Declarer".to_string(), "LeaderWins".to_string());
    assert_eq!(c.max_combo_size, 3);
    assert_eq!(c.lead_after_bid, "Declarer");
    assert_eq!(c.all_pass_trick, "LeaderWins");
    assert!(c.early_finish);
}

#[test]
fn joining_takes_the_lowest_open_seat() {
    let g = lobby_game();
    assert_eq!(first_open_seat(&vec![0, 2]), Some(1));
    assert_eq!(first_open_seat(&vec![]), Some(0));
    assert_eq!(first_open_seat(&vec![3, 1, 0, 2]), None);
    assert_eq!(join_seat(&g, false, &vec![0, 1]), Ok(2));
    assert_eq!(join_seat(&g, false, &vec![0, 1, 2, 3]), Err(GameError::GameFull));
    assert_eq!(join_seat(&g, true, &vec![0]), Err(GameError::AlreadyInGame));
    let mut started = lobby_game();
    started.phase = PHASE_AUCTION;
    assert_eq!(join_seat(&started, false, &vec![0]), Err(GameError::GameAlreadyStarted));
}

#[test]
fn computer_fills_every_open_seat() {
    let g = lobby_game();
    assert_eq!(seats_for_ai(&g, &vec![2]), Ok(vec![0, 1, 3]));
    assert_eq!(seats_for_ai(&g, &vec![0, 1, 2, 3]), Ok(vec![]));
    let mut started = lobby_game();
    started.phase = PHASE_PLAY;
    assert_eq!(seats_for_ai(&started, &vec![]), Err(GameError::GameAlreadyStarted));
    assert_eq!(ai_seat_name(NORTH), "AI-North");
    assert_eq!(ai_seat_name(EAST), "AI-East");
    assert_eq!(ai_seat_name(SOUTH), "AI-South");
    assert_eq!(ai_seat_name(WEST), "AI-West");
}

#[test]
fn leaving_a_running_game_aborts_it() {
    assert_eq!(check_leave(GID, GID), Ok(()));
    assert_eq!(check_leave(GID, GID + 1), Err(GameError::NotInThisGame));
    let mut g = lobby_game();
    g.phase = PHASE_PLAY;
    assert!(abort_on_leave(&mut g, &"Bob".to_string()));
    assert_eq!(g.phase, PHASE_FINISHED);
    assert_eq!(g.result.as_deref(), Some("Bob left — game aborted"));
    let mut g = lobby_game();
    assert!(!abort_on_leave(&mut g, &"Bob".to_string()));
    assert_eq!(g.phase, PHASE_LOBBY);
    assert_eq!(g.result, None);
}

#[test]
fn delete_and_turn_checks() {
    assert_eq!(check_delete(true, false), Ok(()));
    assert_eq!(check_delete(false, true), Ok(()));
    assert_eq!(check_delete(false, false), Err(GameError::OnlyPlayerCanDelete));
    let mut g = lobby_game();
    g.turn_seat = SOUTH;
    assert_eq!(check_player_turn(GID, SOUTH, &g), Ok(()));
    assert_eq!(check_player_turn(GID, NORTH, &g), Err(GameError::NotYourTurn));
    assert_eq!(check_player_turn(GID + 5, SOUTH, &g), Err(GameError::NotInThisGame));
}

#[test]
fn next_hand_rotates_dealer_and_clears_the_game() {
    let mut g = lobby_game();
    g.phase = PHASE_FINISHED;
    g.dealer_seat = WEST;
    g.turn_seat = EAST;
    g.trump_suit = Some(HEARTS);
    g.contract_spread = Some(2);
    g.declarer_seat = Some(EAST);
    g.ns_tricks = 4;
    g.ew_tricks = 5;
    g.current_trick_id = 12;
    g.result = Some("done".to_string());
    assert_eq!(reset_for_next_hand(&mut g), Ok(()));
    assert_eq!(g.phase, PHASE_LOBBY);
    assert_eq!(g.dealer_seat, NORTH);
    assert_eq!(g.turn_seat, 0);
    assert_eq!(g.trump_suit, None);
    assert_eq!(g.contract_spread, None);
    assert_eq!(g.declarer_seat, None);
    assert_eq!((g.ns_tricks, g.ew_tricks, g.current_trick_id), (0, 0, 0));
    assert_eq!(g.result, None);
    assert_eq!(g.game_id, GID);
    let mut running = lobby_game();
    running.phase = PHASE_PLAY;
    assert_eq!(reset_for_next_hand(&mut running), Err(GameError::GameNotFinished));
    assert_eq!(running.phase, PHASE_PLAY);
}

// ---- deal ----

#[test]
fn standard_deck_lists_suits_then_ranks() {
    let deck = standard_deck();
    assert_eq!(deck.len(), 52);
    assert_eq!(deck[0], (CLUBS, 2));
    assert_eq!(deck[12], (CLUBS, 14));
    assert_eq!(deck[13], (DIAMONDS, 2));
    assert_eq!(deck[51], (SPADES, 14));
}

#[test]
fn shuffled_deck_is_a_reordering_of_the_standard_deck() {
    let ctx = ReducerContext::__dummy();
    let deck = shuffled_deck(&ctx);
    let mut sorted = deck.clone();
    sorted.sort();
    assert_eq!(sorted, standard_deck());
    assert_ne!(deck, standard_deck());
}

#[test]
fn dealing_gives_thirteen_cards_to_each_seat_in_hand() {
    let deck = standard_deck();
    let cards = deal_cards(GID, &deck);
    assert_eq!(cards.len(), 52);
    for (i, c) in cards.iter().enumerate() {
        assert_eq!(c.owner_seat as usize, i / 13);
        assert_eq!((c.suit, c.rank), deck[i]);
        assert_eq!(c.location, "hand");
        assert_eq!(c.game_id, GID);
    }
}

#[test]
fn starting_needs_four_seats_and_the_dealer_calls_first() {
    let g = lobby_game();
    assert_eq!(check_can_start(&g, 2, 2), Ok(()));
    assert_eq!(check_can_start(&g, 1, 2), Err(GameError::NeedFourPlayers));
    let mut started = lobby_game();
    started.phase = PHASE_AUCTION;
    assert_eq!(check_can_start(&started, 4, 0), Err(GameError::GameAlreadyStarted));
    let mut g = lobby_game();
    g.dealer_seat = WEST;
    begin_auction(&mut g);
    assert_eq!(g.phase, PHASE_AUCTION);
    assert_eq!(g.turn_seat, WEST);
}

// ---- computer player ----

#[test]
fn high_card_points() {
    assert_eq!(hcp(14), 4);
    assert_eq!(hcp(13), 3);
    assert_eq!(hcp(12), 2);
    assert_eq!(hcp(11), 1);
    assert_eq!(hcp(10), 0);
    assert_eq!(hcp(2), 0);
}

fn strong_hand() -> Vec<Card> {
    let mut cards = Vec::new();
    let mut id = 1;
    for r in [14, 13, 12, 11, 10] {
        cards.push(card(id, NORTH, SPADES, r));
        id += 1;
    }
    for r in [14, 13] {
        cards.push(card(id, NORTH, HEARTS, r));
        id += 1;
    }
    cards.push(card(id, NORTH, CLUBS, 14));
    id += 1;
    for r in 2..=6 {
        cards.push(card(id, NORTH, DIAMONDS, r));
        id += 1;
    }
    cards
}

#[test]
fn strong_hand_bids_its_long_strong_suit() {
    let cards = strong_hand();
    assert!(ai_bid_possible(&cards, GID, NORTH));
    // 21 high-card points + 5 shape points = 26: spread (26 - 12) / 4 + 1 = 4.
    assert_eq!(ai_choose_bid(&cards, GID, NORTH, &Vec::new()), (Some(4), Some(SPADES)));
    let higher = vec![Bid { bid_id: 1, game_id: GID, seat: EAST, spread: Some(5), suit: None, sequence: 0 }];
    assert_eq!(ai_choose_bid(&cards, GID, NORTH, &higher), (None, None));
    let lower = vec![Bid { bid_id: 1, game_id: GID, seat: EAST, spread: Some(4), suit: Some(HEARTS), sequence: 0 }];
    assert_eq!(ai_choose_bid(&cards, GID, NORTH, &lower), (Some(4), Some(SPADES)));
}

#[test]
fn weak_hand_passes_and_balanced_hand_bids_no_trump() {
    let mut weak = Vec::new();
    for r in 2..=8 {
        weak.push(card(r as u32, SOUTH, CLUBS, r));
    }
    for r in 2..=7 {
        weak.push(card(20 + r as u32, SOUTH, DIAMONDS, r));
    }
    assert_eq!(ai_choose_bid(&weak, GID, SOUTH, &Vec::new()), (None, None));

    // 4-3-3-3 shape gives no shape points: 15 high-card points bid 1 in the four-card suit.
    let mut even = Vec::new();
    for (i, r) in [14, 13, 2, 3].iter().enumerate() {
        even.push(card(100 + i as u32, EAST, SPADES, *r));
    }
    for (i, r) in [14, 4, 5].iter().enumerate() {
        even.push(card(110 + i as u32, EAST, HEARTS, *r));
    }
    for (i, r) in [12, 4, 5].iter().enumerate() {
        even.push(card(120 + i as u32, EAST, DIAMONDS, *r));
    }
    for (i, r) in [12, 4, 5].iter().enumerate() {
        even.push(card(130 + i as u32, EAST, CLUBS, *r));
    }
    assert_eq!(ai_choose_bid(&even, GID, EAST, &Vec::new()), (Some(1), Some(SPADES)));

    // No suit of four (3-3-3-3, 16 high-card points): 2 in no trump.
    let mut flat = Vec::new();
    for (i, r) in [14, 13, 12].iter().enumerate() {
        flat.push(card(200 + i as u32, WEST, SPADES, *r));
    }
    for (i, r) in [14, 13, 2].iter().enumerate() {
        flat.push(card(210 + i as u32, WEST, HEARTS, *r));
    }
    for (i, r) in [2, 3, 4].iter().enumerate() {
        flat.push(card(220 + i as u32, WEST, DIAMONDS, *r));
    }
    for (i, r) in [2, 3, 4].iter().enumerate() {
        flat.push(card(230 + i as u32, WEST, CLUBS, *r));
    }
    assert_eq!(ai_choose_bid(&flat, GID, WEST, &Vec::new()), (Some(2), None));
}

#[test]
fn suits_are_ranked_highest_first_and_combos_use_the_fewest_cheapest_cards() {
    let cards = vec![card(1, NORTH, SPADES, 5), card(2, NORTH, SPADES, 9), card(3, NORTH, HEARTS, 7), card(4, NORTH, SPADES, 4)];
    let spades = suit_ranked(&cards, SPADES);
    assert_eq!(spades, vec![(9, 2), (5, 1), (4, 4)]);
    // the two lowest beat 8
    assert_eq!(find_winning_combo(&spades, 8, 2), Some(vec![1, 4]));
    // the two lowest make only 9: the nine and four (13) are the cheapest pair above it
    assert_eq!(find_winning_combo(&spades, 9, 2), Some(vec![2, 4]));
    assert_eq!(find_winning_combo(&spades, 9, 3), Some(vec![2, 4]));
    // 14 with two cards is too little; all three make 18
    assert_eq!(find_winning_combo(&spades, 14, 3), Some(vec![2, 1, 4]));
    assert_eq!(find_winning_combo(&spades, 14, 2), None);
    assert_eq!(find_winning_combo(&spades, 20, 3), None);
    // a single card is never a combination
    assert_eq!(find_winning_combo(&spades, 3, 1), None);
}

fn trick_play(seat: u8, ids: Vec<u32>, value: u16, suit: Option<u8>, seq: u8) -> TrickPlay {
    TrickPlay {
        play_id: seq as u32 + 1,
        trick_id: 10,
        game_id: GID,
        seat,
        is_pass: ids.is_empty(),
        card_ids: ids,
        play_value: value,
        play_suit: suit,
        sequence: seq,
    }
}

#[test]
fn current_trick_winner_prefers_trump_then_led_suit() {
    let plays = vec![
        trick_play(NORTH, vec![1], 14, Some(SPADES), 0),
        trick_play(EAST, vec![2], 3, Some(HEARTS), 1),
        trick_play(SOUTH, vec![], 0, None, 2),
    ];
    assert_eq!(current_trick_winner(&plays, Some(HEARTS), Some(SPADES)), Some((EAST, 3, Some(HEARTS))));
    assert_eq!(current_trick_winner(&plays, None, Some(SPADES)), Some((NORTH, 14, Some(SPADES))));
    assert_eq!(current_trick_winner(&vec![trick_play(WEST, vec![], 0, None, 0)], None, None), None);
}

fn game_in_play(trump: Option<u8>, declarer: u8) -> Game {
    let mut g = lobby_game();
    g.phase = PHASE_PLAY;
    g.trump_suit = trump;
    g.contract_spread = Some(1);
    g.declarer_seat = Some(declarer);
    g
}

fn trick(leader: u8, led: Option<u8>) -> Trick {
    Trick { trick_id: 10, game_id: GID, trick_number: 1, leader_seat: leader, led_suit: led, winner_seat: None }
}

#[test]
fn computer_leads_its_best_card() {
    let g = game_in_play(None, NORTH);
    let short = vec![card(1, NORTH, CLUBS, 9), card(2, NORTH, HEARTS, 12), card(3, NORTH, SPADES, 4)];
    let t = trick(NORTH, None);
    assert!(ai_play_possible(&short, GID, NORTH, &t, &g));
    assert_eq!(ai_select_cards(&short, GID, NORTH, &t, &g, &Vec::new()), vec![2]);

    // Spades score 2 * (4 + 3) + 6 = 20: declarer's side leads ace and king of six.
    let mut long = Vec::new();
    for (i, r) in [14, 13, 9, 8, 7, 6].iter().enumerate() {
        long.push(card(10 + i as u32, SOUTH, SPADES, *r));
    }
    long.push(card(20, SOUTH, CLUBS, 12));
    let g = game_in_play(None, NORTH);
    let t = trick(SOUTH, None);
    assert_eq!(ai_select_cards(&long, GID, SOUTH, &t, &g, &Vec::new()), vec![10, 11]);
    // A defender leads only the ace.
    let g = game_in_play(None, EAST);
    assert_eq!(ai_select_cards(&long, GID, SOUTH, &t, &g, &Vec::new()), vec![10]);
}

#[test]
fn computer_leads_a_low_singleton_with_two_trumps() {
    let g = game_in_play(Some(HEARTS), EAST);
    let hand = vec![
        card(1, WEST, HEARTS, 3),
        card(2, WEST, HEARTS, 4),
        card(3, WEST, SPADES, 14),
        card(4, WEST, SPADES, 13),
        card(5, WEST, CLUBS, 8),
    ];
    let t = trick(WEST, None);
    assert_eq!(ai_select_cards(&hand, GID, WEST, &t, &g, &Vec::new()), vec![5]);
}

#[test]
fn computer_follows_cheaply_or_saves_cards() {
    let g = game_in_play(Some(HEARTS), NORTH);
    let hand = vec![card(1, EAST, SPADES, 14), card(2, EAST, SPADES, 11), card(3, EAST, SPADES, 6), card(4, EAST, HEARTS, 2)];
    let t = trick(NORTH, Some(SPADES));
    // North played the 10: East beats it with its cheapest card above (the jack).
    let plays = vec![trick_play(NORTH, vec![90], 10, Some(SPADES), 0)];
    assert!(ai_play_possible(&hand, GID, EAST, &t, &g));
    assert_eq!(ai_select_cards(&hand, GID, EAST, &t, &g, &plays), vec![2]);
    // Partner West winning: East passes.
    let t2 = trick(WEST, Some(SPADES));
    let plays2 = vec![trick_play(WEST, vec![91], 13, Some(SPADES), 0)];
    assert_eq!(ai_select_cards(&hand, GID, EAST, &t2, &g, &plays2), Vec::<u32>::new());
    // Void in the led suit: ruff with the lowest trump.
    let t3 = trick(NORTH, Some(CLUBS));
    let plays3 = vec![trick_play(NORTH, vec![92], 9, Some(CLUBS), 0)];
    assert_eq!(ai_select_cards(&hand, GID, EAST, &t3, &g, &plays3), vec![4]);
    // A winner that spent three cards is let go.
    let plays4 = vec![trick_play(NORTH, vec![92, 93, 94], 20, Some(CLUBS), 0)];
    assert_eq!(ai_select_cards(&hand, GID, EAST, &t3, &g, &plays4), Vec::<u32>::new());
    // No cards: a pass.
    assert_eq!(ai_select_cards(&hand, GID, SOUTH, &t, &g, &plays), Vec::<u32>::new());
}

#[test]
fn computer_acts_only_on_its_turn_in_auction_and_play() {
    let mut g = lobby_game();
    assert_eq!(next_ai_turn(&g, true), AiTurn::Stop);
    g.phase = PHASE_AUCTION;
    assert_eq!(next_ai_turn(&g, true), AiTurn::Bid);
    assert_eq!(next_ai_turn(&g, false), AiTurn::Stop);
    g.phase = PHASE_PLAY;
    assert_eq!(next_ai_turn(&g, true), AiTurn::Play);
    g.phase = PHASE_FINISHED;
    assert_eq!(next_ai_turn(&g, true), AiTurn::Stop);
    g.phase = 9;
    assert_eq!(next_ai_turn(&g, true), AiTurn::Stop);
}

#[test]
fn out_of_range_hands_are_reported() {
    let mut cards = strong_hand();
    cards.push(card(99, NORTH, CLUBS, 2));
    assert!(!ai_bid_possible(&cards, GID, NORTH));
    let mut odd = strong_hand();
    odd[0].suit = 7;
    assert!(!ai_bid_possible(&odd, GID, NORTH));
    let g = game_in_play(Some(9), NORTH);
    assert!(!ai_play_possible(&strong_hand(), GID, NORTH, &trick(EAST, None), &g));
}

#[test]
fn combination_may_use_a_high_card_to_beat_the_target() {
    let suited = vec![(14, 14), (3, 3), (2, 2)];
    assert_eq!(find_winning_combo(&suited, 16, 2), Some(vec![14, 3]));
    assert_eq!(find_winning_combo(&suited, 17, 2), None);
    assert_eq!(find_winning_combo(&suited, 17, 3), Some(vec![14, 3, 2]));
}

#[test]
fn combination_is_the_cheapest_pair_that_beats_the_target() {
    // ace, 5, 4, 2 against 16: ace and 4 (18) beat it more cheaply than ace and 5 (19)
    let suited = vec![(14, 10), (5, 11), (4, 12), (2, 13)];
    assert_eq!(find_winning_combo(&suited, 16, 2), Some(vec![10, 12]));
    // against 15, ace and 2 (16) is the cheapest
    assert_eq!(find_winning_combo(&suited, 15, 2), Some(vec![10, 13]));
    // 7 + 2 and 5 + 4 both make 9: the one that keeps the 7 is played
    let even = vec![(7, 1), (5, 2), (4, 3), (2, 4)];
    assert_eq!(find_winning_combo(&even, 8, 2), Some(vec![2, 3]));
}

#[test]
fn shuffle_swaps_each_position_with_its_draw() {
    let deck = vec![(CLUBS, 2), (CLUBS, 3), (CLUBS, 4)];
    // position 2 with 0, then position 1 with 0
    assert_eq!(shuffle_with(deck.clone(), &vec![0, 0]), vec![(CLUBS, 3), (CLUBS, 4), (CLUBS, 2)]);
    // every draw at its own position leaves the deck as it was
    assert_eq!(shuffle_with(deck.clone(), &vec![2, 1]), deck);
    assert_eq!(shuffle_with(deck.clone(), &vec![]), deck);
}

#[test]
fn shuffled_deck_is_the_shuffle_for_the_drawn_positions() {
    let draws = shuffle_draws(&ReducerContext::__dummy());
    assert_eq!(draws.len(), 51);
    for (k, d) in draws.iter().enumerate() {
        assert!(*d <= 51 - k);
    }
    let deck = shuffled_deck(&ReducerContext::__dummy());
    assert_eq!(deck, shuffle_with(standard_deck(), &draws));
}

#[test]
fn seating_the_computer_twice_adds_nothing() {
    let g = lobby_game();
    let mut taken = vec![1];
    let first = seats_for_ai(&g, &taken).unwrap();
    assert_eq!(first, vec![0, 2, 3]);
    taken.extend(first);
    assert_eq!(seats_for_ai(&g, &taken), Ok(vec![]));
}

#[test]
fn cards_of_equal_rank_keep_hand_order() {
    let cards = vec![card(7, NORTH, SPADES, 5), card(9, NORTH, SPADES, 11), card(3, NORTH, SPADES, 5)];
    assert_eq!(suit_ranked(&cards, SPADES), vec![(11, 9), (5, 7), (5, 3)]);
}
