use kortbridge::auction::{order_bids, place_bid, BidEffect, ALL_PASSED_RESULT};
use kortbridge::play::{cards_valid, finish_game, play_cards, table_valid, PlayOutcome, PlayTable, HAND};
use kortbridge::tables::{Bid, Card, Game, GameConfig, GameError, Trick, TrickPlay};
use kortbridge::types::{
    CLUBS, DIAMONDS, EAST, HEARTS, NORTH, PHASE_AUCTION, PHASE_FINISHED, PHASE_LOBBY, PHASE_PLAY, SOUTH,
    SPADES, WEST,
};

const GID: u64 = 7;

fn game(phase: u8, turn: u8) -> Game {
    Game {
        game_id: GID,
        phase,
        dealer_seat: 0,
        turn_seat: turn,
        trump_suit: None,
        contract_spread: None,
        declarer_seat: None,
        ns_tricks: 0,
        ew_tricks: 0,
        current_trick_id: 0,
        result: None,
    }
}

fn config(lead: &str, all_pass: &str, early_finish: bool, max_combo: u8) -> GameConfig {
    GameConfig {
        game_id: GID,
        max_combo_size: max_combo,
        dummy_open: false,
        early_finish,
        lead_after_bid: lead.to_string(),
        all_pass_trick: all_pass.to_string(),
    }
}

fn card(id: u32, seat: u8, suit: u8, rank: u8) -> Card {
    Card {
        card_id: id,
        game_id: GID,
        owner_seat: seat,
        suit,
        rank,
        location: HAND.to_string(),
    }
}

fn bid(seat: u8, spread: Option<i8>, suit: Option<u8>, sequence: u16) -> Bid {
    Bid { bid_id: sequence as u32 + 1, game_id: GID, seat, spread, suit, sequence }
}

fn accepted(r: Result<BidEffect, GameError>) -> BidEffect {
    match r {
        Ok(e) => e,
        Err(e) => panic!("call refused: {:?}", e),
    }
}

fn refused(r: Result<BidEffect, GameError>) -> GameError {
    match r {
        Ok(_) => panic!("call accepted"),
        Err(e) => e,
    }
}

fn played(r: Result<PlayOutcome, GameError>) -> PlayOutcome {
    match r {
        Ok(o) => o,
        Err(e) => panic!("play refused: {:?}", e),
    }
}

fn play_refused(r: Result<PlayOutcome, GameError>) -> GameError {
    match r {
        Ok(_) => panic!("play accepted"),
        Err(e) => e,
    }
}

// ---- auction ----

fn run_calls(g: &mut Game, cfg: &Option<GameConfig>, calls: &[(Option<i8>, Option<u8>)]) -> Vec<BidEffect> {
    let mut bids: Vec<Bid> = Vec::new();
    let mut effects = Vec::new();
    for &(spread, suit) in calls {
        let seat = g.turn_seat;
        let eff = accepted(place_bid(g, cfg, &bids, seat, spread, suit));
        bids.push(eff.bid);
        effects.push(eff);
    }
    effects
}

#[test]
fn first_bid_is_recorded_and_turn_moves_on() {
    let mut g = game(PHASE_AUCTION, EAST);
    let cfg = Some(config("LeftOfDeclarer", "VoidTrick", false, 13));
    let eff = accepted(place_bid(&mut g, &cfg, &Vec::new(), EAST, Some(1), Some(SPADES)));
    assert_eq!(eff.bid.seat, EAST);
    assert_eq!(eff.bid.spread, Some(1));
    assert_eq!(eff.bid.suit, Some(SPADES));
    assert_eq!(eff.bid.sequence, 0);
    assert_eq!(eff.bid.game_id, GID);
    assert!(eff.opens_trick.is_none());
    assert_eq!(g.turn_seat, SOUTH);
    assert_eq!(g.phase, PHASE_AUCTION);
}

#[test]
fn bid_then_three_passes_sets_contract_left_of_declarer_leads() {
    let mut g = game(PHASE_AUCTION, EAST);
    let cfg = Some(config("LeftOfDeclarer", "VoidTrick", false, 13));
    let effects = run_calls(&mut g, &cfg, &[(Some(2), Some(HEARTS)), (None, None), (None, None), (None, None)]);
    assert_eq!(g.phase, PHASE_PLAY);
    assert_eq!(g.contract_spread, Some(2));
    assert_eq!(g.trump_suit, Some(HEARTS));
    assert_eq!(g.declarer_seat, Some(EAST));
    assert_eq!(g.turn_seat, SOUTH);
    let t = effects[3].opens_trick.unwrap();
    assert_eq!(t.trick_number, 1);
    assert_eq!(t.leader_seat, SOUTH);
    assert_eq!(t.led_suit, None);
    assert_eq!(t.winner_seat, None);
    assert!(effects[..3].iter().all(|e| e.opens_trick.is_none()));
}

#[test]
fn declarer_leads_when_configured() {
    let mut g = game(PHASE_AUCTION, WEST);
    let cfg = Some(config("Declarer", "VoidTrick", false, 13));
    let effects = run_calls(
        &mut g,
        &cfg,
        &[(Some(1), None), (Some(2), Some(CLUBS)), (None, None), (None, None), (None, None)],
    );
    assert_eq!(g.declarer_seat, Some(NORTH));
    assert_eq!(g.trump_suit, Some(CLUBS));
    assert_eq!(g.contract_spread, Some(2));
    assert_eq!(g.turn_seat, NORTH);
    assert_eq!(effects[4].opens_trick.unwrap().leader_seat, NORTH);
}

#[test]
fn four_passes_end_the_game_without_contract() {
    let mut g = game(PHASE_AUCTION, NORTH);
    let cfg = Some(config("LeftOfDeclarer", "VoidTrick", false, 13));
    run_calls(&mut g, &cfg, &[(None, None), (None, None), (None, None), (None, None)]);
    assert_eq!(g.phase, PHASE_FINISHED);
    assert_eq!(g.result.as_deref(), Some(ALL_PASSED_RESULT));
    assert_eq!(ALL_PASSED_RESULT, "All passed — no contract");
    assert_eq!(g.declarer_seat, None);
}

#[test]
fn refused_calls_leave_the_game_unchanged() {
    let cfg = Some(config("LeftOfDeclarer", "VoidTrick", false, 13));
    let before = game(PHASE_AUCTION, EAST);

    let mut g = before.clone();
    assert_eq!(refused(place_bid(&mut g, &cfg, &Vec::new(), SOUTH, Some(1), None)), GameError::NotThisSeatsTurn);
    assert_eq!(g.turn_seat, before.turn_seat);

    let mut g = before.clone();
    assert_eq!(refused(place_bid(&mut g, &cfg, &Vec::new(), EAST, Some(1), Some(4))), GameError::InvalidSuit);

    let mut g = before.clone();
    assert_eq!(refused(place_bid(&mut g, &cfg, &Vec::new(), EAST, Some(0), None)), GameError::SpreadNotPositive);
    assert_eq!(refused(place_bid(&mut g, &cfg, &Vec::new(), EAST, Some(-3), None)), GameError::SpreadNotPositive);

    let mut g = game(PHASE_PLAY, EAST);
    assert_eq!(refused(place_bid(&mut g, &cfg, &Vec::new(), EAST, None, None)), GameError::NotInAuction);

    let prior = vec![bid(NORTH, Some(2), Some(SPADES), 0)];
    let mut g = before.clone();
    assert_eq!(refused(place_bid(&mut g, &cfg, &prior, EAST, Some(2), Some(HEARTS))), GameError::BidMustOutrank);
    assert_eq!(g.phase, PHASE_AUCTION);
    assert_eq!(g.turn_seat, EAST);
    let eff = accepted(place_bid(&mut g, &cfg, &prior, EAST, Some(2), None));
    assert_eq!(eff.bid.sequence, 1);
}

#[test]
fn missing_config_refuses_the_closing_pass() {
    let mut g = game(PHASE_AUCTION, SOUTH);
    let prior = vec![
        bid(EAST, Some(1), Some(DIAMONDS), 0),
        bid(SOUTH, None, None, 1),
        bid(WEST, None, None, 2),
    ];
    g.turn_seat = NORTH;
    assert_eq!(refused(place_bid(&mut g, &None, &prior, NORTH, None, None)), GameError::ConfigNotFound);
    assert_eq!(g.phase, PHASE_AUCTION);
}

#[test]
fn order_bids_sorts_by_sequence_and_rejects_gaps() {
    let unordered = vec![
        bid(WEST, None, None, 2),
        bid(EAST, Some(1), None, 0),
        bid(SOUTH, Some(2), Some(CLUBS), 1),
    ];
    let ordered = order_bids(&unordered).unwrap();
    let seqs: Vec<u16> = ordered.iter().map(|b| b.sequence).collect();
    assert_eq!(seqs, vec![0, 1, 2]);
    assert_eq!(ordered[1].seat, SOUTH);
    let gap = vec![bid(EAST, None, None, 0), bid(SOUTH, None, None, 2)];
    assert!(order_bids(&gap).is_none());
    let twice = vec![bid(EAST, None, None, 0), bid(SOUTH, None, None, 0)];
    assert!(order_bids(&twice).is_none());
    assert_eq!(order_bids(&Vec::new()).unwrap().len(), 0);
}

// ---- play ----

fn one_card_hands() -> Vec<Card> {
    vec![
        card(1, NORTH, SPADES, 14),
        card(2, EAST, SPADES, 5),
        card(3, SOUTH, HEARTS, 3),
        card(4, WEST, SPADES, 13),
    ]
}

fn play_game(trump: Option<u8>, contract: i8, declarer: u8) -> Game {
    let mut g = game(PHASE_PLAY, NORTH);
    g.trump_suit = trump;
    g.contract_spread = Some(contract);
    g.declarer_seat = Some(declarer);
    g.current_trick_id = 10;
    g
}

fn first_trick(leader: u8) -> Trick {
    Trick { trick_id: 10, game_id: GID, trick_number: 1, leader_seat: leader, led_suit: None, winner_seat: None }
}

fn table(g: Game, cfg: GameConfig, trick: Trick, plays: Vec<TrickPlay>, cards: Vec<Card>) -> PlayTable {
    PlayTable { game: g, config: cfg, trick, plays, cards }
}

fn next_table(out: PlayOutcome, cfg: &GameConfig) -> PlayTable {
    PlayTable { game: out.game, config: cfg.clone(), trick: out.trick, plays: out.plays, cards: out.cards }
}

fn location_of(cards: &[Card], id: u32) -> String {
    cards.iter().find(|c| c.card_id == id).unwrap().location.clone()
}

#[test]
fn full_trick_is_won_by_trump_and_game_ends_made() {
    let cfg = config("LeftOfDeclarer", "VoidTrick", false, 13);
    let t0 = table(play_game(Some(HEARTS), 1, NORTH), cfg.clone(), first_trick(NORTH), Vec::new(), one_card_hands());
    assert!(table_valid(&t0));

    let out = played(play_cards(t0, NORTH, vec![1]));
    assert_eq!(out.trick.led_suit, Some(SPADES));
    assert_eq!(out.game.turn_seat, EAST);
    assert_eq!(out.plays.len(), 1);
    assert_eq!(out.plays[0].play_value, 14);
    assert_eq!(out.plays[0].play_suit, Some(SPADES));
    assert_eq!(out.plays[0].sequence, 0);
    assert_eq!(out.plays[0].trick_id, 10);
    assert!(!out.plays[0].is_pass);
    assert_eq!(location_of(&out.cards, 1), "trick:10");
    assert!(out.next_trick.is_none());

    let out = played(play_cards(next_table(out, &cfg), EAST, vec![2]));
    assert_eq!(out.game.turn_seat, SOUTH);
    let out = played(play_cards(next_table(out, &cfg), SOUTH, vec![3]));
    assert_eq!(out.game.turn_seat, WEST);
    let out = played(play_cards(next_table(out, &cfg), WEST, vec![4]));

    assert_eq!(out.trick.winner_seat, Some(SOUTH));
    assert_eq!(out.game.ns_tricks, 1);
    assert_eq!(out.game.ew_tricks, 0);
    assert_eq!(out.game.phase, PHASE_FINISHED);
    assert_eq!(out.game.result.as_deref(), Some("Contract made! Spread: 1. Overtricks: 0"));
    assert!(out.next_trick.is_none());
    for id in 1..=4 {
        assert_eq!(location_of(&out.cards, id), "won:2");
    }
}

#[test]
fn seat_without_cards_passes_automatically_and_winner_leads_next() {
    let cfg = config("LeftOfDeclarer", "VoidTrick", false, 13);
    let cards = vec![
        card(1, NORTH, SPADES, 14),
        card(5, NORTH, CLUBS, 2),
        card(2, EAST, SPADES, 5),
        card(6, EAST, CLUBS, 3),
        card(3, SOUTH, HEARTS, 3),
        card(7, SOUTH, CLUBS, 4),
    ];
    let t0 = table(play_game(Some(HEARTS), 1, NORTH), cfg.clone(), first_trick(NORTH), Vec::new(), cards);
    let out = played(play_cards(t0, NORTH, vec![1]));
    let out = played(play_cards(next_table(out, &cfg), EAST, vec![2]));
    let out = played(play_cards(next_table(out, &cfg), SOUTH, vec![3]));
    assert_eq!(out.plays.len(), 4);
    assert_eq!(out.plays[3].seat, WEST);
    assert!(out.plays[3].is_pass);
    assert_eq!(out.plays[3].sequence, 3);
    assert!(out.plays[3].card_ids.is_empty());
    assert_eq!(out.trick.winner_seat, Some(SOUTH));
    assert_eq!(out.game.ns_tricks, 1);
    assert_eq!(out.game.phase, PHASE_PLAY);
    assert_eq!(out.game.turn_seat, SOUTH);
    let next = out.next_trick.unwrap();
    assert_eq!(next.trick_number, 2);
    assert_eq!(next.leader_seat, SOUTH);
    assert_eq!(next.led_suit, None);
    assert_eq!(location_of(&out.cards, 2), "won:2");
    assert_eq!(location_of(&out.cards, 5), "hand");
}

#[test]
fn only_card_played_wins_and_sweep_counts_remaining_cards() {
    let cfg = config("LeftOfDeclarer", "VoidTrick", false, 13);
    let cards = vec![card(1, NORTH, SPADES, 2), card(2, EAST, CLUBS, 5), card(8, EAST, CLUBS, 6)];
    let t0 = table(play_game(None, 1, EAST), cfg.clone(), first_trick(NORTH), Vec::new(), cards);
    let out = played(play_cards(t0, NORTH, vec![1]));
    assert_eq!(out.game.turn_seat, EAST);
    let out = played(play_cards(next_table(out, &cfg), EAST, Vec::new()));
    // South and West hold no cards and pass automatically; North wins with the only card.
    assert_eq!(out.trick.winner_seat, Some(NORTH));
    assert_eq!(out.plays.len(), 4);
    assert!(out.plays[2].is_pass && out.plays[3].is_pass);
    // North-South hold no cards now: East-West take a trick for each card they hold.
    assert_eq!(out.game.ns_tricks, 1);
    assert_eq!(out.game.ew_tricks, 2);
    assert_eq!(out.game.phase, PHASE_FINISHED);
    assert_eq!(out.game.result.as_deref(), Some("Contract made! Spread: 1. Overtricks: 2"));
}

fn all_pass_table(all_pass: &str) -> (PlayTable, GameConfig) {
    // North leads the trick but holds no cards; East is to act.
    let cfg = config("LeftOfDeclarer", all_pass, false, 13);
    let cards = vec![card(2, EAST, CLUBS, 5), card(3, SOUTH, CLUBS, 6), card(4, WEST, CLUBS, 7)];
    let mut g = play_game(None, 1, EAST);
    g.turn_seat = EAST;
    (table(g, cfg.clone(), first_trick(NORTH), Vec::new(), cards), cfg)
}

fn pass_round(t: PlayTable, cfg: &GameConfig) -> PlayOutcome {
    let out = played(play_cards(t, EAST, Vec::new()));
    assert_eq!(out.game.turn_seat, SOUTH);
    let out = played(play_cards(next_table(out, cfg), SOUTH, Vec::new()));
    assert_eq!(out.game.turn_seat, WEST);
    played(play_cards(next_table(out, cfg), WEST, Vec::new()))
}

#[test]
fn all_pass_trick_goes_to_leader_when_configured() {
    let (t, cfg) = all_pass_table("LeaderWins");
    let out = pass_round(t, &cfg);
    assert_eq!(out.plays.len(), 4);
    assert_eq!(out.plays[3].seat, NORTH);
    assert_eq!(out.trick.winner_seat, Some(NORTH));
    assert_eq!(out.game.ns_tricks, 1);
    assert_eq!(out.game.ew_tricks, 0);
    let next = out.next_trick.unwrap();
    assert_eq!(next.leader_seat, NORTH);
    assert_eq!(next.trick_number, 2);
}

#[test]
fn all_pass_trick_is_void_by_default() {
    let (t, cfg) = all_pass_table("VoidTrick");
    let out = pass_round(t, &cfg);
    assert_eq!(out.trick.winner_seat, None);
    assert_eq!(out.game.ns_tricks, 0);
    assert_eq!(out.game.ew_tricks, 0);
    assert_eq!(out.next_trick.unwrap().leader_seat, NORTH);
    assert_eq!(out.game.turn_seat, NORTH);
}

#[test]
fn refused_plays_name_the_reason() {
    let cfg = config("LeftOfDeclarer", "VoidTrick", false, 1);
    let base = || table(play_game(Some(HEARTS), 1, NORTH), cfg.clone(), first_trick(NORTH), Vec::new(), one_card_hands());

    assert_eq!(play_refused(play_cards(base(), EAST, vec![2])), GameError::NotThisSeatsTurn);
    assert_eq!(play_refused(play_cards(base(), NORTH, Vec::new())), GameError::LeaderMustPlay);
    assert_eq!(play_refused(play_cards(base(), NORTH, vec![2])), GameError::NotYourCard);
    assert_eq!(play_refused(play_cards(base(), NORTH, vec![99])), GameError::CardNotInGame(99));
    assert_eq!(play_refused(play_cards(base(), NORTH, vec![1, 1])), GameError::TooManyCards);
    // the count is the true number of ids, not that number modulo 256
    assert_eq!(play_refused(play_cards(base(), NORTH, vec![1; 256])), GameError::TooManyCards);

    let mut t = base();
    t.game.phase = PHASE_AUCTION;
    assert_eq!(play_refused(play_cards(t, NORTH, vec![1])), GameError::NotInPlay);

    let mut t = base();
    t.cards[0].location = "won:0".to_string();
    assert_eq!(play_refused(play_cards(t, NORTH, vec![1])), GameError::CardNotInHand);

    let wide = config("LeftOfDeclarer", "VoidTrick", false, 13);
    let mut cards = one_card_hands();
    cards.push(card(9, NORTH, CLUBS, 9));
    let t = table(play_game(Some(HEARTS), 1, NORTH), wide.clone(), first_trick(NORTH), Vec::new(), cards.clone());
    assert_eq!(play_refused(play_cards(t, NORTH, vec![1, 9])), GameError::MixedSuits);
    // a card named twice is refused, not counted twice
    let t = table(play_game(Some(HEARTS), 1, NORTH), wide.clone(), first_trick(NORTH), Vec::new(), cards.clone());
    assert_eq!(play_refused(play_cards(t, NORTH, vec![1, 1])), GameError::RepeatedCard);

    // East holds a spade, so it must follow the spade lead.
    cards.push(card(10, EAST, DIAMONDS, 9));
    let t = table(play_game(Some(HEARTS), 1, NORTH), wide.clone(), first_trick(NORTH), Vec::new(), cards);
    let out = played(play_cards(t, NORTH, vec![1]));
    assert_eq!(play_refused(play_cards(next_table(out, &wide), EAST, vec![10])), GameError::MustFollowSuit);
}

#[test]
fn combination_play_counts_rank_sum() {
    let cfg = config("LeftOfDeclarer", "VoidTrick", false, 13);
    let cards = vec![
        card(1, NORTH, SPADES, 14),
        card(2, EAST, SPADES, 9),
        card(3, EAST, SPADES, 7),
        card(4, SOUTH, SPADES, 2),
        card(5, WEST, SPADES, 3),
        card(6, NORTH, CLUBS, 2),
    ];
    let t0 = table(play_game(None, 1, NORTH), cfg.clone(), first_trick(NORTH), Vec::new(), cards);
    let out = played(play_cards(t0, NORTH, vec![1]));
    let out = played(play_cards(next_table(out, &cfg), EAST, vec![2, 3]));
    assert_eq!(out.plays[1].play_value, 16);
    let out = played(play_cards(next_table(out, &cfg), SOUTH, Vec::new()));
    let out = played(play_cards(next_table(out, &cfg), WEST, Vec::new()));
    assert_eq!(out.trick.winner_seat, Some(EAST));
    assert_eq!(out.game.ew_tricks, 1);
}

#[test]
fn finish_game_reports_failed_and_made_contracts() {
    let mut g = play_game(Some(SPADES), 2, EAST);
    g.ns_tricks = 3;
    g.ew_tricks = 1;
    assert!(finish_game(&mut g, &Vec::new()).is_ok());
    assert_eq!(g.phase, PHASE_FINISHED);
    assert_eq!(g.result.as_deref(), Some("Contract failed. Spread: -2. Undertricks: 4"));

    let mut g = play_game(Some(SPADES), 1, NORTH);
    g.ns_tricks = 3;
    g.ew_tricks = 1;
    let cards = vec![card(1, NORTH, CLUBS, 2), card(2, SOUTH, CLUBS, 3), card(3, EAST, CLUBS, 4)];
    assert!(cards_valid(&cards));
    assert!(finish_game(&mut g, &cards).is_ok());
    assert_eq!(g.result.as_deref(), Some("Contract made! Spread: 2. Overtricks: 3"));
    assert_eq!(g.ns_tricks, 3);
    assert_eq!(g.declarer_seat, Some(NORTH));
}

#[test]
fn finish_game_refuses_counters_out_of_range() {
    let mut g = play_game(None, 1, NORTH);
    g.ns_tricks = 127;
    g.ew_tricks = 200;
    let before = g.clone();
    assert_eq!(finish_game(&mut g, &Vec::new()), Err(GameError::Overflow));
    assert_eq!(g.phase, before.phase);
    assert_eq!(g.result, None);
}

#[test]
fn validity_checks_reject_bad_rows() {
    let mut cards = one_card_hands();
    assert!(cards_valid(&cards));
    cards.push(card(1, EAST, CLUBS, 2));
    assert!(!cards_valid(&cards));
    let mut cards = one_card_hands();
    cards[2].owner_seat = 4;
    assert!(!cards_valid(&cards));

    let cfg = config("LeftOfDeclarer", "VoidTrick", false, 13);
    let mut t = table(play_game(None, 1, NORTH), cfg, first_trick(NORTH), Vec::new(), one_card_hands());
    assert!(table_valid(&t));
    t.game.turn_seat = 4;
    assert!(!table_valid(&t));
    assert_eq!(PHASE_LOBBY, 0);
}
