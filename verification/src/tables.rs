//! The rows that make up a game, and the ways a move can be refused.

use vstd::prelude::*;

verus! {

/// The configurable rules of one game.
#[derive(Debug, Clone)]
pub struct GameConfig {
    pub game_id: u64,
    pub max_combo_size: u8,
    pub dummy_open: bool,
    pub early_finish: bool,
    /// "LeftOfDeclarer" | "Declarer"
    pub lead_after_bid: String,
    /// "VoidTrick" | "LeaderWins"
    pub all_pass_trick: String,
}

/// Top-level state of one game.
#[derive(Debug, Clone)]
pub struct Game {
    pub game_id: u64,
    pub phase: u8,
    pub dealer_seat: u8,
    pub turn_seat: u8,
    /// None = NT; 0-3 = suit
    pub trump_suit: Option<u8>,
    pub contract_spread: Option<i8>,
    pub declarer_seat: Option<u8>,
    pub ns_tricks: u8,
    pub ew_tricks: u8,
    pub current_trick_id: u32,
    pub result: Option<String>,
}

/// One card of a game's deck and where it is.
#[derive(Debug, Clone)]
pub struct Card {
    pub card_id: u32,
    pub game_id: u64,
    /// which seat this card was dealt to (immutable)
    pub owner_seat: u8,
    pub suit: u8,
    pub rank: u8,
    /// "hand" / "trick:{trick_id}" / "won:{seat}"
    pub location: String,
}

/// One call of the auction.
#[derive(Debug, Clone, Copy)]
pub struct Bid {
    pub bid_id: u32,
    pub game_id: u64,
    pub seat: u8,
    /// None = pass
    pub spread: Option<i8>,
    /// None = NT or pass
    pub suit: Option<u8>,
    pub sequence: u16,
}

/// One trick of the play.
#[derive(Debug, Clone, Copy)]
pub struct Trick {
    pub trick_id: u32,
    pub game_id: u64,
    pub trick_number: u8,
    pub leader_seat: u8,
    pub led_suit: Option<u8>,
    pub winner_seat: Option<u8>,
}

/// One seat's action in a trick (a pass or a play of one or more cards).
#[derive(Debug, Clone)]
pub struct TrickPlay {
    pub play_id: u32,
    pub trick_id: u32,
    pub game_id: u64,
    pub seat: u8,
    pub is_pass: bool,
    pub card_ids: Vec<u32>,
    pub play_value: u16,
    pub play_suit: Option<u8>,
    pub sequence: u8,
}

/// A seat taken by the computer.
#[derive(Debug, Clone)]
pub struct AiPlayer {
    pub ai_id: u32,
    pub game_id: u64,
    pub seat: u8,
    pub name: String,
}

/// Why a move or a lobby action is refused.
#[derive(Debug, Clone, Copy, PartialEq, Eq, Structural)]
pub enum GameError {
    GameAlreadyStarted,
    AlreadyInGame,
    GameFull,
    NotInThisGame,
    NotYourTurn,
    OnlyPlayerCanDelete,
    NeedFourPlayers,
    GameNotFinished,
    NotInAuction,
    NotThisSeatsTurn,
    InvalidSuit,
    SpreadNotPositive,
    BidMustOutrank,
    ConfigNotFound,
    NotInPlay,
    LeaderMustPlay,
    TooManyCards,
    /// The card with this id is not one of this game's cards.
    CardNotInGame(u32),
    NotYourCard,
    /// The play names the same card more than once.
    RepeatedCard,
    CardNotInHand,
    MixedSuits,
    MustFollowSuit,
    /// A counter of the game would leave its integer range.
    Overflow,
}

/// An exact copy of a card row.
pub fn copy_card(c: &Card) -> (r: Card)
    ensures
        r == *c,
{
    Card {
        card_id: c.card_id,
        game_id: c.game_id,
        owner_seat: c.owner_seat,
        suit: c.suit,
        rank: c.rank,
        location: c.location.clone(),
    }
}

/// An exact copy of a game row.
pub fn copy_game(g: &Game) -> (r: Game)
    ensures
        r == *g,
{
    Game {
        game_id: g.game_id,
        phase: g.phase,
        dealer_seat: g.dealer_seat,
        turn_seat: g.turn_seat,
        trump_suit: g.trump_suit,
        contract_spread: g.contract_spread,
        declarer_seat: g.declarer_seat,
        ns_tricks: g.ns_tricks,
        ew_tricks: g.ew_tricks,
        current_trick_id: g.current_trick_id,
        result: match &g.result {
            Some(t) => Some(t.clone()),
            None => None,
        },
    }
}

} // verus!
