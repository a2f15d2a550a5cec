//! Kortbridge: the rules of a bridge-like trick-taking game with passing,
//! same-suit card combinations and spread-based bidding.

pub mod types;
pub mod logic;
pub mod tables;
pub mod auction;
pub mod play;
pub mod deal;
pub mod lobby;
pub mod ai;
