# kortbridge

The rules of Kortbridge, a bridge-like trick-taking game for four players with
passing, same-suit card combinations and spread-based bidding, as a library
verified with Verus, and the SpacetimeDB module that serves it.

- `src/` — the verified library:
  - `types.rs`: suits, seats, partnerships and the ranking of bids;
  - `logic.rs`: trick evaluation, turn order, lead transfer, contract progress;
  - `tables.rs`: the rows of a game and the ways an action can be refused;
  - `auction.rs`: bids and passes, the end of the auction, the contract;
  - `play.rs`: checking and recording a play, completing tricks, scoring;
  - `deal.rs`: the deck, the shuffle and the deal;
  - `lobby.rs`: creating, joining, leaving and resetting games;
  - `ai.rs`: the computer player's calls and plays.
- `tests/` — tests of the library.
- `app/` — the SpacetimeDB module: tables, reducers, database reads and writes,
  and the loop that lets the computer take its turns.
