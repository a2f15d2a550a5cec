//! The deck: building it, shuffling it, dealing it, and starting the auction.

use vstd::prelude::*;
use spacetimedb::ReducerContext;
use spacetimedb::rand::Rng;
use crate::tables::{Card, Game, GameError};
use crate::types::{PHASE_AUCTION, PHASE_LOBBY};
use crate::play::HAND;

verus! {

#[verifier::external_type_specification]
#[verifier::external_body]
pub struct ExReducerContext(ReducerContext);

/// The card at position `i` of an unshuffled deck: suits in order Clubs to
/// Spades, and within a suit the ranks 2 to 14.
pub open spec fn deck_card(i: int) -> (u8, u8) {
    ((i / 13) as u8, (i % 13 + 2) as u8)
}

/// The 52 cards of a standard deck, in order.
pub open spec fn full_deck() -> Seq<(u8, u8)> {
    Seq::new(52, |i: int| deck_card(i))
}

/// Builds the standard 52-card deck: (suit, rank) for suits 0..3 and ranks 2..14.
pub fn standard_deck() -> (deck: Vec<(u8, u8)>)
    ensures
        deck@ == full_deck(),
{
    let mut deck: Vec<(u8, u8)> = Vec::with_capacity(52);
    let mut suit: u8 = 0;
    while suit < 4
        invariant
            suit <= 4,
            deck@.len() == 13 * suit,
            forall|i: int| 0 <= i < deck@.len() ==> deck@[i] == deck_card(i),
        decreases 4 - suit,
    {
        let mut rank: u8 = 2;
        while rank <= 14
            invariant
                suit < 4,
                2 <= rank <= 15,
                deck@.len() == 13 * suit + rank - 2,
                forall|i: int| 0 <= i < deck@.len() ==> deck@[i] == deck_card(i),
            decreases 15 - rank,
        {
            proof {
                let i = deck@.len() as int;
                assert(i / 13 == suit as int && i % 13 == rank - 2) by (nonlinear_arith)
                    requires
                        i == 13 * suit + rank - 2,
                        2 <= rank <= 14,
                ;
            }
            deck.push((suit, rank));
            rank = rank + 1;
        }
        suit = suit + 1;
    }
    assert(deck@ =~= full_deck());
    deck
}

/// `ctx.rng().gen_range(0..=upper)`: `rand::Rng::gen_range` returns a value of
/// the given range, which is never empty here. Which value it returns depends
/// on the random number generator of the reducer call and is not stated.
#[verifier::external_body]
fn random_at_most(ctx: &ReducerContext, upper: usize) -> (j: usize)
    ensures
        j <= upper,
{
    ctx.rng().gen_range(0..=upper)
}

fn swap_cards(deck: &mut Vec<(u8, u8)>, i: usize, j: usize)
    requires
        i < old(deck)@.len(),
        j < old(deck)@.len(),
    ensures
        final(deck)@ == old(deck)@.update(i as int, old(deck)@[j as int]).update(j as int, old(deck)@[i as int]),
        final(deck)@.to_multiset() == old(deck)@.to_multiset(),
{
    broadcast use vstd::seq_lib::to_multiset_update;
    let ghost s = deck@;
    let a = deck[i];
    let b = deck[j];
    deck.set(i, b);
    deck.set(j, a);
    proof {
        let s1 = s.update(i as int, b);
        assert(s1.to_multiset() == s.to_multiset().insert(b).remove(a));
        assert(deck@.to_multiset() == s1.to_multiset().insert(a).remove(s1[j as int]));
        if i == j {
            assert(deck@ =~= s);
        } else {
            assert(s1[j as int] == b);
            broadcast use vstd::seq_lib::group_to_multiset_ensures;
            assert(s.contains(a) && s.contains(b));
            let m = s.to_multiset();
            assert(m.count(a) > 0 && m.count(b) > 0);
            assert(m.insert(b).remove(a).count(a) == m.count(a) - 1 || a == b);
            assert forall|x: (u8, u8)| #[trigger] deck@.to_multiset().count(x) == m.count(x) by {}
            assert(deck@.to_multiset() =~= m);
        }
    }
}

/// The deck after the shuffle steps from `k` on: step `k` swaps the card at
/// position `len - 1 - k` with the card at position `draws[k]`.
pub open spec fn fisher_yates_from(deck: Seq<(u8, u8)>, draws: Seq<usize>, k: int) -> Seq<(u8, u8)>
    decreases draws.len() - k,
{
    if k < 0 || k >= draws.len() {
        deck
    } else {
        let i = deck.len() - 1 - k;
        let j = draws[k] as int;
        fisher_yates_from(deck.update(i, deck[j]).update(j, deck[i]), draws, k + 1)
    }
}

/// The Fisher-Yates shuffle of `deck` with the drawn positions `draws`: the last
/// position swapped with `draws[0]`, the one before it with `draws[1]`, and so on.
pub open spec fn fisher_yates(deck: Seq<(u8, u8)>, draws: Seq<usize>) -> Seq<(u8, u8)> {
    fisher_yates_from(deck, draws, 0)
}

/// The draws fit a deck of `n` cards: at most one per position, the draw for
/// position `n - 1 - k` being a position at most `n - 1 - k`.
pub open spec fn draws_fit(n: int, draws: Seq<usize>) -> bool {
    &&& draws.len() <= n
    &&& forall|k: int| 0 <= k < draws.len() ==> #[trigger] draws[k] <= n - 1 - k
}

/// Shuffles `deck` with the given draws (see `fisher_yates`).
pub fn shuffle_with(deck: Vec<(u8, u8)>, draws: &Vec<usize>) -> (r: Vec<(u8, u8)>)
    requires
        draws_fit(deck@.len() as int, draws@),
    ensures
        r@ == fisher_yates(deck@, draws@),
        r@.to_multiset() == deck@.to_multiset(),
{
    let ghost start = deck@;
    let mut cur = deck;
    let n = cur.len();
    let m = draws.len();
    let mut k: usize = 0;
    while k < m
        invariant
            n == cur@.len(),
            n == start.len(),
            m == draws@.len(),
            k <= m,
            draws_fit(n as int, draws@),
            fisher_yates_from(cur@, draws@, k as int) == fisher_yates(start, draws@),
            cur@.to_multiset() == start.to_multiset(),
        decreases m - k,
    {
        let i = n - 1 - k;
        let j = draws[k];
        assert(j <= n - 1 - k);
        swap_cards(&mut cur, i, j);
        k = k + 1;
    }
    cur
}

/// Draws the positions for shuffling a 52-card deck with the reducer call's
/// random number generator: for each position 51 down to 1, one at most it.
pub fn shuffle_draws(ctx: &ReducerContext) -> (draws: Vec<usize>)
    ensures
        draws@.len() == 51,
        draws_fit(52, draws@),
{
    let mut draws: Vec<usize> = Vec::new();
    let mut i: usize = 51;
    while i >= 1
        invariant
            i <= 51,
            draws@.len() == 51 - i,
            forall|k: int| 0 <= k < draws@.len() ==> #[trigger] draws@[k] <= 51 - k,
        decreases i,
    {
        let j = random_at_most(ctx, i);
        draws.push(j);
        i = i - 1;
    }
    draws
}

/// A freshly shuffled deck: the Fisher-Yates shuffle of the standard deck with
/// positions drawn by the reducer call's random number generator. Which draws
/// come out is left to the generator; the deck is the shuffle for those draws.
pub fn shuffled_deck(ctx: &ReducerContext) -> (deck: Vec<(u8, u8)>)
    ensures
        deck@.len() == 52,
        deck@.to_multiset() == full_deck().to_multiset(),
        exists|draws: Seq<usize>| draws_fit(52, draws) && draws.len() == 51 && deck@ == #[trigger] fisher_yates(
            full_deck(),
            draws,
        ),
{
    let draws = shuffle_draws(ctx);
    let deck = shuffle_with(standard_deck(), &draws);
    proof {
        deck@.to_multiset_ensures();
        full_deck().to_multiset_ensures();
    }
    deck
}

/// Deals the deck in order: the first 13 cards to seat 0, the next 13 to seat 1,
/// and so on, each card new (id 0) and in hand.
pub fn deal_cards(game_id: u64, deck: &Vec<(u8, u8)>) -> (cards: Vec<Card>)
    ensures
        cards@.len() == deck@.len(),
        forall|i: int|
            0 <= i < deck@.len() ==> {
                let c = #[trigger] cards@[i];
                &&& c.card_id == 0
                &&& c.game_id == game_id
                &&& c.owner_seat == (i / 13) as u8
                &&& c.suit == deck@[i].0
                &&& c.rank == deck@[i].1
                &&& c.location@ == HAND@
            },
{
    let mut cards: Vec<Card> = Vec::new();
    let n = deck.len();
    let mut i: usize = 0;
    while i < n
        invariant
            n == deck@.len(),
            i <= n,
            cards@.len() == i,
            forall|k: int|
                0 <= k < i ==> {
                    let c = #[trigger] cards@[k];
                    &&& c.card_id == 0
                    &&& c.game_id == game_id
                    &&& c.owner_seat == (k / 13) as u8
                    &&& c.suit == deck@[k].0
                    &&& c.rank == deck@[k].1
                    &&& c.location@ == HAND@
                },
        decreases n - i,
    {
        let (suit, rank) = deck[i];
        cards.push(Card {
            card_id: 0,
            game_id,
            owner_seat: (i / 13) as u8,
            suit,
            rank,
            location: HAND.to_owned(),
        });
        i = i + 1;
    }
    cards
}

/// Checks that a game in the lobby can start: four seats taken (by players
/// and by the computer).
pub fn check_can_start(game: &Game, human_count: usize, ai_count: usize) -> (r: Result<(), GameError>)
    ensures
        r == (if game.phase != PHASE_LOBBY {
            Err::<(), GameError>(GameError::GameAlreadyStarted)
        } else if human_count + ai_count != 4 {
            Err(GameError::NeedFourPlayers)
        } else {
            Ok(())
        }),
{
    if game.phase != PHASE_LOBBY {
        return Err(GameError::GameAlreadyStarted);
    }
    if human_count > 4 || ai_count > 4 || human_count + ai_count != 4 {
        return Err(GameError::NeedFourPlayers);
    }
    Ok(())
}

/// Moves a dealt game to the auction, which proceeds clockwise starting from
/// the dealer: the dealer calls first.
pub fn begin_auction(game: &mut Game)
    ensures
        *final(game) == (Game { phase: PHASE_AUCTION, turn_seat: old(game).dealer_seat, ..*old(game) }),
{
    game.phase = PHASE_AUCTION;
    game.turn_seat = game.dealer_seat;
}

} // verus!
