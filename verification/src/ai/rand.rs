//! The policy that plays any legal turn, and the one source of chance of this
//! crate.
use crate::{faithful, Game};
use ::rand::seq::SliceRandom;
use vstd::prelude::*;

verus! {

/// Draws one element of `items` at random.
///
/// This is `rand::seq::SliceRandom::choose` with the generator of
/// `rand::thread_rng`. Taken from `rand`, unproved: an empty list gives
/// `None`, any other list a reference to one of its elements. Which element
/// is not stated: each call draws anew. The call panics where the system has
/// no seed for the thread's generator, which no argument decides.
#[verifier::external_body]
pub(crate) fn pick<T>(items: &Vec<T>) -> (drawn: Option<&T>)
    ensures
        items@.len() == 0 ==> drawn is None,
        items@.len() > 0 ==> drawn is Some && items@.contains(*drawn->0),
{
    items.choose(&mut ::rand::thread_rng())
}

/// Randomly select a turn. The game must have a legal turn.
pub fn run<G: Game>(game: &G) -> (turn: G::Turn)
    requires
        faithful::<G>(),
        game.legal().len() > 0,
    ensures
        game.legal().contains(turn),
{
    let turns = game.turns();
    let drawn = pick(&turns).unwrap();
    let turn = drawn.clone();
    assert(cloned(*drawn, turn));
    turn
}

} // verus!
