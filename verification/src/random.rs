//! The baseline strategy.

use crate::block::Direction;
use crate::game::Game;
use crate::strategy::Strategy;
use vstd::prelude::*;

verus! {

/// Chooses a heading at random, whatever the state of the round.
pub struct RandomStrategy;

impl Strategy for RandomStrategy {
    fn tick(&self, _game: &Game) -> (dir: Direction) {
        Direction::random()
    }
}

} // verus!
