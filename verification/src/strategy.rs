//! The interface all strategies share.

use crate::block::Direction;
use crate::game::Game;
use crate::mcts::{is_best, tallies_of_rollouts, MonteCarloStrategy, TallyView, DEFAULT_RUNS};
use crate::pathfinder::{planned, PathFindingStrategy};
use crate::random::RandomStrategy;
use vstd::prelude::*;

verus! {

/// A way of choosing the next heading from the state of a round. A strategy
/// only looks at the round; it tries moves out on copies.
pub trait Strategy {
    fn tick(&self, game: &Game) -> (dir: Direction)
        requires
            game@.wf(),
    ;
}

/// The strategies to choose from.
pub enum StrategyImpl {
    Random(RandomStrategy),
    PathFinder(PathFindingStrategy),
    MonteCarlo(MonteCarloStrategy),
}

impl Strategy for StrategyImpl {
    /// The choice of the strategy that `self` holds.
    fn tick(&self, game: &Game) -> (dir: Direction)
        ensures
            match *self {
                StrategyImpl::Random(_) => true,
                StrategyImpl::PathFinder(_) => planned(game@, Some(dir)) || planned(game@, None),
                StrategyImpl::MonteCarlo(_) => {
                    &&& dir != game@.snake.direction.opposite()
                    &&& exists|tallies: Map<Direction, TallyView>| #[trigger]
                        tallies_of_rollouts(tallies, game@, DEFAULT_RUNS as nat) && is_best(
                            tallies,
                            dir,
                        )
                },
            },
    {
        match self {
            StrategyImpl::Random(s) => s.tick(game),
            StrategyImpl::PathFinder(s) => s.tick(game),
            StrategyImpl::MonteCarlo(s) => s.tick(game),
        }
    }
}

} // verus!
