//! Decision-making core of a grid-based snake game: the deterministic state
//! model of a round and the strategies that choose the next heading.

pub mod block;
pub mod chance;
pub mod consts;
pub mod game;
pub mod mcts;
pub mod pathfinder;
pub mod random;
pub mod strategy;
pub mod table;
