//! Policies that pick a turn for the player to move.
pub mod mcts;
pub mod rand;
