//! Monte Carlo Tree Search over caller-supplied games.
//!
//! The engine grows a statistics tree per ensemble member, guided by an
//! upper-confidence score computed in fixed-point arithmetic, and merges
//! per-action statistics across the ensemble to pick a move.

pub mod adv2048;
pub mod clock;
pub mod fixedpoint;
pub mod game;
pub mod mcts;
pub mod minigame;
pub mod node;
pub mod stats;
pub mod tictactoe;
pub mod twofortyeight;
pub mod utils;
