//! A falling-block puzzle engine: piece geometry, board occupancy, line
//! clearing and the timer-driven game state machine.

pub mod shape;
pub mod board;
pub mod random;
pub mod piece;
pub mod game;
