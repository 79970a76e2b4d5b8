//! Othello: the rules of placing and flipping stones, turn passing, and a
//! minimax opponent.

pub mod logic;
pub mod minimax;
pub mod state;
