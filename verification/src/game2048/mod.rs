//! 2048: an animated board of `u16` tiles with its game session, and an
//! event-driven grid of optional tiles that records every move.

pub mod board;
pub mod grid;
pub mod session;
