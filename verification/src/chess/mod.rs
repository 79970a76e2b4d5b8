//! Chess: rules engine and search.

pub mod rules;
pub mod ai;
pub mod game;
