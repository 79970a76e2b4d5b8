//! Game logic for a handful of small board and puzzle games: chess, 2048,
//! a maze runner, minesweeper and othello, plus the key entry and display
//! text of a pocket calculator.

pub mod calculator;
pub mod chess;
pub mod game2048;
pub mod maze;
pub mod minesweeper;
pub mod othello;
mod random;
mod seq_facts;
mod text;
