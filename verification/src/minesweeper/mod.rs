//! Minesweeper: a fixed 9x9 field kept as plain cells, and a field of any
//! size whose squares cycle through flag and question marks.

pub mod board;
pub mod field;
