//! Sudoku grids of any shape: solving, generating and searching for puzzles that need a given
//! technique.

pub mod bitboard;
pub mod command;
pub mod generic;
pub mod lexing;
pub mod vicinity;
