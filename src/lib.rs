//! Solving, checking and generating 9x9 Sudoku boards.
//!
//! A board is a `Vec` of nine rows of nine `char`s: a digit `'1'` to `'9'`,
//! or `'.'` for an empty cell.

pub mod board;
pub mod generate;
pub mod solve;
pub mod validate;

pub use generate::generate_puzzle;
pub use solve::{solve, solve_puzzle};
pub use validate::{get_subcell_root, valid_position, validate_puzzle};
