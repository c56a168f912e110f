//! A bitboard for a board of 8 columns and 16 rows: one 16-bit lane per
//! column, bit `y` of lane `x` standing for the cell at column `x`, row `y`.
//! The playing field is columns 1 to `WIDTH` and rows 1 to `HEIGHT`, inside
//! a wall of one cell on each side.
use vstd::prelude::*;

pub mod bmi;
pub mod board;
pub mod eq;
pub mod lanes;
pub mod ops;

pub use board::BoardBits;

verus! {

/// Columns of the playing field.
pub const WIDTH: usize = 6;

/// Rows of the playing field.
pub const HEIGHT: usize = 12;

/// Columns of the whole board, wall included.
pub const ENTIRE_WIDTH: usize = 8;

/// Rows of the whole board, wall included.
pub const ENTIRE_HEIGHT: usize = 16;

} // verus!
