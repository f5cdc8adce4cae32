//! Conway's Game of Life on a board whose edges meet, and a decoder for
//! starting patterns in run-length encoding.
//!
//! [`life::Life`] is the board. It is seeded at random or from a pattern,
//! advanced one generation at a time and mutated at random; each of these
//! reports the cells that changed, so that whoever paints the board
//! repaints no more than those. [`rle::LifeRLEParser`] turns the text of a
//! pattern into the coordinates of its living cells on a board.
//!
//! [`grid`] holds the mathematical model of a board that the contracts of
//! `life` speak of, and the laws that hold of it.

pub mod body;
pub mod chance;
pub mod grid;
pub mod header;
pub mod life;
pub mod rle;
pub mod text;
