//! Conway's Game of Life on an unbounded, sparse grid.
//!
//! A [`Field`] holds the live cells of one generation.  It is read from text by
//! [`Field::new`], written as text by [`Field::render`], and [`Field::step`]
//! gives the generation after it.  What each of them returns is stated over
//! sets of positions `(x, y)` of mathematical integers.

pub mod cell;
pub mod counts;
pub mod field;
pub mod generation;
mod key;
pub mod parse;
pub mod render;
pub mod round_trip;

pub use cell::Cell;
pub use counts::Counts;
pub use field::Field;
