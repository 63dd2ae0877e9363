//! Two-dimensional addressing over a flat, row-major sequence of elements.
//!
//! A [`Grid`] pairs a vector with a column count. Rows, columns, ranges of
//! either, sub-rectangles, diagonals and the transposition are derived from
//! it by index arithmetic alone (`offset = row * columns + col`).

pub mod bounds;
pub mod grid;
pub mod laws;
pub mod model;

pub use bounds::Bound;
pub use grid::{Grid, IntoGrid};
