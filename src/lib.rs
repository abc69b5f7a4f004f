//! Packs short weighted words into non-overlapping rectangles on a canvas.
//!
//! A word and its weight become a [`block::Block`]: a box whose area is the
//! weight and whose proportions follow from the number of characters. A
//! [`grid::Grid`] draws candidate positions and orientations at random and keeps
//! a box only where it lies inside the active region and clear of every box
//! placed before it.
pub mod block;
pub mod geometry;
pub mod grid;
pub mod parse;
pub mod random;

pub use block::{Block, Blocks};
pub use geometry::{Orientation, Point2d};
pub use grid::Grid;
pub use parse::{ParseError, TextWeight};
