//! Printable arithmetic worksheets: unique addition and subtraction problems,
//! drawn at random, shuffled and rendered as aligned text lines.
pub mod builder;
pub mod generate;
pub mod laws;
pub mod problem;
pub mod random;
pub mod render;
