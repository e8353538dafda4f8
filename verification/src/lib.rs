//! The SVG `viewBox` attribute: four numbers, separated by whitespace and
//! optional commas, read into a rectangle whose width and height are not
//! negative.
//!
//! Numbers are kept as exact decimals and never rounded, so everything here
//! is integer and byte arithmetic.

pub mod error;
pub mod laws;
pub mod number;
pub mod trim;
pub mod viewbox;
