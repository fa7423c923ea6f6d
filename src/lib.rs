//! Turns per-glyph outline commands into normalized vector path primitives.
//!
//! Coordinates are integers in a caller-chosen fixed-point unit; the
//! normalized output is expressed in thousandths of the collection's height.

pub mod convert;
pub mod geometry;
pub mod pipeline;
