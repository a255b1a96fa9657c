//! Overlay core for position-addressed analysis results.
//!
//! The crate converts between linear character offsets and line/character
//! positions, normalizes analyzer ranges into clipped offset ranges, merges
//! the range boundaries of every line into a minimal ordered partition with
//! per-segment tags and per-line virtual annotation text, and reconciles
//! pointer pixel coordinates with text positions for hover lookup and popup
//! placement.

pub mod highlight;
pub mod hover;
pub mod lines;
pub mod position;
pub mod ranges;
pub mod segmenting;
