//! Bounded summaries of long line streams.
//!
//! The library condenses a long sequence of text lines into a bounded,
//! information-dense summary: a fixed number of leading lines, a fixed number
//! of trailing lines, and — when a pattern is supplied — a bounded number of
//! pattern matches with surrounding context drawn from the middle. Synthetic
//! marker lines report exactly how much content was elided.

pub mod engine;
pub mod laws;
pub mod pattern;
pub mod text;
