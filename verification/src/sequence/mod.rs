//! Sequence tracking and duplicate suppression on the receive side.

pub mod dedup;
pub mod tracker;

pub use dedup::{DuplicateFilter, DuplicateKey};
pub use tracker::{SequenceStatus, StreamSequenceTracker};
