//! Runs a batch of transactions side by side and settles their conflicts.
pub mod conflict_channel;
pub mod dependencies;

pub mod parallel;
