//! State that is kept in versions until it is committed.
pub mod versioned;
