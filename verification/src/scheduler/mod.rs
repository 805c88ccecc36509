//! Decides which transactions run next.
pub mod scheduler;
