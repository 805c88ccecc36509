//! Leads lists of transactions through parallel execution.
pub mod coordinator;
pub mod reexecution;
