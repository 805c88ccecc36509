//! Optimistic parallel execution of transactions: versioned state, operation
//! logs, conflict detection, dependency prediction, scheduling and re-execution.
pub mod collections;
pub mod coordinator;
pub mod db;
pub mod handler;
pub mod laws;
pub mod parallel;
pub mod primitives;
pub mod scheduler;
