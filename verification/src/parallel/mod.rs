//! What transactions did, where they got into each other's way, and what has to
//! run again.
pub mod conflict_detector;
pub mod operation_logs;
pub mod predictor;
pub mod reexecution;
