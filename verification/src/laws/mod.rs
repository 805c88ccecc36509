//! What the operations of the library are for: how what comes out of them relates to what
//! goes in, said of plain operations, slots, accounts and positions.
pub mod batches;
pub mod conflicts;
pub mod coordination;
pub mod logs;
pub mod plans;
pub mod predictions;
pub mod schedules;
pub mod versions;
