//! Snapshot lifecycle engine: retention-grammar parsing, calendar-aware
//! time-bucket truncation, a grandfather-father-son bucket scheme and the
//! Create/Keep/Delete intent state machine tying them together.

pub mod calendar;
pub mod duration;
pub mod error;
pub mod executed_intent;
pub mod intent;
pub mod job;
pub mod policies;
pub mod retention;
pub mod timebins;
pub mod timestamp;
