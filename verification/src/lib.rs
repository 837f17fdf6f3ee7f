//! Message, block and task lifecycle tracking for a replicated service.

pub mod buffer;
pub mod codec;
pub mod decoded;
pub mod delivery;
pub mod inflight;
pub mod lifecycle_task;
pub mod lineage;
pub mod operation;
mod sharing;
pub mod types;
