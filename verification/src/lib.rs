//! A small task-list library: an ordered store of tasks with unique ids,
//! a text codec for durable persistence, and a loader that falls back to a
//! backup copy when the primary copy is missing or corrupt.

pub mod codec;
pub mod models;
pub mod storage;

pub use models::{Priority, SortOpt, Task};
