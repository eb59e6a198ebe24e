//! An in-memory event store: timestamped, typed events kept under three
//! synchronized indexes, with type and time-range queries whose result size
//! is capped.

pub mod app_error;
pub mod guarantees;
pub mod handlers;
pub mod event;
pub mod in_memory_storage;
pub mod query;
pub mod storage;
mod type_index;

