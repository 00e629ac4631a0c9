//! Task tracking: the task entity, an in-memory task store that keeps the
//! write-then-confirm discipline, and the mapping from store outcomes to
//! HTTP replies.

pub mod handlers;
pub mod models;
