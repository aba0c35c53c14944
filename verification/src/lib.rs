//! An in-memory key-value store of agent memories: facts, preferences and
//! summaries kept across conversation turns, grouped by tags, with access
//! tracking, JSON snapshots and least-recently-used eviction.

pub mod text;
pub mod json;
pub mod clock;
pub mod entry;
pub mod listing;
pub mod store;
pub mod laws;

pub use entry::MemoryEntry;
pub use store::MemoryStore;
