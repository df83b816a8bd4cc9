//! Consolidation: summarizing the oldest messages of long sessions, and the
//! store that keeps the summaries.

pub mod store;
pub mod scheduler;
