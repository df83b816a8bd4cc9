//! How the persistent stores name their keys and escape their values.

pub mod redis_shortterm;
pub mod redis_core_memory;
pub mod redis_consolidated;
pub mod lancedb;
