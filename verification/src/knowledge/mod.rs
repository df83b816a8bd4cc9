//! Knowledge extraction results, per-session and global knowledge graphs,
//! their export, and the deterministic extractor and summarizer.

pub mod types;
pub mod graph;
pub mod global;
pub mod export;
pub mod extractor;
pub mod summarizer;
pub mod handler;
pub mod global_handler;
pub mod worker;
