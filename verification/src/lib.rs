//! Verified core of the engram memory backend: session stores, token-budget
//! trimming, context assembly, knowledge graphs and the replicated command logic.

pub mod digraph;
pub mod topology;
pub mod assoc;
pub mod text;
pub mod knowledge;
pub mod models;
pub mod memory;
pub mod assembler;
pub mod config;
pub mod consolidation;
pub mod embedding;
pub mod worker;
pub mod raft;
pub mod stores;
pub mod requests;
pub mod cluster;
