//! The state captured at a Raft log index.

use vstd::prelude::*;
use crate::knowledge::global::{GlobalGraphSnapshot, Visibility};
use crate::knowledge::graph::GraphSnapshot;
use crate::models::Message;

verus! {

/// Snapshot schema version.
pub const SNAPSHOT_VERSION: u32 = 2;

/// One session's short-term messages.
#[derive(Debug, Clone)]
pub struct SessionMessages {
    pub session_id: String,
    pub messages: Vec<Message>,
}

/// One session's core facts.
#[derive(Debug, Clone)]
pub struct SessionFacts {
    pub session_id: String,
    pub facts: Vec<String>,
}

/// Full applied state captured at a Raft log index. The vector store is not
/// part of it: each node rebuilds it from message text.
#[derive(Debug)]
pub struct EngramSnapshot {
    pub version: u32,
    pub short_term: Vec<SessionMessages>,
    pub core_memory: Vec<SessionFacts>,
    pub knowledge_graph: GraphSnapshot,
    pub global_graph: Option<GlobalGraphSnapshot>,
    pub visibility: Vec<(String, Visibility)>,
    pub session_agents: Vec<(String, String)>,
}

} // verus!
