//! Commands replicated through the Raft log.

use vstd::prelude::*;
use crate::knowledge::global::Visibility;
use crate::knowledge::types::{Entity, Relationship};

verus! {

/// A message as replicated: without the node-local embedding status.
#[derive(Debug, Clone)]
pub struct MessagePayload {
    pub id: String,
    pub role: String,
    pub content: String,
    /// When the message was written, in nanoseconds since the Unix epoch (UTC).
    pub timestamp: i64,
}

/// Commands replicated through the Raft log to all nodes.
#[derive(Debug)]
pub enum MemoryCommand {
    /// Stores a message in short-term memory; each node queues its own embedding.
    AddMessage { session_id: String, message: MessagePayload },
    /// Stores a fact in core memory.
    AddFact { session_id: String, fact: String },
    /// Deletes a session's short-term memory, core memory and knowledge.
    DeleteSession { session_id: String },
    /// Knowledge extracted from a message; applied once per (session, message).
    AddKnowledge { session_id: String, message_id: String, entities: Vec<Entity>, relationships: Vec<Relationship> },
    /// Sets a session's visibility.
    SetSessionVisibility { session_id: String, visibility: Visibility },
    /// A summary that replaces some of a session's messages.
    ApplySummary {
        session_id: String,
        summary_id: String,
        summary_text: String,
        consumed_message_ids: Vec<String>,
        model: String,
        prompt_version: String,
    },
    /// Applied without effect.
    NoOp,
}

/// The answer to an applied command.
#[derive(Debug, Clone)]
pub struct CommandResponse {}

impl Default for CommandResponse {
    fn default() -> (r: CommandResponse) {
        CommandResponse {}
    }
}

/// Identifier of a Raft node.
pub type NodeId = u64;

} // verus!
