//! Chat messages kept in short-term memory.

use vstd::prelude::*;

verus! {

/// Where a message stands in the embedding pipeline.
#[derive(Debug, Clone)]
pub enum EmbeddingStatus {
    Pending,
    Processing,
    Completed,
    Failed(String),
}

/// One chat message of a session.
#[derive(Debug, Clone)]
pub struct Message {
    pub id: Option<String>,
    pub role: String,
    pub content: String,
    /// When the message was written, in nanoseconds since the Unix epoch (UTC).
    pub timestamp: Option<i64>,
    pub embedding_status: Option<EmbeddingStatus>,
}

/// A copy of an optional string.
pub fn copy_opt_string(o: &Option<String>) -> (r: Option<String>)
    ensures
        r == *o,
{
    match o {
        Some(s) => Some(s.clone()),
        None => None,
    }
}

impl EmbeddingStatus {
    /// An equal copy.
    pub fn copy(&self) -> (r: EmbeddingStatus)
        ensures
            r == *self,
    {
        match self {
            EmbeddingStatus::Pending => EmbeddingStatus::Pending,
            EmbeddingStatus::Processing => EmbeddingStatus::Processing,
            EmbeddingStatus::Completed => EmbeddingStatus::Completed,
            EmbeddingStatus::Failed(e) => EmbeddingStatus::Failed(e.clone()),
        }
    }
}

impl Message {
    /// An equal copy.
    pub fn copy(&self) -> (r: Message)
        ensures
            r == *self,
    {
        let embedding_status = match &self.embedding_status {
            Some(s) => Some(s.copy()),
            None => None,
        };
        Message {
            id: copy_opt_string(&self.id),
            role: self.role.clone(),
            content: self.content.clone(),
            timestamp: self.timestamp,
            embedding_status,
        }
    }
}

/// An equal copy of a list of messages.
pub fn copy_messages(v: &Vec<Message>) -> (r: Vec<Message>)
    ensures
        r@ == v@,
{
    let mut r: Vec<Message> = Vec::new();
    let mut i: usize = 0;
    while i < v.len()
        invariant
            i <= v@.len(),
            r@ == v@.take(i as int),
        decreases v@.len() - i,
    {
        r.push(v[i].copy());
        assert(v@.take(i as int + 1) =~= v@.take(i as int).push(v@[i as int]));
        i = i + 1;
    }
    assert(v@.take(v@.len() as int) =~= v@);
    r
}

} // verus!
