//! Embedding jobs and the decisions of the embedding worker: whether a
//! message still needs an embedding, and the status it ends with.

use vstd::prelude::*;
use crate::memory::{embed_error_text, first_with_id, has_id, store_error_text, EmbedError, InMemoryStore, StoreError};
use crate::models::{EmbeddingStatus, Message};
use crate::topology::{str_eq, string_from};
use vstd::std_specs::cmp::PartialEqSpecImpl;

verus! {

/// A message to embed.
#[derive(Debug, Clone)]
pub struct EmbeddingJob {
    session_id: String,
    message_id: String,
    text: String,
}

/// Two jobs are equal when they carry the same session id, message id and text.
impl PartialEq for EmbeddingJob {
    fn eq(&self, other: &Self) -> (r: bool) {
        str_eq(self.session_id.as_str(), other.session_id.as_str())
            && str_eq(self.message_id.as_str(), other.message_id.as_str())
            && str_eq(self.text.as_str(), other.text.as_str())
    }
}

impl PartialEqSpecImpl for EmbeddingJob {
    open spec fn obeys_eq_spec() -> bool {
        true
    }

    open spec fn eq_spec(&self, other: &Self) -> bool {
        &&& self.session_id()@ == other.session_id()@
        &&& self.message_id()@ == other.message_id()@
        &&& self.text()@ == other.text()@
    }
}

impl Eq for EmbeddingJob {}

impl EmbeddingJob {
    pub fn new(session_id: String, message_id: String, text: String) -> (j: EmbeddingJob)
        ensures
            j.session_id() == session_id,
            j.message_id() == message_id,
            j.text() == text,
    {
        EmbeddingJob { session_id, message_id, text }
    }

    pub closed spec fn session_id(&self) -> String {
        self.session_id
    }

    pub closed spec fn message_id(&self) -> String {
        self.message_id
    }

    pub closed spec fn text(&self) -> String {
        self.text
    }

    pub fn session(&self) -> (r: &String)
        ensures
            *r == self.session_id(),
    {
        &self.session_id
    }

    pub fn message(&self) -> (r: &String)
        ensures
            *r == self.message_id(),
    {
        &self.message_id
    }

    pub fn content(&self) -> (r: &String)
        ensures
            *r == self.text(),
    {
        &self.text
    }
}

/// A message is embedded unless it is already done or being done.
pub open spec fn needs_embedding_spec(current: Option<Message>) -> bool {
    match current {
        Some(m) => !(m.embedding_status matches Some(s) && (s is Completed || s is Processing)),
        None => true,
    }
}

pub fn needs_embedding(current: &Option<Message>) -> (r: bool)
    ensures
        r == needs_embedding_spec(*current),
{
    match current {
        Some(m) => match &m.embedding_status {
            Some(EmbeddingStatus::Completed) => false,
            Some(EmbeddingStatus::Processing) => false,
            _ => true,
        },
        None => true,
    }
}

/// The status after asking for an embedding: None to go on and store it
/// (`count` embeddings came back, at least one), or the failure to record.
pub fn status_after_embedding(result: &Result<usize, EmbedError>) -> (r: Option<EmbeddingStatus>)
    ensures
        result matches Ok(n) ==> (n > 0 ==> r is None) && (n == 0 ==> (r matches Some(EmbeddingStatus::Failed(m))
            && m@ == "embedding provider returned no embeddings"@)),
        result matches Err(e) ==> (r matches Some(EmbeddingStatus::Failed(m)) && m@ == embed_error_text(*e)),
{
    match result {
        Ok(n) => if *n > 0 {
            None
        } else {
            Some(EmbeddingStatus::Failed(string_from("embedding provider returned no embeddings")))
        },
        Err(e) => Some(EmbeddingStatus::Failed(e.to_string())),
    }
}

/// The status after storing the embedding.
pub fn status_after_insert(result: &Result<(), StoreError>) -> (r: EmbeddingStatus)
    ensures
        result is Ok ==> r is Completed,
        result matches Err(e) ==> (r matches EmbeddingStatus::Failed(m) && m@ == store_error_text(*e)),
{
    match result {
        Ok(()) => EmbeddingStatus::Completed,
        Err(e) => EmbeddingStatus::Failed(e.to_string()),
    }
}

/// The message a job is about, if the store holds it.
pub open spec fn job_message(store: InMemoryStore, job: EmbeddingJob) -> Option<Message> {
    let m = store.session_or_empty(job.session_id()@);
    match first_with_id(m, job.message_id()@) {
        Some(j) => Some(m[j as int]),
        None => None,
    }
}

/// The worker's first step for a job: when the message still needs an
/// embedding it is marked as being processed and true is returned; otherwise
/// nothing changes.
pub fn begin_embedding(store: &mut InMemoryStore, job: &EmbeddingJob) -> (started: bool)
    requires
        old(store).wf(),
    ensures
        final(store).wf(),
        started == needs_embedding_spec(job_message(*old(store), *job)),
        !started ==> final(store).sessions() == old(store).sessions(),
        started ==> ({
            let m = old(store).session_or_empty(job.session_id()@);
            match first_with_id(m, job.message_id()@) {
                Some(j) => final(store).sessions() == old(store).sessions().insert(
                    job.session_id()@,
                    m.update(j as int, Message { embedding_status: Some(EmbeddingStatus::Processing), ..m[j as int] }),
                ),
                None => final(store).sessions() == old(store).sessions(),
            }
        }),
{
    let current = store.get_message_by_id(job.session().as_str(), job.message().as_str());
    if !needs_embedding(&current) {
        return false;
    }
    store.update_message_status(job.session().as_str(), job.message().as_str(), EmbeddingStatus::Processing);
    true
}

/// Replacing the first message with an id by one with the same id keeps it first.
proof fn lemma_first_with_id_update(msgs: Seq<Message>, id: Seq<char>, j: nat, m: Message)
    requires
        first_with_id(msgs, id) == Some(j),
        has_id(m, id),
    ensures
        first_with_id(msgs.update(j as int, m), id) == Some(j),
    decreases msgs.len(),
{
    crate::memory::lemma_first_with_id(msgs, id);
    let u = msgs.update(j as int, m);
    let d = msgs.drop_last();
    if j == msgs.len() - 1 {
        assert(u.drop_last() =~= d);
    } else {
        assert(first_with_id(d, id) == Some(j));
        lemma_first_with_id_update(d, id, j, m);
        assert(u.drop_last() =~= d.update(j as int, m));
    }
}

/// An embedding job runs once: after it marked its message as being
/// processed, or as completed, the same job finds nothing left to do.
pub proof fn lemma_embedding_job_runs_once(msgs: Seq<Message>, id: Seq<char>, j: nat, status: EmbeddingStatus)
    requires
        first_with_id(msgs, id) == Some(j),
        status is Processing || status is Completed,
    ensures
        ({
            let after = msgs.update(j as int, Message { embedding_status: Some(status), ..msgs[j as int] });
            &&& first_with_id(after, id) == Some(j)
            &&& !needs_embedding_spec(Some(after[j as int]))
        }),
{
    crate::memory::lemma_first_with_id(msgs, id);
    lemma_first_with_id_update(msgs, id, j, Message { embedding_status: Some(status), ..msgs[j as int] });
}

} // verus!
