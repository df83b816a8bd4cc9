//! The knowledge worker: which jobs are extracted, and what a finished
//! extraction becomes.
//!
//! In a cluster only the leader extracts, and it replicates the result as a
//! command; a standalone node applies the result to its own graph.

use vstd::prelude::*;
use crate::knowledge::extractor::{ExtractError, KnowledgeExtractor};
use crate::knowledge::graph::{dedup_key_model, empty_session, extraction_fits, extraction_step, KnowledgeGraph, SessionModel};
use crate::knowledge::types::{ExtractionResult, KnowledgeJob};
use crate::raft::types::MemoryCommand;

verus! {

/// This node does the extraction: always when standalone (`cluster_leader` is
/// `None`), in a cluster only when it is the leader it knows of.
pub open spec fn extracts_here(cluster_leader: Option<Option<u64>>, node_id: u64) -> bool {
    match cluster_leader {
        None => true,
        Some(leader) => leader == Some(node_id),
    }
}

/// Whether the worker runs the extractor on `job`: this node extracts, and the
/// job's message was not applied already.
pub fn should_extract(kg: &KnowledgeGraph, job: &KnowledgeJob, cluster_leader: Option<Option<u64>>, node_id: u64) -> (r: bool)
    ensures
        r == (extracts_here(cluster_leader, node_id)
            && !kg.processed().contains(dedup_key_model(job.session_id@, job.message_id@))),
{
    let here = match cluster_leader {
        None => true,
        Some(leader) => match leader {
            Some(id) => id == node_id,
            None => false,
        },
    };
    here && !kg.is_processed(job.session_id.as_str(), job.message_id.as_str())
}

/// The replicated command that records a finished extraction of `job`.
pub fn knowledge_command(job: KnowledgeJob, result: ExtractionResult) -> (c: MemoryCommand)
    ensures
        c matches MemoryCommand::AddKnowledge { session_id, message_id, entities, relationships }
            && session_id == job.session_id && message_id == job.message_id
            && entities == result.entities && relationships == result.relationships,
{
    MemoryCommand::AddKnowledge {
        session_id: job.session_id,
        message_id: job.message_id,
        entities: result.entities,
        relationships: result.relationships,
    }
}

/// The graph (sessions, processed messages) after a standalone node handles
/// the answer `x` for `job`: a fitting extraction is applied, anything else
/// changes nothing.
pub open spec fn knowledge_outcome(
    sessions: Map<Seq<char>, SessionModel>,
    processed: Set<Seq<char>>,
    job: KnowledgeJob,
    x: Result<ExtractionResult, ExtractError>,
) -> (Map<Seq<char>, SessionModel>, Set<Seq<char>>) {
    match x {
        Err(_) => (sessions, processed),
        Ok(e) => {
            let m = if sessions.contains_key(job.session_id@) { sessions[job.session_id@] } else { empty_session() };
            if extraction_fits(m, e.entities@, e.relationships@) {
                extraction_step(sessions, processed, job.session_id@, job.message_id@, e.entities@, e.relationships@)
            } else {
                (sessions, processed)
            }
        },
    }
}

/// What a cluster leader replicates for the answer `x`: the command that
/// records it, or nothing when the extraction failed.
pub open spec fn command_outcome(job: KnowledgeJob, x: Result<ExtractionResult, ExtractError>) -> Option<MemoryCommand> {
    match x {
        Ok(e) => Some(MemoryCommand::AddKnowledge {
            session_id: job.session_id,
            message_id: job.message_id,
            entities: e.entities,
            relationships: e.relationships,
        }),
        Err(_) => None,
    }
}

/// A standalone node applies a finished extraction to its graph (when the
/// graph has room for it); a failed extraction changes nothing. True when applied.
pub fn apply_knowledge_result(kg: &mut KnowledgeGraph, job: &KnowledgeJob, result: Result<ExtractionResult, ExtractError>) -> (applied: bool)
    requires
        old(kg).wf(),
    ensures
        final(kg).wf(),
        (final(kg).sessions(), final(kg).processed()) == knowledge_outcome(old(kg).sessions(), old(kg).processed(), *job, result),
        result is Err ==> !applied && final(kg).sessions() == old(kg).sessions() && final(kg).processed() == old(kg).processed(),
        result matches Ok(x) ==> {
            let m = old(kg).session_or_empty(job.session_id@);
            &&& extraction_fits(m, x.entities@, x.relationships@) ==> (final(kg).sessions(), final(kg).processed())
                == extraction_step(old(kg).sessions(), old(kg).processed(), job.session_id@, job.message_id@, x.entities@, x.relationships@)
            &&& !extraction_fits(m, x.entities@, x.relationships@) ==> final(kg).sessions() == old(kg).sessions()
                && final(kg).processed() == old(kg).processed()
            &&& applied == (extraction_fits(m, x.entities@, x.relationships@)
                && !old(kg).processed().contains(dedup_key_model(job.session_id@, job.message_id@)))
        },
{
    match result {
        Err(_) => false,
        Ok(x) => kg.apply_extraction_if_fits(job.session_id.as_str(), job.message_id.as_str(), x.entities, x.relationships),
    }
}

/// Runs one job: skips it unless [`should_extract`]; otherwise calls the
/// extractor and, in a cluster, returns the command to replicate, or, standalone,
/// applies the result (see [`apply_knowledge_result`]) and returns nothing.
pub fn process_knowledge_job<E: KnowledgeExtractor>(
    job: KnowledgeJob,
    extractor: &E,
    cluster_leader: Option<Option<u64>>,
    node_id: u64,
    kg: &mut KnowledgeGraph,
) -> (r: Option<MemoryCommand>)
    requires
        old(kg).wf(),
    ensures
        final(kg).wf(),
        !(extracts_here(cluster_leader, node_id)
            && !old(kg).processed().contains(dedup_key_model(job.session_id@, job.message_id@))) ==> r is None
            && final(kg).sessions() == old(kg).sessions() && final(kg).processed() == old(kg).processed(),
        cluster_leader is Some ==> final(kg).sessions() == old(kg).sessions() && final(kg).processed() == old(kg).processed(),
        cluster_leader is Some ==> (r matches Some(MemoryCommand::AddKnowledge { session_id, message_id, .. })
            ==> session_id == job.session_id && message_id == job.message_id),
        cluster_leader is Some ==> (r is None || r matches Some(MemoryCommand::AddKnowledge { .. })),
        cluster_leader is None ==> r is None,
        extracts_here(cluster_leader, node_id) && !old(kg).processed().contains(dedup_key_model(job.session_id@, job.message_id@))
            ==> exists|x: Result<ExtractionResult, ExtractError>| #[trigger] extractor.answers(job.text@, x) && if cluster_leader is Some {
                &&& r == command_outcome(job, x)
                &&& final(kg).sessions() == old(kg).sessions()
                &&& final(kg).processed() == old(kg).processed()
            } else {
                &&& r is None
                &&& (final(kg).sessions(), final(kg).processed()) == knowledge_outcome(old(kg).sessions(), old(kg).processed(), job, x)
            },
{
    if !should_extract(kg, &job, cluster_leader, node_id) {
        return None;
    }
    let ghost j = job;
    let result = extractor.extract(job.text.as_str());
    let ghost x = result;
    match cluster_leader {
        Some(_) => match result {
            Ok(e) => {
                let c = knowledge_command(job, e);
                assert(Some(c) == command_outcome(j, x));
                Some(c)
            },
            Err(_) => None,
        },
        None => {
            apply_knowledge_result(kg, &job, result);
            None
        },
    }
}

} // verus!
