//! What the global knowledge endpoints answer, computed from the global graph,
//! and how a refused visibility change is reported.

use vstd::prelude::*;
use std::collections::HashMap;
use crate::knowledge::export::GraphExport;
use crate::knowledge::global::{
    conflict_view, global_entities_answer, global_path_answer, global_related_answer, global_relationships_answer,
    graph_conflicts, sources_answer, Conflict, GlobalGraph, Visibility,
};
use crate::knowledge::types::{Entity, Relationship};
use crate::memory::MemoryServerError;
use crate::text::push_str;
use crate::topology::string_from;

pub use crate::knowledge::handler::{default_format, ExportQuery, PathQuery, PathResponse, RelatedResponse};

verus! {

/// A requested change of a session's visibility.
#[derive(Debug)]
pub struct SetVisibilityRequest {
    pub visibility: Visibility,
}

/// The whole global graph.
#[derive(Debug)]
pub struct GlobalKnowledgeResponse {
    pub entities: Vec<Entity>,
    pub edges: Vec<Relationship>,
}

/// The sessions that contributed an entity.
#[derive(Debug)]
pub struct SourcesResponse {
    pub entity_name: String,
    pub sources: Vec<String>,
}

/// The conflicting facts of the global graph.
#[derive(Debug)]
pub struct ConflictsResponse {
    pub conflicts: Vec<Conflict>,
}

/// Where a follower sends a visibility change: the leader's endpoint for the session.
pub open spec fn visibility_url(http_addr: Seq<char>, session_id: Seq<char>) -> Seq<char> {
    "http://"@ + http_addr + "/sessions/"@ + session_id + "/visibility"@
}

/// How a visibility change that the cluster refused is answered. `leader` is
/// `None` when the refusal did not come from a follower, `Some(None)` when a
/// follower knows no leader, and `Some(Some(id))` when it names leader `id`;
/// `raft_error` is the refusal's message.
pub fn visibility_write_error(
    peer_http_addrs: &HashMap<u64, String>,
    leader: Option<Option<u64>>,
    session_id: &str,
    raft_error: &str,
) -> (r: MemoryServerError)
    ensures
        leader is None ==> (r matches MemoryServerError::Internal(m) && m@ == "raft error: "@ + raft_error@),
        leader == Some(None::<u64>) ==> r is NoLeader,
        leader matches Some(Some(id)) ==> {
            &&& !peer_http_addrs@.contains_key(id) ==> r is NoLeader
            &&& peer_http_addrs@.contains_key(id) ==> (r matches MemoryServerError::RedirectToLeader(u)
                && u@ == visibility_url(peer_http_addrs@[id]@, session_id@))
        },
{
    match leader {
        None => {
            let mut m = string_from("raft error: ");
            push_str(&mut m, raft_error);
            MemoryServerError::Internal(m)
        },
        Some(None) => MemoryServerError::NoLeader,
        Some(Some(id)) => match peer_http_addrs.get(&id) {
            None => MemoryServerError::NoLeader,
            Some(addr) => {
                let mut u = string_from("http://");
                push_str(&mut u, addr.as_str());
                push_str(&mut u, "/sessions/");
                push_str(&mut u, session_id);
                push_str(&mut u, "/visibility");
                MemoryServerError::RedirectToLeader(u)
            },
        },
    }
}

/// Every entity and relationship of the global graph.
pub fn get_global(g: &GlobalGraph) -> (r: GlobalKnowledgeResponse)
    requires
        g.wf(),
    ensures
        global_entities_answer(g.model(), r.entities@),
        global_relationships_answer(g.model(), r.edges@),
{
    GlobalKnowledgeResponse { entities: g.all_entities(), edges: g.all_relationships() }
}

/// The neighbours of entity `name` in the global graph (empty when unknown).
pub fn get_global_entity(g: &GlobalGraph, name: String) -> (r: RelatedResponse)
    requires
        g.wf(),
    ensures
        r.entity_name@ == name@,
        global_related_answer(g.model(), name@, r.related@),
{
    let related = g.get_related(name.as_str());
    RelatedResponse { entity_name: name, related }
}

/// The sessions that contributed entity `name`, in ascending order.
pub fn get_global_entity_sources(g: &GlobalGraph, name: String) -> (r: SourcesResponse)
    requires
        g.wf(),
    ensures
        r.entity_name@ == name@,
        sources_answer(g.model(), name@, r.sources@),
{
    let sources = g.entity_sources(name.as_str());
    SourcesResponse { entity_name: name, sources }
}

/// A path between the two requested entities of the global graph.
pub fn get_global_path(g: &GlobalGraph, params: PathQuery) -> (r: PathResponse)
    requires
        g.wf(),
    ensures
        r.from@ == params.from@,
        r.to@ == params.to@,
        global_path_answer(g.model(), params.from@, params.to@, r.path),
{
    let path = g.find_path(params.from.as_str(), params.to.as_str());
    PathResponse { from: params.from, to: params.to, path }
}

/// The export of the global graph, under the name "global".
pub fn get_global_export(g: &GlobalGraph) -> (r: GraphExport)
    requires
        g.wf(),
    ensures
        r.session_id@ == "global"@,
        global_entities_answer(g.model(), r.entities@),
        global_relationships_answer(g.model(), r.edges@),
{
    GraphExport::new(string_from("global"), g.all_entities(), g.all_relationships())
}

/// The conflicts of the global graph (see [`graph_conflicts`]).
pub fn get_global_conflicts(g: &GlobalGraph) -> (r: ConflictsResponse)
    requires
        g.wf(),
    ensures
        r.conflicts@.map_values(|c: Conflict| conflict_view(c)) == graph_conflicts(g.model(), g.model().nodes.len()),
{
    ConflictsResponse { conflicts: g.conflicts() }
}

} // verus!
