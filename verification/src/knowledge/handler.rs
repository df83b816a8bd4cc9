//! What the session knowledge endpoints answer, computed from the session graph.

use vstd::prelude::*;
use crate::knowledge::export::GraphExport;
use crate::knowledge::graph::{
    entities_answer, path_answer, related_answer, relationships_answer, KnowledgeGraph, PathEdge, RelatedEntity,
};
use crate::knowledge::types::{Entity, Relationship};
use crate::topology::{spec_find, str_eq, string_from};

verus! {

/// A session's whole knowledge graph.
#[derive(Debug)]
pub struct KnowledgeResponse {
    pub session_id: String,
    pub entities: Vec<Entity>,
    pub edges: Vec<Relationship>,
}

/// The neighbours of one entity.
#[derive(Debug)]
pub struct RelatedResponse {
    pub entity_name: String,
    pub related: Vec<RelatedEntity>,
}

/// The two ends of a requested path.
#[derive(Debug)]
pub struct PathQuery {
    pub from: String,
    pub to: String,
}

/// A path between two entities, if there is one.
#[derive(Debug)]
pub struct PathResponse {
    pub from: String,
    pub to: String,
    pub path: Option<Vec<PathEdge>>,
}

/// The requested export format: "dot" for Graphviz, anything else for JSON.
#[derive(Debug)]
pub struct ExportQuery {
    pub format: String,
}

/// The export format when none is requested.
pub fn default_format() -> (r: String)
    ensures
        r@ == "json"@,
{
    string_from("json")
}

impl ExportQuery {
    /// Whether the Graphviz rendering was asked for.
    pub fn is_dot(&self) -> (r: bool)
        ensures
            r == (self.format@ == "dot"@),
    {
        str_eq(self.format.as_str(), "dot")
    }
}

/// All entities and relationships of a session; empty lists for an unknown session.
pub fn get_knowledge(kg: &KnowledgeGraph, session_id: &str) -> (r: KnowledgeResponse)
    requires
        kg.wf(),
    ensures
        r.session_id@ == session_id@,
        entities_answer(kg.session_or_empty(session_id@), r.entities@),
        relationships_answer(kg.session_or_empty(session_id@), r.edges@),
{
    KnowledgeResponse {
        session_id: string_from(session_id),
        entities: kg.all_entities(session_id),
        edges: kg.all_relationships(session_id),
    }
}

/// The neighbours of `entity_name` in a session; `None` (not found) when the
/// session has no entity of that name.
pub fn get_related(kg: &KnowledgeGraph, session_id: &str, entity_name: String) -> (r: Option<RelatedResponse>)
    requires
        kg.wf(),
    ensures
        r is None <==> spec_find(kg.session_or_empty(session_id@).names, entity_name@) is None,
        r matches Some(resp) ==> {
            &&& resp.entity_name@ == entity_name@
            &&& related_answer(kg.session_or_empty(session_id@), entity_name@, resp.related@)
        },
{
    let entities = kg.all_entities(session_id);
    let ghost m = kg.session_or_empty(session_id@);
    let mut found = false;
    let mut i: usize = 0;
    while i < entities.len()
        invariant
            entities_answer(m, entities@),
            i <= entities@.len(),
            found <==> (exists|j: int| 0 <= j < i && m.names[j] == entity_name@),
        decreases entities@.len() - i,
    {
        if str_eq(entities[i].name.as_str(), entity_name.as_str()) {
            found = true;
        }
        proof {
            assert(entities@[i as int].name@ == m.names[i as int]);
        }
        i = i + 1;
    }
    if !found {
        return None;
    }
    let related = kg.get_related(session_id, entity_name.as_str());
    Some(RelatedResponse { entity_name, related })
}

/// A path between the two requested entities of a session (see [`path_answer`]).
pub fn find_path(kg: &KnowledgeGraph, session_id: &str, params: PathQuery) -> (r: PathResponse)
    requires
        kg.wf(),
    ensures
        r.from@ == params.from@,
        r.to@ == params.to@,
        path_answer(kg.session_or_empty(session_id@), params.from@, params.to@, r.path),
{
    let path = kg.find_path(session_id, params.from.as_str(), params.to.as_str());
    PathResponse { from: params.from, to: params.to, path }
}

/// The export of a session's graph, to be rendered as the request's format says.
pub fn export_knowledge(kg: &KnowledgeGraph, session_id: &str) -> (r: GraphExport)
    requires
        kg.wf(),
    ensures
        r.session_id@ == session_id@,
        entities_answer(kg.session_or_empty(session_id@), r.entities@),
        relationships_answer(kg.session_or_empty(session_id@), r.edges@),
{
    GraphExport::new(string_from(session_id), kg.all_entities(session_id), kg.all_relationships(session_id))
}

} // verus!
