use std::collections::HashMap;

use engram::knowledge::export::to_dot;
use engram::knowledge::global::{GlobalGraph, Visibility};
use engram::knowledge::global_handler::{
    get_global, get_global_conflicts, get_global_entity, get_global_entity_sources, get_global_export, get_global_path,
    visibility_write_error, PathQuery,
};
use engram::knowledge::types::{Entity, Relationship};
use engram::memory::MemoryServerError;

fn ent(name: &str, t: &str) -> Entity {
    Entity { name: name.into(), entity_type: t.into(), attributes: vec![] }
}

fn ent_attr(name: &str, k: &str, v: &str) -> Entity {
    Entity { name: name.into(), entity_type: "Person".into(), attributes: vec![(k.into(), v.into())] }
}

fn rel(f: &str, t: &str, ty: &str) -> Relationship {
    Relationship { from: f.into(), to: t.into(), relationship_type: ty.into() }
}

#[test]
fn merges_two_sessions_into_one_global_view() {
    let mut g = GlobalGraph::new();
    g.merge("s1", 0, vec![ent("Alice", "Person"), ent("OpenAI", "Organization")], vec![rel("Alice", "OpenAI", "works_at")]);
    g.merge("s2", 1, vec![ent("Bob", "Person"), ent("OpenAI", "Organization")], vec![rel("Bob", "OpenAI", "works_at")]);
    let related = g.get_related("OpenAI");
    let names: Vec<&str> = related.iter().map(|r| r.name.as_str()).collect();
    assert!(names.contains(&"Alice"));
    assert!(names.contains(&"Bob"));
}

#[test]
fn provenance_lists_contributing_sessions() {
    let mut g = GlobalGraph::new();
    g.merge("s1", 0, vec![ent("OpenAI", "Organization")], vec![]);
    g.merge("s2", 1, vec![ent("OpenAI", "Organization")], vec![]);
    let mut sources = g.entity_sources("OpenAI");
    sources.sort();
    assert_eq!(sources, vec!["s1".to_string(), "s2".to_string()]);
}

#[test]
fn attribute_conflict_resolves_last_writer_wins_by_index() {
    let mut g = GlobalGraph::new();
    g.merge("s1", 5, vec![ent_attr("Alice", "role", "eng")], vec![]);
    g.merge("s2", 9, vec![ent_attr("Alice", "role", "manager")], vec![]);
    assert_eq!(g.entity_attribute("Alice", "role").as_deref(), Some("manager"));
    // Lower index applied later must NOT overwrite a higher index.
    g.merge("s3", 7, vec![ent_attr("Alice", "role", "intern")], vec![]);
    assert_eq!(g.entity_attribute("Alice", "role").as_deref(), Some("manager"));
}

#[test]
fn pruning_one_session_keeps_elements_with_other_contributors() {
    let mut g = GlobalGraph::new();
    g.merge("s1", 0, vec![ent("Alice", "Person")], vec![]);
    g.merge("s2", 1, vec![ent("Alice", "Person")], vec![]);
    g.prune_session("s1");
    assert!(g.all_entities().iter().any(|e| e.name == "Alice"));
    g.prune_session("s2");
    assert!(g.all_entities().is_empty());
}

#[test]
fn pruning_drops_orphaned_edges() {
    let mut g = GlobalGraph::new();
    g.merge("s1", 0, vec![ent("Alice", "Person"), ent("Bob", "Person")], vec![rel("Alice", "Bob", "knows")]);
    g.prune_session("s1");
    assert!(g.find_path("Alice", "Bob").is_none());
}

#[test]
fn prune_shared_entity_unique_relationship() {
    let mut g = GlobalGraph::new();
    g.merge("s1", 0, vec![ent("Alice", "Person"), ent("Bob", "Person")], vec![rel("Alice", "Bob", "knows")]);
    g.merge("s2", 1, vec![ent("Alice", "Person")], vec![]);
    g.prune_session("s1");
    assert!(g.all_entities().iter().any(|e| e.name == "Alice"), "Alice survives via s2");
    assert!(g.find_path("Alice", "Bob").is_none(), "the unique s1 edge is gone");
}

#[test]
fn prune_unique_entity_shared_relationship() {
    let mut g = GlobalGraph::new();
    g.merge("s1", 0, vec![ent("Alice", "Person"), ent("Bob", "Person"), ent("Carol", "Person")], vec![rel("Alice", "Bob", "knows")]);
    g.merge("s2", 1, vec![ent("Alice", "Person"), ent("Bob", "Person")], vec![rel("Alice", "Bob", "knows")]);
    g.prune_session("s1");
    assert!(g.find_path("Alice", "Bob").is_some(), "shared edge survives via s2");
    assert!(!g.all_entities().iter().any(|e| e.name == "Carol"), "unique Carol is gone");
}

#[test]
fn prune_shared_entity_and_shared_relationship() {
    let mut g = GlobalGraph::new();
    g.merge("s1", 0, vec![ent("Alice", "Person"), ent("Bob", "Person")], vec![rel("Alice", "Bob", "knows")]);
    g.merge("s2", 1, vec![ent("Alice", "Person"), ent("Bob", "Person")], vec![rel("Alice", "Bob", "knows")]);
    g.prune_session("s1");
    assert!(g.find_path("Alice", "Bob").is_some(), "fully shared element survives one prune");
    g.prune_session("s2");
    assert!(g.all_entities().is_empty(), "removing the last contributor clears it");
}

#[test]
fn global_graph_tracks_agent_provenance() {
    let mut g = GlobalGraph::new();
    g.merge_with_agent("s1", Some("agent-7".to_string()), 0, vec![ent("OpenAI", "Organization")], vec![]);
    assert_eq!(g.entity_agents("OpenAI"), vec!["agent-7".to_string()]);
}

#[test]
fn agent_provenance_survives_snapshot_round_trip() {
    let mut g = GlobalGraph::new();
    g.merge_with_agent("s1", Some("agent-7".to_string()), 0, vec![ent("OpenAI", "Organization")], vec![]);
    let g2 = GlobalGraph::from_snapshot(g.to_snapshot());
    assert_eq!(g2.entity_agents("OpenAI"), vec!["agent-7".to_string()]);
    assert_eq!(g2.entity_sources("OpenAI"), vec!["s1".to_string()]);
}

#[test]
fn contradictions_are_reported() {
    let mut g = GlobalGraph::new();
    g.merge("s1", 0, vec![ent("Alice", "Person"), ent("X", "Organization")], vec![rel("Alice", "X", "works_at")]);
    g.merge("s2", 1, vec![ent("Alice", "Person"), ent("Y", "Organization")], vec![rel("Alice", "Y", "works_at")]);
    let conflicts = g.conflicts();
    assert!(conflicts.iter().any(|c| c.from == "Alice" && c.relationship_type == "works_at"));
}

#[test]
fn visibility_defaults_private() {
    assert_eq!(Visibility::default(), Visibility::Private);
}

#[test]
fn snapshot_round_trip_keeps_provenance_attributes_and_edges() {
    let mut g = GlobalGraph::new();
    g.merge("s1", 3, vec![ent_attr("Alice", "role", "eng"), ent("OpenAI", "Organization")], vec![rel("Alice", "OpenAI", "works_at")]);
    let g2 = GlobalGraph::from_snapshot(g.to_snapshot());
    assert_eq!(g2.entity_sources("OpenAI"), vec!["s1".to_string()]);
    assert_eq!(g2.entity_attribute("Alice", "role").as_deref(), Some("eng"));
    assert!(g2.find_path("Alice", "OpenAI").is_some());
}

#[test]
fn same_relationship_from_two_sessions_is_one_edge() {
    let mut g = GlobalGraph::new();
    g.merge("s1", 0, vec![ent("Alice", "Person"), ent("Bob", "Person")], vec![rel("Alice", "Bob", "knows")]);
    g.merge("s2", 1, vec![ent("Alice", "Person"), ent("Bob", "Person")], vec![rel("Alice", "Bob", "knows")]);
    assert_eq!(g.all_entities().len(), 2);
    assert_eq!(g.all_relationships().len(), 1);
}

#[test]
fn one_conflict_lists_both_targets() {
    let mut g = GlobalGraph::new();
    g.merge("s1", 0, vec![ent("Alice", "Person"), ent("X", "Organization")], vec![rel("Alice", "X", "works_at")]);
    g.merge("s2", 1, vec![ent("Alice", "Person"), ent("Y", "Organization")], vec![rel("Alice", "Y", "works_at"), rel("Alice", "Y", "likes")]);
    let conflicts = g.conflicts();
    assert_eq!(conflicts.len(), 1);
    assert_eq!(conflicts[0].targets.len(), 2);
    assert!(conflicts[0].targets.contains(&"X".to_string()));
    assert!(conflicts[0].targets.contains(&"Y".to_string()));
}

#[test]
fn global_handlers_answer_from_the_graph() {
    let mut g = GlobalGraph::new();
    g.merge("s1", 0, vec![ent("Alice", "Person"), ent("OpenAI", "Organization")], vec![rel("Alice", "OpenAI", "works_at")]);
    let all = get_global(&g);
    assert_eq!(all.entities.len(), 2);
    assert_eq!(all.edges.len(), 1);
    let related = get_global_entity(&g, "Alice".to_string());
    assert_eq!(related.entity_name, "Alice");
    assert_eq!(related.related.len(), 1);
    assert_eq!(related.related[0].name, "OpenAI");
    assert!(get_global_entity(&g, "nobody".to_string()).related.is_empty());
    let sources = get_global_entity_sources(&g, "OpenAI".to_string());
    assert_eq!(sources.sources, vec!["s1".to_string()]);
    let path = get_global_path(&g, PathQuery { from: "Alice".into(), to: "OpenAI".into() });
    assert_eq!(path.path.unwrap().len(), 1);
    let export = get_global_export(&g);
    assert_eq!(export.session_id, "global");
    assert!(to_dot(&export).contains("\"Alice\" -> \"OpenAI\""));
    assert!(get_global_conflicts(&g).conflicts.is_empty());
}

#[test]
fn refused_visibility_write_redirects_to_a_known_leader() {
    let mut peers = HashMap::new();
    peers.insert(2u64, "node2:3000".to_string());
    match visibility_write_error(&peers, Some(Some(2)), "s1", "forward") {
        MemoryServerError::RedirectToLeader(u) => assert_eq!(u, "http://node2:3000/sessions/s1/visibility"),
        other => panic!("unexpected {other:?}"),
    }
    assert!(matches!(visibility_write_error(&peers, Some(Some(3)), "s1", "forward"), MemoryServerError::NoLeader));
    assert!(matches!(visibility_write_error(&peers, Some(None), "s1", "forward"), MemoryServerError::NoLeader));
    match visibility_write_error(&peers, None, "s1", "disk full") {
        MemoryServerError::Internal(m) => assert_eq!(m, "raft error: disk full"),
        other => panic!("unexpected {other:?}"),
    }
}

#[test]
fn pruning_a_session_twice_changes_nothing_more() {
    let mut g = GlobalGraph::new();
    g.merge("s1", 0, vec![ent("Alice", "Person"), ent("Bob", "Person"), ent("Carol", "Person")], vec![rel("Alice", "Bob", "knows"), rel("Bob", "Carol", "knows")]);
    g.merge("s2", 1, vec![ent("Alice", "Person"), ent("Bob", "Person")], vec![rel("Alice", "Bob", "knows")]);
    g.prune_session("s1");
    let names = |g: &GlobalGraph| g.all_entities().iter().map(|e| e.name.clone()).collect::<Vec<_>>();
    let edges = |g: &GlobalGraph| g.all_relationships().iter().map(|r| (r.from.clone(), r.to.clone(), r.relationship_type.clone())).collect::<Vec<_>>();
    let (n1, e1) = (names(&g), edges(&g));
    g.prune_session("s1");
    assert_eq!(names(&g), n1);
    assert_eq!(edges(&g), e1);
    assert_eq!(n1, vec!["Alice".to_string(), "Bob".to_string()]);
    assert_eq!(e1.len(), 1);
    assert_eq!(g.entity_sources("Alice"), vec!["s2".to_string()]);
}
