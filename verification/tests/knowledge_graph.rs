use engram::knowledge::export::{escape_dot, to_dot, GraphExport};
use engram::knowledge::graph::{KnowledgeGraph, RelationshipDirection};
use engram::knowledge::handler::{default_format, export_knowledge, find_path, get_knowledge, get_related, ExportQuery, PathQuery};
use engram::knowledge::types::{Entity, Relationship};

fn entity(name: &str, t: &str) -> Entity {
    Entity { name: name.into(), entity_type: t.into(), attributes: vec![] }
}

fn rel(from: &str, to: &str, t: &str) -> Relationship {
    Relationship { from: from.into(), to: to.into(), relationship_type: t.into() }
}

fn make_export() -> GraphExport {
    GraphExport::new(
        "s1".to_string(),
        vec![entity("Alice", "Person"), entity("OpenAI", "Organization")],
        vec![rel("Alice", "OpenAI", "works_at")],
    )
}

#[test]
fn who_works_at_openai() {
    let mut kg = KnowledgeGraph::new();
    kg.apply_extraction("s1", "m1", vec![entity("Alice", "Person"), entity("OpenAI", "Organization")], vec![rel("Alice", "OpenAI", "works_at")]);
    kg.apply_extraction("s1", "m2", vec![entity("Bob", "Person"), entity("OpenAI", "Organization")], vec![rel("Bob", "OpenAI", "works_at")]);

    let related = kg.get_related("s1", "OpenAI");
    let workers: Vec<&str> = related
        .iter()
        .filter(|r| r.relationship_type == "works_at" && matches!(r.direction, RelationshipDirection::Incoming))
        .map(|r| r.name.as_str())
        .collect();

    assert!(workers.contains(&"Alice"), "Alice should work at OpenAI");
    assert!(workers.contains(&"Bob"), "Bob should work at OpenAI");
}

#[test]
fn who_does_alice_know() {
    let mut kg = KnowledgeGraph::new();
    kg.apply_extraction("s1", "m1", vec![entity("Alice", "Person"), entity("Bob", "Person")], vec![rel("Alice", "Bob", "knows")]);

    let related = kg.get_related("s1", "Alice");
    let known: Vec<&str> = related
        .iter()
        .filter(|r| r.relationship_type == "knows" && matches!(r.direction, RelationshipDirection::Outgoing))
        .map(|r| r.name.as_str())
        .collect();

    assert!(known.contains(&"Bob"), "Alice should know Bob");
}

#[test]
fn path_alice_to_bob_direct() {
    let mut kg = KnowledgeGraph::new();
    kg.apply_extraction("s1", "m1", vec![entity("Alice", "Person"), entity("Bob", "Person")], vec![rel("Alice", "Bob", "knows")]);

    let path = kg.find_path("s1", "Alice", "Bob").unwrap();
    assert_eq!(path.len(), 1);
    assert_eq!(path[0].relationship_type, "knows");
    assert_eq!(path[0].from, "Alice");
    assert_eq!(path[0].to, "Bob");
}

#[test]
fn path_alice_to_bob_via_openai() {
    let mut kg = KnowledgeGraph::new();
    kg.apply_extraction("s1", "m1", vec![entity("Alice", "Person"), entity("OpenAI", "Organization")], vec![rel("Alice", "OpenAI", "works_at")]);
    kg.apply_extraction("s1", "m2", vec![entity("Bob", "Person"), entity("OpenAI", "Organization")], vec![rel("OpenAI", "Bob", "employs")]);

    let path = kg.find_path("s1", "Alice", "Bob").unwrap();
    assert_eq!(path.len(), 2);
    assert_eq!(path[0].from, "Alice");
    assert_eq!(path[1].to, "Bob");
}

#[test]
fn find_path_prefers_the_shorter_route() {
    let mut kg = KnowledgeGraph::new();
    kg.apply_extraction(
        "s1",
        "m1",
        vec![entity("A", "Node"), entity("B", "Node"), entity("C", "Node"), entity("D", "Node")],
        vec![rel("A", "B", "to"), rel("B", "C", "to"), rel("C", "D", "to"), rel("A", "D", "shortcut")],
    );
    let path = kg.find_path("s1", "A", "D").unwrap();
    assert_eq!(path.len(), 1);
    assert_eq!(path[0].relationship_type, "shortcut");
}

#[test]
fn find_path_through_a_cycle_back_to_the_start() {
    let mut kg = KnowledgeGraph::new();
    kg.apply_extraction(
        "s1",
        "m1",
        vec![entity("A", "Node"), entity("B", "Node"), entity("C", "Node")],
        vec![rel("A", "B", "to"), rel("B", "A", "back"), rel("A", "A", "self"), rel("B", "C", "on")],
    );
    let path = kg.find_path("s1", "A", "C").unwrap();
    assert_eq!(path.len(), 2);
    assert_eq!(path[0].from, "A");
    assert_eq!(path[0].to, "B");
    assert_eq!(path[1].to, "C");
    assert!(kg.find_path("s1", "C", "A").is_none());
    assert_eq!(kg.find_path("s1", "B", "B").unwrap().len(), 0);
}

#[test]
fn apply_extraction_is_idempotent() {
    let mut kg = KnowledgeGraph::new();
    assert!(kg.apply_extraction("s1", "m1", vec![entity("Alice", "Person")], vec![]));
    assert!(!kg.apply_extraction("s1", "m1", vec![entity("Alice", "Person")], vec![]));
    assert_eq!(kg.all_entities("s1").len(), 1);
}

#[test]
fn delete_session_removes_all_data_and_resets_dedup() {
    let mut kg = KnowledgeGraph::new();
    kg.apply_extraction("s1", "m1", vec![entity("Alice", "Person"), entity("Bob", "Person")], vec![rel("Alice", "Bob", "knows")]);
    kg.delete_session("s1");
    assert!(kg.all_entities("s1").is_empty());
    assert!(kg.apply_extraction("s1", "m1", vec![entity("Alice", "Person")], vec![]));
}

#[test]
fn get_related_empty_for_unknown_entity() {
    let kg = KnowledgeGraph::new();
    assert!(kg.get_related("s1", "nobody").is_empty());
}

#[test]
fn find_path_returns_none_when_no_path_exists() {
    let mut kg = KnowledgeGraph::new();
    kg.apply_extraction("s1", "m1", vec![entity("Alice", "Person")], vec![]);
    kg.apply_extraction("s1", "m2", vec![entity("Bob", "Person")], vec![]);
    assert!(kg.find_path("s1", "Alice", "Bob").is_none());
}

#[test]
fn session_isolation_prevents_cross_session_queries() {
    let mut kg = KnowledgeGraph::new();
    kg.apply_extraction("s1", "m1", vec![entity("Alice", "Person")], vec![]);
    assert!(kg.all_entities("s2").is_empty());
}

#[test]
fn repeated_entity_keeps_one_node_and_every_relationship_adds_an_edge() {
    let mut kg = KnowledgeGraph::new();
    kg.apply_extraction("s1", "m1", vec![entity("Alice", "Person"), entity("Bob", "Person")], vec![rel("Alice", "Bob", "knows")]);
    kg.apply_extraction("s1", "m2", vec![entity("Alice", "Person")], vec![rel("Alice", "Bob", "knows")]);
    assert_eq!(kg.session_counts("s1"), (2, 2));
    assert_eq!(kg.all_relationships("s1").len(), 2);
    assert_eq!(kg.session_counts("nope"), (0, 0));
}

#[test]
fn empty_graph_produces_minimal_dot() {
    let empty = GraphExport::new("s1".into(), vec![], vec![]);
    let dot = to_dot(&empty);
    assert_eq!(dot.trim(), "digraph knowledge {\n}");
}

#[test]
fn dot_contains_entity_nodes_with_type() {
    let dot = to_dot(&make_export());
    assert!(dot.contains("\"Alice\""));
    assert!(dot.contains("\"OpenAI\""));
    assert!(dot.contains("Person"));
}

#[test]
fn dot_contains_edge_with_label() {
    let dot = to_dot(&make_export());
    assert!(dot.contains("\"Alice\" -> \"OpenAI\""));
    assert!(dot.contains("works_at"));
}

#[test]
fn dot_escapes_double_quotes_in_names() {
    let export = GraphExport::new("s1".into(), vec![entity("Alice \"A\"", "Person")], vec![]);
    let dot = to_dot(&export);
    assert!(!dot.contains("Alice \"A\""));
}

#[test]
fn dot_text_is_exact() {
    let dot = to_dot(&make_export());
    assert_eq!(
        dot,
        "digraph knowledge {\n  \"Alice\" [label=\"Alice\\n(Person)\"];\n  \"OpenAI\" [label=\"OpenAI\\n(Organization)\"];\n  \"Alice\" -> \"OpenAI\" [label=\"works_at\"];\n}"
    );
}

#[test]
fn escape_dot_precedes_quotes_and_backslashes() {
    assert_eq!(escape_dot("a\"b\\c"), "a\\\"b\\\\c");
    assert_eq!(escape_dot("plain"), "plain");
}

#[test]
fn get_knowledge_returns_empty_for_new_session() {
    let kg = KnowledgeGraph::new();
    let body = get_knowledge(&kg, "s1");
    assert_eq!(body.session_id, "s1");
    assert!(body.entities.is_empty());
    assert!(body.edges.is_empty());
}

#[test]
fn get_knowledge_returns_graph_state() {
    let mut kg = KnowledgeGraph::new();
    kg.apply_extraction("s1", "m1", vec![entity("Alice", "Person"), entity("OpenAI", "Organization")], vec![rel("Alice", "OpenAI", "works_at")]);
    let body = get_knowledge(&kg, "s1");
    assert_eq!(body.entities.len(), 2);
    assert_eq!(body.edges.len(), 1);
}

#[test]
fn get_related_returns_connections() {
    let mut kg = KnowledgeGraph::new();
    kg.apply_extraction("s1", "m1", vec![entity("Alice", "Person"), entity("OpenAI", "Organization")], vec![rel("Alice", "OpenAI", "works_at")]);
    let body = get_related(&kg, "s1", "Alice".to_string()).expect("known entity");
    assert_eq!(body.entity_name, "Alice");
    assert!(!body.related.is_empty());
    assert_eq!(body.related[0].name, "OpenAI");
    assert_eq!(body.related[0].relationship_type, "works_at");
}

#[test]
fn get_related_returns_404_for_unknown_entity() {
    let kg = KnowledgeGraph::new();
    assert!(get_related(&kg, "s1", "nobody".to_string()).is_none());
}

#[test]
fn export_dot_returns_dot_string() {
    let mut kg = KnowledgeGraph::new();
    kg.apply_extraction("s1", "m1", vec![entity("Alice", "Person")], vec![]);
    let query = ExportQuery { format: "dot".to_string() };
    assert!(query.is_dot());
    let body = to_dot(&export_knowledge(&kg, "s1"));
    assert!(body.contains("digraph knowledge"));
    assert!(body.contains("Alice"));
}

#[test]
fn export_defaults_to_json() {
    assert_eq!(default_format(), "json");
    assert!(!ExportQuery { format: default_format() }.is_dot());
    assert!(!ExportQuery { format: "DOT".to_string() }.is_dot());
}

#[test]
fn path_response_echoes_the_query() {
    let mut kg = KnowledgeGraph::new();
    kg.apply_extraction("s1", "m1", vec![entity("Alice", "Person"), entity("Bob", "Person")], vec![rel("Alice", "Bob", "knows")]);
    let r = find_path(&kg, "s1", PathQuery { from: "Alice".into(), to: "Bob".into() });
    assert_eq!(r.from, "Alice");
    assert_eq!(r.to, "Bob");
    assert_eq!(r.path.unwrap().len(), 1);
    let back = find_path(&kg, "s1", PathQuery { from: "Bob".into(), to: "Alice".into() });
    assert!(back.path.is_none());
}

#[test]
fn dot_export_has_one_line_per_entity_and_relationship() {
    let export = GraphExport::new(
        "s1".to_string(),
        vec![entity("Alice \"A\"", "Person"), entity("OpenAI", "Organization"), entity("Bob", "Person")],
        vec![rel("Alice \"A\"", "OpenAI", "works_at"), rel("Bob", "OpenAI", "works_at")],
    );
    let dot = to_dot(&export);
    let lines: Vec<&str> = dot.split('\n').collect();
    assert_eq!(lines.len(), 3 + 2 + 2);
    assert_eq!(lines[0], "digraph knowledge {");
    assert_eq!(lines[1], "  \"Alice \\\"A\\\"\" [label=\"Alice \\\"A\\\"\\n(Person)\"];");
    assert_eq!(lines[4], "  \"Alice \\\"A\\\"\" -> \"OpenAI\" [label=\"works_at\"];");
    assert_eq!(lines[6], "}");
}
