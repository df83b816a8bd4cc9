use engram::knowledge::global::Visibility;
use engram::knowledge::types::{Entity, Relationship};
use engram::raft::snapshot::{EngramSnapshot, SessionFacts, SNAPSHOT_VERSION};
use engram::raft::state_machine::{snapshot_id, MemoryState, SideJob};
use engram::raft::types::{MemoryCommand, MessagePayload};
use engram::knowledge::graph::GraphSnapshot;

fn add_message(session: &str, id: &str, content: &str) -> MemoryCommand {
    MemoryCommand::AddMessage {
        session_id: session.to_string(),
        message: MessagePayload { id: id.to_string(), role: "user".to_string(), content: content.to_string(), timestamp: 1_700_000_000_000_000_000 },
    }
}

fn entity(name: &str, t: &str) -> Entity {
    Entity { name: name.into(), entity_type: t.into(), attributes: vec![] }
}

#[test]
fn add_message_writes_to_short_term() {
    let mut sm = MemoryState::new();
    sm.apply(0, add_message("s1", "m1", "hello distributed"));
    let msgs = sm.short_term().get_recent("s1", 10);
    assert_eq!(msgs.len(), 1);
    assert_eq!(msgs[0].content, "hello distributed");
}

#[test]
fn add_message_enqueues_embedding_job() {
    let mut sm = MemoryState::new();
    let jobs = sm.apply(0, add_message("s1", "m1", "embed me"));
    assert!(matches!(&jobs[0], SideJob::Embed(j) if j.content() == "embed me" && j.message() == "m1" && j.session() == "s1"));
}

#[test]
fn delete_session_clears_redis_and_enqueues_lancedb_delete() {
    let mut sm = MemoryState::new();
    sm.apply(0, add_message("s2", "m1", "data"));
    let jobs = sm.apply(1, MemoryCommand::DeleteSession { session_id: "s2".to_string() });
    assert_eq!(sm.short_term().get_recent("s2", 10).len(), 0);
    assert!(matches!(&jobs[0], SideJob::DropVectors(s) if s == "s2"));
}

#[test]
fn noop_command_is_ignored() {
    let mut sm = MemoryState::new();
    let jobs = sm.apply(0, MemoryCommand::NoOp);
    assert!(jobs.is_empty());
    assert_eq!(sm.short_term().get_recent("any", 10).len(), 0);
    assert_eq!(sm.last_applied(), Some(0));
}

#[test]
fn add_message_enqueues_knowledge_job() {
    let mut sm = MemoryState::new();
    let jobs = sm.apply(0, add_message("s1", "m1", "Alice works at OpenAI"));
    match &jobs[1] {
        SideJob::Extract(job) => {
            assert_eq!(job.session_id, "s1");
            assert_eq!(job.message_id, "m1");
            assert_eq!(job.text, "Alice works at OpenAI");
        }
        _ => panic!("knowledge job should be enqueued"),
    }
}

#[test]
fn add_knowledge_updates_graph() {
    let mut sm = MemoryState::new();
    sm.apply(0, MemoryCommand::AddKnowledge {
        session_id: "s1".into(),
        message_id: "m1".into(),
        entities: vec![entity("Alice", "Person"), entity("OpenAI", "Organization")],
        relationships: vec![Relationship { from: "Alice".into(), to: "OpenAI".into(), relationship_type: "works_at".into() }],
    });
    let kg = sm.knowledge_graph();
    assert_eq!(kg.all_entities("s1").len(), 2);
    let related = kg.get_related("s1", "OpenAI");
    assert!(related.iter().any(|r| r.name == "Alice"));
}

#[test]
fn delete_session_clears_knowledge_graph() {
    let mut sm = MemoryState::new();
    sm.apply(0, MemoryCommand::AddKnowledge {
        session_id: "s1".into(),
        message_id: "m1".into(),
        entities: vec![entity("Alice", "Person")],
        relationships: vec![],
    });
    sm.apply(1, MemoryCommand::DeleteSession { session_id: "s1".into() });
    assert!(sm.knowledge_graph().all_entities("s1").is_empty());
}

#[test]
fn install_snapshot_sets_last_applied_to_meta_log_id() {
    let mut src = MemoryState::new();
    src.apply(7, MemoryCommand::AddFact { session_id: "s1".into(), fact: "f".into() });
    let snap = src.build_snapshot();

    let mut dst = MemoryState::new();
    dst.install_snapshot(snap, src.last_applied());
    assert_eq!(dst.last_applied(), Some(7));
    assert_eq!(dst.short_term().get_recent("s1", 10).len(), 0);
}

#[test]
fn apply_build_install_reproduces_state() {
    let mut src = MemoryState::new();
    src.apply(0, MemoryCommand::AddKnowledge {
        session_id: "s1".into(),
        message_id: "m1".into(),
        entities: vec![entity("Alice", "Person"), entity("Bob", "Person")],
        relationships: vec![Relationship { from: "Alice".into(), to: "Bob".into(), relationship_type: "knows".into() }],
    });
    src.apply(1, MemoryCommand::AddFact { session_id: "s1".into(), fact: "likes tea".into() });
    let src_facts = src.core_memory().get_facts("s1");

    let snap = src.build_snapshot();
    let mut dst = MemoryState::new();
    dst.install_snapshot(snap, src.last_applied());

    assert_eq!(dst.core_memory().get_facts("s1"), src_facts);
    let path = dst.knowledge_graph().find_path("s1", "Alice", "Bob").unwrap();
    assert_eq!(path.len(), 1);
}

#[test]
fn build_snapshot_meta_index_equals_last_applied() {
    let mut sm = MemoryState::new();
    for i in 0..=4u64 {
        sm.apply(i, MemoryCommand::AddFact { session_id: "s1".into(), fact: format!("f{i}") });
    }
    assert_eq!(sm.last_applied(), Some(4));
}

#[test]
fn built_snapshot_holds_applied_state() {
    let mut sm = MemoryState::new();
    sm.apply(0, MemoryCommand::AddKnowledge {
        session_id: "s1".into(),
        message_id: "m1".into(),
        entities: vec![entity("Alice", "Person")],
        relationships: vec![],
    });
    sm.apply(1, MemoryCommand::AddFact { session_id: "s1".into(), fact: "likes coffee".into() });
    let payload = sm.build_snapshot();
    assert_eq!(payload.version, SNAPSHOT_VERSION);
    assert!(payload.knowledge_graph.sessions.iter().any(|s| s.session_id == "s1"));
    assert!(payload.core_memory.iter().any(|s| s.facts.contains(&"likes coffee".to_string())));
    assert_eq!(payload.knowledge_graph.processed.len(), 1);
}

#[test]
fn restored_graph_remembers_applied_extractions() {
    let mut src = MemoryState::new();
    let cmd = || MemoryCommand::AddKnowledge {
        session_id: "s1".into(),
        message_id: "m1".into(),
        entities: vec![entity("Alice", "Person")],
        relationships: vec![],
    };
    src.apply(0, cmd());
    let mut dst = MemoryState::new();
    dst.install_snapshot(src.build_snapshot(), src.last_applied());
    dst.apply(1, cmd());
    assert_eq!(dst.knowledge_graph().session_counts("s1"), (1, 0));
    assert!(dst.knowledge_graph().is_processed("s1", "m1"));
}

#[test]
fn apply_summary_records_summary_and_drops_consumed_messages() {
    let mut sm = MemoryState::new();
    sm.apply(0, add_message("s1", "m1", "one"));
    sm.apply(1, add_message("s1", "m2", "two"));
    sm.apply(2, MemoryCommand::ApplySummary {
        session_id: "s1".into(),
        summary_id: "sum".into(),
        summary_text: "one".into(),
        consumed_message_ids: vec!["m1".into()],
        model: "mock".into(),
        prompt_version: "summarize_v1".into(),
    });
    let left = sm.short_term().get_recent("s1", 10);
    assert_eq!(left.len(), 1);
    assert_eq!(left[0].content, "two");
}

#[test]
fn snapshot_carries_version_two() {
    let snap = EngramSnapshot {
        version: SNAPSHOT_VERSION,
        short_term: vec![],
        core_memory: vec![SessionFacts { session_id: "s1".into(), facts: vec!["f".into()] }],
        knowledge_graph: GraphSnapshot::default(),
        global_graph: None,
        visibility: vec![],
        session_agents: vec![],
    };
    assert_eq!(snap.version, 2);
}

#[test]
fn visibility_command_changes_no_memory() {
    let mut sm = MemoryState::new();
    sm.apply(0, add_message("s1", "m1", "x"));
    let jobs = sm.apply(1, MemoryCommand::SetSessionVisibility { session_id: "s1".into(), visibility: Visibility::Shared });
    assert!(jobs.is_empty());
    assert_eq!(sm.short_term().get_recent("s1", 10).len(), 1);
}

#[test]
fn snapshot_ids_name_index_and_count() {
    assert_eq!(snapshot_id(Some(42), 3), "42-3");
    assert_eq!(snapshot_id(None, 0), "0-0");
}

#[test]
fn recovery_with_no_snapshot_flushes_stores() {
    let mut sm = MemoryState::new();
    sm.apply(0, add_message("stale", "x", "old"));
    sm.recover(None);
    assert!(sm.short_term().get_recent("stale", 10).is_empty());
}

#[test]
fn recovery_restores_persisted_snapshot() {
    let mut src = MemoryState::new();
    src.apply(0, MemoryCommand::AddFact { session_id: "s1".into(), fact: "remember me".into() });
    let persisted = (src.last_applied(), src.build_snapshot());

    let mut sm = MemoryState::new();
    sm.recover(Some(persisted));
    assert_eq!(sm.core_memory().get_facts("s1"), vec!["remember me".to_string()]);
    assert_eq!(sm.last_applied(), Some(0));
}
