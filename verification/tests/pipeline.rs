use engram::cluster::{check_learner, cluster_status, initial_members, local_raft_addr, AddLearnerRequest};
use std::collections::HashMap;
use engram::config::PeerConfig;
use engram::embedding::{after_rate_limit, check_api_key, check_embeddings, embeddings_endpoint, next_backoff_ms};
use engram::memory::{EmbedError, StoreError};
use engram::models::{EmbeddingStatus, Message};
use engram::raft::network::EngRaftNetwork;
use engram::requests::{embedding_queue_size, resolve_context_limits, session_exists, validate_fact, validate_search};
use engram::stores::lancedb::{
    check_embedding_dimension, check_search, escape_sql_string, indexes_to_create, message_filter, next_id_after, session_filter, RowIds,
};
use engram::stores::{redis_consolidated, redis_core_memory, redis_shortterm};
use engram::memory::InMemoryStore;
use engram::worker::{begin_embedding, needs_embedding, status_after_embedding, status_after_insert, EmbeddingJob};

fn msg(status: Option<EmbeddingStatus>) -> Option<Message> {
    Some(Message { id: Some("m".into()), role: "user".into(), content: "c".into(), timestamp: None, embedding_status: status })
}

#[test]
fn constructor_returns_error_when_api_key_is_missing() {
    assert!(matches!(check_api_key(""), Err(EmbedError::MissingApiKey)));
    assert!(matches!(check_api_key("   "), Err(EmbedError::MissingApiKey)));
    assert!(check_api_key("sk-test").is_ok());
}

#[test]
fn backoff_doubles_and_is_capped() {
    assert_eq!(next_backoff_ms(1000, 0), 1000);
    assert_eq!(next_backoff_ms(1000, 1), 2000);
    assert_eq!(next_backoff_ms(1000, 4), 16000);
    assert_eq!(next_backoff_ms(1000, 5), 30000);
    assert_eq!(after_rate_limit(3, 3, 1000), None);
    assert_eq!(after_rate_limit(1, 3, 1000), Some(2000));
}

#[test]
fn embedding_responses_are_checked() {
    assert!(check_embeddings(2, &[1536, 1536]).is_ok());
    match check_embeddings(2, &[]) {
        Err(EmbedError::InvalidResponse(m)) => assert_eq!(m, "response contained no embeddings"),
        other => panic!("unexpected {other:?}"),
    }
    match check_embeddings(2, &[1536]) {
        Err(EmbedError::InvalidResponse(m)) => assert_eq!(m, "expected 2 embeddings, received 1"),
        other => panic!("unexpected {other:?}"),
    }
    match check_embeddings(2, &[1536, 0]) {
        Err(EmbedError::InvalidResponse(m)) => assert_eq!(m, "response contained an empty embedding"),
        other => panic!("unexpected {other:?}"),
    }
}

#[test]
fn endpoint_drops_trailing_slashes() {
    assert_eq!(embeddings_endpoint("https://api.openai.com"), "https://api.openai.com/v1/embeddings");
    assert_eq!(embeddings_endpoint("http://127.0.0.1:4010//"), "http://127.0.0.1:4010/v1/embeddings");
}

#[test]
fn worker_skips_messages_already_embedded() {
    assert!(needs_embedding(&None));
    assert!(needs_embedding(&msg(Some(EmbeddingStatus::Pending))));
    assert!(needs_embedding(&msg(Some(EmbeddingStatus::Failed("x".into())))));
    assert!(!needs_embedding(&msg(Some(EmbeddingStatus::Completed))));
    assert!(!needs_embedding(&msg(Some(EmbeddingStatus::Processing))));
}

#[test]
fn worker_status_after_each_outcome() {
    assert!(status_after_embedding(&Ok(1)).is_none());
    assert!(matches!(status_after_embedding(&Ok(0)), Some(EmbeddingStatus::Failed(m)) if m == "embedding provider returned no embeddings"));
    assert!(matches!(status_after_embedding(&Err(EmbedError::MissingApiKey)), Some(EmbeddingStatus::Failed(m)) if m == "OPENAI_API_KEY is missing"));
    assert!(matches!(status_after_insert(&Ok(())), EmbeddingStatus::Completed));
    assert!(matches!(status_after_insert(&Err(StoreError::Message("disk".into()))), EmbeddingStatus::Failed(m) if m == "disk"));
}

#[test]
fn embedding_job_keeps_its_fields() {
    let job = EmbeddingJob::new("s1".into(), "m1".into(), "text".into());
    assert_eq!(job.session(), "s1");
    assert_eq!(job.message(), "m1");
    assert_eq!(job.content(), "text");
}

#[test]
fn request_defaults_and_validation() {
    assert_eq!(resolve_context_limits(None, None), (8000, 10));
    assert_eq!(resolve_context_limits(Some(1), Some(3)), (1, 3));
    assert_eq!(validate_search("  ", 5), Err("query must not be empty".to_string()));
    assert_eq!(validate_search("rust", 0), Err("top_k must be greater than 0".to_string()));
    assert_eq!(validate_search("rust", 5), Ok(()));
    assert_eq!(validate_fact(""), Err("fact must not be empty".to_string()));
    assert_eq!(validate_fact("likes tea"), Ok(()));
    assert_eq!(embedding_queue_size(10, 4), 6);
    assert_eq!(embedding_queue_size(4, 10), 0);
    assert!(session_exists(0, 1));
    assert!(!session_exists(0, 0));
}

#[test]
fn only_configured_peers_may_join() {
    let peers = vec![PeerConfig { id: 2, addr: "node2:9001".into() }];
    assert!(check_learner(&peers, &AddLearnerRequest { node_id: 2, addr: "node2:9001".into() }).is_ok());
    assert_eq!(
        check_learner(&peers, &AddLearnerRequest { node_id: 3, addr: "node3:9001".into() }),
        Err("node 3@node3:9001 is not in the configured cluster peers".to_string())
    );
    assert!(check_learner(&peers, &AddLearnerRequest { node_id: 2, addr: "elsewhere:1".into() }).is_err());
}

#[test]
fn redis_keys_round_trip() {
    assert_eq!(redis_shortterm::session_key("s1"), "session:s1:messages");
    assert_eq!(redis_shortterm::session_id_from_key("session:s1:messages"), "s1");
    assert_eq!(redis_core_memory::session_key("s1"), "session:s1:core_memory");
    assert_eq!(redis_core_memory::core_session_id_from_key("session:s1:core_memory"), "s1");
    assert_eq!(redis_consolidated::session_key("s1"), "consolidated:s1");
    assert_eq!(redis_consolidated::session_id_from_key("consolidated:s1"), "s1");
    assert_eq!(redis_shortterm::session_id_from_key("other"), "other");
}

#[test]
fn sql_strings_double_single_quotes() {
    assert_eq!(escape_sql_string("it's"), "it''s");
    assert_eq!(escape_sql_string("plain"), "plain");
}

#[test]
fn row_ids_count_up() {
    let mut ids = RowIds::new(5);
    assert_eq!(ids.next_row_id(), 5);
    assert_eq!(ids.next_row_id(), 6);
}

#[test]
fn network_client_targets_the_peer() {
    let conn = EngRaftNetwork.new_client("node2:9001");
    assert_eq!(conn.endpoint(), "http://node2:9001");
}

#[test]
fn initial_membership_has_this_node_and_the_peers() {
    assert_eq!(local_raft_addr(&Some("n1:9001".into()), &Some("0.0.0.0:9001".into())), "n1:9001");
    assert_eq!(local_raft_addr(&None, &Some("0.0.0.0:9001".into())), "0.0.0.0:9001");
    assert_eq!(local_raft_addr(&None, &None), "127.0.0.1:9001");
    let peers = vec![PeerConfig { id: 2, addr: "n2:9001".into() }, PeerConfig { id: 3, addr: "n3:9001".into() }, PeerConfig { id: 2, addr: "n2b:9001".into() }];
    let members = initial_members(1, "n1:9001".into(), &peers);
    assert_eq!(members.len(), 3);
    assert_eq!(members[&1], "n1:9001");
    assert_eq!(members[&2], "n2b:9001");
    assert_eq!(members[&3], "n3:9001");
}

#[test]
fn cluster_status_reports_replication_per_member() {
    let mut replication = HashMap::new();
    replication.insert(2u64, Some(7u64));
    replication.insert(3u64, None);
    let status = cluster_status(1, "Leader".into(), Some(1), 4, Some(9), vec![(1, "n1".into()), (2, "n2".into()), (3, "n3".into())], &Some(replication));
    assert_eq!(status.members.len(), 3);
    assert_eq!(status.members[0].last_log_index, None);
    assert_eq!(status.members[1].last_log_index, Some(7));
    assert_eq!(status.members[2].last_log_index, None);
    assert_eq!(status.leader_id, Some(1));
    let follower = cluster_status(2, "Follower".into(), Some(1), 4, None, vec![(1, "n1".into())], &None);
    assert_eq!(follower.members[0].last_log_index, None);
    assert_eq!(follower.role, "Follower");
}

fn pending(id: &str, content: &str) -> Message {
    Message { id: Some(id.into()), role: "user".into(), content: content.into(), timestamp: None, embedding_status: Some(EmbeddingStatus::Pending) }
}

/// One pass of the embedding worker, with `embedded` standing for the provider's answer.
fn run_job(store: &mut InMemoryStore, job: &EmbeddingJob, embedded: Result<usize, EmbedError>, calls: &mut u32) {
    if !begin_embedding(store, job) {
        return;
    }
    *calls += 1;
    let status = match status_after_embedding(&embedded) {
        Some(failed) => failed,
        None => status_after_insert(&Ok(())),
    };
    store.update_message_status(job.session(), job.message(), status);
}

#[test]
fn embedding_job_marks_message_completed() {
    let mut store = InMemoryStore::default();
    store.add_message("session-1", pending("message-1", "hello memory"));
    let job = EmbeddingJob::new("session-1".into(), "message-1".into(), "hello memory".into());
    let mut calls = 0;
    run_job(&mut store, &job, Ok(1), &mut calls);
    let m = store.get_message_by_id("session-1", "message-1").unwrap();
    assert!(matches!(m.embedding_status, Some(EmbeddingStatus::Completed)));
    assert_eq!(calls, 1);
}

#[test]
fn embedding_job_is_skipped_after_completion() {
    let mut store = InMemoryStore::default();
    store.add_message("session-dup", pending("dup", "remember me"));
    let job = EmbeddingJob::new("session-dup".into(), "dup".into(), "remember me".into());
    let mut calls = 0;
    run_job(&mut store, &job, Ok(1), &mut calls);
    run_job(&mut store, &job, Ok(1), &mut calls);
    assert_eq!(calls, 1);
}

#[test]
fn embedding_failure_marks_message_failed() {
    let mut store = InMemoryStore::default();
    store.add_message("session-err", pending("message-err", "oops"));
    let job = EmbeddingJob::new("session-err".into(), "message-err".into(), "oops".into());
    let mut calls = 0;
    run_job(&mut store, &job, Err(EmbedError::Message("embed failed".into())), &mut calls);
    match store.get_message_by_id("session-err", "message-err").unwrap().embedding_status {
        Some(EmbeddingStatus::Failed(m)) => assert!(m.contains("embed failed")),
        other => panic!("expected failed status, got {other:?}"),
    }
}

#[test]
fn begin_embedding_marks_processing_once() {
    let mut store = InMemoryStore::default();
    store.add_message("s", pending("m", "x"));
    let job = EmbeddingJob::new("s".into(), "m".into(), "x".into());
    assert!(begin_embedding(&mut store, &job));
    assert!(matches!(store.get_message_by_id("s", "m").unwrap().embedding_status, Some(EmbeddingStatus::Processing)));
    assert!(!begin_embedding(&mut store, &job));
}

#[test]
fn vector_store_filters_and_checks() {
    assert_eq!(session_filter("o'brien"), "session_id = 'o''brien'");
    assert_eq!(message_filter("m1"), "message_id = 'm1'");
    assert!(check_embedding_dimension(3, 3).is_ok());
    match check_embedding_dimension(2, 3) {
        Err(StoreError::Message(m)) => assert_eq!(m, "embedding must have dimension 3, got 2"),
        other => panic!("unexpected {other:?}"),
    }
    assert!(matches!(check_search(0, 2, 3), Ok(false)));
    assert!(matches!(check_search(5, 3, 3), Ok(true)));
    match check_search(5, 2, 3) {
        Err(StoreError::Message(m)) => assert_eq!(m, "query embedding must have dimension 3, got 2"),
        other => panic!("unexpected {other:?}"),
    }
    assert_eq!(next_id_after(&[]), 1);
    assert_eq!(next_id_after(&[4, 9, 2]), 10);
    assert_eq!(indexes_to_create(false, false, 10), (true, false));
    assert_eq!(indexes_to_create(true, false, 256), (false, true));
    assert_eq!(indexes_to_create(true, true, 1000), (false, false));
}

#[test]
fn embedding_jobs_are_equal_exactly_when_their_fields_are() {
    let job = |s: &str, m: &str, t: &str| EmbeddingJob::new(s.to_string(), m.to_string(), t.to_string());
    assert!(job("s1", "m1", "hello") == job("s1", "m1", "hello"));
    assert!(job("s1", "m1", "hello") != job("s1", "m2", "hello"));
    assert!(job("s1", "m1", "hello") != job("s2", "m1", "hello"));
    assert!(job("s1", "m1", "hello") != job("s1", "m1", "bye"));
    assert!(job("m1", "s1", "hello") != job("s1", "m1", "hello"), "fields are not swapped");
}
