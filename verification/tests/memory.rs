use engram::memory::{
    conversation_text, removable_prefix_len, trim_messages_to_token_budget, EmbedError, InMemoryCoreMemoryStore,
    InMemoryStore, MemoryError, MemoryServerError, OpenAITokenCounter, StoreError, TokenCounter,
};
use engram::models::{EmbeddingStatus, Message};

fn message(role: &str, content: &str) -> Message {
    Message {
        id: None,
        role: role.to_string(),
        content: content.to_string(),
        timestamp: None,
        embedding_status: Some(EmbeddingStatus::Pending),
    }
}

fn with_id(mut m: Message, id: &str) -> Message {
    m.id = Some(id.into());
    m
}

#[test]
fn in_memory_store_adds_messages_and_returns_recent_slice() {
    let mut store = InMemoryStore::default();
    store.add_message("session-1", message("user", "first"));
    store.add_message("session-1", message("assistant", "second"));
    store.add_message("session-1", message("user", "third"));

    let recent = store.get_recent("session-1", 2);
    assert_eq!(recent.len(), 2);
    assert_eq!(recent[0].content, "second");
    assert_eq!(recent[1].content, "third");
}

#[test]
fn in_memory_store_trim_keeps_latest_messages() {
    let mut store = InMemoryStore::default();
    store.add_message("session-1", message("user", "first"));
    store.add_message("session-1", message("assistant", "second"));
    store.add_message("session-1", message("user", "third"));

    store.trim("session-1", 2);

    let recent = store.get_recent("session-1", 10);
    assert_eq!(recent.len(), 2);
    assert_eq!(recent[0].content, "second");
    assert_eq!(recent[1].content, "third");
}

#[test]
fn in_memory_store_trim_to_token_budget_preserves_pairs() {
    let mut store = InMemoryStore::default();
    let token_counter = OpenAITokenCounter::new().unwrap();
    store.add_message("session-1", message("user", "aaa"));
    store.add_message("session-1", message("assistant", "bbb"));
    store.add_message("session-1", message("user", "cc"));
    store.add_message("session-1", message("assistant", "dd"));
    store.add_message("session-1", message("user", "eee"));

    let max_tokens = token_counter.count_tokens(&conversation_text(&[
        message("user", "cc"),
        message("assistant", "dd"),
        message("user", "eee"),
    ]));

    let trimmed = store.trim_to_token_budget("session-1", max_tokens, &token_counter);

    assert_eq!(trimmed.len(), 3);
    assert_eq!(trimmed[0].role, "user");
    assert_eq!(trimmed[0].content, "cc");
    assert_eq!(trimmed[1].role, "assistant");
    assert_eq!(trimmed[1].content, "dd");
    assert_eq!(trimmed[2].role, "user");
    assert_eq!(trimmed[2].content, "eee");
}

#[test]
fn in_memory_store_never_orphans_assistant_message_when_budget_is_tight() {
    let mut store = InMemoryStore::default();
    let token_counter = OpenAITokenCounter::new().unwrap();
    store.add_message("session-1", message("user", "aa"));
    store.add_message("session-1", message("assistant", "bb"));
    store.add_message("session-1", message("user", "cccccc"));
    store.add_message("session-1", message("assistant", "d"));

    let trimmed = store.trim_to_token_budget("session-1", 1, &token_counter);
    assert!(trimmed.is_empty());
}

#[test]
fn openai_token_counter_matches_known_counts() {
    let counter = OpenAITokenCounter::new().unwrap();
    assert_eq!(counter.count_tokens(""), 0);
    assert_eq!(counter.count_tokens("Hello world"), 2);
    assert_eq!(counter.count_tokens("Hello, world!"), 4);
}

#[test]
fn in_memory_core_memory_store_adds_and_isolates_facts_by_session() {
    let mut store = InMemoryCoreMemoryStore::default();
    store.add_fact("session-1", "User name is Alex");
    store.add_fact("session-2", "User prefers light mode");
    assert_eq!(store.get_facts("session-1"), vec!["User name is Alex".to_string()]);
    assert_eq!(store.get_facts("session-2"), vec!["User prefers light mode".to_string()]);
}

#[test]
fn in_memory_core_memory_store_delete_session_removes_facts() {
    let mut store = InMemoryCoreMemoryStore::default();
    store.add_fact("session-1", "User prefers dark mode");
    store.delete_session("session-1");
    assert!(store.get_facts("session-1").is_empty());
}

#[test]
fn in_memory_store_dump_and_restore_all_sessions() {
    let mut store = InMemoryStore::default();
    store.add_message("s1", message("user", "hi"));
    store.add_message("s2", message("user", "yo"));

    let dump = store.dump_all();
    assert_eq!(dump.len(), 2);

    let mut fresh = InMemoryStore::default();
    // Pre-existing data in `fresh` must be wiped by restore_all.
    fresh.add_message("stale", message("user", "old"));
    fresh.restore_all(dump);

    assert!(fresh.get_recent("stale", 10).is_empty());
    assert_eq!(fresh.get_recent("s1", 10)[0].content, "hi");
    assert_eq!(fresh.get_recent("s2", 10)[0].content, "yo");
}

#[test]
fn restore_all_empty_clears_everything() {
    let mut store = InMemoryStore::default();
    store.add_message("s1", message("user", "hi"));
    store.restore_all(vec![]);
    assert!(store.get_recent("s1", 10).is_empty());
}

#[test]
fn in_memory_core_memory_dump_and_restore() {
    let mut store = InMemoryCoreMemoryStore::default();
    store.add_fact("s1", "a");
    store.add_fact("s1", "b");
    let dump = store.dump_all();

    let mut fresh = InMemoryCoreMemoryStore::default();
    fresh.restore_all(dump);
    assert_eq!(fresh.get_facts("s1"), vec!["a".to_string(), "b".to_string()]);
}

#[test]
fn memory_server_error_wraps_each_trait_error_type() {
    let embed_error = MemoryServerError::from(EmbedError::Message("embed".to_string()));
    let store_error = MemoryServerError::from(StoreError::Message("store".to_string()));
    let memory_error = MemoryServerError::from(MemoryError::Message("memory".to_string()));

    assert_eq!(embed_error.to_string(), "embed");
    assert_eq!(store_error.to_string(), "store");
    assert_eq!(memory_error.to_string(), "memory");
}

#[test]
fn in_memory_store_remove_messages_by_id() {
    let mut store = InMemoryStore::default();
    store.add_message("s1", with_id(message("user", "first"), "m1"));
    store.add_message("s1", with_id(message("assistant", "second"), "m2"));
    store.add_message("s1", with_id(message("user", "third"), "m3"));

    store.remove_messages("s1", &["m1".into(), "m2".into()]);

    let recent = store.get_recent("s1", 10);
    assert_eq!(recent.len(), 1);
    assert_eq!(recent[0].content, "third");
}

#[test]
fn conversation_text_joins_role_and_content_lines() {
    let text = conversation_text(&[message("user", "hi"), message("assistant", "hello")]);
    assert_eq!(text, "Conversation:\nuser: hi\nassistant: hello");
    assert_eq!(conversation_text(&[]), "");
}

#[test]
fn removable_prefix_keeps_user_assistant_pairs() {
    assert_eq!(removable_prefix_len(&[message("user", "a"), message("assistant", "b"), message("user", "c")]), 2);
    assert_eq!(removable_prefix_len(&[message("assistant", "b"), message("user", "c")]), 1);
    assert_eq!(removable_prefix_len(&[message("user", "c")]), 1);
}

#[test]
fn trimmed_messages_are_a_suffix_within_budget() {
    let counter = OpenAITokenCounter::new().unwrap();
    let msgs = vec![message("user", "one two three"), message("assistant", "four"), message("user", "five")];
    let budget = counter.count_tokens(&conversation_text(&[message("user", "five")]));
    let kept = trim_messages_to_token_budget(msgs, budget, &counter);
    assert!(counter.count_tokens(&conversation_text(&kept)) <= budget);
    assert_eq!(kept.len(), 1);
    assert_eq!(kept[0].content, "five");
}

#[test]
fn message_status_updates_and_lookups_by_id() {
    let mut store = InMemoryStore::default();
    store.add_message("s1", with_id(message("user", "x"), "m1"));
    store.update_message_status("s1", "m1", EmbeddingStatus::Completed);
    let m = store.get_message_by_id("s1", "m1").unwrap();
    assert!(matches!(m.embedding_status, Some(EmbeddingStatus::Completed)));
    assert!(store.get_message_by_id("s1", "nope").is_none());
    assert!(store.get_message_by_id("s2", "m1").is_none());
}

#[test]
fn server_error_messages() {
    assert_eq!(MemoryServerError::NoLeader.to_string(), "no leader elected");
    assert_eq!(MemoryServerError::RedirectToLeader("http://a".into()).to_string(), "redirect to leader at http://a");
    assert_eq!(MemoryServerError::Internal("x".into()).to_string(), "internal error: x");
    assert_eq!(EmbedError::MissingApiKey.to_string(), "OPENAI_API_KEY is missing");
}
