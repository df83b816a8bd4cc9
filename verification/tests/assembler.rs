use engram::assembler::{begin_context, derive_query_text, draft_context, draft_text, finish_context, format_core_memories, join_sections, needs_long_term, ContextDraft};
use engram::memory::{conversation_text, InMemoryStore, OpenAITokenCounter, TokenCounter};
use engram::models::{EmbeddingStatus, Message};

fn message(role: &str, content: &str) -> Message {
    Message { id: None, role: role.to_string(), content: content.to_string(), timestamp: None, embedding_status: Some(EmbeddingStatus::Pending) }
}

/// The assembly stages run in order, with `hits` standing for the vector search results.
fn assemble(facts: &[&str], messages: &[Message], max_tokens: usize, hits: &[(&str, f32)], threshold: f32) -> String {
    let counter = OpenAITokenCounter::new().unwrap();
    let mut store = InMemoryStore::default();
    for m in messages {
        store.add_message("s", m.clone());
    }
    let facts: Vec<String> = facts.iter().map(|f| f.to_string()).collect();
    let (core_text, budget_after_core) = begin_context(&facts, max_tokens, &counter);
    let trimmed = store.trim_to_token_budget("s", budget_after_core, &counter);
    let draft = draft_context(core_text, &trimmed, max_tokens, &counter);
    if !needs_long_term(&draft) {
        return draft_text(&draft);
    }
    let scored: Vec<(String, bool)> = hits.iter().map(|(t, s)| (t.to_string(), *s >= threshold)).collect();
    finish_context(&draft, &scored, &counter)
}

fn tokens(text: &str) -> usize {
    OpenAITokenCounter::new().unwrap().count_tokens(text)
}

#[test]
fn context_always_includes_core_memory() {
    let context = assemble(&["User name is Alex"], &[], 1_000, &[], 0.7);
    assert_eq!(context, "Core memories:\n- User name is Alex");
}

#[test]
fn context_of_empty_session_is_empty() {
    assert!(assemble(&[], &[], 1_000, &[], 0.7).is_empty());
}

#[test]
fn context_long_term_memories_require_budget_and_threshold() {
    let context = assemble(&[], &[message("user", "rust async")], 1_000, &[("Relevant memory", 0.8), ("Filtered memory", 0.5)], 0.7);
    assert!(context.contains("Memory: Relevant memory"));
    assert!(!context.contains("Memory: Filtered memory"));
    assert!(context.contains("Conversation:\nuser: rust async"));
    assert_eq!(context, "Memory: Relevant memory\n\nConversation:\nuser: rust async");
}

#[test]
fn context_trimming_keeps_user_assistant_pairs() {
    let all = [message("user", "aaa"), message("assistant", "bbb"), message("user", "cc"), message("assistant", "dd"), message("user", "eee")];
    let kept = [message("user", "cc"), message("assistant", "dd"), message("user", "eee")];
    let budget = tokens(&conversation_text(&kept));
    let context = assemble(&[], &all, budget, &[], 0.7);
    assert_eq!(context, conversation_text(&kept));
}

#[test]
fn context_budget_exactly_enough_for_core_and_short_skips_long_term() {
    let core = "Core memories:\n- Pinned fact";
    let short = "Conversation:\nuser: hi";
    let max_tokens = tokens(core) + tokens(short);
    let context = assemble(&["Pinned fact"], &[message("user", "hi")], max_tokens, &[("Should not fit", 0.9)], 0.7);
    assert_eq!(context, format!("{core}\n\n{short}"));
}

#[test]
fn context_budget_just_enough_for_one_long_term_memory_adds_exactly_one() {
    let short = "Conversation:\nuser: hi";
    let max_tokens = tokens(short) + tokens("Memory: One memory");
    let context = assemble(&[], &[message("user", "hi")], max_tokens, &[("One memory", 0.9), ("Two memory", 0.85)], 0.7);
    assert_eq!(context, format!("Memory: One memory\n\n{short}"));
    assert!(!context.contains("Memory: Two memory"));
}

#[test]
fn query_text_is_the_latest_user_message() {
    assert_eq!(derive_query_text(&[message("user", "q1"), message("assistant", "a"), message("user", "q2"), message("assistant", "b")]), "q2");
    assert_eq!(derive_query_text(&[message("assistant", "only")]), "only");
    assert_eq!(derive_query_text(&[]), "");
}

#[test]
fn sections_skip_empty_parts() {
    assert_eq!(join_sections(&["a".to_string(), String::new(), "b".to_string()]), "a\n\nb");
    assert_eq!(format_core_memories(&[]), "");
    assert_eq!(format_core_memories(&["x".to_string(), "y".to_string()]), "Core memories:\n- x\n- y");
}

#[test]
fn context_sections_stay_within_budget() {
    let counter = OpenAITokenCounter::new().unwrap();
    let msgs = [message("user", "tell me about rust"), message("assistant", "a systems language"), message("user", "and verification?")];
    let facts = ["Prefers short answers"];
    for max_tokens in [8usize, 20, 40, 80] {
        let facts_owned: Vec<String> = facts.iter().map(|f| f.to_string()).collect();
        let (core_text, budget) = begin_context(&facts_owned, max_tokens, &counter);
        let core = if core_text.is_empty() { 0 } else { counter.count_tokens(&core_text) };
        if core > max_tokens {
            continue;
        }
        let mut store = InMemoryStore::default();
        for m in &msgs {
            store.add_message("s", m.clone());
        }
        let trimmed = store.trim_to_token_budget("s", budget, &counter);
        let draft = draft_context(core_text, &trimmed, max_tokens, &counter);
        let short = if draft.short_text.is_empty() { 0 } else { counter.count_tokens(&draft.short_text) };
        let hits = vec![("Rust has no garbage collector".to_string(), true), ("Verus proves Rust code".to_string(), true)];
        let context = finish_context(&draft, &hits, &counter);
        let memories: usize = hits
            .iter()
            .map(|(t, _)| format!("Memory: {t}"))
            .filter(|line| context.contains(line.as_str()))
            .map(|line| counter.count_tokens(&line))
            .sum();
        assert!(core + short + memories <= max_tokens, "budget {max_tokens} exceeded");
    }
}

#[test]
fn long_term_lookup_needs_budget_and_a_query() {
    let d = |budget: usize, query: &str| ContextDraft {
        core_text: String::new(),
        short_text: "user: hi".to_string(),
        remaining_budget: budget,
        query_text: query.to_string(),
    };
    assert!(needs_long_term(&d(10, "hi")));
    assert!(!needs_long_term(&d(0, "hi")));
    assert!(!needs_long_term(&d(10, "")));
}

#[test]
fn token_counter_loads_and_counts() {
    let counter = OpenAITokenCounter::new().expect("the bundled encoding loads");
    assert_eq!(counter.count_tokens("hello world"), 2);
    assert_eq!(counter.count_tokens(""), 0);
}

#[test]
fn try_count_tokens_agrees_with_count_tokens() {
    let counter = OpenAITokenCounter::new().unwrap();
    assert_eq!(counter.try_count_tokens("hello world"), Some(2));
    assert_eq!(counter.try_count_tokens("hello world"), Some(counter.count_tokens("hello world")));
    assert_eq!(counter.try_count_tokens(""), Some(0));
}
