use engram::consolidation::scheduler::{apply_summary, begin_consolidation, make_summary, plan_consolidation, should_consolidate, summary_from_result, ConsolidationPlan, InFlightSessions};
use engram::knowledge::summarizer::SummarizeError;
use engram::consolidation::store::{ConsolidatedMemoryStore, InMemoryConsolidatedStore, Summary};
use engram::knowledge::summarizer::{MockSummarizer, Summarizer, SUMMARIZE_PROMPT_VERSION};
use engram::memory::InMemoryStore;
use engram::models::Message;

fn summary(id: &str, index: u64) -> Summary {
    Summary {
        id: id.into(),
        text: format!("summary {id}"),
        created_at_index: index,
        consumed_message_ids: vec!["m1".into()],
        consumed_count: 1,
        model: "mock".into(),
        prompt_version: "summarize_v1".into(),
    }
}

fn msg(id: &str) -> Message {
    Message { id: Some(id.into()), role: "user".into(), content: format!("content {id}"), timestamp: None, embedding_status: None }
}

/// One consolidation pass as the scheduler runs it in standalone mode.
fn consolidate_once(
    short_term: &mut InMemoryStore,
    consolidated: &mut InMemoryConsolidatedStore,
    session_id: &str,
    threshold: usize,
    window: usize,
    summary_id: &str,
) -> bool {
    let messages = short_term.get_recent(session_id, usize::MAX);
    let Some(plan) = plan_consolidation(&messages, threshold, window) else { return false };
    let text = MockSummarizer.summarize(&messages[..plan.cut]).unwrap();
    let s = make_summary(
        summary_id.to_string(),
        text,
        plan.consumed_ids,
        MockSummarizer.model().to_string(),
        SUMMARIZE_PROMPT_VERSION.to_string(),
        0,
    );
    apply_summary(consolidated, short_term, session_id, s);
    true
}

#[test]
fn should_consolidate_threshold() {
    assert!(!should_consolidate(50, 50));
    assert!(should_consolidate(51, 50));
}

#[test]
fn standalone_consolidates_oldest_and_keeps_window() {
    let mut short_term = InMemoryStore::default();
    for i in 0..6 {
        short_term.add_message("s1", msg(&format!("m{i}")));
    }
    let mut consolidated = InMemoryConsolidatedStore::default();

    // threshold 4, window 2 -> with 6 messages, summarize oldest 4, keep newest 2.
    assert!(consolidate_once(&mut short_term, &mut consolidated, "s1", 4, 2, "sum-1"));

    assert_eq!(consolidated.get_summaries("s1").len(), 1);
    let remaining = short_term.get_recent("s1", 10);
    assert_eq!(remaining.len(), 2, "keeps the target window");
    assert_eq!(remaining[1].id.as_deref(), Some("m5"));
    let s = &consolidated.get_summaries("s1")[0];
    assert_eq!(s.consumed_count, 4);
    assert_eq!(s.consumed_message_ids, vec!["m0", "m1", "m2", "m3"]);
    assert_eq!(s.model, "mock");
    assert_eq!(s.prompt_version, "summarize_v1");
}

#[test]
fn in_flight_guard_prevents_duplicate_jobs() {
    let mut in_flight = InFlightSessions::new();
    assert!(in_flight.try_begin("s1"));
    assert!(!in_flight.try_begin("s1"), "guard dedups concurrent jobs");
    assert!(in_flight.try_begin("s2"));
    in_flight.finish("s1");
    assert!(in_flight.try_begin("s1"));
}

#[test]
fn below_threshold_nothing_is_planned() {
    let msgs: Vec<Message> = (0..4).map(|i| msg(&format!("m{i}"))).collect();
    assert!(plan_consolidation(&msgs, 4, 2).is_none());
    let plan = plan_consolidation(&msgs, 3, 2).unwrap();
    assert_eq!(plan.cut, 2);
    assert_eq!(plan.consumed_ids, vec!["m0", "m1"]);
}

#[test]
fn add_and_get_summaries_per_session() {
    let mut store = InMemoryConsolidatedStore::default();
    store.add_summary("s1", summary("a", 1));
    store.add_summary("s1", summary("b", 2));
    store.add_summary("s2", summary("c", 3));

    assert_eq!(store.get_summaries("s1").len(), 2);
    assert_eq!(store.get_summaries("s2").len(), 1);
    assert!(store.get_summaries("missing").is_empty());
}

#[test]
fn add_summary_is_idempotent_by_id() {
    let mut store = InMemoryConsolidatedStore::default();
    store.add_summary("s1", summary("dup", 1));
    store.add_summary("s1", summary("dup", 1));
    assert_eq!(store.get_summaries("s1").len(), 1);
}

#[test]
fn delete_session_removes_summaries() {
    let mut store = InMemoryConsolidatedStore::default();
    store.add_summary("s1", summary("a", 1));
    store.delete_session("s1");
    assert!(store.get_summaries("s1").is_empty());
}

#[test]
fn dump_and_restore_round_trip() {
    let mut store = InMemoryConsolidatedStore::default();
    store.add_summary("s1", summary("a", 1));
    store.add_summary("s2", summary("b", 2));
    let dump = store.dump_all();

    let mut fresh = InMemoryConsolidatedStore::default();
    fresh.add_summary("stale", summary("z", 9));
    fresh.restore_all(dump);

    assert!(fresh.get_summaries("stale").is_empty());
    assert_eq!(fresh.get_summaries("s1")[0].id, "a");
    assert_eq!(fresh.get_summaries("s2")[0].id, "b");
}

#[test]
fn summaries_keep_the_order_they_were_added() {
    let mut store = InMemoryConsolidatedStore::default();
    store.add_summary("s1", summary("late", 9));
    store.add_summary("s1", summary("early", 2));
    let got = store.get_summaries("s1");
    assert_eq!(got[0].id, "late");
    assert_eq!(got[1].id, "early");
}

#[test]
fn mock_is_deterministic_and_nonempty() {
    let msgs = vec![
        Message { id: Some("user-Alice works at OpenAI".into()), role: "user".into(), content: "Alice works at OpenAI".into(), timestamp: None, embedding_status: None },
        Message { id: Some("assistant-Noted".into()), role: "assistant".into(), content: "Noted".into(), timestamp: None, embedding_status: None },
    ];
    let a = MockSummarizer.summarize(&msgs).unwrap();
    let b = MockSummarizer.summarize(&msgs).unwrap();
    assert_eq!(a, b, "mock summarizer must be deterministic");
    assert!(!a.is_empty());
    assert!(a.contains("Alice works at OpenAI"));
}

#[test]
fn mock_model_label_is_mock() {
    assert_eq!(MockSummarizer.model(), "mock");
}

#[test]
fn followers_never_begin_consolidation() {
    let mut in_flight = InFlightSessions::new();
    assert!(!begin_consolidation(&mut in_flight, "s1", Some(Some(2)), 1));
    assert!(!begin_consolidation(&mut in_flight, "s1", Some(None), 1));
    // Nothing was marked in flight, so the leader can still start it.
    assert!(begin_consolidation(&mut in_flight, "s1", Some(Some(1)), 1));
    assert!(!begin_consolidation(&mut in_flight, "s1", Some(Some(1)), 1), "already in flight");
    assert!(begin_consolidation(&mut in_flight, "s2", None, 7), "standalone always consolidates");
    in_flight.finish("s1");
    assert!(begin_consolidation(&mut in_flight, "s1", None, 0));
}

#[test]
fn failed_summarization_gives_no_summary() {
    let plan = ConsolidationPlan { cut: 2, consumed_ids: vec!["m1".into(), "m2".into()] };
    let r = summary_from_result(plan, Err(SummarizeError::Api("down".into())), "sum-1".into(), "mock".into(), "v1".into(), 0);
    assert!(r.is_none());
}

#[test]
fn finished_summarization_gives_the_summary_of_the_plan() {
    let plan = ConsolidationPlan { cut: 2, consumed_ids: vec!["m1".into(), "m2".into()] };
    let s = summary_from_result(plan, Ok("short".into()), "sum-1".into(), "mock".into(), "v1".into(), 5).unwrap();
    assert_eq!(s.id, "sum-1");
    assert_eq!(s.text, "short");
    assert_eq!(s.consumed_message_ids, vec!["m1".to_string(), "m2".to_string()]);
    assert_eq!(s.consumed_count, 2);
    assert_eq!(s.model, "mock");
    assert_eq!(s.prompt_version, "v1");
    assert_eq!(s.created_at_index, 5);
}

#[test]
fn repeated_ids_within_one_side_still_leave_the_window() {
    let mut short_term = InMemoryStore::new();
    let mut consolidated = InMemoryConsolidatedStore::new();
    // Consumed side repeats "a"; kept side repeats "k". No kept id is a consumed id.
    for id in ["a", "a", "b", "k", "k"] {
        short_term.add_message("s", msg(id));
    }
    assert!(consolidate_once(&mut short_term, &mut consolidated, "s", 3, 2, "sum-1"));
    let left: Vec<String> = short_term.get_recent("s", usize::MAX).into_iter().map(|m| m.id.unwrap()).collect();
    assert_eq!(left, vec!["k".to_string(), "k".to_string()]);
}
