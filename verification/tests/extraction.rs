use engram::knowledge::extractor::{extract_rate_limit_step, rate_limit_backoff_ms, ExtractError, KnowledgeExtractor, MockKnowledgeExtractor};
use engram::knowledge::summarizer::{summarize_rate_limit_step, summary_text, transcript, SummarizeError};
use engram::knowledge::graph::KnowledgeGraph;
use engram::knowledge::types::{Entity, ExtractionResult, KnowledgeJob, Relationship};
use engram::knowledge::worker::{apply_knowledge_result, knowledge_command, process_knowledge_job, should_extract};
use engram::models::Message;
use engram::raft::types::MemoryCommand;
use std::cell::Cell;

struct CountingExtractor {
    calls: Cell<u32>,
}

impl KnowledgeExtractor for CountingExtractor {
    fn extract(&self, _text: &str) -> Result<ExtractionResult, ExtractError> {
        self.calls.set(self.calls.get() + 1);
        Ok(make_result())
    }
}

struct FailingExtractor;

impl KnowledgeExtractor for FailingExtractor {
    fn extract(&self, _text: &str) -> Result<ExtractionResult, ExtractError> {
        Err(ExtractError::Api("service unavailable".to_string()))
    }
}

fn make_result() -> ExtractionResult {
    ExtractionResult {
        entities: vec![
            Entity { name: "Alice".into(), entity_type: "Person".into(), attributes: vec![] },
            Entity { name: "OpenAI".into(), entity_type: "Organization".into(), attributes: vec![] },
        ],
        relationships: vec![Relationship { from: "Alice".into(), to: "OpenAI".into(), relationship_type: "works_at".into() }],
    }
}

fn job(text: &str) -> KnowledgeJob {
    KnowledgeJob { session_id: "s1".into(), message_id: "m1".into(), text: text.into() }
}

#[test]
fn standalone_mode_applies_directly_to_graph() {
    let extractor = CountingExtractor { calls: Cell::new(0) };
    let mut kg = KnowledgeGraph::new();
    assert!(process_knowledge_job(job("Alice works at OpenAI"), &extractor, None, 0, &mut kg).is_none());
    assert_eq!(extractor.calls.get(), 1);
    assert_eq!(kg.all_entities("s1").len(), 2);
}

#[test]
fn dedup_skips_extractor_if_already_processed() {
    let extractor = CountingExtractor { calls: Cell::new(0) };
    let mut kg = KnowledgeGraph::new();
    process_knowledge_job(job("test"), &extractor, None, 0, &mut kg);
    process_knowledge_job(job("test"), &extractor, None, 0, &mut kg);
    assert_eq!(extractor.calls.get(), 1, "extractor should only be called once");
}

#[test]
fn extractor_failure_does_not_panic() {
    let mut kg = KnowledgeGraph::new();
    process_knowledge_job(job("test"), &FailingExtractor, None, 0, &mut kg);
    assert!(kg.all_entities("s1").is_empty());
}

#[test]
fn only_the_leader_extracts_and_it_replicates_a_command() {
    let extractor = CountingExtractor { calls: Cell::new(0) };
    let mut kg = KnowledgeGraph::new();
    assert!(process_knowledge_job(job("x"), &extractor, Some(Some(2)), 1, &mut kg).is_none());
    assert!(process_knowledge_job(job("x"), &extractor, Some(None), 1, &mut kg).is_none());
    assert_eq!(extractor.calls.get(), 0);
    match process_knowledge_job(job("x"), &extractor, Some(Some(1)), 1, &mut kg) {
        Some(MemoryCommand::AddKnowledge { session_id, message_id, entities, relationships }) => {
            assert_eq!(session_id, "s1");
            assert_eq!(message_id, "m1");
            assert_eq!(entities.len(), 2);
            assert_eq!(relationships.len(), 1);
        }
        other => panic!("unexpected {other:?}"),
    }
    assert!(kg.all_entities("s1").is_empty(), "the leader's graph changes when the command is applied");
}

#[test]
fn worker_decisions_on_their_own() {
    let mut kg = KnowledgeGraph::new();
    assert!(should_extract(&kg, &job("x"), None, 0));
    assert!(apply_knowledge_result(&mut kg, &job("x"), Ok(make_result())));
    assert!(!should_extract(&kg, &job("x"), None, 0));
    assert!(!apply_knowledge_result(&mut kg, &job("x"), Ok(make_result())));
    assert!(!apply_knowledge_result(&mut kg, &job("y"), Err(ExtractError::Parse("bad".into()))));
    assert!(matches!(knowledge_command(job("x"), make_result()), MemoryCommand::AddKnowledge { .. }));
}


#[test]
fn mock_extracts_works_at_relationship() {
    let result = MockKnowledgeExtractor.extract("Alice works at OpenAI").unwrap();
    assert_eq!(result.entities.len(), 2);
    let alice = result.entities.iter().find(|e| e.name == "Alice").unwrap();
    assert_eq!(alice.entity_type, "Person");
    let openai = result.entities.iter().find(|e| e.name == "OpenAI").unwrap();
    assert_eq!(openai.entity_type, "Organization");
    assert_eq!(result.relationships.len(), 1);
    assert_eq!(result.relationships[0].from, "Alice");
    assert_eq!(result.relationships[0].to, "OpenAI");
    assert_eq!(result.relationships[0].relationship_type, "works_at");
}

#[test]
fn mock_extracts_knows_relationship() {
    let result = MockKnowledgeExtractor.extract("Bob knows Alice").unwrap();
    assert_eq!(result.entities.len(), 2);
    let bob = result.entities.iter().find(|e| e.name == "Bob").unwrap();
    assert_eq!(bob.entity_type, "Person");
    let alice = result.entities.iter().find(|e| e.name == "Alice").unwrap();
    assert_eq!(alice.entity_type, "Person");
    assert_eq!(result.relationships[0].relationship_type, "knows");
}

#[test]
fn mock_extracts_likes_relationship() {
    let result = MockKnowledgeExtractor.extract("Alice likes Rust").unwrap();
    assert_eq!(result.relationships[0].relationship_type, "likes");
    let thing = result.entities.iter().find(|e| e.name == "Rust").unwrap();
    assert_eq!(thing.entity_type, "Thing");
}

#[test]
fn mock_extracts_lives_in_relationship() {
    let result = MockKnowledgeExtractor.extract("Bob lives in Paris").unwrap();
    assert_eq!(result.relationships[0].relationship_type, "lives_in");
    let place = result.entities.iter().find(|e| e.name == "Paris").unwrap();
    assert_eq!(place.entity_type, "Place");
}

#[test]
fn mock_returns_empty_for_unknown_input() {
    let result = MockKnowledgeExtractor.extract("The sky is blue").unwrap();
    assert!(result.entities.is_empty());
    assert!(result.relationships.is_empty());
}

#[test]
fn mock_handles_multi_sentence_input() {
    let result = MockKnowledgeExtractor.extract("Alice works at OpenAI. Bob knows Alice.").unwrap();
    assert_eq!(result.entities.len(), 3); // Alice, OpenAI, Bob
    assert_eq!(result.relationships.len(), 2);
}

#[test]
fn mock_deduplicates_entities_across_sentences() {
    let result = MockKnowledgeExtractor.extract("Alice works at OpenAI. Bob knows Alice.").unwrap();
    let alice_count = result.entities.iter().filter(|e| e.name == "Alice").count();
    assert_eq!(alice_count, 1);
}

#[test]
fn backoff_doubles_from_one_second() {
    assert_eq!(rate_limit_backoff_ms(0), 1000);
    assert_eq!(rate_limit_backoff_ms(1), 1000);
    assert_eq!(rate_limit_backoff_ms(2), 2000);
    assert_eq!(rate_limit_backoff_ms(4), 8000);
    assert_eq!(rate_limit_backoff_ms(10), 30000);
}

#[test]
fn extractor_retries_until_the_limit() {
    assert_eq!(extract_rate_limit_step(0, 3).ok(), Some((1, 1000)));
    assert_eq!(extract_rate_limit_step(2, 3).ok(), Some((3, 4000)));
    assert!(matches!(extract_rate_limit_step(3, 3), Err(ExtractError::RateLimitExceeded { retries: 3 })));
}

#[test]
fn summarizer_retries_until_the_limit() {
    assert_eq!(summarize_rate_limit_step(0, 3).ok(), Some((1, 1000)));
    assert!(matches!(summarize_rate_limit_step(3, 3), Err(SummarizeError::RateLimitExceeded { retries: 3 })));
}

#[test]
fn transcript_and_summary_text() {
    let msgs = vec![
        Message { id: None, role: "user".into(), content: "hi".into(), timestamp: None, embedding_status: None },
        Message { id: None, role: "assistant".into(), content: "hello".into(), timestamp: None, embedding_status: None },
    ];
    assert_eq!(transcript(&msgs), "Conversation:\nuser: hi\nassistant: hello");
    assert_eq!(summary_text("  a summary \n"), "a summary");
}

#[test]
fn error_messages() {
    assert_eq!(ExtractError::RateLimitExceeded { retries: 3 }.to_string(), "rate limit exceeded after 3 retries");
    assert_eq!(ExtractError::Api("boom".into()).to_string(), "extraction API error: boom");
    assert_eq!(SummarizeError::Parse("bad".into()).to_string(), "summarize parse error: bad");
}
