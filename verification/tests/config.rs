use engram::config::{Config, ConfigError, KnowledgeExtractorType, SummarizerType};

fn vars(pairs: &[(&str, &str)]) -> Vec<(String, String)> {
    pairs.iter().map(|(k, v)| (k.to_string(), v.to_string())).collect()
}

#[test]
fn consolidation_defaults_and_overrides() {
    let cfg = Config::default();
    assert_eq!(cfg.consolidation_threshold, 50);
    assert_eq!(cfg.consolidation_target_window, 20);
    assert!(matches!(cfg.summarizer, SummarizerType::OpenAI));
}

#[test]
fn parses_cluster_peers() {
    let peers = Config::parse_cluster_peers("1:node1:9001,2:node2:9001");
    assert_eq!(peers.len(), 2);
    assert_eq!(peers[0].id, 1);
    assert_eq!(peers[0].addr, "node1:9001");
    assert_eq!(peers[1].id, 2);
    assert_eq!(peers[1].addr, "node2:9001");
}

#[test]
fn parses_http_peers() {
    let m = Config::parse_http_peers("1:node1:3000,2:node2:3001");
    assert_eq!(m.get(&1u64).unwrap(), "node1:3000");
    assert_eq!(m.get(&2u64).unwrap(), "node2:3001");
}

#[test]
fn empty_peers_returns_empty_collections() {
    assert!(Config::parse_cluster_peers("").is_empty());
    assert!(Config::parse_http_peers("").is_empty());
}

#[test]
fn malformed_peer_entry_is_skipped() {
    let peers = Config::parse_cluster_peers("bad-entry,1:node1:9001");
    assert_eq!(peers.len(), 1);
    assert_eq!(peers[0].id, 1);
}

#[test]
fn defaults_persistence_paths_and_threshold() {
    let cfg = Config::default();
    assert_eq!(cfg.raft_db_path, "./data/raft/engram.redb");
    assert_eq!(cfg.snapshot_log_threshold, 1000);
}

#[test]
fn from_env_uses_defaults_for_optional_settings() {
    let config = Config::from_vars(&vars(&[("OPENAI_API_KEY", "test-key")])).unwrap();
    assert_eq!(config.redis_url, "redis://localhost:6379");
    assert_eq!(config.openai_api_key, "test-key");
    assert_eq!(config.openai_base_url, None);
    assert_eq!(config.lance_db_path, "./data/lancedb");
    assert_eq!(config.embedding_dimension, 1536);
    assert_eq!(config.embedding_max_concurrency, 10);
    assert_eq!(config.mpsc_channel_size, 1_000);
    assert_eq!(config.short_term_count, 20);
}

#[test]
fn from_env_reads_openai_base_url_when_present() {
    let config = Config::from_vars(&vars(&[
        ("OPENAI_API_KEY", "test-key"),
        ("OPENAI_BASE_URL", "http://127.0.0.1:4010"),
    ]))
    .unwrap();
    assert_eq!(config.openai_base_url.as_deref(), Some("http://127.0.0.1:4010"));
}

#[test]
fn from_env_treats_blank_openai_base_url_as_missing() {
    let config = Config::from_vars(&vars(&[("OPENAI_API_KEY", "test-key"), ("OPENAI_BASE_URL", "   ")])).unwrap();
    assert_eq!(config.openai_base_url, None);
}

#[test]
fn from_env_reads_embedding_dimension_when_present() {
    let config = Config::from_vars(&vars(&[("OPENAI_API_KEY", "test-key"), ("EMBEDDING_DIMENSION", "384")])).unwrap();
    assert_eq!(config.embedding_dimension, 384);
}

#[test]
fn from_env_requires_openai_api_key() {
    let error = Config::from_vars(&vars(&[])).unwrap_err();
    assert!(matches!(error, ConfigError::MissingRequired { ref name } if name == "OPENAI_API_KEY"));
}

#[test]
fn knowledge_extractor_defaults_to_openai() {
    let config = Config::from_vars(&vars(&[("OPENAI_API_KEY", "test-key")])).unwrap();
    assert_eq!(config.knowledge_extractor, KnowledgeExtractorType::OpenAI);
}

#[test]
fn knowledge_extractor_mock_parsed_from_env() {
    let config = Config::from_vars(&vars(&[("KNOWLEDGE_EXTRACTOR", "mock")])).unwrap();
    assert_eq!(config.knowledge_extractor, KnowledgeExtractorType::Mock);
}

#[test]
fn mock_mode_does_not_require_openai_api_key() {
    let result = Config::from_vars(&vars(&[("KNOWLEDGE_EXTRACTOR", "mock")]));
    assert!(result.is_ok(), "mock mode should not require OPENAI_API_KEY");
}

#[test]
fn summarizer_mock_parsed_from_env() {
    let config = Config::from_vars(&vars(&[("OPENAI_API_KEY", "test-key"), ("SUMMARIZER", "mock")])).unwrap();
    assert_eq!(config.summarizer, SummarizerType::Mock);
}

#[test]
fn blank_required_value_is_reported_as_empty() {
    let error = Config::from_vars(&vars(&[("OPENAI_API_KEY", "  ")])).unwrap_err();
    assert!(matches!(error, ConfigError::EmptyValue { ref name } if name == "OPENAI_API_KEY"));
    assert_eq!(error.to_string(), "environment variable OPENAI_API_KEY must not be empty");
}

#[test]
fn zero_is_not_a_positive_integer() {
    let error = Config::from_vars(&vars(&[("OPENAI_API_KEY", "k"), ("SHORT_TERM_COUNT", "0")])).unwrap_err();
    assert!(matches!(error, ConfigError::InvalidPositiveInteger { ref name } if name == "SHORT_TERM_COUNT"));
    assert_eq!(error.to_string(), "environment variable SHORT_TERM_COUNT must be a positive integer");
}

#[test]
fn repeated_http_peer_id_keeps_last_address() {
    let m = Config::parse_http_peers("1:a:1,1:b:2");
    assert_eq!(m.len(), 1);
    assert_eq!(m.get(&1u64).unwrap(), "b:2");
}
