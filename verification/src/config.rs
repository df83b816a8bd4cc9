//! Node configuration: defaults, and parsing the settings that the process
//! environment supplies (cluster peers, positive integers, optional values).

use vstd::prelude::*;
use std::collections::HashMap;
use crate::text::{
    find_char, parse_u64, parse_u64_spec, position_of, push_str, split_char, split_on, substring, trim,
    trim_spec, decimal, is_ws, lemma_find_char_after, lemma_parse_decimal, lemma_trim_padded,
};
use crate::topology::{str_eq, string_from};

verus! {

broadcast use vstd::std_specs::hash::group_hash_axioms;

/// A single Raft peer's node id and gRPC address ("host:port").
#[derive(Debug, Clone)]
pub struct PeerConfig {
    pub id: u64,
    pub addr: String,
}

/// Which knowledge extractor the node runs.
#[derive(Debug, Clone, PartialEq, Eq, Structural)]
pub enum KnowledgeExtractorType {
    OpenAI,
    Mock,
}

/// Which summarizer the consolidation scheduler calls.
#[derive(Debug, Clone, Copy, PartialEq, Eq, Structural)]
pub enum SummarizerType {
    Mock,
    OpenAI,
}

/// The node's settings.
#[derive(Debug, Clone)]
pub struct Config {
    pub redis_url: String,
    pub openai_api_key: String,
    pub openai_base_url: Option<String>,
    pub lance_db_path: String,
    pub embedding_dimension: usize,
    pub embedding_max_concurrency: usize,
    pub mpsc_channel_size: usize,
    pub short_term_count: usize,
    /// None means standalone (non-cluster) mode.
    pub node_id: Option<u64>,
    /// gRPC listen address for this node's Raft server.
    pub raft_addr: Option<String>,
    /// gRPC address advertised to peers.
    pub raft_advertise_addr: Option<String>,
    /// The other Raft peers ("id:host:grpc_port,...").
    pub cluster_peers: Vec<PeerConfig>,
    /// HTTP addresses of peer nodes keyed by node id ("id:host:http_port,...").
    pub cluster_http_peers: HashMap<u64, String>,
    pub knowledge_max_workers: usize,
    pub knowledge_channel_size: usize,
    pub knowledge_extractor: KnowledgeExtractorType,
    /// File backing the persistent Raft log and snapshot store.
    pub raft_db_path: String,
    /// Build a snapshot every this many committed log entries.
    pub snapshot_log_threshold: u64,
    pub summarizer: SummarizerType,
    /// A session crossing this many short-term messages becomes a consolidation candidate.
    pub consolidation_threshold: usize,
    /// Consolidation drives a session back down to exactly this many raw messages.
    pub consolidation_target_window: usize,
    pub consolidation_max_workers: usize,
    pub consolidation_channel_size: usize,
}

/// Why a setting was refused; `name` is the environment variable.
#[derive(Debug)]
pub enum ConfigError {
    EmptyValue { name: String },
    MissingRequired { name: String },
    InvalidPositiveInteger { name: String },
}

impl ConfigError {
    /// The error's message.
    pub fn to_string(&self) -> (r: String)
        ensures
            r@ == match *self {
                ConfigError::EmptyValue { name } => "environment variable "@ + name@ + " must not be empty"@,
                ConfigError::MissingRequired { name } => "environment variable "@ + name@ + " is required"@,
                ConfigError::InvalidPositiveInteger { name } => "environment variable "@ + name@ + " must be a positive integer"@,
            },
    {
        let mut r = string_from("environment variable ");
        match self {
            ConfigError::EmptyValue { name } => {
                push_str(&mut r, name.as_str());
                push_str(&mut r, " must not be empty");
            },
            ConfigError::MissingRequired { name } => {
                push_str(&mut r, name.as_str());
                push_str(&mut r, " is required");
            },
            ConfigError::InvalidPositiveInteger { name } => {
                push_str(&mut r, name.as_str());
                push_str(&mut r, " must be a positive integer");
            },
        }
        r
    }
}

impl Default for Config {
    fn default() -> (c: Config)
        ensures
            c.redis_url@ == "redis://localhost:6379"@,
            c.openai_api_key@ == Seq::<char>::empty(),
            c.openai_base_url is None,
            c.lance_db_path@ == "./data/lancedb"@,
            c.embedding_dimension == 1536,
            c.embedding_max_concurrency == 10,
            c.mpsc_channel_size == 1000,
            c.short_term_count == 20,
            c.node_id is None,
            c.raft_addr is None,
            c.raft_advertise_addr is None,
            c.cluster_peers@.len() == 0,
            c.cluster_http_peers@ == Map::<u64, String>::empty(),
            c.knowledge_max_workers == 4,
            c.knowledge_channel_size == 500,
            c.knowledge_extractor == KnowledgeExtractorType::OpenAI,
            c.raft_db_path@ == "./data/raft/engram.redb"@,
            c.snapshot_log_threshold == 1000,
            c.summarizer == SummarizerType::OpenAI,
            c.consolidation_threshold == 50,
            c.consolidation_target_window == 20,
            c.consolidation_max_workers == 2,
            c.consolidation_channel_size == 100,
    {
        Config {
            redis_url: string_from("redis://localhost:6379"),
            openai_api_key: String::new(),
            openai_base_url: None,
            lance_db_path: string_from("./data/lancedb"),
            embedding_dimension: 1536,
            embedding_max_concurrency: 10,
            mpsc_channel_size: 1000,
            short_term_count: 20,
            node_id: None,
            raft_addr: None,
            raft_advertise_addr: None,
            cluster_peers: Vec::new(),
            cluster_http_peers: HashMap::new(),
            knowledge_max_workers: 4,
            knowledge_channel_size: 500,
            knowledge_extractor: KnowledgeExtractorType::OpenAI,
            raft_db_path: string_from("./data/raft/engram.redb"),
            snapshot_log_threshold: 1000,
            summarizer: SummarizerType::OpenAI,
            consolidation_threshold: 50,
            consolidation_target_window: 20,
            consolidation_max_workers: 2,
            consolidation_channel_size: 100,
        }
    }
}

/// An "id:host:port" entry as (id, "host:port"): the id and the two address
/// parts are trimmed; the port part is everything after the second colon.
/// None when there are fewer than two colons or the id is not a `u64`.
pub open spec fn peer_entry_spec(s: Seq<char>) -> Option<(u64, Seq<char>)> {
    match find_char(s, ':') {
        None => None,
        Some(i) => {
            let rest = s.skip(i + 1 as int);
            match find_char(rest, ':') {
                None => None,
                Some(j) => match parse_u64_spec(trim_spec(s.take(i as int))) {
                    Some(id) => Some((id, trim_spec(rest.take(j as int)) + ":"@ + trim_spec(rest.skip(j + 1 as int)))),
                    None => None,
                },
            }
        }
    }
}

/// An entry whose id is a `u64` written in decimal, with any white space
/// around it, and whose host holds no colon, is accepted with that id and the
/// trimmed host and port: the id is trimmed before it is read.
pub proof fn lemma_peer_entry_with_padded_id(ws1: Seq<char>, id: u64, ws2: Seq<char>, h: Seq<char>, p: Seq<char>)
    requires
        forall|i: int| 0 <= i < ws1.len() ==> is_ws(ws1[i]),
        forall|i: int| 0 <= i < ws2.len() ==> is_ws(ws2[i]),
        forall|i: int| 0 <= i < h.len() ==> h[i] != ':',
    ensures
        peer_entry_spec(ws1 + decimal(id as nat) + ws2 + ":"@ + h + ":"@ + p) == Some((id, trim_spec(h) + ":"@ + trim_spec(p))),
{
    reveal_strlit(":");
    assert(":"@ =~= seq![':']);
    let d = decimal(id as nat);
    lemma_parse_decimal(id);
    let head = ws1 + d + ws2;
    assert forall|i: int| 0 <= i < head.len() implies head[i] != ':' by {
        if i < ws1.len() {
            assert(head[i] == ws1[i]);
        } else if i < ws1.len() + d.len() {
            assert(head[i] == d[i - ws1.len()]);
        } else {
            assert(head[i] == ws2[i - ws1.len() - d.len()]);
        }
    }
    let tail = h + seq![':'] + p;
    let s = ws1 + d + ws2 + ":"@ + h + ":"@ + p;
    assert(s =~= head + seq![':'] + tail);
    lemma_find_char_after(head, ':', tail);
    let rest = s.skip(head.len() + 1int);
    assert(rest =~= tail);
    lemma_find_char_after(h, ':', p);
    assert(s.take(head.len() as int) =~= head);
    assert(d[0] == d[0] && d.last() == d[d.len() - 1]);
    lemma_trim_padded(ws1, d, ws2);
    assert(rest.take(h.len() as int) =~= h);
    assert(rest.skip(h.len() + 1int) =~= p);
}

/// Parses a single "id:host:port" entry (see [`peer_entry_spec`]).
pub fn parse_peer_entry(s: &str) -> (r: Option<(u64, String)>)
    ensures
        r matches Some(p) ==> peer_entry_spec(s@) == Some((p.0, p.1@)),
        r is None ==> peer_entry_spec(s@) is None,
{
    let n = s.unicode_len();
    match position_of(s, ':') {
        None => None,
        Some(i) => {
            let rest = substring(s, i + 1, n);
            assert(rest@ =~= s@.skip(i as int + 1));
            match position_of(rest.as_str(), ':') {
                None => None,
                Some(j) => {
                    let head = substring(s, 0, i);
                    assert(head@ =~= s@.take(i as int));
                    let id_text = trim(head.as_str());
                    match parse_u64(id_text.as_str()) {
                        None => None,
                        Some(id) => {
                            let m = rest.unicode_len();
                            let host = trim(substring(rest.as_str(), 0, j).as_str());
                            let port = trim(substring(rest.as_str(), j + 1, m).as_str());
                            assert(rest@.subrange(0, j as int) =~= rest@.take(j as int));
                            assert(rest@.subrange(j as int + 1, m as int) =~= rest@.skip(j as int + 1));
                            let mut addr = host;
                            push_str(&mut addr, ":");
                            push_str(&mut addr, port.as_str());
                            Some((id, addr))
                        },
                    }
                },
            }
        },
    }
}

/// The well-formed entries of a comma-separated list, in order; empty and
/// malformed entries are skipped.
pub open spec fn peers_spec(parts: Seq<Seq<char>>) -> Seq<(u64, Seq<char>)>
    decreases parts.len(),
{
    if parts.len() == 0 {
        Seq::empty()
    } else {
        let p = peers_spec(parts.drop_last());
        let x = parts.last();
        if x.len() == 0 {
            p
        } else {
            match peer_entry_spec(x) {
                Some(e) => p.push(e),
                None => p,
            }
        }
    }
}

/// The entries as a map; of a repeated id the later entry wins.
pub open spec fn peers_map(entries: Seq<(u64, Seq<char>)>) -> Map<u64, Seq<char>>
    decreases entries.len(),
{
    if entries.len() == 0 {
        Map::empty()
    } else {
        peers_map(entries.drop_last()).insert(entries.last().0, entries.last().1)
    }
}

/// The entries of `raw` (see [`peers_spec`]) as (id, address) pairs.
fn peer_entries(raw: &str) -> (r: Vec<(u64, String)>)
    ensures
        r@.map_values(|p: (u64, String)| (p.0, p.1@)) == peers_spec(split_on(raw@, ',')),
{
    let parts = split_char(raw, ',');
    let ghost pv = parts@.map_values(|x: String| x@);
    let mut r: Vec<(u64, String)> = Vec::new();
    let mut i: usize = 0;
    assert(pv.take(0) =~= Seq::<Seq<char>>::empty());
    while i < parts.len()
        invariant
            pv == parts@.map_values(|x: String| x@),
            pv == split_on(raw@, ','),
            i <= parts@.len(),
            r@.map_values(|p: (u64, String)| (p.0, p.1@)) == peers_spec(pv.take(i as int)),
        decreases parts@.len() - i,
    {
        let ghost before = r@.map_values(|p: (u64, String)| (p.0, p.1@));
        proof {
            assert(pv.take(i as int + 1).drop_last() =~= pv.take(i as int));
            assert(pv.take(i as int + 1).last() == parts@[i as int]@);
        }
        if parts[i].unicode_len() > 0 {
            match parse_peer_entry(parts[i].as_str()) {
                Some(e) => {
                    let ghost ev = (e.0, e.1@);
                    r.push(e);
                    assert(r@.map_values(|p: (u64, String)| (p.0, p.1@)) =~= before.push(ev));
                },
                None => {},
            }
        }
        i = i + 1;
    }
    assert(pv.take(pv.len() as int) =~= pv);
    r
}

impl Config {
    /// Peers from "id:host:port,id:host:port"; malformed entries are skipped.
    pub fn parse_cluster_peers(raw: &str) -> (r: Vec<PeerConfig>)
        ensures
            r@.map_values(|p: PeerConfig| (p.id, p.addr@)) == peers_spec(split_on(raw@, ',')),
    {
        let entries = peer_entries(raw);
        let ghost ev = entries@.map_values(|p: (u64, String)| (p.0, p.1@));
        let mut r: Vec<PeerConfig> = Vec::new();
        let mut i: usize = 0;
        while i < entries.len()
            invariant
                ev == entries@.map_values(|p: (u64, String)| (p.0, p.1@)),
                i <= entries@.len(),
                r@.map_values(|p: PeerConfig| (p.id, p.addr@)) == ev.take(i as int),
            decreases entries@.len() - i,
        {
            let ghost before = r@.map_values(|p: PeerConfig| (p.id, p.addr@));
            r.push(PeerConfig { id: entries[i].0, addr: entries[i].1.clone() });
            assert(r@.map_values(|p: PeerConfig| (p.id, p.addr@)) =~= before.push(ev[i as int]));
            assert(ev.take(i as int + 1) =~= ev.take(i as int).push(ev[i as int]));
            i = i + 1;
        }
        assert(ev.take(ev.len() as int) =~= ev);
        r
    }

    /// HTTP addresses from "id:host:port,id:host:port" keyed by id; malformed
    /// entries are skipped and a repeated id keeps its last address.
    pub fn parse_http_peers(raw: &str) -> (r: HashMap<u64, String>)
        ensures
            r@.dom() == peers_map(peers_spec(split_on(raw@, ','))).dom(),
            forall|k: u64| #[trigger] r@.contains_key(k) ==> r@[k]@ == peers_map(peers_spec(split_on(raw@, ',')))[k],
    {
        let entries = peer_entries(raw);
        let ghost ev = entries@.map_values(|p: (u64, String)| (p.0, p.1@));
        let mut r: HashMap<u64, String> = HashMap::new();
        let mut i: usize = 0;
        assert(ev.take(0) =~= Seq::<(u64, Seq<char>)>::empty());
        while i < entries.len()
            invariant
                ev == entries@.map_values(|p: (u64, String)| (p.0, p.1@)),
                i <= entries@.len(),
                r@.dom() == peers_map(ev.take(i as int)).dom(),
                forall|k: u64| #[trigger] r@.contains_key(k) ==> r@[k]@ == peers_map(ev.take(i as int))[k],
            decreases entries@.len() - i,
        {
            r.insert(entries[i].0, entries[i].1.clone());
            proof {
                assert(ev.take(i as int + 1).drop_last() =~= ev.take(i as int));
                assert(ev.take(i as int + 1).last() == ev[i as int]);
                assert(r@.dom() =~= peers_map(ev.take(i as int + 1)).dom());
            }
            i = i + 1;
        }
        assert(ev.take(ev.len() as int) =~= ev);
        r
    }
}


/// The value of variable `name` among `vars`: the first pair with that name.
pub open spec fn lookup(vars: Seq<(String, String)>, name: Seq<char>) -> Option<Seq<char>>
    decreases vars.len(),
{
    if vars.len() == 0 {
        None
    } else if vars[0].0@ == name {
        Some(vars[0].1@)
    } else {
        lookup(vars.drop_first(), name)
    }
}

pub open spec fn opt_str(o: Option<String>) -> Option<Seq<char>> {
    match o {
        Some(s) => Some(s@),
        None => None,
    }
}

/// The value of variable `name` (see [`lookup`]).
pub fn env_value(vars: &[(String, String)], name: &str) -> (r: Option<String>)
    ensures
        opt_str(r) == lookup(vars@, name@),
{
    let mut i: usize = 0;
    assert(vars@.skip(0) =~= vars@);
    while i < vars.len()
        invariant
            i <= vars@.len(),
            lookup(vars@, name@) == lookup(vars@.skip(i as int), name@),
        decreases vars@.len() - i,
    {
        assert(vars@.skip(i as int)[0] == vars@[i as int]);
        assert(vars@.skip(i as int).drop_first() =~= vars@.skip(i as int + 1));
        if str_eq(vars[i].0.as_str(), name) {
            return Some(vars[i].1.clone());
        }
        i = i + 1;
    }
    None
}

/// A value that may be absent: blank counts as absent, and it is trimmed.
pub open spec fn optional_spec(v: Option<Seq<char>>) -> Option<Seq<char>> {
    match v {
        Some(x) => if trim_spec(x).len() == 0 { None } else { Some(trim_spec(x)) },
        None => None,
    }
}

fn optional_value(vars: &[(String, String)], name: &str) -> (r: Option<String>)
    ensures
        opt_str(r) == optional_spec(lookup(vars@, name@)),
{
    match env_value(vars, name) {
        None => None,
        Some(v) => {
            let t = trim(v.as_str());
            if t.unicode_len() == 0 { None } else { Some(t) }
        },
    }
}

/// A positive integer setting: the default when absent; None when present
/// but not a positive integer no larger than `max`.
pub open spec fn positive_spec(v: Option<Seq<char>>, default: nat, max: nat) -> Option<nat> {
    match v {
        None => Some(default),
        Some(x) => match parse_u64_spec(trim_spec(x)) {
            Some(n) => if 0 < n && n <= max { Some(n as nat) } else { None },
            None => None,
        },
    }
}

fn positive_value(vars: &[(String, String)], name: &str, default: u64, max: u64) -> (r: Result<u64, ConfigError>)
    ensures
        r matches Ok(n) ==> positive_spec(lookup(vars@, name@), default as nat, max as nat) == Some(n as nat),
        r matches Err(e) ==> positive_spec(lookup(vars@, name@), default as nat, max as nat) is None
            && e == (ConfigError::InvalidPositiveInteger { name: e->InvalidPositiveInteger_name }) && e->InvalidPositiveInteger_name@ == name@,
{
    match env_value(vars, name) {
        None => Ok(default),
        Some(v) => {
            let t = trim(v.as_str());
            match parse_u64(t.as_str()) {
                Some(n) => {
                    if 0 < n && n <= max {
                        Ok(n)
                    } else {
                        Err(ConfigError::InvalidPositiveInteger { name: string_from(name) })
                    }
                },
                None => Err(ConfigError::InvalidPositiveInteger { name: string_from(name) }),
            }
        },
    }
}

/// What a refusal is, by kind and variable name.
pub enum ConfigFailure {
    Empty,
    Missing,
    NotPositive,
}

pub open spec fn failure_of(e: ConfigError) -> (ConfigFailure, Seq<char>) {
    match e {
        ConfigError::EmptyValue { name } => (ConfigFailure::Empty, name@),
        ConfigError::MissingRequired { name } => (ConfigFailure::Missing, name@),
        ConfigError::InvalidPositiveInteger { name } => (ConfigFailure::NotPositive, name@),
    }
}

/// The vector-store path: `LANCE_DB_PATH`, else `LANCEDB_PATH`, else the
/// default; a blank value present is refused with its variable's name.
pub open spec fn lance_spec(vars: Seq<(String, String)>) -> Result<Seq<char>, Seq<char>> {
    match lookup(vars, "LANCE_DB_PATH"@) {
        Some(x) => if trim_spec(x).len() == 0 { Err("LANCE_DB_PATH"@) } else { Ok(x) },
        None => match lookup(vars, "LANCEDB_PATH"@) {
            Some(x) => if trim_spec(x).len() == 0 { Err("LANCEDB_PATH"@) } else { Ok(x) },
            None => Ok("./data/lancedb"@),
        },
    }
}

/// `KNOWLEDGE_EXTRACTOR` is exactly "mock".
pub open spec fn mock_extractor(vars: Seq<(String, String)>) -> bool {
    lookup(vars, "KNOWLEDGE_EXTRACTOR"@) == Some("mock"@)
}

/// The names of the positive-integer settings, in the order they are read, with defaults.
pub open spec fn positive_settings() -> Seq<(Seq<char>, nat)> {
    seq![
        ("EMBEDDING_DIMENSION"@, 1536nat),
        ("EMBEDDING_MAX_CONCURRENCY"@, 10nat),
        ("MPSC_CHANNEL_SIZE"@, 1000nat),
        ("SHORT_TERM_COUNT"@, 20nat),
        ("KNOWLEDGE_MAX_WORKERS"@, 4nat),
        ("KNOWLEDGE_CHANNEL_SIZE"@, 500nat),
    ]
}

pub open spec fn later_positive_settings() -> Seq<(Seq<char>, nat)> {
    seq![
        ("CONSOLIDATION_THRESHOLD"@, 50nat),
        ("CONSOLIDATION_TARGET_WINDOW"@, 20nat),
        ("CONSOLIDATION_MAX_WORKERS"@, 2nat),
        ("CONSOLIDATION_CHANNEL_SIZE"@, 100nat),
    ]
}

/// The first of `settings` whose value is not a positive integer.
pub open spec fn first_bad(vars: Seq<(String, String)>, settings: Seq<(Seq<char>, nat)>) -> Option<Seq<char>>
    decreases settings.len(),
{
    if settings.len() == 0 {
        None
    } else if positive_spec(lookup(vars, settings[0].0), settings[0].1, usize::MAX as nat) is None {
        Some(settings[0].0)
    } else {
        first_bad(vars, settings.drop_first())
    }
}

/// Why the settings are refused, if they are: the first failing setting in reading order.
pub open spec fn config_failure(vars: Seq<(String, String)>) -> Option<(ConfigFailure, Seq<char>)> {
    let key = lookup(vars, "OPENAI_API_KEY"@);
    if !mock_extractor(vars) && key is None {
        Some((ConfigFailure::Missing, "OPENAI_API_KEY"@))
    } else if !mock_extractor(vars) && trim_spec(key.unwrap()).len() == 0 {
        Some((ConfigFailure::Empty, "OPENAI_API_KEY"@))
    } else if lance_spec(vars) is Err {
        Some((ConfigFailure::Empty, lance_spec(vars)->Err_0))
    } else if first_bad(vars, positive_settings()) is Some {
        Some((ConfigFailure::NotPositive, first_bad(vars, positive_settings()).unwrap()))
    } else if positive_spec(lookup(vars, "SNAPSHOT_LOG_THRESHOLD"@), 1000, u64::MAX as nat) is None {
        Some((ConfigFailure::NotPositive, "SNAPSHOT_LOG_THRESHOLD"@))
    } else if first_bad(vars, later_positive_settings()) is Some {
        Some((ConfigFailure::NotPositive, first_bad(vars, later_positive_settings()).unwrap()))
    } else {
        None
    }
}

/// The value of a positive-integer setting that was accepted.
pub open spec fn positive_setting(vars: Seq<(String, String)>, name: Seq<char>, default: nat) -> nat {
    positive_spec(lookup(vars, name), default, usize::MAX as nat).unwrap()
}

impl Config {
    /// The settings that the variables `vars` (name, value) give; see
    /// [`config_failure`] for when they are refused.
    pub fn from_vars(vars: &[(String, String)]) -> (r: Result<Config, ConfigError>)
        ensures
            r matches Err(e) ==> config_failure(vars@) == Some(failure_of(e)),
            r matches Ok(c) ==> {
                &&& config_failure(vars@) is None
                &&& c.knowledge_extractor == (if mock_extractor(vars@) { KnowledgeExtractorType::Mock } else { KnowledgeExtractorType::OpenAI })
                &&& c.redis_url@ == (match lookup(vars@, "REDIS_URL"@) {
                    Some(x) => if trim_spec(x).len() > 0 { x } else { "redis://localhost:6379"@ },
                    None => "redis://localhost:6379"@,
                })
                &&& c.openai_api_key@ == (if mock_extractor(vars@) {
                    match lookup(vars@, "OPENAI_API_KEY"@) { Some(x) => x, None => Seq::empty() }
                } else {
                    trim_spec(lookup(vars@, "OPENAI_API_KEY"@).unwrap())
                })
                &&& opt_str(c.openai_base_url) == optional_spec(lookup(vars@, "OPENAI_BASE_URL"@))
                &&& c.lance_db_path@ == lance_spec(vars@)->Ok_0
                &&& c.embedding_dimension as nat == positive_setting(vars@, "EMBEDDING_DIMENSION"@, 1536)
                &&& c.embedding_max_concurrency as nat == positive_setting(vars@, "EMBEDDING_MAX_CONCURRENCY"@, 10)
                &&& c.mpsc_channel_size as nat == positive_setting(vars@, "MPSC_CHANNEL_SIZE"@, 1000)
                &&& c.short_term_count as nat == positive_setting(vars@, "SHORT_TERM_COUNT"@, 20)
                &&& c.node_id == (match lookup(vars@, "NODE_ID"@) { Some(x) => parse_u64_spec(trim_spec(x)), None => None })
                &&& opt_str(c.raft_addr) == optional_spec(lookup(vars@, "RAFT_ADDR"@))
                &&& opt_str(c.raft_advertise_addr) == optional_spec(lookup(vars@, "RAFT_ADVERTISE_ADDR"@))
                &&& c.cluster_peers@.map_values(|p: PeerConfig| (p.id, p.addr@)) == peers_spec(split_on(
                    match lookup(vars@, "CLUSTER_PEERS"@) { Some(x) => x, None => Seq::empty() }, ','))
                &&& c.cluster_http_peers@.dom() == peers_map(peers_spec(split_on(
                    match lookup(vars@, "CLUSTER_HTTP_PEERS"@) { Some(x) => x, None => Seq::empty() }, ','))).dom()
                &&& c.knowledge_max_workers as nat == positive_setting(vars@, "KNOWLEDGE_MAX_WORKERS"@, 4)
                &&& c.knowledge_channel_size as nat == positive_setting(vars@, "KNOWLEDGE_CHANNEL_SIZE"@, 500)
                &&& c.raft_db_path@ == (match optional_spec(lookup(vars@, "RAFT_DB_PATH"@)) {
                    Some(x) => x,
                    None => "./data/raft/engram.redb"@,
                })
                &&& c.snapshot_log_threshold as nat == positive_spec(lookup(vars@, "SNAPSHOT_LOG_THRESHOLD"@), 1000, u64::MAX as nat).unwrap()
                &&& c.summarizer == (if lookup(vars@, "SUMMARIZER"@) == Some("mock"@) { SummarizerType::Mock } else { SummarizerType::OpenAI })
                &&& c.consolidation_threshold as nat == positive_setting(vars@, "CONSOLIDATION_THRESHOLD"@, 50)
                &&& c.consolidation_target_window as nat == positive_setting(vars@, "CONSOLIDATION_TARGET_WINDOW"@, 20)
                &&& c.consolidation_max_workers as nat == positive_setting(vars@, "CONSOLIDATION_MAX_WORKERS"@, 2)
                &&& c.consolidation_channel_size as nat == positive_setting(vars@, "CONSOLIDATION_CHANNEL_SIZE"@, 100)
            },
    {
        let usize_max = usize::MAX as u64;
        let mock = match env_value(vars, "KNOWLEDGE_EXTRACTOR") {
            Some(v) => str_eq(v.as_str(), "mock"),
            None => false,
        };
        let redis_url = match env_value(vars, "REDIS_URL") {
            Some(v) => if trim(v.as_str()).unicode_len() > 0 { v } else { string_from("redis://localhost:6379") },
            None => string_from("redis://localhost:6379"),
        };
        let openai_api_key = if mock {
            match env_value(vars, "OPENAI_API_KEY") {
                Some(v) => v,
                None => String::new(),
            }
        } else {
            match env_value(vars, "OPENAI_API_KEY") {
                None => return Err(ConfigError::MissingRequired { name: string_from("OPENAI_API_KEY") }),
                Some(v) => {
                    let t = trim(v.as_str());
                    if t.unicode_len() == 0 {
                        return Err(ConfigError::EmptyValue { name: string_from("OPENAI_API_KEY") });
                    }
                    t
                },
            }
        };
        let openai_base_url = optional_value(vars, "OPENAI_BASE_URL");
        let lance_db_path = match env_value(vars, "LANCE_DB_PATH") {
            Some(v) => {
                if trim(v.as_str()).unicode_len() == 0 {
                    return Err(ConfigError::EmptyValue { name: string_from("LANCE_DB_PATH") });
                }
                v
            },
            None => match env_value(vars, "LANCEDB_PATH") {
                Some(v) => {
                    if trim(v.as_str()).unicode_len() == 0 {
                        return Err(ConfigError::EmptyValue { name: string_from("LANCEDB_PATH") });
                    }
                    v
                },
                None => string_from("./data/lancedb"),
            },
        };
        proof {
            reveal_with_fuel(first_bad, 7);
        }
        let embedding_dimension = match positive_value(vars, "EMBEDDING_DIMENSION", 1536, usize_max) {
            Ok(n) => n as usize,
            Err(e) => return Err(e),
        };
        let embedding_max_concurrency = match positive_value(vars, "EMBEDDING_MAX_CONCURRENCY", 10, usize_max) {
            Ok(n) => n as usize,
            Err(e) => return Err(e),
        };
        let mpsc_channel_size = match positive_value(vars, "MPSC_CHANNEL_SIZE", 1000, usize_max) {
            Ok(n) => n as usize,
            Err(e) => return Err(e),
        };
        let short_term_count = match positive_value(vars, "SHORT_TERM_COUNT", 20, usize_max) {
            Ok(n) => n as usize,
            Err(e) => return Err(e),
        };
        let node_id = match env_value(vars, "NODE_ID") {
            Some(v) => parse_u64(trim(v.as_str()).as_str()),
            None => None,
        };
        let raft_addr = optional_value(vars, "RAFT_ADDR");
        let raft_advertise_addr = optional_value(vars, "RAFT_ADVERTISE_ADDR");
        let peers_raw = match env_value(vars, "CLUSTER_PEERS") {
            Some(v) => v,
            None => String::new(),
        };
        let cluster_peers = Config::parse_cluster_peers(peers_raw.as_str());
        let http_raw = match env_value(vars, "CLUSTER_HTTP_PEERS") {
            Some(v) => v,
            None => String::new(),
        };
        let cluster_http_peers = Config::parse_http_peers(http_raw.as_str());
        let knowledge_max_workers = match positive_value(vars, "KNOWLEDGE_MAX_WORKERS", 4, usize_max) {
            Ok(n) => n as usize,
            Err(e) => return Err(e),
        };
        let knowledge_channel_size = match positive_value(vars, "KNOWLEDGE_CHANNEL_SIZE", 500, usize_max) {
            Ok(n) => n as usize,
            Err(e) => return Err(e),
        };
        let raft_db_path = match optional_value(vars, "RAFT_DB_PATH") {
            Some(v) => v,
            None => string_from("./data/raft/engram.redb"),
        };
        let snapshot_log_threshold = match positive_value(vars, "SNAPSHOT_LOG_THRESHOLD", 1000, u64::MAX) {
            Ok(n) => n,
            Err(e) => return Err(e),
        };
        proof {
            reveal_with_fuel(first_bad, 5);
        }
        let summarizer = match env_value(vars, "SUMMARIZER") {
            Some(v) => if str_eq(v.as_str(), "mock") { SummarizerType::Mock } else { SummarizerType::OpenAI },
            None => SummarizerType::OpenAI,
        };
        let consolidation_threshold = match positive_value(vars, "CONSOLIDATION_THRESHOLD", 50, usize_max) {
            Ok(n) => n as usize,
            Err(e) => return Err(e),
        };
        let consolidation_target_window = match positive_value(vars, "CONSOLIDATION_TARGET_WINDOW", 20, usize_max) {
            Ok(n) => n as usize,
            Err(e) => return Err(e),
        };
        let consolidation_max_workers = match positive_value(vars, "CONSOLIDATION_MAX_WORKERS", 2, usize_max) {
            Ok(n) => n as usize,
            Err(e) => return Err(e),
        };
        let consolidation_channel_size = match positive_value(vars, "CONSOLIDATION_CHANNEL_SIZE", 100, usize_max) {
            Ok(n) => n as usize,
            Err(e) => return Err(e),
        };
        Ok(Config {
            redis_url,
            openai_api_key,
            openai_base_url,
            lance_db_path,
            embedding_dimension,
            embedding_max_concurrency,
            mpsc_channel_size,
            short_term_count,
            node_id,
            raft_addr,
            raft_advertise_addr,
            cluster_peers,
            cluster_http_peers,
            knowledge_max_workers,
            knowledge_channel_size,
            knowledge_extractor: if mock { KnowledgeExtractorType::Mock } else { KnowledgeExtractorType::OpenAI },
            raft_db_path,
            snapshot_log_threshold,
            summarizer,
            consolidation_threshold,
            consolidation_target_window,
            consolidation_max_workers,
            consolidation_channel_size,
        })
    }
}

} // verus!
