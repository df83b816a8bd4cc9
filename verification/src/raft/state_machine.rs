//! Applying replicated commands to a node's state, and snapshotting it.

use vstd::prelude::*;
use crate::consolidation::store::{add_summary_model, ConsolidatedMemoryStore, InMemoryConsolidatedStore, SummaryView};
use crate::consolidation::scheduler::make_summary;
use crate::assoc::{fold_insert, keys_of, to_map};
use crate::knowledge::graph::{
    dedup_key_model, extraction_fits, extraction_step, graph_describes, lemma_graph_snapshot_round_trip, sessions_well_formed, snapshot_fits,
    snapshot_processed, snapshot_sessions, KnowledgeGraph, SessionModel,
};
use crate::knowledge::types::KnowledgeJob;
use crate::memory::{kept_after_removal, CoreMemoryStore, InMemoryCoreMemoryStore, InMemoryStore};
use crate::models::{EmbeddingStatus, Message};
use crate::raft::snapshot::{EngramSnapshot, SessionFacts, SessionMessages, SNAPSHOT_VERSION};
use crate::raft::types::{MemoryCommand, MessagePayload};
use crate::text::{decimal, push_decimal, push_str, spec_starts_with};
use crate::topology::{no_dup_names, strings_view};
use crate::worker::EmbeddingJob;

verus! {

/// Work a node queues for itself after applying a command.
pub enum SideJob {
    /// Embed a new message into the node's vector store.
    Embed(EmbeddingJob),
    /// Extract knowledge from a new message (the leader's worker does it).
    Extract(KnowledgeJob),
    /// Drop a deleted session's vectors.
    DropVectors(String),
}

/// A node's applied state.
pub struct MemoryState {
    short_term: InMemoryStore,
    core_memory: InMemoryCoreMemoryStore,
    knowledge_graph: KnowledgeGraph,
    consolidated: InMemoryConsolidatedStore,
    last_applied: Option<u64>,
}

/// The message stored for an `AddMessage` command.
pub open spec fn stored_message(id: String, role: String, content: String, timestamp: i64) -> Message {
    Message { id: Some(id), role, content, timestamp: Some(timestamp), embedding_status: Some(EmbeddingStatus::Pending) }
}

/// Adding a replicated message appends, to that session only, a message that
/// carries the command's id, role, content and timestamp, waiting for its
/// embedding; the messages before it stay as they were.
pub proof fn lemma_added_message_carries_payload(
    before: Map<Seq<char>, Seq<Message>>,
    session_id: Seq<char>,
    message: MessagePayload,
)
    ensures
        ({
            let prev = if before.contains_key(session_id) { before[session_id] } else { Seq::<Message>::empty() };
            let after = before.insert(session_id, prev.push(stored_message(message.id, message.role, message.content, message.timestamp)));
            let added = after[session_id].last();
            &&& after[session_id].len() == prev.len() + 1
            &&& forall|i: int| 0 <= i < prev.len() ==> after[session_id][i] == prev[i]
            &&& added.id == Some(message.id)
            &&& added.role == message.role
            &&& added.content == message.content
            &&& added.timestamp == Some(message.timestamp)
            &&& added.embedding_status == Some(EmbeddingStatus::Pending)
            &&& forall|k: Seq<char>| k != session_id ==> (after.contains_key(k) == before.contains_key(k))
            &&& forall|k: Seq<char>| k != session_id && before.contains_key(k) ==> after[k] == before[k]
        }),
{
}

impl MemoryState {
    pub closed spec fn wf(&self) -> bool {
        &&& self.short_term.wf()
        &&& self.core_memory.wf()
        &&& self.knowledge_graph.wf()
        &&& self.consolidated.wf()
    }

    pub closed spec fn messages(&self) -> Map<Seq<char>, Seq<Message>> {
        self.short_term.sessions()
    }

    pub closed spec fn facts(&self) -> Map<Seq<char>, Seq<Seq<char>>> {
        self.core_memory.sessions()
    }

    pub closed spec fn knowledge(&self) -> Map<Seq<char>, SessionModel> {
        self.knowledge_graph.sessions()
    }

    pub closed spec fn processed(&self) -> Set<Seq<char>> {
        self.knowledge_graph.processed()
    }

    pub closed spec fn summaries(&self) -> Map<Seq<char>, Seq<SummaryView>> {
        self.consolidated.model()
    }

    pub closed spec fn applied(&self) -> Option<u64> {
        self.last_applied
    }

    pub fn new() -> (s: Self)
        ensures
            s.wf(),
            s.messages() == Map::<Seq<char>, Seq<Message>>::empty(),
            s.facts() == Map::<Seq<char>, Seq<Seq<char>>>::empty(),
            s.knowledge() == Map::<Seq<char>, SessionModel>::empty(),
            s.processed() == Set::<Seq<char>>::empty(),
            s.summaries() == Map::<Seq<char>, Seq<SummaryView>>::empty(),
            s.applied() is None,
    {
        MemoryState {
            short_term: InMemoryStore::new(),
            core_memory: InMemoryCoreMemoryStore::new(),
            knowledge_graph: KnowledgeGraph::new(),
            consolidated: InMemoryConsolidatedStore::new(),
            last_applied: None,
        }
    }

    /// Short-term memory, for reading.
    pub fn short_term(&self) -> (r: &InMemoryStore)
        ensures
            r.sessions() == self.messages(),
            self.wf() ==> r.wf(),
    {
        &self.short_term
    }

    /// Core memory, for reading.
    pub fn core_memory(&self) -> (r: &InMemoryCoreMemoryStore)
        ensures
            r.sessions() == self.facts(),
            self.wf() ==> r.wf(),
    {
        &self.core_memory
    }

    /// The knowledge graph, for reading.
    pub fn knowledge_graph(&self) -> (r: &KnowledgeGraph)
        ensures
            r.sessions() == self.knowledge(),
            r.processed() == self.processed(),
            self.wf() ==> r.wf(),
    {
        &self.knowledge_graph
    }

    /// The summaries, for reading.
    pub fn consolidated(&self) -> (r: &InMemoryConsolidatedStore)
        ensures
            r.model() == self.summaries(),
            self.wf() ==> r.wf(),
    {
        &self.consolidated
    }

    /// The index of the last applied log entry.
    pub fn last_applied(&self) -> (r: Option<u64>)
        ensures
            r == self.applied(),
    {
        self.last_applied
    }

    /// Applies the command of log entry `index` and returns the jobs to queue.
    /// Knowledge that would exceed the graph's index space is not applied.
    pub fn apply(&mut self, index: u64, cmd: MemoryCommand) -> (jobs: Vec<SideJob>)
        requires
            old(self).wf(),
        ensures
            final(self).wf(),
            final(self).applied() == Some(index),
            match cmd {
                MemoryCommand::AddMessage { session_id, message } => {
                    let m = stored_message(message.id, message.role, message.content, message.timestamp);
                    &&& final(self).messages() == old(self).messages().insert(session_id@,
                        (if old(self).messages().contains_key(session_id@) { old(self).messages()[session_id@] } else { Seq::empty() }).push(m))
                    &&& final(self).messages().contains_key(session_id@)
                    &&& final(self).messages()[session_id@].last().id == Some(message.id)
                    &&& final(self).messages()[session_id@].last().role == message.role
                    &&& final(self).messages()[session_id@].last().content == message.content
                    &&& final(self).messages()[session_id@].last().timestamp == Some(message.timestamp)
                    &&& final(self).messages()[session_id@].last().embedding_status == Some(EmbeddingStatus::Pending)
                    &&& final(self).facts() == old(self).facts()
                    &&& final(self).knowledge() == old(self).knowledge()
                    &&& final(self).processed() == old(self).processed()
                    &&& final(self).summaries() == old(self).summaries()
                    &&& jobs@.len() == 2
                    &&& jobs@[0] matches SideJob::Embed(j) && j.session_id() == session_id && j.message_id() == message.id
                        && j.text() == message.content
                    &&& jobs@[1] matches SideJob::Extract(k) && k.session_id == session_id && k.message_id == message.id
                        && k.text == message.content
                },
                MemoryCommand::AddFact { session_id, fact } => {
                    &&& final(self).facts() == old(self).facts().insert(session_id@,
                        (if old(self).facts().contains_key(session_id@) { old(self).facts()[session_id@] } else { Seq::empty() }).push(fact@))
                    &&& final(self).messages() == old(self).messages()
                    &&& final(self).knowledge() == old(self).knowledge()
                    &&& final(self).processed() == old(self).processed()
                    &&& final(self).summaries() == old(self).summaries()
                    &&& jobs@.len() == 0
                },
                MemoryCommand::DeleteSession { session_id } => {
                    &&& final(self).messages() == old(self).messages().remove(session_id@)
                    &&& final(self).facts() == old(self).facts().remove(session_id@)
                    &&& final(self).knowledge() == old(self).knowledge().remove(session_id@)
                    &&& final(self).processed() == old(self).processed().filter(
                        |k: Seq<char>| !spec_starts_with(k, session_id@ + seq!['\0']))
                    &&& final(self).summaries() == old(self).summaries()
                    &&& jobs@.len() == 1
                    &&& jobs@[0] matches SideJob::DropVectors(s) && s == session_id
                },
                MemoryCommand::AddKnowledge { session_id, message_id, entities, relationships } => {
                    let base = if old(self).knowledge().contains_key(session_id@) { old(self).knowledge()[session_id@] } else {
                        crate::knowledge::graph::empty_session()
                    };
                    let fits = extraction_fits(base, entities@, relationships@);
                    &&& fits ==> (final(self).knowledge(), final(self).processed()) == extraction_step(
                        old(self).knowledge(), old(self).processed(), session_id@, message_id@, entities@, relationships@)
                    &&& !fits ==> final(self).knowledge() == old(self).knowledge() && final(self).processed() == old(self).processed()
                    &&& final(self).messages() == old(self).messages()
                    &&& final(self).facts() == old(self).facts()
                    &&& final(self).summaries() == old(self).summaries()
                    &&& jobs@.len() == 0
                },
                MemoryCommand::ApplySummary { session_id, summary_id, summary_text, consumed_message_ids, model, prompt_version } => {
                    let view = SummaryView {
                        id: summary_id@,
                        text: summary_text@,
                        created_at_index: index,
                        consumed_message_ids: strings_view(consumed_message_ids@),
                        consumed_count: consumed_message_ids@.len() as u64,
                        model: model@,
                        prompt_version: prompt_version@,
                    };
                    &&& final(self).summaries() == add_summary_model(old(self).summaries(), session_id@, view)
                    &&& old(self).messages().contains_key(session_id@) ==> final(self).messages() == old(self).messages().insert(
                        session_id@,
                        old(self).messages()[session_id@].filter(
                            |m: Message| kept_after_removal(m, strings_view(consumed_message_ids@))),
                    )
                    &&& !old(self).messages().contains_key(session_id@) ==> final(self).messages() == old(self).messages()
                    &&& final(self).facts() == old(self).facts()
                    &&& final(self).knowledge() == old(self).knowledge()
                    &&& final(self).processed() == old(self).processed()
                    &&& jobs@.len() == 0
                },
                _ => {
                    &&& final(self).messages() == old(self).messages()
                    &&& final(self).facts() == old(self).facts()
                    &&& final(self).knowledge() == old(self).knowledge()
                    &&& final(self).processed() == old(self).processed()
                    &&& final(self).summaries() == old(self).summaries()
                    &&& jobs@.len() == 0
                },
            },
    {
        let mut jobs: Vec<SideJob> = Vec::new();
        match cmd {
            MemoryCommand::AddMessage { session_id, message } => {
                let msg = Message {
                    id: Some(message.id.clone()),
                    role: message.role.clone(),
                    content: message.content.clone(),
                    timestamp: Some(message.timestamp),
                    embedding_status: Some(EmbeddingStatus::Pending),
                };
                self.short_term.add_message(session_id.as_str(), msg);
                jobs.push(SideJob::Embed(EmbeddingJob::new(session_id.clone(), message.id.clone(), message.content.clone())));
                jobs.push(SideJob::Extract(KnowledgeJob { session_id, message_id: message.id, text: message.content }));
            },
            MemoryCommand::AddFact { session_id, fact } => {
                self.core_memory.add_fact(session_id.as_str(), fact.as_str());
            },
            MemoryCommand::DeleteSession { session_id } => {
                self.short_term.delete_session(session_id.as_str());
                self.core_memory.delete_session(session_id.as_str());
                self.knowledge_graph.delete_session(session_id.as_str());
                jobs.push(SideJob::DropVectors(session_id));
            },
            MemoryCommand::AddKnowledge { session_id, message_id, entities, relationships } => {
                self.knowledge_graph.apply_extraction_if_fits(session_id.as_str(), message_id.as_str(), entities, relationships);
            },
            MemoryCommand::ApplySummary { session_id, summary_id, summary_text, consumed_message_ids, model, prompt_version } => {
                let summary = make_summary(summary_id, summary_text, consumed_message_ids, model, prompt_version, index);
                crate::consolidation::scheduler::apply_summary(&mut self.consolidated, &mut self.short_term, session_id.as_str(), summary);
            },
            MemoryCommand::SetSessionVisibility { .. } => {},
            MemoryCommand::NoOp => {},
        }
        self.last_applied = Some(index);
        jobs
    }

    /// A snapshot of the applied state.
    pub fn build_snapshot(&self) -> (snap: EngramSnapshot)
        requires
            self.wf(),
        ensures
            snap.version == SNAPSHOT_VERSION,
            state_describes(snap, self.messages(), self.facts(), self.knowledge(), self.processed()),
            snap.global_graph is None,
            snap.visibility@.len() == 0,
            snap.session_agents@.len() == 0,
    {
        let dump = self.short_term.dump_all();
        let ghost d = dump@;
        let mut short_term: Vec<SessionMessages> = Vec::new();
        let mut i: usize = 0;
        while i < dump.len()
            invariant
                d == dump@,
                i <= d.len(),
                short_term@.map_values(|s: SessionMessages| (s.session_id, s.messages@))
                    == d.take(i as int).map_values(|p: (String, Vec<Message>)| (p.0, p.1@)),
            decreases d.len() - i,
        {
            let ghost before = short_term@.map_values(|s: SessionMessages| (s.session_id, s.messages@));
            short_term.push(SessionMessages { session_id: dump[i].0.clone(), messages: crate::models::copy_messages(&dump[i].1) });
            assert(short_term@.map_values(|s: SessionMessages| (s.session_id, s.messages@)) =~= before.push((d[i as int].0, d[i as int].1@)));
            assert(d.take(i as int + 1).map_values(|p: (String, Vec<Message>)| (p.0, p.1@))
                =~= d.take(i as int).map_values(|p: (String, Vec<Message>)| (p.0, p.1@)).push((d[i as int].0, d[i as int].1@)));
            i = i + 1;
        }
        assert(d.take(d.len() as int) =~= d);
        let fdump = self.core_memory.dump_all();
        let ghost fd = fdump@;
        let mut core_memory: Vec<SessionFacts> = Vec::new();
        let mut j: usize = 0;
        while j < fdump.len()
            invariant
                fd == fdump@,
                j <= fd.len(),
                core_memory@.map_values(|s: SessionFacts| (s.session_id, strings_view(s.facts@)))
                    == fd.take(j as int).map_values(|p: (String, Vec<String>)| (p.0, strings_view(p.1@))),
            decreases fd.len() - j,
        {
            let ghost before = core_memory@.map_values(|s: SessionFacts| (s.session_id, strings_view(s.facts@)));
            core_memory.push(SessionFacts { session_id: fdump[j].0.clone(), facts: crate::text::copy_strings(fdump[j].1.as_slice()) });
            assert(core_memory@.map_values(|s: SessionFacts| (s.session_id, strings_view(s.facts@)))
                =~= before.push((fd[j as int].0, strings_view(fd[j as int].1@))));
            assert(fd.take(j as int + 1).map_values(|p: (String, Vec<String>)| (p.0, strings_view(p.1@)))
                =~= fd.take(j as int).map_values(|p: (String, Vec<String>)| (p.0, strings_view(p.1@))).push((fd[j as int].0, strings_view(fd[j as int].1@))));
            j = j + 1;
        }
        assert(fd.take(fd.len() as int) =~= fd);
        let snap = EngramSnapshot {
            version: SNAPSHOT_VERSION,
            short_term,
            core_memory,
            knowledge_graph: self.knowledge_graph.to_snapshot(),
            global_graph: None,
            visibility: Vec::new(),
            session_agents: Vec::new(),
        };
        proof {
            assert(snapshot_messages(snap) =~= d.map_values(|p: (String, Vec<Message>)| (p.0, p.1@)));
            assert(keys_of(snapshot_messages(snap)) =~= keys_of(d));
            assert(snapshot_messages(snap).map_values(|p: (String, Seq<Message>)| p.1) =~= d.map_values(|p: (String, Vec<Message>)| p.1@));
            assert(snapshot_facts(snap) =~= fd.map_values(|p: (String, Vec<String>)| (p.0, strings_view(p.1@))));
            assert(keys_of(snapshot_facts(snap)) =~= keys_of(fd));
            assert(snapshot_facts(snap).map_values(|p: (String, Seq<Seq<char>>)| p.1) =~= fd.map_values(|p: (String, Vec<String>)| strings_view(p.1@)));
        }
        snap
    }

    /// Startup recovery: the persisted snapshot, with the index it was taken
    /// at, is installed; without one the short-term and core memories are
    /// cleared so that nothing from an earlier run remains.
    pub fn recover(&mut self, persisted: Option<(Option<u64>, EngramSnapshot)>)
        requires
            old(self).wf(),
        ensures
            final(self).wf(),
            persisted is None ==> {
                &&& final(self).messages() == Map::<Seq<char>, Seq<Message>>::empty()
                &&& final(self).facts() == Map::<Seq<char>, Seq<Seq<char>>>::empty()
                &&& final(self).knowledge() == old(self).knowledge()
                &&& final(self).processed() == old(self).processed()
                &&& final(self).summaries() == old(self).summaries()
                &&& final(self).applied() == old(self).applied()
            },
            persisted matches Some((index, snap)) ==> {
                &&& final(self).messages() == restored_messages(snap)
                &&& final(self).facts() == restored_facts(snap)
                &&& final(self).knowledge() == snapshot_sessions(snap.knowledge_graph)
                &&& final(self).processed() == snapshot_processed(snap.knowledge_graph)
                &&& final(self).summaries() == old(self).summaries()
                &&& final(self).applied() == index
            },
    {
        match persisted {
            Some((index, snap)) => self.install_snapshot(snap, index),
            None => {
                self.short_term.restore_all(Vec::new());
                self.core_memory.restore_all(Vec::new());
                proof {
                    let e1 = Seq::<(String, Vec<Message>)>::empty().map_values(|p: (String, Vec<Message>)| (p.0@, p.1@));
                    assert(e1 =~= Seq::<(Seq<char>, Seq<Message>)>::empty());
                    let e2 = Seq::<(String, Vec<String>)>::empty().map_values(|p: (String, Vec<String>)| (p.0@, strings_view(p.1@)));
                    assert(e2 =~= Seq::<(Seq<char>, Seq<Seq<char>>)>::empty());
                }
            },
        }
    }

    /// Replaces the state with a snapshot's, recording `last_applied` as the
    /// index it was taken at. Summaries are kept.
    pub fn install_snapshot(&mut self, snap: EngramSnapshot, last_applied: Option<u64>)
        requires
            old(self).wf(),
        ensures
            final(self).wf(),
            final(self).messages() == restored_messages(snap),
            final(self).facts() == restored_facts(snap),
            final(self).knowledge() == snapshot_sessions(snap.knowledge_graph),
            final(self).processed() == snapshot_processed(snap.knowledge_graph),
            final(self).summaries() == old(self).summaries(),
            final(self).applied() == last_applied,
    {
        let ghost sm = snapshot_messages(snap);
        let ghost sf = snapshot_facts(snap);
        let EngramSnapshot { short_term, core_memory, knowledge_graph, .. } = snap;
        let ghost st = short_term@;
        let mut sessions: Vec<(String, Vec<Message>)> = Vec::new();
        let mut i: usize = 0;
        while i < short_term.len()
            invariant
                st == short_term@,
                i <= st.len(),
                sessions@.map_values(|p: (String, Vec<Message>)| (p.0@, p.1@))
                    == st.take(i as int).map_values(|s: SessionMessages| (s.session_id@, s.messages@)),
            decreases st.len() - i,
        {
            let ghost before = sessions@.map_values(|p: (String, Vec<Message>)| (p.0@, p.1@));
            sessions.push((short_term[i].session_id.clone(), crate::models::copy_messages(&short_term[i].messages)));
            assert(sessions@.map_values(|p: (String, Vec<Message>)| (p.0@, p.1@)) =~= before.push((st[i as int].session_id@, st[i as int].messages@)));
            assert(st.take(i as int + 1).map_values(|s: SessionMessages| (s.session_id@, s.messages@))
                =~= st.take(i as int).map_values(|s: SessionMessages| (s.session_id@, s.messages@)).push((st[i as int].session_id@, st[i as int].messages@)));
            i = i + 1;
        }
        assert(st.take(st.len() as int) =~= st);
        assert(sessions@.map_values(|p: (String, Vec<Message>)| (p.0@, p.1@)) =~= sm.map_values(|p: (String, Seq<Message>)| (p.0@, p.1)));
        self.short_term.restore_all(sessions);
        let ghost cm = core_memory@;
        let mut facts: Vec<(String, Vec<String>)> = Vec::new();
        let mut j: usize = 0;
        while j < core_memory.len()
            invariant
                cm == core_memory@,
                j <= cm.len(),
                facts@.map_values(|p: (String, Vec<String>)| (p.0@, strings_view(p.1@)))
                    == cm.take(j as int).map_values(|s: SessionFacts| (s.session_id@, strings_view(s.facts@))),
            decreases cm.len() - j,
        {
            let ghost before = facts@.map_values(|p: (String, Vec<String>)| (p.0@, strings_view(p.1@)));
            facts.push((core_memory[j].session_id.clone(), crate::text::copy_strings(core_memory[j].facts.as_slice())));
            assert(facts@.map_values(|p: (String, Vec<String>)| (p.0@, strings_view(p.1@)))
                =~= before.push((cm[j as int].session_id@, strings_view(cm[j as int].facts@))));
            assert(cm.take(j as int + 1).map_values(|s: SessionFacts| (s.session_id@, strings_view(s.facts@)))
                =~= cm.take(j as int).map_values(|s: SessionFacts| (s.session_id@, strings_view(s.facts@))).push((cm[j as int].session_id@, strings_view(cm[j as int].facts@))));
            j = j + 1;
        }
        assert(cm.take(cm.len() as int) =~= cm);
        assert(facts@.map_values(|p: (String, Vec<String>)| (p.0@, strings_view(p.1@))) =~= sf.map_values(|p: (String, Seq<Seq<char>>)| (p.0@, p.1)));
        self.core_memory.restore_all(facts);
        self.knowledge_graph = KnowledgeGraph::from_snapshot(knowledge_graph);
        self.last_applied = last_applied;
    }
}

/// The name of a snapshot: the index it was taken at (zero before any entry
/// was applied), a dash, and how many snapshots this node built before.
pub fn snapshot_id(last_applied: Option<u64>, snapshot_idx: u64) -> (r: String)
    ensures
        r@ == decimal(match last_applied { Some(i) => i as nat, None => 0 }) + "-"@ + decimal(snapshot_idx as nat),
{
    let mut r = String::new();
    let index = match last_applied {
        Some(i) => i,
        None => 0,
    };
    push_decimal(&mut r, index);
    push_str(&mut r, "-");
    push_decimal(&mut r, snapshot_idx);
    r
}

/// The snapshot's sessions with their messages.
pub open spec fn snapshot_messages(snap: EngramSnapshot) -> Seq<(String, Seq<Message>)> {
    snap.short_term@.map_values(|s: SessionMessages| (s.session_id, s.messages@))
}

/// The snapshot's sessions with their facts.
pub open spec fn snapshot_facts(snap: EngramSnapshot) -> Seq<(String, Seq<Seq<char>>)> {
    snap.core_memory@.map_values(|s: SessionFacts| (s.session_id, strings_view(s.facts@)))
}

/// The short-term memory a snapshot restores; a repeated session id keeps its last messages.
pub open spec fn restored_messages(snap: EngramSnapshot) -> Map<Seq<char>, Seq<Message>> {
    fold_insert(snapshot_messages(snap).map_values(|p: (String, Seq<Message>)| (p.0@, p.1)))
}

/// The core memory a snapshot restores; a repeated session id keeps its last facts.
pub open spec fn restored_facts(snap: EngramSnapshot) -> Map<Seq<char>, Seq<Seq<char>>> {
    fold_insert(snapshot_facts(snap).map_values(|p: (String, Seq<Seq<char>>)| (p.0@, p.1)))
}

/// `snap` lists each session's messages, facts and knowledge graph once, as
/// the state holds them.
pub open spec fn state_describes(
    snap: EngramSnapshot,
    messages: Map<Seq<char>, Seq<Message>>,
    facts: Map<Seq<char>, Seq<Seq<char>>>,
    knowledge: Map<Seq<char>, SessionModel>,
    processed: Set<Seq<char>>,
) -> bool {
    &&& no_dup_names(keys_of(snapshot_messages(snap)))
    &&& to_map(keys_of(snapshot_messages(snap)), snapshot_messages(snap).map_values(|p: (String, Seq<Message>)| p.1)) == messages
    &&& no_dup_names(keys_of(snapshot_facts(snap)))
    &&& to_map(keys_of(snapshot_facts(snap)), snapshot_facts(snap).map_values(|p: (String, Seq<Seq<char>>)| p.1)) == facts
    &&& graph_describes(snap.knowledge_graph, knowledge, processed)
    &&& sessions_well_formed(knowledge)
}

/// Installing a snapshot restores the state that it describes: the messages,
/// facts and knowledge graphs of every session and the applied extractions,
/// when each session graph fits the index space.
pub proof fn lemma_snapshot_restores_state(
    snap: EngramSnapshot,
    messages: Map<Seq<char>, Seq<Message>>,
    facts: Map<Seq<char>, Seq<Seq<char>>>,
    knowledge: Map<Seq<char>, SessionModel>,
    processed: Set<Seq<char>>,
)
    requires
        state_describes(snap, messages, facts, knowledge, processed),
        snapshot_fits(snap.knowledge_graph),
    ensures
        restored_messages(snap) == messages,
        restored_facts(snap) == facts,
        snapshot_sessions(snap.knowledge_graph) == knowledge,
        snapshot_processed(snap.knowledge_graph) == processed,
{
    let a = snapshot_messages(snap).map_values(|p: (String, Seq<Message>)| (p.0@, p.1));
    assert(a.map_values(|p: (Seq<char>, Seq<Message>)| p.0) =~= keys_of(snapshot_messages(snap)));
    assert(a.map_values(|p: (Seq<char>, Seq<Message>)| p.1) =~= snapshot_messages(snap).map_values(|p: (String, Seq<Message>)| p.1));
    crate::assoc::lemma_fold_insert_to_map(a);
    let b = snapshot_facts(snap).map_values(|p: (String, Seq<Seq<char>>)| (p.0@, p.1));
    assert(b.map_values(|p: (Seq<char>, Seq<Seq<char>>)| p.0) =~= keys_of(snapshot_facts(snap)));
    assert(b.map_values(|p: (Seq<char>, Seq<Seq<char>>)| p.1) =~= snapshot_facts(snap).map_values(|p: (String, Seq<Seq<char>>)| p.1));
    crate::assoc::lemma_fold_insert_to_map(b);
    lemma_graph_snapshot_round_trip(snap.knowledge_graph, knowledge, processed);
}

} // verus!
