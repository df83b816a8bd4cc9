//! Deciding which messages of a session to consolidate, applying the summary
//! that replaces them, and keeping at most one consolidation per session at a time.

use vstd::prelude::*;
use crate::consolidation::store::{add_summary_model, ConsolidatedMemoryStore, InMemoryConsolidatedStore, Summary};
use crate::memory::{kept_after_removal, InMemoryStore};
use crate::models::Message;
use crate::knowledge::summarizer::SummarizeError;
use crate::text::{contains_str, copy_strings};
use crate::topology::{no_dup_names, str_eq, string_from, strings_view};

verus! {

/// A request to consolidate one session.
#[derive(Debug, Clone)]
pub struct ConsolidationJob {
    pub session_id: String,
}

/// A session with more messages than `threshold` is consolidated.
pub fn should_consolidate(message_count: usize, threshold: usize) -> (r: bool)
    ensures
        r == (message_count > threshold),
{
    message_count > threshold
}

/// Ids of the messages that carry one, in order.
pub open spec fn ids_of(msgs: Seq<Message>) -> Seq<Seq<char>>
    decreases msgs.len(),
{
    if msgs.len() == 0 {
        Seq::empty()
    } else {
        match msgs.last().id {
            Some(x) => ids_of(msgs.drop_last()).push(x@),
            None => ids_of(msgs.drop_last()),
        }
    }
}

/// Everything but the newest `window` messages is summarized.
pub open spec fn consolidation_cut(n: nat, window: nat) -> nat {
    if n >= window { (n - window) as nat } else { 0 }
}

/// What to consolidate: (how many of the oldest messages, their ids). Nothing
/// when the session is not above the threshold or none of them has an id.
pub open spec fn plan_spec(msgs: Seq<Message>, threshold: nat, window: nat) -> Option<(nat, Seq<Seq<char>>)> {
    if msgs.len() <= threshold {
        None
    } else {
        let cut = consolidation_cut(msgs.len(), window);
        let ids = ids_of(msgs.take(cut as int));
        if ids.len() == 0 { None } else { Some((cut, ids)) }
    }
}

/// The oldest messages to summarize, and the ids to remove once summarized.
pub struct ConsolidationPlan {
    pub cut: usize,
    pub consumed_ids: Vec<String>,
}

/// The consolidation plan for a session's messages (see [`plan_spec`]).
pub fn plan_consolidation(messages: &[Message], threshold: usize, target_window: usize) -> (r: Option<ConsolidationPlan>)
    ensures
        r is None <==> plan_spec(messages@, threshold as nat, target_window as nat) is None,
        r matches Some(p) ==> plan_spec(messages@, threshold as nat, target_window as nat)
            == Some((p.cut as nat, strings_view(p.consumed_ids@))),
{
    let n = messages.len();
    if !should_consolidate(n, threshold) {
        return None;
    }
    let cut = if n >= target_window { n - target_window } else { 0 };
    let mut ids: Vec<String> = Vec::new();
    let mut i: usize = 0;
    assert(messages@.take(0) =~= Seq::<Message>::empty());
    while i < cut
        invariant
            cut <= messages@.len(),
            i <= cut,
            strings_view(ids@) == ids_of(messages@.take(i as int)),
        decreases cut - i,
    {
        let ghost before = strings_view(ids@);
        proof {
            assert(messages@.take(i as int + 1).drop_last() =~= messages@.take(i as int));
            assert(messages@.take(i as int + 1).last() == messages@[i as int]);
        }
        match &messages[i].id {
            Some(x) => {
                ids.push(x.clone());
                assert(strings_view(ids@) =~= before.push(x@));
            },
            None => {},
        }
        i = i + 1;
    }
    if ids.len() == 0 {
        return None;
    }
    Some(ConsolidationPlan { cut, consumed_ids: ids })
}

/// The summary that replaces the consumed messages.
pub fn make_summary(
    summary_id: String,
    summary_text: String,
    consumed_message_ids: Vec<String>,
    model: String,
    prompt_version: String,
    created_at_index: u64,
) -> (s: Summary)
    ensures
        s.id == summary_id,
        s.text == summary_text,
        s.created_at_index == created_at_index,
        s.consumed_message_ids == consumed_message_ids,
        s.consumed_count == consumed_message_ids@.len(),
        s.model == model,
        s.prompt_version == prompt_version,
{
    let consumed_count = consumed_message_ids.len() as u64;
    Summary { id: summary_id, text: summary_text, created_at_index, consumed_message_ids, consumed_count, model, prompt_version }
}

/// The summary that a finished summarization of `plan` gives: none when the
/// summarizer failed, and then nothing is applied.
pub fn summary_from_result(
    plan: ConsolidationPlan,
    result: Result<String, SummarizeError>,
    summary_id: String,
    model: String,
    prompt_version: String,
    created_at_index: u64,
) -> (r: Option<Summary>)
    ensures
        result is Err ==> r is None,
        result matches Ok(text) ==> r matches Some(s) && {
            &&& s.id == summary_id
            &&& s.text == text
            &&& s.created_at_index == created_at_index
            &&& s.consumed_message_ids == plan.consumed_ids
            &&& s.consumed_count == plan.consumed_ids@.len()
            &&& s.model == model
            &&& s.prompt_version == prompt_version
        },
{
    match result {
        Ok(text) => Some(make_summary(summary_id, text, plan.consumed_ids, model, prompt_version, created_at_index)),
        Err(_) => None,
    }
}

/// Records the summary and drops the messages it consumed from short-term memory.
pub fn apply_summary(
    consolidated: &mut InMemoryConsolidatedStore,
    short_term: &mut InMemoryStore,
    session_id: &str,
    summary: Summary,
)
    requires
        old(consolidated).wf(),
        old(short_term).wf(),
    ensures
        final(consolidated).wf(),
        final(short_term).wf(),
        final(consolidated).model() == add_summary_model(old(consolidated).model(), session_id@, summary@),
        old(short_term).sessions().contains_key(session_id@) ==> final(short_term).sessions() == old(short_term).sessions().insert(
            session_id@,
            old(short_term).sessions()[session_id@].filter(
                |m: Message| kept_after_removal(m, strings_view(summary.consumed_message_ids@))),
        ),
        !old(short_term).sessions().contains_key(session_id@) ==> final(short_term).sessions() == old(short_term).sessions(),
{
    let ids = copy_strings(summary.consumed_message_ids.as_slice());
    consolidated.add_summary(session_id, summary);
    short_term.remove_messages(session_id, ids.as_slice());
}

proof fn lemma_ids_of_all(msgs: Seq<Message>)
    requires
        forall|i: int| 0 <= i < msgs.len() ==> (#[trigger] msgs[i]).id is Some,
    ensures
        ids_of(msgs).len() == msgs.len(),
        forall|i: int| 0 <= i < msgs.len() ==> #[trigger] ids_of(msgs)[i] == msgs[i].id.unwrap()@,
    decreases msgs.len(),
{
    if msgs.len() > 0 {
        let d = msgs.drop_last();
        assert forall|i: int| 0 <= i < d.len() implies (#[trigger] d[i]).id is Some by {
            assert(d[i] == msgs[i]);
        }
        lemma_ids_of_all(d);
        assert(msgs[msgs.len() - 1].id is Some);
        assert forall|i: int| 0 <= i < msgs.len() implies #[trigger] ids_of(msgs)[i] == msgs[i].id.unwrap()@ by {
            if i < d.len() {
                assert(ids_of(d)[i] == d[i].id.unwrap()@);
                assert(d[i] == msgs[i]);
            }
        }
    }
}

proof fn lemma_filter_prefix(msgs: Seq<Message>, ids: Seq<Seq<char>>, cut: int, k: int)
    requires
        0 <= cut <= k <= msgs.len(),
        forall|i: int| 0 <= i < cut ==> (#[trigger] msgs[i]).id is Some && ids.contains(msgs[i].id.unwrap()@),
        forall|i: int| cut <= i < msgs.len() ==> kept_after_removal(#[trigger] msgs[i], ids),
    ensures
        msgs.take(k).filter(|m: Message| kept_after_removal(m, ids)) == msgs.take(k).skip(cut),
    decreases k,
{
    let f = |m: Message| kept_after_removal(m, ids);
    reveal(Seq::filter);
    if k == cut {
        if k > 0 {
            lemma_filter_prefix_removed(msgs, ids, cut, k);
        }
        assert(msgs.take(k).skip(cut) =~= Seq::<Message>::empty());
        if k == 0 {
            assert(msgs.take(0) =~= Seq::<Message>::empty());
        }
    } else {
        lemma_filter_prefix(msgs, ids, cut, k - 1);
        assert(msgs.take(k).drop_last() =~= msgs.take(k - 1));
        assert(msgs.take(k).last() == msgs[k - 1]);
        assert(f(msgs[k - 1]));
        assert(msgs.take(k).skip(cut) =~= msgs.take(k - 1).skip(cut).push(msgs[k - 1]));
    }
}

proof fn lemma_filter_prefix_removed(msgs: Seq<Message>, ids: Seq<Seq<char>>, cut: int, k: int)
    requires
        0 <= k <= cut <= msgs.len(),
        forall|i: int| 0 <= i < cut ==> (#[trigger] msgs[i]).id is Some && ids.contains(msgs[i].id.unwrap()@),
    ensures
        msgs.take(k).filter(|m: Message| kept_after_removal(m, ids)) == Seq::<Message>::empty(),
    decreases k,
{
    let f = |m: Message| kept_after_removal(m, ids);
    reveal(Seq::filter);
    if k == 0 {
        assert(msgs.take(0) =~= Seq::<Message>::empty());
    } else {
        lemma_filter_prefix_removed(msgs, ids, cut, k - 1);
        assert(msgs.take(k).drop_last() =~= msgs.take(k - 1));
        assert(msgs.take(k).last() == msgs[k - 1]);
        assert(msgs[k - 1].id is Some);
        assert(ids.contains(msgs[k - 1].id.unwrap()@));
        assert(!f(msgs[k - 1]));
    }
}

/// Consolidation drives a session back down to its newest `window` messages:
/// when every message before the cut has an id and no message after the cut
/// carries one of those ids, removing the ids of a plan keeps exactly the
/// messages after the cut. Ids repeated within one side do no harm.
pub proof fn lemma_consolidation_keeps_window(msgs: Seq<Message>, threshold: nat, window: nat)
    requires
        forall|i: int| 0 <= i < consolidation_cut(msgs.len(), window) ==> (#[trigger] msgs[i]).id is Some,
        forall|i: int, j: int| 0 <= i < consolidation_cut(msgs.len(), window) <= j < msgs.len()
            && (#[trigger] msgs[j]).id is Some ==> (#[trigger] msgs[i]).id.unwrap()@ != msgs[j].id.unwrap()@,
        plan_spec(msgs, threshold, window) is Some,
    ensures
        ({
            let (cut, ids) = plan_spec(msgs, threshold, window).unwrap();
            &&& msgs.filter(|m: Message| kept_after_removal(m, ids)) == msgs.skip(cut as int)
            &&& msgs.skip(cut as int).len() == window
        }),
{
    let (cut, ids) = plan_spec(msgs, threshold, window).unwrap();
    let pre = msgs.take(cut as int);
    assert forall|i: int| 0 <= i < pre.len() implies (#[trigger] pre[i]).id is Some by {
        assert(pre[i] == msgs[i]);
    }
    lemma_ids_of_all(pre);
    assert forall|i: int| 0 <= i < cut implies (#[trigger] msgs[i]).id is Some && ids.contains(msgs[i].id.unwrap()@) by {
        assert(pre[i] == msgs[i]);
        assert(ids[i] == msgs[i].id.unwrap()@);
    }
    assert forall|i: int| cut <= i < msgs.len() implies kept_after_removal(#[trigger] msgs[i], ids) by {
        if msgs[i].id is Some && ids.contains(msgs[i].id.unwrap()@) {
            let j = choose|j: int| 0 <= j < ids.len() && ids[j] == msgs[i].id.unwrap()@;
            assert(pre[j] == msgs[j]);
            assert(ids[j] == msgs[j].id.unwrap()@);
            assert(msgs[j].id.unwrap()@ != msgs[i].id.unwrap()@);
        }
    }
    lemma_filter_prefix(msgs, ids, cut as int, msgs.len() as int);
    assert(msgs.take(msgs.len() as int) =~= msgs);
}

/// Once a session's consolidation has begun, beginning it again is refused
/// (see [`InFlightSessions::try_begin`]) until it finishes; after that it may begin again.
pub proof fn lemma_in_flight_guard(in_flight: Set<Seq<char>>, session_id: Seq<char>)
    ensures
        in_flight.insert(session_id).contains(session_id),
        in_flight.insert(session_id).insert(session_id) == in_flight.insert(session_id),
        !in_flight.insert(session_id).remove(session_id).contains(session_id),
{
    assert(in_flight.insert(session_id).insert(session_id) =~= in_flight.insert(session_id));
}

/// This node consolidates: always when standalone (`cluster_leader` is
/// `None`), in a cluster only when it is the leader it knows of; followers
/// receive the summary through replication.
pub open spec fn consolidates_here(cluster_leader: Option<Option<u64>>, node_id: u64) -> bool {
    match cluster_leader {
        None => true,
        Some(leader) => leader == Some(node_id),
    }
}

/// Starts consolidating `session_id`: only where this node consolidates, and
/// only when the session is not in flight already. True when started; a node
/// that does not consolidate leaves `in_flight` as it was.
pub fn begin_consolidation(
    in_flight: &mut InFlightSessions,
    session_id: &str,
    cluster_leader: Option<Option<u64>>,
    node_id: u64,
) -> (started: bool)
    ensures
        started == (consolidates_here(cluster_leader, node_id) && !old(in_flight)@.contains(session_id@)),
        consolidates_here(cluster_leader, node_id) ==> final(in_flight)@ == old(in_flight)@.insert(session_id@),
        !consolidates_here(cluster_leader, node_id) ==> final(in_flight)@ == old(in_flight)@,
{
    let here = match cluster_leader {
        None => true,
        Some(leader) => match leader {
            Some(id) => id == node_id,
            None => false,
        },
    };
    if !here {
        return false;
    }
    in_flight.try_begin(session_id)
}

/// Sessions being consolidated right now.
pub struct InFlightSessions {
    sessions: Vec<String>,
}

impl InFlightSessions {
    pub closed spec fn view(&self) -> Set<Seq<char>> {
        strings_view(self.sessions@).to_set()
    }

    pub fn new() -> (s: Self)
        ensures
            s@ == Set::<Seq<char>>::empty(),
    {
        let s = InFlightSessions { sessions: Vec::new() };
        assert(s@ =~= Set::<Seq<char>>::empty());
        s
    }

    /// Marks `session_id` as in flight; false, and no change, when it already was.
    pub fn try_begin(&mut self, session_id: &str) -> (started: bool)
        ensures
            started == !old(self)@.contains(session_id@),
            final(self)@ == old(self)@.insert(session_id@),
    {
        if contains_str(self.sessions.as_slice(), session_id) {
            assert(old(self)@.insert(session_id@) =~= old(self)@);
            return false;
        }
        let ghost before = strings_view(self.sessions@);
        self.sessions.push(string_from(session_id));
        proof {
            let after = strings_view(self.sessions@);
            assert(after =~= before.push(session_id@));
            before.lemma_push_to_set_commute(session_id@);
        }
        true
    }

    /// Clears `session_id`.
    pub fn finish(&mut self, session_id: &str)
        ensures
            final(self)@ == old(self)@.remove(session_id@),
    {
        let ghost a = strings_view(self.sessions@);
        let ghost f = |x: Seq<char>| x != session_id@;
        let mut kept: Vec<String> = Vec::new();
        let mut i: usize = 0;
        while i < self.sessions.len()
            invariant
                a == strings_view(self.sessions@),
                f == (|x: Seq<char>| x != session_id@),
                i <= self.sessions@.len(),
                strings_view(kept@) == a.take(i as int).filter(f),
            decreases self.sessions@.len() - i,
        {
            let ghost before = strings_view(kept@);
            if !str_eq(self.sessions[i].as_str(), session_id) {
                kept.push(self.sessions[i].clone());
                assert(strings_view(kept@) =~= before.push(a[i as int]));
            }
            proof {
                assert(a.take(i as int + 1).drop_last() =~= a.take(i as int));
                assert(a.take(i as int + 1).last() == a[i as int]);
                assert(a.take(i as int + 1).filter(f) == if f(a[i as int]) {
                    a.take(i as int).filter(f).push(a[i as int])
                } else {
                    a.take(i as int).filter(f)
                }) by {
                    reveal(Seq::filter);
                }
            }
            i = i + 1;
        }
        proof {
            assert(a.take(a.len() as int) =~= a);
            let b = strings_view(kept@);
            assert forall|x: Seq<char>| b.contains(x) <==> (a.contains(x) && x != session_id@) by {
                if b.contains(x) {
                    a.lemma_filter_contains_rev(f, x);
                    let j = choose|j: int| 0 <= j < b.len() && b[j] == x;
                    a.lemma_filter_pred(f, j);
                }
                if a.contains(x) && x != session_id@ {
                    let j = choose|j: int| 0 <= j < a.len() && a[j] == x;
                    a.lemma_filter_contains(f, j);
                }
            }
            assert(b.to_set() =~= a.to_set().remove(session_id@));
        }
        self.sessions = kept;
    }
}

} // verus!
