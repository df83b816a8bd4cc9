//! Summaries of consolidated messages, per session.

use vstd::prelude::*;
use crate::assoc::{find_key, fold_insert, keys_of, to_map, lemma_to_map_push, lemma_to_map_remove, lemma_to_map_update};
use crate::text::copy_strings;
use crate::topology::{no_dup_names, str_eq, string_from, strings_view};

verus! {

/// A summary that replaced some of a session's messages.
#[derive(Debug, Clone)]
pub struct Summary {
    /// Minted by the leader; applying the same summary twice is a no-op.
    pub id: String,
    /// The summary text.
    pub text: String,
    /// Raft log index that committed this summary; summaries are ordered by it.
    pub created_at_index: u64,
    /// Ids of the messages that were summarized and then removed.
    pub consumed_message_ids: Vec<String>,
    /// How many messages were consumed.
    pub consumed_count: u64,
    /// Model that produced the summary.
    pub model: String,
    /// Prompt version used.
    pub prompt_version: String,
}

/// A summary's contents as plain values.
pub struct SummaryView {
    pub id: Seq<char>,
    pub text: Seq<char>,
    pub created_at_index: u64,
    pub consumed_message_ids: Seq<Seq<char>>,
    pub consumed_count: u64,
    pub model: Seq<char>,
    pub prompt_version: Seq<char>,
}

impl View for Summary {
    type V = SummaryView;

    open spec fn view(&self) -> SummaryView {
        SummaryView {
            id: self.id@,
            text: self.text@,
            created_at_index: self.created_at_index,
            consumed_message_ids: strings_view(self.consumed_message_ids@),
            consumed_count: self.consumed_count,
            model: self.model@,
            prompt_version: self.prompt_version@,
        }
    }
}

/// Views of a list of summaries.
pub open spec fn summaries_view(v: Seq<Summary>) -> Seq<SummaryView> {
    v.map_values(|s: Summary| s@)
}

impl Summary {
    /// An equal copy.
    pub fn copy(&self) -> (r: Summary)
        ensures
            r@ == self@,
    {
        let ids = copy_strings(self.consumed_message_ids.as_slice());
        Summary {
            id: self.id.clone(),
            text: self.text.clone(),
            created_at_index: self.created_at_index,
            consumed_message_ids: ids,
            consumed_count: self.consumed_count,
            model: self.model.clone(),
            prompt_version: self.prompt_version.clone(),
        }
    }
}

/// A copy of a list of summaries.
pub fn copy_summaries(v: &Vec<Summary>) -> (r: Vec<Summary>)
    ensures
        summaries_view(r@) == summaries_view(v@),
{
    let mut r: Vec<Summary> = Vec::new();
    let mut i: usize = 0;
    while i < v.len()
        invariant
            i <= v@.len(),
            summaries_view(r@) == summaries_view(v@).take(i as int),
        decreases v@.len() - i,
    {
        let ghost before = summaries_view(r@);
        r.push(v[i].copy());
        assert(summaries_view(r@) =~= before.push(v@[i as int]@));
        assert(summaries_view(v@).take(i as int + 1) =~= summaries_view(v@).take(i as int).push(v@[i as int]@));
        i = i + 1;
    }
    assert(summaries_view(v@).take(v@.len() as int) =~= summaries_view(v@));
    r
}

/// The summaries of `session_id`, none when unknown.
pub open spec fn summaries_of(m: Map<Seq<char>, Seq<SummaryView>>, session_id: Seq<char>) -> Seq<SummaryView> {
    if m.contains_key(session_id) { m[session_id] } else { Seq::empty() }
}

/// Adding a summary: appended to the session's list unless a summary with
/// the same id is already there. The session exists afterwards either way.
pub open spec fn add_summary_model(m: Map<Seq<char>, Seq<SummaryView>>, session_id: Seq<char>, s: SummaryView) -> Map<Seq<char>, Seq<SummaryView>> {
    let list = summaries_of(m, session_id);
    if exists|i: int| 0 <= i < list.len() && #[trigger] list[i].id == s.id {
        m.insert(session_id, list)
    } else {
        m.insert(session_id, list.push(s))
    }
}

/// Restoring what `dump_all` listed gives back the dumped summaries.
pub proof fn lemma_summaries_dump_restore_round_trip(dump: Seq<(String, Vec<Summary>)>, sessions: Map<Seq<char>, Seq<SummaryView>>)
    requires
        no_dup_names(keys_of(dump)),
        to_map(keys_of(dump), dump.map_values(|p: (String, Vec<Summary>)| summaries_view(p.1@))) == sessions,
    ensures
        fold_insert(dump.map_values(|p: (String, Vec<Summary>)| (p.0@, summaries_view(p.1@)))) == sessions,
{
    let sv = dump.map_values(|p: (String, Vec<Summary>)| (p.0@, summaries_view(p.1@)));
    assert(sv.map_values(|p: (Seq<char>, Seq<SummaryView>)| p.0) =~= keys_of(dump));
    assert(sv.map_values(|p: (Seq<char>, Seq<SummaryView>)| p.1) =~= dump.map_values(|p: (String, Vec<Summary>)| summaries_view(p.1@)));
    crate::assoc::lemma_fold_insert_to_map(sv);
}

/// Adding the same summary twice has the effect of adding it once.
pub proof fn lemma_add_summary_idempotent(m: Map<Seq<char>, Seq<SummaryView>>, session_id: Seq<char>, s: SummaryView)
    ensures
        add_summary_model(add_summary_model(m, session_id, s), session_id, s) == add_summary_model(m, session_id, s),
{
    let m1 = add_summary_model(m, session_id, s);
    let l1 = summaries_of(m1, session_id);
    let list = summaries_of(m, session_id);
    if exists|i: int| 0 <= i < list.len() && #[trigger] list[i].id == s.id {
        let i = choose|i: int| 0 <= i < list.len() && #[trigger] list[i].id == s.id;
        assert(l1[i].id == s.id);
    } else {
        assert(l1[list.len() as int].id == s.id);
    }
    assert(add_summary_model(m1, session_id, s) =~= m1);
}

/// The summary store's contract.
pub trait ConsolidatedMemoryStore {
    /// Session id -> its summaries, oldest first.
    spec fn summaries(&self) -> Map<Seq<char>, Seq<SummaryView>>;

    spec fn valid(&self) -> bool;

    fn add_summary(&mut self, session_id: &str, summary: Summary)
        requires
            old(self).valid(),
        ensures
            final(self).valid(),
            final(self).summaries() == add_summary_model(old(self).summaries(), session_id@, summary@);

    fn get_summaries(&self, session_id: &str) -> (r: Vec<Summary>)
        requires
            self.valid(),
        ensures
            summaries_view(r@) == summaries_of(self.summaries(), session_id@);

    fn delete_session(&mut self, session_id: &str)
        requires
            old(self).valid(),
        ensures
            final(self).valid(),
            final(self).summaries() == old(self).summaries().remove(session_id@);

    fn dump_all(&self) -> (r: Vec<(String, Vec<Summary>)>)
        requires
            self.valid(),
        ensures
            no_dup_names(keys_of(r@)),
            to_map(keys_of(r@), r@.map_values(|p: (String, Vec<Summary>)| summaries_view(p.1@))) == self.summaries();

    fn restore_all(&mut self, sessions: Vec<(String, Vec<Summary>)>)
        ensures
            final(self).valid(),
            final(self).summaries() == fold_insert(sessions@.map_values(|p: (String, Vec<Summary>)| (p.0@, summaries_view(p.1@))));
}

/// Summaries kept in memory.
pub struct InMemoryConsolidatedStore {
    summaries: Vec<(String, Vec<Summary>)>,
}

impl InMemoryConsolidatedStore {
    pub closed spec fn model(&self) -> Map<Seq<char>, Seq<SummaryView>> {
        to_map(keys_of(self.summaries@), self.summaries@.map_values(|p: (String, Vec<Summary>)| summaries_view(p.1@)))
    }

    pub closed spec fn wf(&self) -> bool {
        no_dup_names(keys_of(self.summaries@))
    }

    pub fn new() -> (s: Self)
        ensures
            s.wf(),
            s.model() == Map::<Seq<char>, Seq<SummaryView>>::empty(),
    {
        let s = InMemoryConsolidatedStore { summaries: Vec::new() };
        assert(s.model() =~= Map::<Seq<char>, Seq<SummaryView>>::empty());
        s
    }

    fn find(&self, session_id: &str) -> (r: Option<usize>)
        requires
            self.wf(),
        ensures
            r is None <==> !self.model().contains_key(session_id@),
            r matches Some(i) ==> i < self.summaries@.len() && self.summaries@[i as int].0@ == session_id@
                && self.model()[session_id@] == summaries_view(self.summaries@[i as int].1@),
    {
        let r = find_key(&self.summaries, session_id);
        proof {
            if let Some(i) = r {
                crate::topology::lemma_find_unique(keys_of(self.summaries@), session_id@, i as int);
            }
        }
        r
    }

    fn set_session(&mut self, session_id: &str, list: Vec<Summary>)
        requires
            old(self).wf(),
        ensures
            final(self).wf(),
            final(self).model() == old(self).model().insert(session_id@, summaries_view(list@)),
    {
        let ghost ks = keys_of(self.summaries@);
        let ghost vs = self.summaries@.map_values(|p: (String, Vec<Summary>)| summaries_view(p.1@));
        let ghost l = summaries_view(list@);
        match self.find(session_id) {
            Some(i) => {
                let (sid, _) = self.summaries.remove(i);
                self.summaries.insert(i, (sid, list));
                proof {
                    assert(keys_of(self.summaries@) =~= ks);
                    assert(self.summaries@.map_values(|p: (String, Vec<Summary>)| summaries_view(p.1@)) =~= vs.update(i as int, l));
                    lemma_to_map_update(ks, vs, i as int, l);
                }
            },
            None => {
                self.summaries.push((string_from(session_id), list));
                proof {
                    assert(keys_of(self.summaries@) =~= ks.push(session_id@));
                    assert(self.summaries@.map_values(|p: (String, Vec<Summary>)| summaries_view(p.1@)) =~= vs.push(l));
                    lemma_to_map_push(ks, vs, session_id@, l);
                }
            },
        }
    }
}

impl Default for InMemoryConsolidatedStore {
    fn default() -> (s: Self)
        ensures
            s.wf(),
            s.model() == Map::<Seq<char>, Seq<SummaryView>>::empty(),
    {
        InMemoryConsolidatedStore::new()
    }
}

impl ConsolidatedMemoryStore for InMemoryConsolidatedStore {
    open spec fn summaries(&self) -> Map<Seq<char>, Seq<SummaryView>> {
        self.model()
    }

    open spec fn valid(&self) -> bool {
        self.wf()
    }

    fn add_summary(&mut self, session_id: &str, summary: Summary) {
        let mut list = match self.find(session_id) {
            Some(i) => copy_summaries(&self.summaries[i].1),
            None => Vec::new(),
        };
        let ghost l = summaries_of(old(self).model(), session_id@);
        assert(summaries_view(list@) =~= l);
        let mut found = false;
        let mut j: usize = 0;
        while j < list.len()
            invariant
                summaries_view(list@) == l,
                j <= l.len(),
                found ==> exists|k: int| 0 <= k < l.len() && #[trigger] l[k].id == summary@.id,
                !found ==> forall|k: int| 0 <= k < j ==> (#[trigger] l[k]).id != summary@.id,
            decreases l.len() - j,
        {
            assert(l[j as int] == list@[j as int]@);
            if str_eq(list[j].id.as_str(), summary.id.as_str()) {
                assert(l[j as int].id == summary@.id);
                found = true;
            }
            j = j + 1;
        }
        if !found {
            let ghost sv = summary@;
            list.push(summary);
            assert(summaries_view(list@) =~= l.push(sv));
        }
        self.set_session(session_id, list);
    }

    fn get_summaries(&self, session_id: &str) -> (r: Vec<Summary>) {
        match self.find(session_id) {
            Some(i) => copy_summaries(&self.summaries[i].1),
            None => {
                let r: Vec<Summary> = Vec::new();
                assert(summaries_view(r@) =~= Seq::<SummaryView>::empty());
                r
            },
        }
    }

    fn delete_session(&mut self, session_id: &str) {
        match self.find(session_id) {
            None => {
                assert(old(self).model().remove(session_id@) =~= old(self).model());
            },
            Some(i) => {
                let ghost ks = keys_of(self.summaries@);
                let ghost vs = self.summaries@.map_values(|p: (String, Vec<Summary>)| summaries_view(p.1@));
                self.summaries.remove(i);
                proof {
                    assert(keys_of(self.summaries@) =~= ks.remove(i as int));
                    assert(self.summaries@.map_values(|p: (String, Vec<Summary>)| summaries_view(p.1@)) =~= vs.remove(i as int));
                    lemma_to_map_remove(ks, vs, i as int);
                }
            },
        }
    }

    fn dump_all(&self) -> (r: Vec<(String, Vec<Summary>)>) {
        let ghost ks = keys_of(self.summaries@);
        let ghost vs = self.summaries@.map_values(|p: (String, Vec<Summary>)| summaries_view(p.1@));
        let mut r: Vec<(String, Vec<Summary>)> = Vec::new();
        let mut i: usize = 0;
        while i < self.summaries.len()
            invariant
                ks == keys_of(self.summaries@),
                vs == self.summaries@.map_values(|p: (String, Vec<Summary>)| summaries_view(p.1@)),
                i <= self.summaries@.len(),
                keys_of(r@) == ks.take(i as int),
                r@.map_values(|p: (String, Vec<Summary>)| summaries_view(p.1@)) == vs.take(i as int),
            decreases self.summaries@.len() - i,
        {
            let ghost before = r@;
            r.push((self.summaries[i].0.clone(), copy_summaries(&self.summaries[i].1)));
            assert(keys_of(r@) =~= keys_of(before).push(ks[i as int]));
            assert(r@.map_values(|p: (String, Vec<Summary>)| summaries_view(p.1@))
                =~= before.map_values(|p: (String, Vec<Summary>)| summaries_view(p.1@)).push(vs[i as int]));
            assert(ks.take(i as int + 1) =~= ks.take(i as int).push(ks[i as int]));
            assert(vs.take(i as int + 1) =~= vs.take(i as int).push(vs[i as int]));
            i = i + 1;
        }
        assert(ks.take(ks.len() as int) =~= ks);
        assert(vs.take(vs.len() as int) =~= vs);
        r
    }

    fn restore_all(&mut self, sessions: Vec<(String, Vec<Summary>)>) {
        let ghost sv = sessions@.map_values(|p: (String, Vec<Summary>)| (p.0@, summaries_view(p.1@)));
        self.summaries = Vec::new();
        assert(self.model() =~= Map::<Seq<char>, Seq<SummaryView>>::empty());
        assert(sv.take(0) =~= Seq::<(Seq<char>, Seq<SummaryView>)>::empty());
        let mut i: usize = 0;
        while i < sessions.len()
            invariant
                self.wf(),
                sv == sessions@.map_values(|p: (String, Vec<Summary>)| (p.0@, summaries_view(p.1@))),
                i <= sessions@.len(),
                self.model() == fold_insert(sv.take(i as int)),
            decreases sessions@.len() - i,
        {
            proof {
                assert(sv.take(i as int + 1).drop_last() =~= sv.take(i as int));
                assert(sv.take(i as int + 1).last() == (sessions@[i as int].0@, summaries_view(sessions@[i as int].1@)));
            }
            self.set_session(sessions[i].0.as_str(), copy_summaries(&sessions[i].1));
            i = i + 1;
        }
        assert(sv.take(sv.len() as int) =~= sv);
    }
}

} // verus!
