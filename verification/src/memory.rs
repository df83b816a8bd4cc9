//! Short-term message memory and core facts per session, and trimming a
//! conversation to a token budget without splitting a user/assistant pair.

use vstd::prelude::*;
use tiktoken_rs::CoreBPE;
use crate::assoc::{find_key, fold_insert, keys_of, to_map, lemma_find_some, lemma_to_map_push, lemma_to_map_remove, lemma_to_map_update};
use crate::models::{copy_messages, EmbeddingStatus, Message};
use crate::text::{copy_strings, push_str};
use crate::topology::{no_dup_names, spec_find, str_eq, string_from, strings_view};

verus! {

#[verifier::external_type_specification]
#[verifier::external_body]
pub struct ExCoreBPE(CoreBPE);

/// The number of tokens of `text` under tiktoken's `cl100k_base` encoding,
/// special tokens allowed; `None` when the encoder's pattern search gives up
/// on `text` (it stops at fixed backtracking and stack limits).
pub uninterp spec fn cl100k_encoding_len(text: Seq<char>) -> Option<nat>;

/// Counts the tokens of a text.
pub trait TokenCounter {
    /// The counter can count `text`.
    spec fn counts(&self, text: Seq<char>) -> bool;

    spec fn token_count(&self, text: Seq<char>) -> nat;

    fn count_tokens(&self, text: &str) -> (n: usize)
        requires
            self.counts(text@),
        ensures
            n as nat == self.token_count(text@);
}

/// Token counting with the encoding of OpenAI's chat models (`cl100k_base`).
pub struct OpenAITokenCounter {
    encoding: CoreBPE,
}

/// Wraps `tiktoken_rs::cl100k_base`, which builds the encoder from the table
/// bundled with the crate and a fixed pattern, and so succeeds.
#[verifier::external_body]
fn load_cl100k() -> (r: Result<CoreBPE, String>)
    ensures
        r is Ok,
{
    match tiktoken_rs::cl100k_base() {
        Ok(bpe) => Ok(bpe),
        Err(e) => Err(e.to_string()),
    }
}

/// Wraps `CoreBPE::encode` with every special token allowed (the set that
/// `CoreBPE::special_tokens` gives) and takes the length of the encoding; the
/// encoder's error becomes `None`. A counter's encoder is only ever built by
/// `load_cl100k`, so this is the encoding of `cl100k_base`.
#[verifier::external_body]
fn cl100k_encode_len(counter: &OpenAITokenCounter, text: &str) -> (r: Option<usize>)
    ensures
        match r {
            Some(n) => cl100k_encoding_len(text@) == Some(n as nat),
            None => cl100k_encoding_len(text@) is None,
        },
{
    match counter.encoding.encode(text, &counter.encoding.special_tokens()) {
        Ok((tokens, _)) => Some(tokens.len()),
        Err(_) => None,
    }
}

impl OpenAITokenCounter {
    /// Loads the `cl100k_base` encoding.
    pub fn new() -> (r: Result<OpenAITokenCounter, String>)
        ensures
            r is Ok,
    {
        match load_cl100k() {
            Ok(encoding) => Ok(OpenAITokenCounter { encoding }),
            Err(e) => Err(e),
        }
    }
}

impl OpenAITokenCounter {
    /// The token count of `text`, or `None` when the encoder gives up on it:
    /// `Some` exactly when [`TokenCounter::count_tokens`] may be called.
    pub fn try_count_tokens(&self, text: &str) -> (r: Option<usize>)
        ensures
            r is Some <==> self.counts(text@),
            r matches Some(n) ==> n as nat == self.token_count(text@),
            r matches Some(n) ==> cl100k_encoding_len(text@) == Some(n as nat),
    {
        cl100k_encode_len(self, text)
    }
}

impl TokenCounter for OpenAITokenCounter {
    /// The encoder does not give up on `text`.
    open spec fn counts(&self, text: Seq<char>) -> bool {
        cl100k_encoding_len(text) is Some
    }

    open spec fn token_count(&self, text: Seq<char>) -> nat {
        match cl100k_encoding_len(text) {
            Some(n) => n,
            None => 0,
        }
    }

    fn count_tokens(&self, text: &str) -> (n: usize) {
        match cl100k_encode_len(self, text) {
            Some(n) => n,
            None => unreached(),
        }
    }
}

/// One transcript line: `role: content`.
pub open spec fn message_line(m: Message) -> Seq<char> {
    m.role@ + ": "@ + m.content@
}

/// "Conversation:" followed by one line per message.
pub open spec fn conversation_lines(msgs: Seq<Message>) -> Seq<char>
    decreases msgs.len(),
{
    if msgs.len() == 0 {
        "Conversation:"@
    } else {
        conversation_lines(msgs.drop_last()) + "\n"@ + message_line(msgs.last())
    }
}

/// The transcript whose tokens are counted against a budget; empty without messages.
pub open spec fn conversation_text_spec(msgs: Seq<Message>) -> Seq<char> {
    if msgs.len() == 0 { Seq::empty() } else { conversation_lines(msgs) }
}

/// The transcript of `messages` (see [`conversation_text_spec`]).
pub fn conversation_text(messages: &[Message]) -> (r: String)
    ensures
        r@ == conversation_text_spec(messages@),
{
    if messages.len() == 0 {
        return String::new();
    }
    let mut r = string_from("Conversation:");
    let mut i: usize = 0;
    while i < messages.len()
        invariant
            i <= messages@.len(),
            r@ == conversation_lines(messages@.take(i as int)),
        decreases messages@.len() - i,
    {
        let ghost before = messages@.take(i as int);
        push_str(&mut r, "\n");
        push_str(&mut r, messages[i].role.as_str());
        push_str(&mut r, ": ");
        push_str(&mut r, messages[i].content.as_str());
        proof {
            let next = messages@.take(i as int + 1);
            assert(next.drop_last() =~= before);
            assert(next.last() == messages@[i as int]);
            assert(r@ =~= conversation_lines(before) + "\n"@ + message_line(messages@[i as int]));
        }
        i = i + 1;
    }
    assert(messages@.take(messages@.len() as int) =~= messages@);
    r
}

/// How many leading messages are dropped at once: a leading user message
/// goes together with the assistant reply that follows it.
pub open spec fn removable_prefix(msgs: Seq<Message>) -> nat {
    if msgs.len() >= 2 && msgs[0].role@ == "user"@ && msgs[1].role@ == "assistant"@ { 2 } else { 1 }
}

pub fn removable_prefix_len(messages: &[Message]) -> (n: usize)
    ensures
        n as nat == removable_prefix(messages@),
{
    if messages.len() >= 2 && str_eq(messages[0].role.as_str(), "user") && str_eq(messages[1].role.as_str(), "assistant") {
        2
    } else {
        1
    }
}

/// Drops leading messages (a user/assistant pair at a time) until the
/// transcript fits `max` tokens or nothing is left.
pub open spec fn trimmed<C: TokenCounter>(c: &C, msgs: Seq<Message>, max: nat) -> Seq<Message>
    decreases msgs.len(),
{
    if msgs.len() == 0 || c.token_count(conversation_text_spec(msgs)) <= max {
        msgs
    } else {
        trimmed(c, msgs.skip(removable_prefix(msgs) as int), max)
    }
}

/// Every transcript that trimming to `max` counts can be counted: the
/// transcript of `msgs`, then, while it does not fit, that of what is left.
pub open spec fn trim_countable<C: TokenCounter>(c: &C, msgs: Seq<Message>, max: nat) -> bool
    decreases msgs.len(),
{
    msgs.len() == 0 || (c.counts(conversation_text_spec(msgs)) && (c.token_count(conversation_text_spec(msgs)) <= max
        || trim_countable(c, msgs.skip(removable_prefix(msgs) as int), max)))
}

/// Trims `messages` to `max_tokens` (see [`trimmed`]).
pub fn trim_messages_to_token_budget<C: TokenCounter>(messages: Vec<Message>, max_tokens: usize, token_counter: &C) -> (r: Vec<Message>)
    requires
        trim_countable(token_counter, messages@, max_tokens as nat),
    ensures
        r@ == trimmed(token_counter, messages@, max_tokens as nat),
{
    let mut msgs = messages;
    loop
        invariant
            trimmed(token_counter, msgs@, max_tokens as nat) == trimmed(token_counter, messages@, max_tokens as nat),
            trim_countable(token_counter, msgs@, max_tokens as nat),
        decreases msgs@.len(),
    {
        if msgs.len() == 0 {
            return msgs;
        }
        let text = conversation_text(msgs.as_slice());
        if token_counter.count_tokens(text.as_str()) <= max_tokens {
            return msgs;
        }
        let k = removable_prefix_len(msgs.as_slice());
        let ghost full = msgs@;
        let rest = msgs.split_off(k);
        proof {
            assert(rest@ =~= full.skip(k as int));
        }
        msgs = rest;
    }
}


/// Trimming keeps a suffix of the messages.
pub proof fn lemma_trimmed_is_suffix<C: TokenCounter>(c: &C, msgs: Seq<Message>, max: nat)
    ensures
        trimmed(c, msgs, max).len() <= msgs.len(),
        trimmed(c, msgs, max) == msgs.skip(msgs.len() - trimmed(c, msgs, max).len()),
    decreases msgs.len(),
{
    if msgs.len() == 0 || c.token_count(conversation_text_spec(msgs)) <= max {
        assert(msgs.skip(0) =~= msgs);
    } else {
        let rest = msgs.skip(removable_prefix(msgs) as int);
        lemma_trimmed_is_suffix(c, rest, max);
        let t = trimmed(c, rest, max);
        assert(rest.skip(rest.len() - t.len()) =~= msgs.skip(msgs.len() - t.len()));
    }
}

/// What trimming keeps fits the budget, unless nothing is kept.
pub proof fn lemma_trimmed_fits<C: TokenCounter>(c: &C, msgs: Seq<Message>, max: nat)
    ensures
        trimmed(c, msgs, max).len() == 0 || c.token_count(conversation_text_spec(trimmed(c, msgs, max))) <= max,
    decreases msgs.len(),
{
    if !(msgs.len() == 0 || c.token_count(conversation_text_spec(msgs)) <= max) {
        lemma_trimmed_fits(c, msgs.skip(removable_prefix(msgs) as int), max);
    }
}

/// Trimming never separates a user message from the assistant reply that
/// directly follows it: the kept suffix does not start with such a reply.
pub proof fn lemma_trimmed_keeps_pairs<C: TokenCounter>(c: &C, msgs: Seq<Message>, max: nat)
    ensures
        ({
            let k = msgs.len() - trimmed(c, msgs, max).len();
            0 < k < msgs.len() ==> !(msgs[k - 1].role@ == "user"@ && msgs[k].role@ == "assistant"@)
        }),
    decreases msgs.len(),
{
    lemma_trimmed_is_suffix(c, msgs, max);
    if !(msgs.len() == 0 || c.token_count(conversation_text_spec(msgs)) <= max) {
        let r = removable_prefix(msgs) as int;
        let rest = msgs.skip(r);
        lemma_trimmed_keeps_pairs(c, rest, max);
        lemma_trimmed_is_suffix(c, rest, max);
        let kk = rest.len() - trimmed(c, rest, max).len();
        if kk > 0 && kk < rest.len() {
            assert(rest[kk - 1] == msgs[r + kk - 1]);
            assert(rest[kk] == msgs[r + kk]);
        } else if kk == 0 && r == 2 {
            reveal_strlit("user");
            reveal_strlit("assistant");
            assert(msgs[1].role@ == "assistant"@);
            assert("user"@.len() == 4);
            assert("assistant"@.len() == 9);
        }
    }
}


/// `m` carries the id `id`.
pub open spec fn has_id(m: Message, id: Seq<char>) -> bool {
    m.id matches Some(x) && x@ == id
}

/// Position of the first message with id `id`.
pub open spec fn first_with_id(msgs: Seq<Message>, id: Seq<char>) -> Option<nat>
    decreases msgs.len(),
{
    if msgs.len() == 0 {
        None
    } else {
        match first_with_id(msgs.drop_last(), id) {
            Some(j) => Some(j),
            None => if has_id(msgs.last(), id) { Some((msgs.len() - 1) as nat) } else { None },
        }
    }
}

pub proof fn lemma_first_with_id(msgs: Seq<Message>, id: Seq<char>)
    ensures
        first_with_id(msgs, id) matches Some(j) ==> j < msgs.len() && has_id(msgs[j as int], id),
        first_with_id(msgs, id) is None ==> forall|k: int| 0 <= k < msgs.len() ==> !has_id(#[trigger] msgs[k], id),
    decreases msgs.len(),
{
    if msgs.len() > 0 {
        let d = msgs.drop_last();
        lemma_first_with_id(d, id);
        if first_with_id(msgs, id) is None {
            assert forall|k: int| 0 <= k < msgs.len() implies !has_id(#[trigger] msgs[k], id) by {
                if k < msgs.len() - 1 {
                    assert(msgs[k] == d[k]);
                }
            }
        }
    }
}

/// A message survives removal by ids unless it carries one of `ids`.
pub open spec fn kept_after_removal(m: Message, ids: Seq<Seq<char>>) -> bool {
    match m.id {
        Some(x) => !ids.contains(x@),
        None => true,
    }
}

/// Sessions' messages held in memory, in insertion order per session.
pub struct InMemoryStore {
    messages: Vec<(String, Vec<Message>)>,
}

impl InMemoryStore {
    /// Session id -> its messages, oldest first.
    pub closed spec fn sessions(&self) -> Map<Seq<char>, Seq<Message>> {
        to_map(keys_of(self.messages@), self.messages@.map_values(|p: (String, Vec<Message>)| p.1@))
    }

    pub closed spec fn wf(&self) -> bool {
        no_dup_names(keys_of(self.messages@))
    }

    /// The messages of `session_id`, none when the session is unknown.
    pub open spec fn session_or_empty(&self, session_id: Seq<char>) -> Seq<Message> {
        if self.sessions().contains_key(session_id) { self.sessions()[session_id] } else { Seq::empty() }
    }

    pub fn new() -> (s: Self)
        ensures
            s.wf(),
            s.sessions() == Map::<Seq<char>, Seq<Message>>::empty(),
    {
        let s = InMemoryStore { messages: Vec::new() };
        assert(s.sessions() =~= Map::<Seq<char>, Seq<Message>>::empty());
        s
    }

    proof fn lemma_entry(&self, i: int)
        requires
            self.wf(),
            0 <= i < self.messages@.len(),
        ensures
            self.sessions().contains_key(self.messages@[i].0@),
            self.sessions()[self.messages@[i].0@] == self.messages@[i].1@,
    {
        crate::topology::lemma_find_unique(keys_of(self.messages@), self.messages@[i].0@, i);
    }

    fn find(&self, session_id: &str) -> (r: Option<usize>)
        requires
            self.wf(),
        ensures
            r is None <==> !self.sessions().contains_key(session_id@),
            r matches Some(i) ==> i < self.messages@.len() && self.messages@[i as int].0@ == session_id@
                && self.sessions()[session_id@] == self.messages@[i as int].1@,
    {
        let r = find_key(&self.messages, session_id);
        proof {
            if let Some(i) = r {
                self.lemma_entry(i as int);
            }
        }
        r
    }

    /// Replaces the messages of the session at position `i`.
    fn replace_at(&mut self, i: usize, msgs: Vec<Message>)
        requires
            old(self).wf(),
            i < old(self).messages@.len(),
        ensures
            final(self).wf(),
            final(self).sessions() == old(self).sessions().insert(old(self).messages@[i as int].0@, msgs@),
    {
        let ghost ks = keys_of(self.messages@);
        let ghost vs = self.messages@.map_values(|p: (String, Vec<Message>)| p.1@);
        let (sid, _) = self.messages.remove(i);
        self.messages.insert(i, (sid, msgs));
        proof {
            assert(keys_of(self.messages@) =~= ks);
            assert(self.messages@.map_values(|p: (String, Vec<Message>)| p.1@) =~= vs.update(i as int, msgs@));
            lemma_to_map_update(ks, vs, i as int, msgs@);
        }
    }

    /// Appends `msg` to the session, creating the session when needed.
    pub fn add_message(&mut self, session_id: &str, msg: Message)
        requires
            old(self).wf(),
        ensures
            final(self).wf(),
            final(self).sessions() == old(self).sessions().insert(session_id@, old(self).session_or_empty(session_id@).push(msg)),
    {
        match self.find(session_id) {
            Some(i) => {
                let mut msgs = copy_messages(&self.messages[i].1);
                msgs.push(msg);
                self.replace_at(i, msgs);
            },
            None => {
                let ghost ks = keys_of(self.messages@);
                let ghost vs = self.messages@.map_values(|p: (String, Vec<Message>)| p.1@);
                let mut msgs: Vec<Message> = Vec::new();
                msgs.push(msg);
                self.messages.push((string_from(session_id), msgs));
                proof {
                    assert(keys_of(self.messages@) =~= ks.push(session_id@));
                    assert(self.messages@.map_values(|p: (String, Vec<Message>)| p.1@) =~= vs.push(seq![msg]));
                    lemma_to_map_push(ks, vs, session_id@, seq![msg]);
                    assert(Seq::<Message>::empty().push(msg) =~= seq![msg]);
                }
            },
        }
    }

    /// The last `count` messages of the session (all of them when it has fewer).
    pub fn get_recent(&self, session_id: &str, count: usize) -> (r: Vec<Message>)
        requires
            self.wf(),
        ensures
            ({
                let m = self.session_or_empty(session_id@);
                r@ == m.skip(if count < m.len() { m.len() - count } else { 0 })
            }),
    {
        match self.find(session_id) {
            None => {
                let r: Vec<Message> = Vec::new();
                assert(r@ =~= Seq::<Message>::empty().skip(0));
                r
            },
            Some(i) => {
                let mut msgs = copy_messages(&self.messages[i].1);
                let n = msgs.len();
                let start = if count < n { n - count } else { 0 };
                let ghost full = msgs@;
                let rest = msgs.split_off(start);
                assert(rest@ =~= full.skip(start as int));
                rest
            },
        }
    }

    /// Keeps only the latest `max_count` messages of the session.
    pub fn trim(&mut self, session_id: &str, max_count: usize)
        requires
            old(self).wf(),
        ensures
            final(self).wf(),
            ({
                let m = old(self).session_or_empty(session_id@);
                if old(self).sessions().contains_key(session_id@) && m.len() > max_count {
                    final(self).sessions() == old(self).sessions().insert(session_id@, m.skip(m.len() - max_count))
                } else {
                    final(self).sessions() == old(self).sessions()
                }
            }),
    {
        match self.find(session_id) {
            None => {},
            Some(i) => {
                let n = self.messages[i].1.len();
                if n > max_count {
                    let mut msgs = copy_messages(&self.messages[i].1);
                    let ghost full = msgs@;
                    let rest = msgs.split_off(n - max_count);
                    assert(rest@ =~= full.skip(n - max_count));
                    self.replace_at(i, rest);
                }
            },
        }
    }

    /// The session's messages trimmed to `max_tokens` (see [`trimmed`]); the store is unchanged.
    pub fn trim_to_token_budget<C: TokenCounter>(&self, session_id: &str, max_tokens: usize, token_counter: &C) -> (r: Vec<Message>)
        requires
            self.wf(),
            trim_countable(token_counter, self.session_or_empty(session_id@), max_tokens as nat),
        ensures
            r@ == trimmed(token_counter, self.session_or_empty(session_id@), max_tokens as nat),
    {
        let msgs = match self.find(session_id) {
            None => Vec::new(),
            Some(i) => copy_messages(&self.messages[i].1),
        };
        assert(msgs@ == self.session_or_empty(session_id@));
        trim_messages_to_token_budget(msgs, max_tokens, token_counter)
    }

    /// Forgets the session.
    pub fn delete_session(&mut self, session_id: &str)
        requires
            old(self).wf(),
        ensures
            final(self).wf(),
            final(self).sessions() == old(self).sessions().remove(session_id@),
    {
        match self.find(session_id) {
            None => {
                assert(old(self).sessions().remove(session_id@) =~= old(self).sessions());
            },
            Some(i) => {
                let ghost ks = keys_of(self.messages@);
                let ghost vs = self.messages@.map_values(|p: (String, Vec<Message>)| p.1@);
                self.messages.remove(i);
                proof {
                    assert(keys_of(self.messages@) =~= ks.remove(i as int));
                    assert(self.messages@.map_values(|p: (String, Vec<Message>)| p.1@) =~= vs.remove(i as int));
                    lemma_to_map_remove(ks, vs, i as int);
                }
            },
        }
    }

    /// Drops the session's messages whose id is one of `ids`; messages without an id stay.
    pub fn remove_messages(&mut self, session_id: &str, ids: &[String])
        requires
            old(self).wf(),
        ensures
            final(self).wf(),
            old(self).sessions().contains_key(session_id@) ==> final(self).sessions() == old(self).sessions().insert(
                session_id@,
                old(self).sessions()[session_id@].filter(|m: Message| kept_after_removal(m, ids@.map_values(|s: String| s@))),
            ),
            !old(self).sessions().contains_key(session_id@) ==> final(self).sessions() == old(self).sessions(),
    {
        match self.find(session_id) {
            None => {},
            Some(i) => {
                let ghost idv = ids@.map_values(|s: String| s@);
                let ghost f = |m: Message| kept_after_removal(m, idv);
                let ghost src = self.messages@[i as int].1@;
                let mut kept: Vec<Message> = Vec::new();
                let mut j: usize = 0;
                while j < self.messages[i].1.len()
                    invariant
                        self.wf(),
                        i < self.messages@.len(),
                        src == self.messages@[i as int].1@,
                        idv == ids@.map_values(|s: String| s@),
                        f == (|m: Message| kept_after_removal(m, idv)),
                        j <= src.len(),
                        kept@ == src.take(j as int).filter(f),
                    decreases src.len() - j,
                {
                    let m = &self.messages[i].1[j];
                    let keep = match &m.id {
                        Some(x) => !crate::text::contains_str(ids, x.as_str()),
                        None => true,
                    };
                    let ghost before = kept@;
                    if keep {
                        kept.push(m.copy());
                    }
                    proof {
                        assert(src.take(j as int + 1).drop_last() =~= src.take(j as int));
                        assert(src.take(j as int + 1).last() == src[j as int]);
                        assert(keep == f(src[j as int]));
                        assert(src.take(j as int + 1).filter(f) == if f(src[j as int]) {
                            src.take(j as int).filter(f).push(src[j as int])
                        } else {
                            src.take(j as int).filter(f)
                        }) by {
                            reveal(Seq::filter);
                        }
                    }
                    j = j + 1;
                }
                proof { assert(src.take(src.len() as int) =~= src); }
                self.replace_at(i, kept);
            },
        }
    }

    /// Sets the embedding status of the session's first message with id `message_id`.
    pub fn update_message_status(&mut self, session_id: &str, message_id: &str, status: EmbeddingStatus)
        requires
            old(self).wf(),
        ensures
            final(self).wf(),
            ({
                let m = old(self).session_or_empty(session_id@);
                match first_with_id(m, message_id@) {
                    Some(j) => final(self).sessions() == old(self).sessions().insert(
                        session_id@,
                        m.update(j as int, Message { embedding_status: Some(status), ..m[j as int] }),
                    ),
                    None => final(self).sessions() == old(self).sessions(),
                }
            }),
    {
        match self.find(session_id) {
            None => {
                assert(old(self).session_or_empty(session_id@) =~= Seq::<Message>::empty());
            },
            Some(i) => {
                let ghost src = self.messages@[i as int].1@;
                assert(old(self).session_or_empty(session_id@) == src);
                match position_with_id(&self.messages[i].1, message_id) {
                    None => {},
                    Some(j) => {
                        let mut msgs = copy_messages(&self.messages[i].1);
                        let mut m = msgs.remove(j);
                        m.embedding_status = Some(status);
                        msgs.insert(j, m);
                        proof {
                            assert(msgs@ =~= src.update(j as int, Message { embedding_status: Some(status), ..src[j as int] }));
                        }
                        self.replace_at(i, msgs);
                    },
                }
            },
        }
    }

    /// The session's first message with id `message_id`.
    pub fn get_message_by_id(&self, session_id: &str, message_id: &str) -> (r: Option<Message>)
        requires
            self.wf(),
        ensures
            r == match first_with_id(self.session_or_empty(session_id@), message_id@) {
                Some(j) => Some(self.session_or_empty(session_id@)[j as int]),
                None => None::<Message>,
            },
    {
        match self.find(session_id) {
            None => {
                assert(self.session_or_empty(session_id@) =~= Seq::<Message>::empty());
                None
            },
            Some(i) => {
                assert(self.session_or_empty(session_id@) == self.messages@[i as int].1@);
                match position_with_id(&self.messages[i].1, message_id) {
                    None => None,
                    Some(j) => Some(self.messages[i].1[j].copy()),
                }
            },
        }
    }

    /// Every session with its messages.
    pub fn dump_all(&self) -> (r: Vec<(String, Vec<Message>)>)
        requires
            self.wf(),
        ensures
            no_dup_names(keys_of(r@)),
            to_map(keys_of(r@), r@.map_values(|p: (String, Vec<Message>)| p.1@)) == self.sessions(),
    {
        let ghost ks = keys_of(self.messages@);
        let ghost vs = self.messages@.map_values(|p: (String, Vec<Message>)| p.1@);
        let mut r: Vec<(String, Vec<Message>)> = Vec::new();
        let mut i: usize = 0;
        while i < self.messages.len()
            invariant
                ks == keys_of(self.messages@),
                vs == self.messages@.map_values(|p: (String, Vec<Message>)| p.1@),
                i <= self.messages@.len(),
                keys_of(r@) == ks.take(i as int),
                r@.map_values(|p: (String, Vec<Message>)| p.1@) == vs.take(i as int),
            decreases self.messages@.len() - i,
        {
            let ghost before = r@;
            r.push((self.messages[i].0.clone(), copy_messages(&self.messages[i].1)));
            assert(keys_of(r@) =~= keys_of(before).push(ks[i as int]));
            assert(r@.map_values(|p: (String, Vec<Message>)| p.1@) =~= before.map_values(|p: (String, Vec<Message>)| p.1@).push(vs[i as int]));
            assert(ks.take(i as int + 1) =~= ks.take(i as int).push(ks[i as int]));
            assert(vs.take(i as int + 1) =~= vs.take(i as int).push(vs[i as int]));
            i = i + 1;
        }
        assert(ks.take(ks.len() as int) =~= ks);
        assert(vs.take(vs.len() as int) =~= vs);
        r
    }

    /// Replaces everything with `sessions`; of a repeated session id the later entry wins.
    pub fn restore_all(&mut self, sessions: Vec<(String, Vec<Message>)>)
        ensures
            final(self).wf(),
            final(self).sessions() == fold_insert(sessions@.map_values(|p: (String, Vec<Message>)| (p.0@, p.1@))),
    {
        let ghost sv = sessions@.map_values(|p: (String, Vec<Message>)| (p.0@, p.1@));
        self.messages = Vec::new();
        assert(self.sessions() =~= Map::<Seq<char>, Seq<Message>>::empty());
        assert(sv.take(0) =~= Seq::<(Seq<char>, Seq<Message>)>::empty());
        let mut i: usize = 0;
        while i < sessions.len()
            invariant
                self.wf(),
                sv == sessions@.map_values(|p: (String, Vec<Message>)| (p.0@, p.1@)),
                i <= sessions@.len(),
                self.sessions() == fold_insert(sv.take(i as int)),
            decreases sessions@.len() - i,
        {
            let (sid, msgs) = (&sessions[i].0, &sessions[i].1);
            proof {
                assert(sv.take(i as int + 1).drop_last() =~= sv.take(i as int));
                assert(sv.take(i as int + 1).last() == (sid@, msgs@));
            }
            match self.find(sid.as_str()) {
                Some(j) => {
                    self.replace_at(j, copy_messages(msgs));
                },
                None => {
                    let ghost ks = keys_of(self.messages@);
                    let ghost vs = self.messages@.map_values(|p: (String, Vec<Message>)| p.1@);
                    self.messages.push((sid.clone(), copy_messages(msgs)));
                    proof {
                        assert(keys_of(self.messages@) =~= ks.push(sid@));
                        assert(self.messages@.map_values(|p: (String, Vec<Message>)| p.1@) =~= vs.push(msgs@));
                        lemma_to_map_push(ks, vs, sid@, msgs@);
                    }
                },
            }
            i = i + 1;
        }
        assert(sv.take(sv.len() as int) =~= sv);
    }
}

/// Position of the first message of `msgs` with id `id`.
pub fn position_with_id(msgs: &Vec<Message>, id: &str) -> (r: Option<usize>)
    ensures
        r is None ==> first_with_id(msgs@, id@) is None,
        r matches Some(j) ==> first_with_id(msgs@, id@) == Some(j as nat) && j < msgs@.len() && has_id(msgs@[j as int], id@),
{
    let mut i: usize = 0;
    assert(msgs@.take(0) =~= Seq::<Message>::empty());
    while i < msgs.len()
        invariant
            i <= msgs@.len(),
            first_with_id(msgs@.take(i as int), id@) is None,
        decreases msgs@.len() - i,
    {
        let hit = match &msgs[i].id {
            Some(x) => str_eq(x.as_str(), id),
            None => false,
        };
        proof {
            assert(msgs@.take(i as int + 1).drop_last() =~= msgs@.take(i as int));
            assert(msgs@.take(i as int + 1).last() == msgs@[i as int]);
        }
        if hit {
            proof { lemma_first_with_id_prefix(msgs@, id@, i as nat); }
            return Some(i);
        }
        i = i + 1;
    }
    assert(msgs@.take(msgs@.len() as int) =~= msgs@);
    None
}

/// A first match inside a prefix is the first match of the whole sequence.
proof fn lemma_first_with_id_prefix(msgs: Seq<Message>, id: Seq<char>, i: nat)
    requires
        i < msgs.len(),
        first_with_id(msgs.take(i as int), id) is None,
        has_id(msgs[i as int], id),
    ensures
        first_with_id(msgs, id) == Some(i),
    decreases msgs.len(),
{
    assert(msgs.take(i as int + 1).drop_last() =~= msgs.take(i as int));
    if msgs.len() > i + 1 {
        let d = msgs.drop_last();
        assert(d.take(i as int) =~= msgs.take(i as int));
        assert(d[i as int] == msgs[i as int]);
        lemma_first_with_id_prefix(d, id, i);
    } else {
        assert(msgs.take(i as int + 1) =~= msgs);
    }
}

/// Restoring what `dump_all` listed gives back the dumped sessions: with
/// distinct session ids, inserting each entry in turn rebuilds the map.
pub proof fn lemma_dump_restore_round_trip(dump: Seq<(String, Vec<Message>)>, sessions: Map<Seq<char>, Seq<Message>>)
    requires
        no_dup_names(keys_of(dump)),
        to_map(keys_of(dump), dump.map_values(|p: (String, Vec<Message>)| p.1@)) == sessions,
    ensures
        fold_insert(dump.map_values(|p: (String, Vec<Message>)| (p.0@, p.1@))) == sessions,
{
    let sv = dump.map_values(|p: (String, Vec<Message>)| (p.0@, p.1@));
    assert(sv.map_values(|p: (Seq<char>, Seq<Message>)| p.0) =~= keys_of(dump));
    assert(sv.map_values(|p: (Seq<char>, Seq<Message>)| p.1) =~= dump.map_values(|p: (String, Vec<Message>)| p.1@));
    crate::assoc::lemma_fold_insert_to_map(sv);
}

/// Restoring what the core-memory `dump_all` listed gives back the dumped facts.
pub proof fn lemma_facts_dump_restore_round_trip(dump: Seq<(String, Vec<String>)>, sessions: Map<Seq<char>, Seq<Seq<char>>>)
    requires
        no_dup_names(keys_of(dump)),
        to_map(keys_of(dump), dump.map_values(|p: (String, Vec<String>)| strings_view(p.1@))) == sessions,
    ensures
        fold_insert(dump.map_values(|p: (String, Vec<String>)| (p.0@, strings_view(p.1@)))) == sessions,
{
    let sv = dump.map_values(|p: (String, Vec<String>)| (p.0@, strings_view(p.1@)));
    assert(sv.map_values(|p: (Seq<char>, Seq<Seq<char>>)| p.0) =~= keys_of(dump));
    assert(sv.map_values(|p: (Seq<char>, Seq<Seq<char>>)| p.1) =~= dump.map_values(|p: (String, Vec<String>)| strings_view(p.1@)));
    crate::assoc::lemma_fold_insert_to_map(sv);
}

impl Default for InMemoryStore {
    fn default() -> (s: Self)
        ensures
            s.wf(),
            s.sessions() == Map::<Seq<char>, Seq<Message>>::empty(),
    {
        InMemoryStore::new()
    }
}

/// Core facts per session, in the order they were added.
pub struct InMemoryCoreMemoryStore {
    facts: Vec<(String, Vec<String>)>,
}

impl InMemoryCoreMemoryStore {
    /// Session id -> its facts.
    pub closed spec fn sessions(&self) -> Map<Seq<char>, Seq<Seq<char>>> {
        to_map(keys_of(self.facts@), self.facts@.map_values(|p: (String, Vec<String>)| strings_view(p.1@)))
    }

    pub closed spec fn wf(&self) -> bool {
        no_dup_names(keys_of(self.facts@))
    }

    pub open spec fn facts_or_empty(&self, session_id: Seq<char>) -> Seq<Seq<char>> {
        if self.sessions().contains_key(session_id) { self.sessions()[session_id] } else { Seq::empty() }
    }

    pub fn new() -> (s: Self)
        ensures
            s.wf(),
            s.sessions() == Map::<Seq<char>, Seq<Seq<char>>>::empty(),
    {
        let s = InMemoryCoreMemoryStore { facts: Vec::new() };
        assert(s.sessions() =~= Map::<Seq<char>, Seq<Seq<char>>>::empty());
        s
    }

    fn find(&self, session_id: &str) -> (r: Option<usize>)
        requires
            self.wf(),
        ensures
            r is None <==> !self.sessions().contains_key(session_id@),
            r matches Some(i) ==> i < self.facts@.len() && self.facts@[i as int].0@ == session_id@
                && self.sessions()[session_id@] == strings_view(self.facts@[i as int].1@),
    {
        let r = find_key(&self.facts, session_id);
        proof {
            if let Some(i) = r {
                crate::topology::lemma_find_unique(keys_of(self.facts@), session_id@, i as int);
            }
        }
        r
    }

    fn replace_at(&mut self, i: usize, list: Vec<String>)
        requires
            old(self).wf(),
            i < old(self).facts@.len(),
        ensures
            final(self).wf(),
            final(self).sessions() == old(self).sessions().insert(old(self).facts@[i as int].0@, strings_view(list@)),
    {
        let ghost ks = keys_of(self.facts@);
        let ghost vs = self.facts@.map_values(|p: (String, Vec<String>)| strings_view(p.1@));
        let (sid, _) = self.facts.remove(i);
        self.facts.insert(i, (sid, list));
        proof {
            assert(keys_of(self.facts@) =~= ks);
            assert(self.facts@.map_values(|p: (String, Vec<String>)| strings_view(p.1@)) =~= vs.update(i as int, strings_view(list@)));
            lemma_to_map_update(ks, vs, i as int, strings_view(list@));
        }
    }

    fn push_session(&mut self, session_id: String, list: Vec<String>)
        requires
            old(self).wf(),
            !old(self).sessions().contains_key(session_id@),
        ensures
            final(self).wf(),
            final(self).sessions() == old(self).sessions().insert(session_id@, strings_view(list@)),
    {
        let ghost ks = keys_of(self.facts@);
        let ghost vs = self.facts@.map_values(|p: (String, Vec<String>)| strings_view(p.1@));
        let ghost k = session_id@;
        let ghost l = strings_view(list@);
        self.facts.push((session_id, list));
        proof {
            assert(keys_of(self.facts@) =~= ks.push(k));
            assert(self.facts@.map_values(|p: (String, Vec<String>)| strings_view(p.1@)) =~= vs.push(l));
            lemma_to_map_push(ks, vs, k, l);
        }
    }

    /// Appends `fact` to the session's facts.
    pub fn add_fact(&mut self, session_id: &str, fact: &str)
        requires
            old(self).wf(),
        ensures
            final(self).wf(),
            final(self).sessions() == old(self).sessions().insert(
                session_id@, old(self).facts_or_empty(session_id@).push(fact@)),
    {
        match self.find(session_id) {
            Some(i) => {
                let mut list = copy_strings(self.facts[i].1.as_slice());
                let ghost before = list@;
                list.push(string_from(fact));
                assert(strings_view(list@) =~= strings_view(before).push(fact@));
                self.replace_at(i, list);
            },
            None => {
                let mut list: Vec<String> = Vec::new();
                list.push(string_from(fact));
                assert(strings_view(list@) =~= Seq::<Seq<char>>::empty().push(fact@));
                self.push_session(string_from(session_id), list);
            },
        }
    }

    /// The session's facts, oldest first.
    pub fn get_facts(&self, session_id: &str) -> (r: Vec<String>)
        requires
            self.wf(),
        ensures
            strings_view(r@) == self.facts_or_empty(session_id@),
    {
        match self.find(session_id) {
            Some(i) => copy_strings(self.facts[i].1.as_slice()),
            None => {
                let r: Vec<String> = Vec::new();
                assert(strings_view(r@) =~= Seq::<Seq<char>>::empty());
                r
            },
        }
    }

    /// Forgets the session's facts.
    pub fn delete_session(&mut self, session_id: &str)
        requires
            old(self).wf(),
        ensures
            final(self).wf(),
            final(self).sessions() == old(self).sessions().remove(session_id@),
    {
        match self.find(session_id) {
            None => {
                assert(old(self).sessions().remove(session_id@) =~= old(self).sessions());
            },
            Some(i) => {
                let ghost ks = keys_of(self.facts@);
                let ghost vs = self.facts@.map_values(|p: (String, Vec<String>)| strings_view(p.1@));
                self.facts.remove(i);
                proof {
                    assert(keys_of(self.facts@) =~= ks.remove(i as int));
                    assert(self.facts@.map_values(|p: (String, Vec<String>)| strings_view(p.1@)) =~= vs.remove(i as int));
                    lemma_to_map_remove(ks, vs, i as int);
                }
            },
        }
    }

    /// Every session with its facts.
    pub fn dump_all(&self) -> (r: Vec<(String, Vec<String>)>)
        requires
            self.wf(),
        ensures
            no_dup_names(keys_of(r@)),
            to_map(keys_of(r@), r@.map_values(|p: (String, Vec<String>)| strings_view(p.1@))) == self.sessions(),
    {
        let ghost ks = keys_of(self.facts@);
        let ghost vs = self.facts@.map_values(|p: (String, Vec<String>)| strings_view(p.1@));
        let mut r: Vec<(String, Vec<String>)> = Vec::new();
        let mut i: usize = 0;
        while i < self.facts.len()
            invariant
                ks == keys_of(self.facts@),
                vs == self.facts@.map_values(|p: (String, Vec<String>)| strings_view(p.1@)),
                i <= self.facts@.len(),
                keys_of(r@) == ks.take(i as int),
                r@.map_values(|p: (String, Vec<String>)| strings_view(p.1@)) == vs.take(i as int),
            decreases self.facts@.len() - i,
        {
            let ghost before = r@;
            r.push((self.facts[i].0.clone(), copy_strings(self.facts[i].1.as_slice())));
            assert(keys_of(r@) =~= keys_of(before).push(ks[i as int]));
            assert(r@.map_values(|p: (String, Vec<String>)| strings_view(p.1@)) =~= before.map_values(|p: (String, Vec<String>)| strings_view(p.1@)).push(vs[i as int]));
            assert(ks.take(i as int + 1) =~= ks.take(i as int).push(ks[i as int]));
            assert(vs.take(i as int + 1) =~= vs.take(i as int).push(vs[i as int]));
            i = i + 1;
        }
        assert(ks.take(ks.len() as int) =~= ks);
        assert(vs.take(vs.len() as int) =~= vs);
        r
    }

    /// Replaces everything with `sessions`; of a repeated session id the later entry wins.
    pub fn restore_all(&mut self, sessions: Vec<(String, Vec<String>)>)
        ensures
            final(self).wf(),
            final(self).sessions() == fold_insert(sessions@.map_values(|p: (String, Vec<String>)| (p.0@, strings_view(p.1@)))),
    {
        let ghost sv = sessions@.map_values(|p: (String, Vec<String>)| (p.0@, strings_view(p.1@)));
        self.facts = Vec::new();
        assert(self.sessions() =~= Map::<Seq<char>, Seq<Seq<char>>>::empty());
        assert(sv.take(0) =~= Seq::<(Seq<char>, Seq<Seq<char>>)>::empty());
        let mut i: usize = 0;
        while i < sessions.len()
            invariant
                self.wf(),
                sv == sessions@.map_values(|p: (String, Vec<String>)| (p.0@, strings_view(p.1@))),
                i <= sessions@.len(),
                self.sessions() == fold_insert(sv.take(i as int)),
            decreases sessions@.len() - i,
        {
            let (sid, list) = (&sessions[i].0, &sessions[i].1);
            proof {
                assert(sv.take(i as int + 1).drop_last() =~= sv.take(i as int));
                assert(sv.take(i as int + 1).last() == (sid@, strings_view(list@)));
            }
            match self.find(sid.as_str()) {
                Some(j) => self.replace_at(j, copy_strings(list.as_slice())),
                None => self.push_session(sid.clone(), copy_strings(list.as_slice())),
            }
            i = i + 1;
        }
        assert(sv.take(sv.len() as int) =~= sv);
    }
}

impl Default for InMemoryCoreMemoryStore {
    fn default() -> (s: Self)
        ensures
            s.wf(),
            s.sessions() == Map::<Seq<char>, Seq<Seq<char>>>::empty(),
    {
        InMemoryCoreMemoryStore::new()
    }
}


/// Why embedding a text failed.
#[derive(Debug)]
pub enum EmbedError {
    MissingApiKey,
    RateLimitExceeded,
    InvalidResponse(String),
    HttpStatus { status: u16, body: String },
    Message(String),
    /// Another error, by its message.
    Other(String),
}

/// Why a vector-store operation failed.
#[derive(Debug)]
pub enum StoreError {
    Message(String),
    /// Another error, by its message.
    Other(String),
}

/// Why a memory-store operation failed.
#[derive(Debug)]
pub enum MemoryError {
    Message(String),
    /// Another error, by its message.
    Other(String),
}

/// Errors the memory server reports to its clients.
#[derive(Debug)]
pub enum MemoryServerError {
    Embed(EmbedError),
    Store(StoreError),
    Memory(MemoryError),
    /// In cluster mode: this node is a follower; the client should retry at the given URL.
    RedirectToLeader(String),
    /// In cluster mode: no leader is currently elected.
    NoLeader,
    Internal(String),
    QueueFull,
    BadRequest(String),
}

pub open spec fn embed_error_text(e: EmbedError) -> Seq<char> {
    match e {
        EmbedError::MissingApiKey => "OPENAI_API_KEY is missing"@,
        EmbedError::RateLimitExceeded => "OpenAI API rate limit exceeded after retries"@,
        EmbedError::InvalidResponse(s) => "unexpected embedding response: "@ + s@,
        EmbedError::HttpStatus { status, body } => "OpenAI API returned status "@ + crate::text::decimal(status as nat) + ": "@ + body@,
        EmbedError::Message(s) => s@,
        EmbedError::Other(s) => s@,
    }
}

pub open spec fn store_error_text(e: StoreError) -> Seq<char> {
    match e {
        StoreError::Message(s) => s@,
        StoreError::Other(s) => s@,
    }
}

pub open spec fn memory_error_text(e: MemoryError) -> Seq<char> {
    match e {
        MemoryError::Message(s) => s@,
        MemoryError::Other(s) => s@,
    }
}

pub open spec fn server_error_text(e: MemoryServerError) -> Seq<char> {
    match e {
        MemoryServerError::Embed(x) => embed_error_text(x),
        MemoryServerError::Store(x) => store_error_text(x),
        MemoryServerError::Memory(x) => memory_error_text(x),
        MemoryServerError::RedirectToLeader(u) => "redirect to leader at "@ + u@,
        MemoryServerError::NoLeader => "no leader elected"@,
        MemoryServerError::Internal(s) => "internal error: "@ + s@,
        MemoryServerError::QueueFull => "embedding queue full"@,
        MemoryServerError::BadRequest(s) => "bad request: "@ + s@,
    }
}

/// `prefix` followed by `rest`.
fn joined(prefix: &str, rest: &str) -> (r: String)
    ensures
        r@ == prefix@ + rest@,
{
    let mut r = string_from(prefix);
    push_str(&mut r, rest);
    r
}

impl EmbedError {
    /// The error's message.
    pub fn to_string(&self) -> (r: String)
        ensures
            r@ == embed_error_text(*self),
    {
        match self {
            EmbedError::MissingApiKey => string_from("OPENAI_API_KEY is missing"),
            EmbedError::RateLimitExceeded => string_from("OpenAI API rate limit exceeded after retries"),
            EmbedError::InvalidResponse(s) => joined("unexpected embedding response: ", s.as_str()),
            EmbedError::HttpStatus { status, body } => {
                let mut r = string_from("OpenAI API returned status ");
                crate::text::push_decimal(&mut r, *status as u64);
                push_str(&mut r, ": ");
                push_str(&mut r, body.as_str());
                r
            },
            EmbedError::Message(s) => s.clone(),
            EmbedError::Other(s) => s.clone(),
        }
    }
}

impl StoreError {
    /// The error's message.
    pub fn to_string(&self) -> (r: String)
        ensures
            r@ == store_error_text(*self),
    {
        match self {
            StoreError::Message(s) => s.clone(),
            StoreError::Other(s) => s.clone(),
        }
    }
}

impl MemoryError {
    /// The error's message.
    pub fn to_string(&self) -> (r: String)
        ensures
            r@ == memory_error_text(*self),
    {
        match self {
            MemoryError::Message(s) => s.clone(),
            MemoryError::Other(s) => s.clone(),
        }
    }
}

impl MemoryServerError {
    /// The error's message; a wrapped error shows its own message.
    pub fn to_string(&self) -> (r: String)
        ensures
            r@ == server_error_text(*self),
    {
        match self {
            MemoryServerError::Embed(e) => e.to_string(),
            MemoryServerError::Store(e) => e.to_string(),
            MemoryServerError::Memory(e) => e.to_string(),
            MemoryServerError::RedirectToLeader(u) => joined("redirect to leader at ", u.as_str()),
            MemoryServerError::NoLeader => string_from("no leader elected"),
            MemoryServerError::Internal(s) => joined("internal error: ", s.as_str()),
            MemoryServerError::QueueFull => string_from("embedding queue full"),
            MemoryServerError::BadRequest(s) => joined("bad request: ", s.as_str()),
        }
    }
}

impl From<EmbedError> for MemoryServerError {
    fn from(e: EmbedError) -> (r: MemoryServerError) {
        MemoryServerError::Embed(e)
    }
}

impl vstd::std_specs::convert::FromSpecImpl<EmbedError> for MemoryServerError {
    open spec fn obeys_from_spec() -> bool {
        true
    }

    open spec fn from_spec(e: EmbedError) -> MemoryServerError {
        MemoryServerError::Embed(e)
    }
}

impl From<StoreError> for MemoryServerError {
    fn from(e: StoreError) -> (r: MemoryServerError) {
        MemoryServerError::Store(e)
    }
}

impl vstd::std_specs::convert::FromSpecImpl<StoreError> for MemoryServerError {
    open spec fn obeys_from_spec() -> bool {
        true
    }

    open spec fn from_spec(e: StoreError) -> MemoryServerError {
        MemoryServerError::Store(e)
    }
}

impl From<MemoryError> for MemoryServerError {
    fn from(e: MemoryError) -> (r: MemoryServerError) {
        MemoryServerError::Memory(e)
    }
}

impl vstd::std_specs::convert::FromSpecImpl<MemoryError> for MemoryServerError {
    open spec fn obeys_from_spec() -> bool {
        true
    }

    open spec fn from_spec(e: MemoryError) -> MemoryServerError {
        MemoryServerError::Memory(e)
    }
}


/// The core-facts store's contract.
pub trait CoreMemoryStore {
    /// Session id -> its facts, oldest first.
    spec fn facts(&self) -> Map<Seq<char>, Seq<Seq<char>>>;

    spec fn valid(&self) -> bool;

    fn add_fact(&mut self, session_id: &str, fact: &str)
        requires
            old(self).valid(),
        ensures
            final(self).valid(),
            final(self).facts() == old(self).facts().insert(session_id@,
                (if old(self).facts().contains_key(session_id@) { old(self).facts()[session_id@] } else { Seq::empty() }).push(fact@));

    fn get_facts(&self, session_id: &str) -> (r: Vec<String>)
        requires
            self.valid(),
        ensures
            strings_view(r@) == (if self.facts().contains_key(session_id@) { self.facts()[session_id@] } else { Seq::empty() });

    fn delete_session(&mut self, session_id: &str)
        requires
            old(self).valid(),
        ensures
            final(self).valid(),
            final(self).facts() == old(self).facts().remove(session_id@);

    fn dump_all(&self) -> (r: Vec<(String, Vec<String>)>)
        requires
            self.valid(),
        ensures
            no_dup_names(keys_of(r@)),
            to_map(keys_of(r@), r@.map_values(|p: (String, Vec<String>)| strings_view(p.1@))) == self.facts();

    fn restore_all(&mut self, sessions: Vec<(String, Vec<String>)>)
        ensures
            final(self).valid(),
            final(self).facts() == fold_insert(sessions@.map_values(|p: (String, Vec<String>)| (p.0@, strings_view(p.1@))));
}

impl CoreMemoryStore for InMemoryCoreMemoryStore {
    open spec fn facts(&self) -> Map<Seq<char>, Seq<Seq<char>>> {
        self.sessions()
    }

    open spec fn valid(&self) -> bool {
        self.wf()
    }

    fn add_fact(&mut self, session_id: &str, fact: &str) {
        InMemoryCoreMemoryStore::add_fact(self, session_id, fact)
    }

    fn get_facts(&self, session_id: &str) -> (r: Vec<String>) {
        InMemoryCoreMemoryStore::get_facts(self, session_id)
    }

    fn delete_session(&mut self, session_id: &str) {
        InMemoryCoreMemoryStore::delete_session(self, session_id)
    }

    fn dump_all(&self) -> (r: Vec<(String, Vec<String>)>) {
        InMemoryCoreMemoryStore::dump_all(self)
    }

    fn restore_all(&mut self, sessions: Vec<(String, Vec<String>)>) {
        InMemoryCoreMemoryStore::restore_all(self, sessions)
    }
}

} // verus!
