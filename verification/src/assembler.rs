//! Assembling the context handed to a model: core facts, then long-term
//! memories that fit the remaining token budget, then the recent conversation.
//!
//! Fetching facts and messages, embedding the query and searching the vector
//! store happen between the stages below; each stage decides from what the
//! previous outside step returned.

use vstd::prelude::*;
use crate::memory::{conversation_text, conversation_text_spec, lemma_trimmed_fits, trimmed, TokenCounter};
use crate::models::Message;
use crate::text::{join, joined, push_str};
use crate::topology::{str_eq, string_from};

verus! {

/// "Core memories:" and one "- fact" line per fact; empty without facts.
pub open spec fn core_lines(facts: Seq<String>) -> Seq<char>
    decreases facts.len(),
{
    if facts.len() == 0 {
        "Core memories:"@
    } else {
        core_lines(facts.drop_last()) + "\n- "@ + facts.last()@
    }
}

pub open spec fn core_memories_text(facts: Seq<String>) -> Seq<char> {
    if facts.len() == 0 { Seq::empty() } else { core_lines(facts) }
}

/// The core-facts section (see [`core_memories_text`]).
pub fn format_core_memories(facts: &[String]) -> (r: String)
    ensures
        r@ == core_memories_text(facts@),
{
    if facts.len() == 0 {
        return String::new();
    }
    let mut r = string_from("Core memories:");
    let mut i: usize = 0;
    while i < facts.len()
        invariant
            i <= facts@.len(),
            r@ == core_lines(facts@.take(i as int)),
        decreases facts@.len() - i,
    {
        let ghost before = facts@.take(i as int);
        push_str(&mut r, "\n- ");
        push_str(&mut r, facts[i].as_str());
        proof {
            let next = facts@.take(i as int + 1);
            assert(next.drop_last() =~= before);
            assert(next.last() == facts@[i as int]);
        }
        i = i + 1;
    }
    assert(facts@.take(facts@.len() as int) =~= facts@);
    r
}

/// The recent-conversation section: the transcript of the messages.
pub fn format_conversation(messages: &[Message]) -> (r: String)
    ensures
        r@ == conversation_text_spec(messages@),
{
    conversation_text(messages)
}

/// Position of the last message with role "user".
pub open spec fn last_user(msgs: Seq<Message>) -> Option<nat>
    decreases msgs.len(),
{
    if msgs.len() == 0 {
        None
    } else if msgs.last().role@ == "user"@ {
        Some((msgs.len() - 1) as nat)
    } else {
        last_user(msgs.drop_last())
    }
}

/// The text to search long-term memory with: the latest user message, else
/// the latest message, else nothing.
pub open spec fn query_text_spec(msgs: Seq<Message>) -> Seq<char> {
    match last_user(msgs) {
        Some(i) => msgs[i as int].content@,
        None => if msgs.len() == 0 { Seq::empty() } else { msgs.last().content@ },
    }
}

proof fn lemma_last_user_bound(msgs: Seq<Message>)
    ensures
        last_user(msgs) matches Some(i) ==> i < msgs.len(),
    decreases msgs.len(),
{
    if msgs.len() > 0 {
        lemma_last_user_bound(msgs.drop_last());
    }
}

/// The query text (see [`query_text_spec`]).
pub fn derive_query_text(messages: &[Message]) -> (r: String)
    ensures
        r@ == query_text_spec(messages@),
{
    let mut i: usize = messages.len();
    assert(messages@.take(messages@.len() as int) =~= messages@);
    while i > 0
        invariant
            i <= messages@.len(),
            last_user(messages@) == last_user(messages@.take(i as int)),
        decreases i,
    {
        let ghost t = messages@.take(i as int);
        assert(t.drop_last() =~= messages@.take(i as int - 1));
        assert(t.last() == messages@[i as int - 1]);
        if str_eq(messages[i - 1].role.as_str(), "user") {
            return messages[i - 1].content.clone();
        }
        i = i - 1;
    }
    assert(messages@.take(messages@.len() as int) =~= messages@);
    if messages.len() == 0 {
        String::new()
    } else {
        messages[messages.len() - 1].content.clone()
    }
}

/// Tokens of a section: an empty section costs nothing.
pub open spec fn section_tokens<C: TokenCounter>(c: &C, text: Seq<char>) -> nat {
    if text.len() == 0 { 0 } else { c.token_count(text) }
}

/// A section can be counted: it is empty (and costs nothing) or the counter counts it.
pub open spec fn section_countable<C: TokenCounter>(c: &C, text: Seq<char>) -> bool {
    text.len() == 0 || c.counts(text)
}

pub fn count_tokens<C: TokenCounter>(token_counter: &C, text: &str) -> (n: usize)
    requires
        section_countable(token_counter, text@),
    ensures
        n as nat == section_tokens(token_counter, text@),
{
    if text.unicode_len() == 0 {
        0
    } else {
        token_counter.count_tokens(text)
    }
}

/// The non-empty sections, separated by a blank line.
pub open spec fn sections_text(sections: Seq<Seq<char>>) -> Seq<char> {
    joined(sections.filter(|s: Seq<char>| s.len() > 0), "\n\n"@)
}

pub fn join_sections(sections: &[String]) -> (r: String)
    ensures
        r@ == sections_text(sections@.map_values(|s: String| s@)),
{
    let ghost a = sections@.map_values(|s: String| s@);
    let ghost f = |s: Seq<char>| s.len() > 0;
    let mut kept: Vec<String> = Vec::new();
    let mut i: usize = 0;
    while i < sections.len()
        invariant
            a == sections@.map_values(|s: String| s@),
            f == (|s: Seq<char>| s.len() > 0),
            i <= sections@.len(),
            kept@.map_values(|s: String| s@) == a.take(i as int).filter(f),
        decreases sections@.len() - i,
    {
        let ghost before = kept@.map_values(|s: String| s@);
        if sections[i].unicode_len() > 0 {
            kept.push(sections[i].clone());
            assert(kept@.map_values(|s: String| s@) =~= before.push(a[i as int]));
        }
        proof {
            assert(a.take(i as int + 1).drop_last() =~= a.take(i as int));
            assert(a.take(i as int + 1).last() == a[i as int]);
            assert(a.take(i as int + 1).filter(f) == if f(a[i as int]) {
                a.take(i as int).filter(f).push(a[i as int])
            } else {
                a.take(i as int).filter(f)
            }) by {
                reveal(Seq::filter);
            }
        }
        i = i + 1;
    }
    assert(a.take(a.len() as int) =~= a);
    join(kept.as_slice(), "\n\n")
}

/// `a - b`, or zero when `b` is larger.
pub open spec fn sat_sub(a: nat, b: nat) -> nat {
    if a >= b { (a - b) as nat } else { 0 }
}

/// What the assembler knows once the conversation has been trimmed.
pub struct ContextDraft {
    pub core_text: String,
    pub short_text: String,
    /// Tokens left for long-term memories.
    pub remaining_budget: usize,
    /// The text to search long-term memory with.
    pub query_text: String,
}

impl ContextDraft {
    /// The context without long-term memories.
    pub open spec fn text(&self) -> Seq<char> {
        sections_text(seq![self.core_text@, self.short_text@])
    }
}

/// The first stage: the core section and the budget left for the conversation.
pub fn begin_context<C: TokenCounter>(core_facts: &[String], max_tokens: usize, token_counter: &C) -> (r: (String, usize))
    requires
        section_countable(token_counter, core_memories_text(core_facts@)),
    ensures
        r.0@ == core_memories_text(core_facts@),
        r.1 as nat == sat_sub(max_tokens as nat, section_tokens(token_counter, core_memories_text(core_facts@))),
{
    let core_text = format_core_memories(core_facts);
    let core_tokens = count_tokens(token_counter, core_text.as_str());
    let budget = if max_tokens >= core_tokens { max_tokens - core_tokens } else { 0 };
    (core_text, budget)
}

/// The second stage, given the conversation trimmed to the budget left by the core section.
pub fn draft_context<C: TokenCounter>(core_text: String, trimmed_short: &[Message], max_tokens: usize, token_counter: &C) -> (d: ContextDraft)
    requires
        section_countable(token_counter, core_text@),
        section_countable(token_counter, conversation_text_spec(trimmed_short@)),
    ensures
        d.core_text@ == core_text@,
        d.short_text@ == conversation_text_spec(trimmed_short@),
        d.query_text@ == query_text_spec(trimmed_short@),
        d.remaining_budget as nat == sat_sub(
            max_tokens as nat,
            section_tokens(token_counter, core_text@) + section_tokens(token_counter, conversation_text_spec(trimmed_short@)),
        ),
{
    let core_tokens = count_tokens(token_counter, core_text.as_str());
    let short_text = format_conversation(trimmed_short);
    let short_tokens = count_tokens(token_counter, short_text.as_str());
    let remaining_budget = if (max_tokens as u128) >= (core_tokens as u128) + (short_tokens as u128) {
        max_tokens - core_tokens - short_tokens
    } else {
        0
    };
    let query_text = derive_query_text(trimmed_short);
    ContextDraft { core_text, short_text, remaining_budget, query_text }
}

/// Whether long-term memory is searched for the draft: budget is left and
/// there is a query to search with. Otherwise the context is [`draft_text`].
pub fn needs_long_term(d: &ContextDraft) -> (r: bool)
    ensures
        r == (d.remaining_budget > 0 && d.query_text@.len() > 0),
{
    d.remaining_budget > 0 && d.query_text.as_str().unicode_len() > 0
}

/// The context of a draft that looks up no long-term memory.
pub fn draft_text(d: &ContextDraft) -> (r: String)
    ensures
        r@ == d.text(),
{
    let mut v: Vec<String> = Vec::new();
    v.push(d.core_text.clone());
    v.push(d.short_text.clone());
    assert(v@.map_values(|s: String| s@) =~= seq![d.core_text@, d.short_text@]);
    join_sections(v.as_slice())
}

/// Long-term memory lines chosen from search hits in rank order: hits below
/// the similarity threshold are skipped, and the first line that does not fit
/// the remaining budget ends the selection.
pub open spec fn selected_memories<C: TokenCounter>(c: &C, hits: Seq<(String, bool)>, budget: nat) -> Seq<Seq<char>>
    decreases hits.len(),
{
    if hits.len() == 0 {
        Seq::empty()
    } else if !hits[0].1 {
        selected_memories(c, hits.drop_first(), budget)
    } else {
        let line = "Memory: "@ + hits[0].0@;
        let k = c.token_count(line);
        if k > budget { Seq::empty() } else { seq![line] + selected_memories(c, hits.drop_first(), (budget - k) as nat) }
    }
}

/// Every line that selecting memories counts can be counted: the line of each
/// hit above the threshold, until one does not fit.
pub open spec fn selection_countable<C: TokenCounter>(c: &C, hits: Seq<(String, bool)>, budget: nat) -> bool
    decreases hits.len(),
{
    if hits.len() == 0 {
        true
    } else if !hits[0].1 {
        selection_countable(c, hits.drop_first(), budget)
    } else {
        let line = "Memory: "@ + hits[0].0@;
        &&& c.counts(line)
        &&& c.token_count(line) <= budget ==> selection_countable(c, hits.drop_first(), (budget - c.token_count(line)) as nat)
    }
}

/// Total tokens of the lines.
pub open spec fn lines_tokens<C: TokenCounter>(c: &C, lines: Seq<Seq<char>>) -> nat
    decreases lines.len(),
{
    if lines.len() == 0 { 0 } else { c.token_count(lines[0]) + lines_tokens(c, lines.drop_first()) }
}

/// The selected memories never cost more tokens than the budget.
pub proof fn lemma_selected_within_budget<C: TokenCounter>(c: &C, hits: Seq<(String, bool)>, budget: nat)
    ensures
        lines_tokens(c, selected_memories(c, hits, budget)) <= budget,
    decreases hits.len(),
{
    if hits.len() > 0 {
        if !hits[0].1 {
            lemma_selected_within_budget(c, hits.drop_first(), budget);
        } else {
            let line = "Memory: "@ + hits[0].0@;
            let k = c.token_count(line);
            if k <= budget {
                lemma_selected_within_budget(c, hits.drop_first(), (budget - k) as nat);
                let s = seq![line] + selected_memories(c, hits.drop_first(), (budget - k) as nat);
                assert(s[0] == line);
                assert(s.drop_first() =~= selected_memories(c, hits.drop_first(), (budget - k) as nat));
            } else {
                assert(lines_tokens(c, Seq::<Seq<char>>::empty()) == 0);
            }
        }
    }
}

/// The token budget holds: the core section, the conversation trimmed to what
/// the core section leaves, and the long-term memories selected for what is
/// left then, together cost at most `max` tokens, whenever the core section
/// alone fits.
pub proof fn lemma_context_within_budget<C: TokenCounter>(
    c: &C,
    facts: Seq<String>,
    msgs: Seq<Message>,
    max: nat,
    hits: Seq<(String, bool)>,
)
    requires
        section_tokens(c, core_memories_text(facts)) <= max,
    ensures
        ({
            let core = section_tokens(c, core_memories_text(facts));
            let kept = trimmed(c, msgs, sat_sub(max, core));
            let short = section_tokens(c, conversation_text_spec(kept));
            core + short + lines_tokens(c, selected_memories(c, hits, sat_sub(max, core + short))) <= max
        }),
{
    let core = section_tokens(c, core_memories_text(facts));
    let kept = trimmed(c, msgs, sat_sub(max, core));
    lemma_trimmed_fits(c, msgs, sat_sub(max, core));
    if kept.len() == 0 {
        assert(conversation_text_spec(kept).len() == 0);
    }
    let short = section_tokens(c, conversation_text_spec(kept));
    assert(core + short <= max);
    lemma_selected_within_budget(c, hits, sat_sub(max, core + short));
}

/// The final context: core facts, the selected long-term memories (one per
/// line), and the conversation, as non-empty sections.
pub open spec fn final_context<C: TokenCounter>(c: &C, d: ContextDraft, hits: Seq<(String, bool)>) -> Seq<char> {
    sections_text(seq![
        d.core_text@,
        joined(selected_memories(c, hits, d.remaining_budget as nat), "\n"@),
        d.short_text@,
    ])
}

/// The last stage: `hits` are the search results in rank order, each with
/// whether its score reached the similarity threshold.
pub fn finish_context<C: TokenCounter>(d: &ContextDraft, hits: &[(String, bool)], token_counter: &C) -> (r: String)
    requires
        selection_countable(token_counter, hits@, d.remaining_budget as nat),
    ensures
        r@ == final_context(token_counter, *d, hits@),
{
    let mut lines: Vec<String> = Vec::new();
    let mut budget = d.remaining_budget;
    let mut i: usize = 0;
    let mut stop = false;
    assert(hits@.skip(0) =~= hits@);
    assert(lines@.map_values(|s: String| s@) + selected_memories(token_counter, hits@, budget as nat)
        =~= selected_memories(token_counter, hits@, budget as nat));
    while i < hits.len() && !stop
        invariant
            i <= hits@.len(),
            lines@.map_values(|s: String| s@) + selected_memories(token_counter, hits@.skip(i as int), budget as nat)
                == selected_memories(token_counter, hits@, d.remaining_budget as nat),
            stop ==> selected_memories(token_counter, hits@.skip(i as int), budget as nat) == Seq::<Seq<char>>::empty(),
            !stop ==> selection_countable(token_counter, hits@.skip(i as int), budget as nat),
        decreases hits@.len() - i, if stop { 0int } else { 1int },
    {
        let ghost rest = hits@.skip(i as int);
        assert(rest[0] == hits@[i as int]);
        assert(rest.drop_first() =~= hits@.skip(i as int + 1));
        if hits[i].1 {
            let mut line = string_from("Memory: ");
            push_str(&mut line, hits[i].0.as_str());
            let k = token_counter.count_tokens(line.as_str());
            if k > budget {
                stop = true;
            } else {
                let ghost before = lines@.map_values(|s: String| s@);
                budget = budget - k;
                lines.push(line);
                assert(lines@.map_values(|s: String| s@) =~= before.push(line@));
                assert(before + (seq![line@] + selected_memories(token_counter, hits@.skip(i as int + 1), budget as nat))
                    =~= lines@.map_values(|s: String| s@) + selected_memories(token_counter, hits@.skip(i as int + 1), budget as nat));
                i = i + 1;
            }
        } else {
            i = i + 1;
        }
    }
    proof {
        if !stop {
            assert(hits@.skip(i as int) =~= Seq::<(String, bool)>::empty());
        }
        assert(lines@.map_values(|s: String| s@) + Seq::<Seq<char>>::empty() =~= lines@.map_values(|s: String| s@));
    }
    let memories = join(lines.as_slice(), "\n");
    let mut v: Vec<String> = Vec::new();
    v.push(d.core_text.clone());
    v.push(memories);
    v.push(d.short_text.clone());
    assert(v@.map_values(|s: String| s@) =~= seq![
        d.core_text@,
        joined(selected_memories(token_counter, hits@, d.remaining_budget as nat), "\n"@),
        d.short_text@,
    ]);
    join_sections(v.as_slice())
}

/// What assembling a context for `facts` and the session's messages `msgs`
/// within `max` tokens gives, with `hits` the search results in rank order
/// (each with whether it reached the similarity threshold): the core section;
/// the conversation trimmed to what the core section leaves; and, when tokens
/// are left and there is a query, the long-term memories selected for what is
/// left then. The non-empty sections are joined by a blank line.
pub open spec fn assembled_context<C: TokenCounter>(
    c: &C,
    facts: Seq<String>,
    msgs: Seq<Message>,
    max: nat,
    hits: Seq<(String, bool)>,
) -> Seq<char> {
    let core = core_memories_text(facts);
    let ct = section_tokens(c, core);
    let kept = trimmed(c, msgs, sat_sub(max, ct));
    let short = conversation_text_spec(kept);
    let left = sat_sub(max, ct + section_tokens(c, short));
    if left > 0 && query_text_spec(kept).len() > 0 {
        sections_text(seq![core, joined(selected_memories(c, hits, left), "\n"@), short])
    } else {
        sections_text(seq![core, short])
    }
}

/// The stages compose into the assembled context: the core text and budget
/// of [`begin_context`], the session trimmed to that budget, the draft of
/// [`draft_context`], and then, as [`needs_long_term`] decides, the text of
/// [`finish_context`] or of [`draft_text`], give [`assembled_context`].
pub proof fn lemma_stages_assemble<C: TokenCounter>(
    c: &C,
    facts: Seq<String>,
    msgs: Seq<Message>,
    max: nat,
    hits: Seq<(String, bool)>,
    core_text: Seq<char>,
    budget: nat,
    kept: Seq<Message>,
    d: ContextDraft,
    r: Seq<char>,
)
    requires
        core_text == core_memories_text(facts),
        budget == sat_sub(max, section_tokens(c, core_memories_text(facts))),
        kept == trimmed(c, msgs, budget),
        d.core_text@ == core_text,
        d.short_text@ == conversation_text_spec(kept),
        d.query_text@ == query_text_spec(kept),
        d.remaining_budget as nat == sat_sub(max, section_tokens(c, core_text) + section_tokens(c, conversation_text_spec(kept))),
        r == (if d.remaining_budget > 0 && d.query_text@.len() > 0 { final_context(c, d, hits) } else { d.text() }),
    ensures
        r == assembled_context(c, facts, msgs, max, hits),
{
}

/// The memory line of every hit that reached the similarity threshold, in rank order.
pub open spec fn memory_lines(hits: Seq<(String, bool)>) -> Seq<Seq<char>>
    decreases hits.len(),
{
    if hits.len() == 0 {
        Seq::empty()
    } else if hits[0].1 {
        seq!["Memory: "@ + hits[0].0@] + memory_lines(hits.drop_first())
    } else {
        memory_lines(hits.drop_first())
    }
}

/// The memories selected for a budget are the first lines of the hits above
/// the threshold, in rank order, with none skipped; the selection stops only
/// when it has taken them all or the next one would exceed the budget.
pub proof fn lemma_selection_is_prefix<C: TokenCounter>(c: &C, hits: Seq<(String, bool)>, budget: nat)
    ensures
        ({
            let sel = selected_memories(c, hits, budget);
            let all = memory_lines(hits);
            &&& sel.len() <= all.len()
            &&& sel == all.take(sel.len() as int)
            &&& sel.len() < all.len() ==> lines_tokens(c, sel) + c.token_count(all[sel.len() as int]) > budget
        }),
    decreases hits.len(),
{
    if hits.len() > 0 {
        let rest = hits.drop_first();
        lemma_selection_is_prefix(c, rest, budget);
        if hits[0].1 {
            let line = "Memory: "@ + hits[0].0@;
            let k = c.token_count(line);
            let all = memory_lines(hits);
            assert(all == seq![line] + memory_lines(rest));
            if k > budget {
                assert(selected_memories(c, hits, budget) == Seq::<Seq<char>>::empty());
                assert(all.take(0) =~= Seq::<Seq<char>>::empty());
                assert(lines_tokens(c, Seq::<Seq<char>>::empty()) == 0);
                assert(all[0] == line);
            } else {
                let b2 = (budget - k) as nat;
                lemma_selection_is_prefix(c, rest, b2);
                let sel2 = selected_memories(c, rest, b2);
                let sel = selected_memories(c, hits, budget);
                assert(sel == seq![line] + sel2);
                assert(sel =~= all.take(sel.len() as int));
                assert(sel[0] == line);
                assert(sel.drop_first() =~= sel2);
                assert(lines_tokens(c, sel) == k + lines_tokens(c, sel2));
                if sel.len() < all.len() {
                    assert(all[sel.len() as int] == memory_lines(rest)[sel2.len() as int]);
                }
            }
        }
    }
}

} // verus!
