//! Summarizing a conversation: the summarizer contract, its errors, the
//! retry decision of the model-backed summarizer, and the offline summarizer.

use vstd::prelude::*;
use crate::knowledge::extractor::{rate_limit_backoff_ms, shift_of};
use crate::memory::{conversation_lines, message_line};
use crate::models::Message;
use crate::text::{decimal, join, joined, push_decimal, push_str, substring, trim, trim_spec};
use crate::topology::string_from;

verus! {

/// The instructions the model-backed summarizer sends before the transcript.
pub const SUMMARIZE_SYSTEM_PROMPT: &'static str = "You are a memory consolidation system. Given a conversation transcript, write a concise third-person summary that preserves the durable facts, decisions, and entities. Be faithful and compact. Respond with only the summary text, no preamble.";

/// The prompt version recorded on summaries.
pub const SUMMARIZE_PROMPT_VERSION: &'static str = "summarize_v1";

/// Why summarizing failed.
#[derive(Debug)]
pub enum SummarizeError {
    Api(String),
    Parse(String),
    RateLimitExceeded { retries: u32 },
}

impl SummarizeError {
    /// The error's message.
    pub fn to_string(&self) -> (r: String)
        ensures
            r@ == match *self {
                SummarizeError::Api(m) => "summarize API error: "@ + m@,
                SummarizeError::Parse(m) => "summarize parse error: "@ + m@,
                SummarizeError::RateLimitExceeded { retries } => "rate limit exceeded after "@ + decimal(retries as nat) + " retries"@,
            },
    {
        match self {
            SummarizeError::Api(m) => {
                let mut r = string_from("summarize API error: ");
                push_str(&mut r, m.as_str());
                r
            },
            SummarizeError::Parse(m) => {
                let mut r = string_from("summarize parse error: ");
                push_str(&mut r, m.as_str());
                r
            },
            SummarizeError::RateLimitExceeded { retries } => {
                let mut r = string_from("rate limit exceeded after ");
                push_decimal(&mut r, *retries as u64);
                push_str(&mut r, " retries");
                r
            },
        }
    }
}

/// Writes a summary of messages.
pub trait Summarizer {
    fn summarize(&self, messages: &[Message]) -> Result<String, SummarizeError>;

    /// The label of the model that writes the summaries.
    fn model(&self) -> &'static str;
}

/// After a rate-limited answer: the attempt count goes up by one; past
/// `max_retries` summarizing fails, else it waits the backoff and retries.
pub fn summarize_rate_limit_step(attempt: u32, max_retries: u32) -> (r: Result<(u32, u64), SummarizeError>)
    requires
        attempt < 64,
    ensures
        attempt + 1 > max_retries ==> (r matches Err(SummarizeError::RateLimitExceeded { retries }) && retries == max_retries),
        attempt + 1 <= max_retries ==> (r matches Ok((a, wait)) && a == attempt + 1 && wait == (if (1000u64 << shift_of(a)) < 30000 {
            1000u64 << shift_of(a)
        } else {
            30000
        })),
{
    let next = attempt + 1;
    if next > max_retries {
        Err(SummarizeError::RateLimitExceeded { retries: max_retries })
    } else {
        Ok((next, rate_limit_backoff_ms(next)))
    }
}

/// The transcript sent to the model: "Conversation:" and one line per message.
pub fn transcript(messages: &[Message]) -> (r: String)
    ensures
        r@ == conversation_lines(messages@),
{
    let mut r = string_from("Conversation:");
    let mut i: usize = 0;
    assert(messages@.take(0) =~= Seq::<Message>::empty());
    while i < messages.len()
        invariant
            i <= messages@.len(),
            r@ == conversation_lines(messages@.take(i as int)),
        decreases messages@.len() - i,
    {
        let ghost before = messages@.take(i as int);
        push_str(&mut r, "\n");
        push_str(&mut r, messages[i].role.as_str());
        push_str(&mut r, ": ");
        push_str(&mut r, messages[i].content.as_str());
        proof {
            let next = messages@.take(i as int + 1);
            assert(next.drop_last() =~= before);
            assert(next.last() == messages@[i as int]);
            assert(r@ =~= conversation_lines(before) + "\n"@ + message_line(messages@[i as int]));
        }
        i = i + 1;
    }
    assert(messages@.take(messages@.len() as int) =~= messages@);
    r
}

/// The summary text of a model's answer: the answer trimmed.
pub fn summary_text(answer: &str) -> (r: String)
    ensures
        r@ == trim_spec(answer@),
{
    trim(answer)
}

/// The offline summarizer.
pub struct MockSummarizer;

/// A message in the offline summary: its role and the first 80 characters of its content.
pub open spec fn snippet(m: Message) -> Seq<char> {
    m.role@ + ": "@ + m.content@.take(if m.content@.len() < 80 { m.content@.len() as int } else { 80 })
}

/// "Summary of N messages: " and the snippets, separated by "; ".
pub open spec fn mock_summary(msgs: Seq<Message>) -> Seq<char> {
    "Summary of "@ + decimal(msgs.len()) + " messages: "@ + joined(msgs.map_values(|m: Message| snippet(m)), "; "@)
}

impl Summarizer for MockSummarizer {
    fn summarize(&self, messages: &[Message]) -> (r: Result<String, SummarizeError>)
        ensures
            r matches Ok(s) && s@ == mock_summary(messages@),
    {
        let mut parts: Vec<String> = Vec::new();
        let mut i: usize = 0;
        while i < messages.len()
            invariant
                i <= messages@.len(),
                parts@.map_values(|s: String| s@) == messages@.take(i as int).map_values(|m: Message| snippet(m)),
            decreases messages@.len() - i,
        {
            let m = &messages[i];
            let n = m.content.unicode_len();
            let keep = if n < 80 { n } else { 80 };
            let mut part = m.role.clone();
            push_str(&mut part, ": ");
            let head = substring(m.content.as_str(), 0, keep);
            push_str(&mut part, head.as_str());
            let ghost before = parts@.map_values(|s: String| s@);
            proof {
                assert(m.content@.subrange(0, keep as int) =~= m.content@.take(keep as int));
            }
            parts.push(part);
            assert(parts@.map_values(|s: String| s@) =~= before.push(snippet(*m)));
            assert(messages@.take(i as int + 1).map_values(|m: Message| snippet(m))
                =~= messages@.take(i as int).map_values(|m: Message| snippet(m)).push(snippet(messages@[i as int])));
            i = i + 1;
        }
        assert(messages@.take(messages@.len() as int) =~= messages@);
        let mut r = string_from("Summary of ");
        push_decimal(&mut r, messages.len() as u64);
        push_str(&mut r, " messages: ");
        let body = join(parts.as_slice(), "; ");
        push_str(&mut r, body.as_str());
        Ok(r)
    }

    fn model(&self) -> (r: &'static str)
        ensures
            r@ == "mock"@,
    {
        "mock"
    }
}

} // verus!
