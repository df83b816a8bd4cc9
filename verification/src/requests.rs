//! Validation and defaults of the HTTP requests the server accepts.

use vstd::prelude::*;
use crate::text::{trim, trim_spec};
use crate::topology::string_from;

verus! {

/// Context requests default to 8000 tokens and ten long-term candidates.
pub fn resolve_context_limits(max_tokens: Option<usize>, long_term_top_k: Option<usize>) -> (r: (usize, usize))
    ensures
        r.0 == match max_tokens { Some(n) => n, None => 8000 },
        r.1 == match long_term_top_k { Some(k) => k, None => 10 },
{
    let m = match max_tokens {
        Some(n) => n,
        None => 8000,
    };
    let k = match long_term_top_k {
        Some(k) => k,
        None => 10,
    };
    (m, k)
}

/// A search needs a non-blank query and a positive `top_k`; the error is the
/// message of the bad request.
pub fn validate_search(query: &str, top_k: usize) -> (r: Result<(), String>)
    ensures
        trim_spec(query@).len() == 0 ==> (r matches Err(m) && m@ == "query must not be empty"@),
        trim_spec(query@).len() > 0 && top_k == 0 ==> (r matches Err(m) && m@ == "top_k must be greater than 0"@),
        trim_spec(query@).len() > 0 && top_k > 0 ==> r is Ok,
{
    if trim(query).unicode_len() == 0 {
        return Err(string_from("query must not be empty"));
    }
    if top_k == 0 {
        return Err(string_from("top_k must be greater than 0"));
    }
    Ok(())
}

/// A core fact must not be blank.
pub fn validate_fact(fact: &str) -> (r: Result<(), String>)
    ensures
        trim_spec(fact@).len() == 0 ==> (r matches Err(m) && m@ == "fact must not be empty"@),
        trim_spec(fact@).len() > 0 ==> r is Ok,
{
    if trim(fact).unicode_len() == 0 {
        return Err(string_from("fact must not be empty"));
    }
    Ok(())
}

/// Jobs waiting in a queue: its capacity minus the free slots.
pub fn embedding_queue_size(max_capacity: usize, free: usize) -> (r: usize)
    ensures
        r == (if max_capacity >= free { max_capacity - free } else { 0 }),
{
    if max_capacity >= free { max_capacity - free } else { 0 }
}

/// A session exists once it holds a message or a fact.
pub fn session_exists(message_count: usize, fact_count: usize) -> (r: bool)
    ensures
        r == (message_count > 0 || fact_count > 0),
{
    message_count > 0 || fact_count > 0
}

} // verus!
