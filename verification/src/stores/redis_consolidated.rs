//! Keys of the summary lists.

use vstd::prelude::*;
use crate::memory::MemoryError;
use crate::text::{push_str, spec_starts_with, starts_with, substring};
use crate::topology::string_from;

verus! {

/// The key of a session's summary list: "consolidated:{id}".
pub open spec fn session_key_spec(session_id: Seq<char>) -> Seq<char> {
    "consolidated:"@ + session_id
}

pub fn session_key(session_id: &str) -> (r: String)
    ensures
        r@ == session_key_spec(session_id@),
{
    let mut r = string_from("consolidated:");
    push_str(&mut r, session_id);
    r
}

/// The session id inside a summary-list key; a key of another shape is returned whole.
pub open spec fn session_id_from_key_spec(key: Seq<char>) -> Seq<char> {
    let p = "consolidated:"@;
    if spec_starts_with(key, p) { key.skip(p.len() as int) } else { key }
}

pub fn session_id_from_key(key: &str) -> (r: String)
    ensures
        r@ == session_id_from_key_spec(key@),
{
    let p = "consolidated:";
    if starts_with(key, p) {
        let r = substring(key, p.unicode_len(), key.unicode_len());
        assert(r@ =~= key@.skip(p@.len() as int));
        r
    } else {
        string_from(key)
    }
}

/// Reading a key back gives the session id it was made from.
pub proof fn lemma_consolidated_key_round_trip(session_id: Seq<char>)
    ensures
        session_id_from_key_spec(session_key_spec(session_id)) == session_id,
{
    let k = session_key_spec(session_id);
    let p = "consolidated:"@;
    assert(k.subrange(0, p.len() as int) =~= p);
    assert(k.skip(p.len() as int) =~= session_id);
}

/// A store failure, by its message.
pub fn memory_error(message: String) -> (e: MemoryError)
    ensures
        e == MemoryError::Other(message),
{
    MemoryError::Other(message)
}

} // verus!
