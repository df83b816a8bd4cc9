//! Keys of the core-fact lists.

use vstd::prelude::*;
use crate::memory::MemoryError;
use crate::text::{ends_with, push_str, spec_ends_with, spec_starts_with, starts_with, substring};
use crate::topology::string_from;

verus! {

/// The key of a session's fact list: "session:{id}:core_memory".
pub open spec fn session_key_spec(session_id: Seq<char>) -> Seq<char> {
    "session:"@ + session_id + ":core_memory"@
}

pub fn session_key(session_id: &str) -> (r: String)
    ensures
        r@ == session_key_spec(session_id@),
{
    let mut r = string_from("session:");
    push_str(&mut r, session_id);
    push_str(&mut r, ":core_memory");
    r
}

/// The session id inside a fact-list key; a key of another shape is returned whole.
pub open spec fn core_session_id_from_key_spec(key: Seq<char>) -> Seq<char> {
    let p = "session:"@;
    let q = ":core_memory"@;
    if spec_starts_with(key, p) && spec_ends_with(key.skip(p.len() as int), q) {
        key.subrange(p.len() as int, key.len() - q.len())
    } else {
        key
    }
}

pub fn core_session_id_from_key(key: &str) -> (r: String)
    ensures
        r@ == core_session_id_from_key_spec(key@),
{
    let n = key.unicode_len();
    let p = "session:";
    let q = ":core_memory";
    if starts_with(key, p) {
        let pl = p.unicode_len();
        let rest = substring(key, pl, n);
        if ends_with(rest.as_str(), q) {
            let ql = q.unicode_len();
            let r = substring(key, pl, n - ql);
            assert(rest@ =~= key@.skip(pl as int));
            return r;
        }
        assert(rest@ =~= key@.skip(pl as int));
    }
    string_from(key)
}

/// Reading a key back gives the session id it was made from.
pub proof fn lemma_core_key_round_trip(session_id: Seq<char>)
    ensures
        core_session_id_from_key_spec(session_key_spec(session_id)) == session_id,
{
    let k = session_key_spec(session_id);
    let p = "session:"@;
    let q = ":core_memory"@;
    assert(k.subrange(0, p.len() as int) =~= p);
    assert(k.skip(p.len() as int) =~= session_id + q);
    let r = k.skip(p.len() as int);
    assert(r.subrange(r.len() - q.len(), r.len() as int) =~= q);
    assert(k.subrange(p.len() as int, k.len() - q.len()) =~= session_id);
}

/// A store failure, by its message.
pub fn memory_error(message: String) -> (e: MemoryError)
    ensures
        e == MemoryError::Other(message),
{
    MemoryError::Other(message)
}

} // verus!
