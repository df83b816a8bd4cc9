//! The vector store's own rules: filter expressions, dimension checks, row
//! ids, and when indexes are built.

use vstd::prelude::*;
use crate::memory::StoreError;
use crate::text::{decimal, push_char, push_decimal, push_str};
use crate::topology::string_from;

verus! {

/// `s` with every single quote doubled, as SQL string literals require.
pub open spec fn escape_sql_spec(s: Seq<char>) -> Seq<char>
    decreases s.len(),
{
    if s.len() == 0 {
        Seq::empty()
    } else {
        escape_sql_spec(s.drop_last()) + (if s.last() == '\'' { seq!['\'', '\''] } else { seq![s.last()] })
    }
}

pub fn escape_sql_string(value: &str) -> (r: String)
    ensures
        r@ == escape_sql_spec(value@),
{
    let n = value.unicode_len();
    let mut r = String::new();
    let mut i: usize = 0;
    while i < n
        invariant
            n == value@.len(),
            i <= n,
            r@ == escape_sql_spec(value@.take(i as int)),
        decreases n - i,
    {
        let c = value.get_char(i);
        let ghost before = r@;
        if c == '\'' {
            push_char(&mut r, '\'');
            push_char(&mut r, '\'');
        } else {
            push_char(&mut r, c);
        }
        proof {
            assert(value@.take(i as int + 1).drop_last() =~= value@.take(i as int));
            assert(value@.take(i as int + 1).last() == c);
            assert(r@ =~= before + (if c == '\'' { seq!['\'', '\''] } else { seq![c] }));
        }
        i = i + 1;
    }
    assert(value@.take(n as int) =~= value@);
    r
}

/// Escaped text has its single quotes in pairs: every maximal run of quotes has even length.
pub open spec fn quotes_paired(s: Seq<char>) -> bool
    decreases s.len(),
{
    if s.len() == 0 {
        true
    } else if s.len() >= 2 && s.last() == '\'' && s[s.len() - 2] == '\'' {
        quotes_paired(s.subrange(0, s.len() - 2))
    } else {
        s.last() != '\'' && quotes_paired(s.drop_last())
    }
}

/// An escaped value never ends a SQL string literal early: its quotes come in pairs.
pub proof fn lemma_escaped_quotes_paired(s: Seq<char>)
    ensures
        quotes_paired(escape_sql_spec(s)),
    decreases s.len(),
{
    if s.len() > 0 {
        lemma_escaped_quotes_paired(s.drop_last());
        let p = escape_sql_spec(s.drop_last());
        let e = escape_sql_spec(s);
        if s.last() == '\'' {
            assert(e.subrange(0, e.len() - 2) =~= p);
        } else {
            assert(e.drop_last() =~= p);
        }
    }
}

/// A vector-store failure, by its message.
pub fn store_error(message: String) -> (e: StoreError)
    ensures
        e == StoreError::Other(message),
{
    StoreError::Other(message)
}

/// Row ids handed out in increasing order.
pub struct RowIds {
    next_id: i64,
}

impl RowIds {
    /// Counting starts at `first`.
    pub fn new(first: i64) -> (r: RowIds)
        ensures
            r.peek() == first,
    {
        RowIds { next_id: first }
    }

    pub closed spec fn peek(&self) -> i64 {
        self.next_id
    }

    /// The next id.
    pub fn next_row_id(&mut self) -> (id: i64)
        requires
            old(self).peek() < i64::MAX,
        ensures
            id == old(self).peek(),
            final(self).peek() == id + 1,
    {
        let id = self.next_id;
        self.next_id = id + 1;
        id
    }
}

/// Rows a table needs before its vector index is built.
pub const MIN_VECTOR_INDEX_ROWS: usize = 256;

/// The filter selecting one session's rows.
pub fn session_filter(session_id: &str) -> (r: String)
    ensures
        r@ == "session_id = '"@ + escape_sql_spec(session_id@) + "'"@,
{
    let mut r = string_from("session_id = '");
    let v = escape_sql_string(session_id);
    push_str(&mut r, v.as_str());
    push_str(&mut r, "'");
    r
}

/// The filter selecting the row of one message.
pub fn message_filter(message_id: &str) -> (r: String)
    ensures
        r@ == "message_id = '"@ + escape_sql_spec(message_id@) + "'"@,
{
    let mut r = string_from("message_id = '");
    let v = escape_sql_string(message_id);
    push_str(&mut r, v.as_str());
    push_str(&mut r, "'");
    r
}

/// A row's embedding must have the table's dimension.
pub fn check_embedding_dimension(len: usize, dimension: u32) -> (r: Result<(), StoreError>)
    ensures
        len == dimension ==> r is Ok,
        len != dimension ==> (r matches Err(StoreError::Message(m))
            && m@ == "embedding must have dimension "@ + decimal(dimension as nat) + ", got "@ + decimal(len as nat)),
{
    if len as u64 == dimension as u64 {
        Ok(())
    } else {
        let mut m = string_from("embedding must have dimension ");
        push_decimal(&mut m, dimension as u64);
        push_str(&mut m, ", got ");
        push_decimal(&mut m, len as u64);
        Err(StoreError::Message(m))
    }
}

/// Before a search: `Ok(false)` when no result is asked for (the answer is
/// empty), an error when the query has the wrong dimension, else `Ok(true)`.
pub fn check_search(top_k: usize, query_len: usize, dimension: u32) -> (r: Result<bool, StoreError>)
    ensures
        top_k == 0 ==> r == Ok::<bool, StoreError>(false),
        top_k > 0 && query_len == dimension ==> r == Ok::<bool, StoreError>(true),
        top_k > 0 && query_len != dimension ==> (r matches Err(StoreError::Message(m))
            && m@ == "query embedding must have dimension "@ + decimal(dimension as nat) + ", got "@ + decimal(query_len as nat)),
{
    if top_k == 0 {
        return Ok(false);
    }
    if query_len as u64 == dimension as u64 {
        Ok(true)
    } else {
        let mut m = string_from("query embedding must have dimension ");
        push_decimal(&mut m, dimension as u64);
        push_str(&mut m, ", got ");
        push_decimal(&mut m, query_len as u64);
        Err(StoreError::Message(m))
    }
}

/// The largest of the ids, if any.
pub open spec fn max_id(ids: Seq<i64>) -> Option<i64>
    decreases ids.len(),
{
    if ids.len() == 0 {
        None
    } else {
        match max_id(ids.drop_last()) {
            None => Some(ids.last()),
            Some(m) => Some(if ids.last() > m { ids.last() } else { m }),
        }
    }
}

/// The first row id after the stored ones: one past the largest, or one for an empty table.
pub fn next_id_after(ids: &[i64]) -> (r: i64)
    requires
        max_id(ids@) matches Some(m) ==> m < i64::MAX,
    ensures
        r == match max_id(ids@) {
            Some(m) => m + 1,
            None => 1,
        },
{
    let mut best: Option<i64> = None;
    let mut i: usize = 0;
    assert(ids@.take(0) =~= Seq::<i64>::empty());
    while i < ids.len()
        invariant
            i <= ids@.len(),
            best == max_id(ids@.take(i as int)),
        decreases ids@.len() - i,
    {
        assert(ids@.take(i as int + 1).drop_last() =~= ids@.take(i as int));
        assert(ids@.take(i as int + 1).last() == ids@[i as int]);
        let x = ids[i];
        best = match best {
            None => Some(x),
            Some(m) => Some(if x > m { x } else { m }),
        };
        i = i + 1;
    }
    assert(ids@.take(ids@.len() as int) =~= ids@);
    match best {
        None => 1,
        Some(m) => m + 1,
    }
}

/// Which indexes a table still needs, as (session index, vector index): the
/// vector index waits until the table holds enough rows.
pub fn indexes_to_create(has_session_index: bool, has_embedding_index: bool, row_count: usize) -> (r: (bool, bool))
    ensures
        r.0 == !has_session_index,
        r.1 == (!has_embedding_index && row_count >= MIN_VECTOR_INDEX_ROWS),
{
    (!has_session_index, !has_embedding_index && row_count >= MIN_VECTOR_INDEX_ROWS)
}

} // verus!
