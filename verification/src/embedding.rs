//! The decisions of the OpenAI embedding client: how long to back off after a
//! rate limit, when to give up, and which responses are well-formed.

use vstd::prelude::*;
use vstd::arithmetic::power2::{pow2, lemma_pow2_unfold, lemma_pow2_strictly_increases};
use crate::memory::EmbedError;
use crate::text::{push_decimal, push_str, trim, decimal};
use crate::topology::string_from;

verus! {

/// Longest wait between two attempts.
pub const MAX_BACKOFF_MS: u64 = 30000;

/// Where the OpenAI API is reached unless configured otherwise.
pub const DEFAULT_BASE_URL: &'static str = "https://api.openai.com";

/// The embedding model asked for.
pub const DEFAULT_MODEL: &'static str = "text-embedding-3-small";

/// Rate-limited attempts retried before giving up.
pub const DEFAULT_MAX_RETRIES: u32 = 3;

/// The first wait after a rate limit; each later one doubles it.
pub const DEFAULT_BASE_BACKOFF_MS: u64 = 1000;

/// `min(x, y)` on naturals.
pub open spec fn min_nat(x: nat, y: nat) -> nat {
    if x <= y { x } else { y }
}

/// The wait before retrying after the rate-limited attempt `attempt` (from
/// zero): the base doubled once per attempt, capped at [`MAX_BACKOFF_MS`].
pub fn next_backoff_ms(base_backoff_ms: u64, attempt: u32) -> (r: u64)
    ensures
        r as nat == min_nat(base_backoff_ms as nat * pow2(attempt as nat), MAX_BACKOFF_MS as nat),
{
    let mut v = base_backoff_ms;
    let mut i: u32 = 0;
    proof { vstd::arithmetic::power2::lemma2_to64(); }
    while i < attempt && v < MAX_BACKOFF_MS && v > 0
        invariant
            i <= attempt,
            v as nat == base_backoff_ms as nat * pow2(i as nat),
        decreases attempt - i,
    {
        proof {
            lemma_pow2_unfold(i as nat + 1);
            assert(base_backoff_ms as nat * pow2(i as nat + 1) == 2 * (base_backoff_ms as nat * pow2(i as nat))) by (nonlinear_arith)
                requires pow2(i as nat + 1) == 2 * pow2(i as nat);
        }
        v = v * 2;
        i = i + 1;
    }
    proof {
        if i < attempt && v > 0 {
            lemma_pow2_strictly_increases(i as nat, attempt as nat);
            assert(base_backoff_ms as nat * pow2(i as nat) <= base_backoff_ms as nat * pow2(attempt as nat)) by (nonlinear_arith)
                requires pow2(i as nat) < pow2(attempt as nat);
        }
        if v == 0 {
            vstd::arithmetic::power2::lemma_pow2_pos(i as nat);
            assert(base_backoff_ms == 0) by (nonlinear_arith)
                requires v as nat == base_backoff_ms as nat * pow2(i as nat), pow2(i as nat) > 0, v == 0;
            assert(base_backoff_ms as nat * pow2(attempt as nat) == 0) by (nonlinear_arith)
                requires base_backoff_ms == 0;
        }
    }
    if v > MAX_BACKOFF_MS { MAX_BACKOFF_MS } else { v }
}

/// What to do after a rate-limited attempt: wait this long and retry, or give
/// up (None) when it was the last attempt allowed.
pub fn after_rate_limit(attempt: u32, max_retries: u32, base_backoff_ms: u64) -> (r: Option<u64>)
    ensures
        attempt == max_retries ==> r is None,
        attempt != max_retries ==> r == Some(next_backoff_spec(base_backoff_ms, attempt)),
{
    if attempt == max_retries {
        None
    } else {
        Some(next_backoff_ms(base_backoff_ms, attempt))
    }
}

pub open spec fn next_backoff_spec(base_backoff_ms: u64, attempt: u32) -> u64 {
    min_nat(base_backoff_ms as nat * pow2(attempt as nat), MAX_BACKOFF_MS as nat) as u64
}

/// Checks a successful response: one non-empty embedding per input text.
/// `lengths` are the lengths of the embeddings received.
pub fn check_embeddings(expected: usize, lengths: &[usize]) -> (r: Result<(), EmbedError>)
    ensures
        lengths@.len() == 0 ==> (r matches Err(EmbedError::InvalidResponse(m)) && m@ == "response contained no embeddings"@),
        lengths@.len() > 0 && lengths@.len() != expected ==> (r matches Err(EmbedError::InvalidResponse(m))
            && m@ == "expected "@ + decimal(expected as nat) + " embeddings, received "@ + decimal(lengths@.len())),
        lengths@.len() > 0 && lengths@.len() == expected && (exists|i: int| 0 <= i < lengths@.len() && lengths@[i] == 0)
            ==> (r matches Err(EmbedError::InvalidResponse(m)) && m@ == "response contained an empty embedding"@),
        lengths@.len() > 0 && lengths@.len() == expected && (forall|i: int| 0 <= i < lengths@.len() ==> lengths@[i] > 0)
            ==> r is Ok,
{
    if lengths.len() == 0 {
        return Err(EmbedError::InvalidResponse(string_from("response contained no embeddings")));
    }
    if lengths.len() != expected {
        let mut m = string_from("expected ");
        push_decimal(&mut m, expected as u64);
        push_str(&mut m, " embeddings, received ");
        push_decimal(&mut m, lengths.len() as u64);
        return Err(EmbedError::InvalidResponse(m));
    }
    let mut i: usize = 0;
    while i < lengths.len()
        invariant
            i <= lengths@.len(),
            lengths@.len() == expected,
            forall|j: int| 0 <= j < i ==> lengths@[j] > 0,
        decreases lengths@.len() - i,
    {
        if lengths[i] == 0 {
            return Err(EmbedError::InvalidResponse(string_from("response contained an empty embedding")));
        }
        i = i + 1;
    }
    Ok(())
}

/// An API key made only of white space counts as missing.
pub fn check_api_key(api_key: &str) -> (r: Result<(), EmbedError>)
    ensures
        r is Ok <==> crate::text::trim_spec(api_key@).len() > 0,
        r matches Err(e) ==> e is MissingApiKey,
{
    if trim(api_key).unicode_len() == 0 { Err(EmbedError::MissingApiKey) } else { Ok(()) }
}

/// `s` without trailing slashes.
pub open spec fn trim_slashes_spec(s: Seq<char>) -> Seq<char>
    decreases s.len(),
{
    if s.len() > 0 && s.last() == '/' { trim_slashes_spec(s.drop_last()) } else { s }
}

/// The embeddings endpoint under `base_url` (trailing slashes dropped).
pub fn embeddings_endpoint(base_url: &str) -> (r: String)
    ensures
        r@ == trim_slashes_spec(base_url@) + "/v1/embeddings"@,
{
    let mut j: usize = base_url.unicode_len();
    assert(base_url@.subrange(0, j as int) =~= base_url@);
    while j > 0 && base_url.get_char(j - 1) == '/'
        invariant
            j <= base_url@.len(),
            trim_slashes_spec(base_url@) == trim_slashes_spec(base_url@.subrange(0, j as int)),
        decreases j,
    {
        assert(base_url@.subrange(0, j as int).drop_last() =~= base_url@.subrange(0, j as int - 1));
        j = j - 1;
    }
    let mut r = crate::text::substring(base_url, 0, j);
    push_str(&mut r, "/v1/embeddings");
    r
}

} // verus!
