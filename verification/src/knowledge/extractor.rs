//! Knowledge extraction: the extractor contract, its errors, the retry
//! decision of the model-backed extractor, and the rule-based extractor used
//! offline.

use vstd::prelude::*;
use crate::knowledge::types::{attrs_view, Entity, ExtractionResult, Relationship};
use crate::text::{
    find_from, find_str, lemma_find_from, push_decimal, push_str, split_sentences, split_sentences_spec, substring, trim,
    trim_spec, decimal,
};
use crate::topology::{str_eq, string_from};

verus! {

/// The instructions the model-backed extractor sends before the text.
pub const EXTRACTION_SYSTEM_PROMPT: &'static str = "You are a knowledge extraction system. Extract named entities and relationships from the given text.

Respond with valid JSON in exactly this format:
{\"entities\": [{\"name\": \"string\", \"type\": \"Person|Organization|Place|Concept|Event|Other\"}], \"relationships\": [{\"from\": \"entity_name\", \"to\": \"entity_name\", \"type\": \"relationship_type\"}]}

Rules:
- Keep entity names as they appear in the text.
- Relationship types must be snake_case (e.g. works_at, knows, located_in, created_by, part_of).
- Only include relationships between entities you extracted.
- If no entities or relationships are found, return empty arrays.
- Respond with only the JSON object, no surrounding text.";

/// The chat model the model-backed extractor and summarizer ask.
pub const CHAT_MODEL: &'static str = "gpt-4o-mini";

/// Rate-limited attempts the model-backed extractor and summarizer retry.
pub const CHAT_MAX_RETRIES: u32 = 3;

/// The message of an unexpected HTTP answer: its status and body.
pub fn http_status_message(status: u16, body: &str) -> (r: String)
    ensures
        r@ == "HTTP "@ + decimal(status as nat) + ": "@ + body@,
{
    let mut r = string_from("HTTP ");
    push_decimal(&mut r, status as u64);
    push_str(&mut r, ": ");
    push_str(&mut r, body);
    r
}

/// Why an extraction failed.
#[derive(Debug)]
pub enum ExtractError {
    Api(String),
    Parse(String),
    RateLimitExceeded { retries: u32 },
}

impl ExtractError {
    /// The error's message.
    pub fn to_string(&self) -> (r: String)
        ensures
            r@ == match *self {
                ExtractError::Api(m) => "extraction API error: "@ + m@,
                ExtractError::Parse(m) => "extraction parse error: "@ + m@,
                ExtractError::RateLimitExceeded { retries } => "rate limit exceeded after "@ + decimal(retries as nat) + " retries"@,
            },
    {
        match self {
            ExtractError::Api(m) => {
                let mut r = string_from("extraction API error: ");
                push_str(&mut r, m.as_str());
                r
            },
            ExtractError::Parse(m) => {
                let mut r = string_from("extraction parse error: ");
                push_str(&mut r, m.as_str());
                r
            },
            ExtractError::RateLimitExceeded { retries } => {
                let mut r = string_from("rate limit exceeded after ");
                push_decimal(&mut r, *retries as u64);
                push_str(&mut r, " retries");
                r
            },
        }
    }
}

/// Finds entities and relationships in a text.
pub trait KnowledgeExtractor {
    /// `r` is an answer this extractor may give for `text`: any answer,
    /// unless an implementation says which.
    open spec fn answers(&self, text: Seq<char>, r: Result<ExtractionResult, ExtractError>) -> bool {
        true
    }

    fn extract(&self, text: &str) -> (r: Result<ExtractionResult, ExtractError>)
        ensures
            self.answers(text@, r);
}

/// `attempt - 1`, or zero.
pub open spec fn shift_of(attempt: u32) -> u64 {
    if attempt > 0 { (attempt - 1) as u64 } else { 0 }
}

/// The wait after the `attempt`-th rate limit (counting from one): a second
/// doubled per earlier attempt, at most thirty seconds.
pub fn rate_limit_backoff_ms(attempt: u32) -> (r: u64)
    requires
        attempt <= 64,
    ensures
        r == (if (1000u64 << shift_of(attempt)) < 30000 { 1000u64 << shift_of(attempt) } else { 30000 }),
{
    let shift: u64 = if attempt > 0 { (attempt - 1) as u64 } else { 0 };
    let b = 1000u64 << shift;
    if b < 30000 { b } else { 30000 }
}

/// After a rate-limited answer: the attempt count goes up by one; past
/// `max_retries` the extraction fails, else it waits the backoff and retries.
pub fn extract_rate_limit_step(attempt: u32, max_retries: u32) -> (r: Result<(u32, u64), ExtractError>)
    requires
        attempt < 64,
    ensures
        attempt + 1 > max_retries ==> (r matches Err(ExtractError::RateLimitExceeded { retries }) && retries == max_retries),
        attempt + 1 <= max_retries ==> (r matches Ok((a, wait)) && a == attempt + 1 && wait == (if (1000u64 << shift_of(a)) < 30000 {
            1000u64 << shift_of(a)
        } else {
            30000
        })),
{
    let next = attempt + 1;
    if next > max_retries {
        Err(ExtractError::RateLimitExceeded { retries: max_retries })
    } else {
        Ok((next, rate_limit_backoff_ms(next)))
    }
}

/// The offline extractor: sentences of the form "A works at B", "A knows B",
/// "A likes B" and "A lives in B".
pub struct MockKnowledgeExtractor;

/// The sentence rules, in the order they are tried: (pattern, type of the
/// left entity, type of the right entity, relationship type).
pub open spec fn rule(k: nat) -> (Seq<char>, Seq<char>, Seq<char>, Seq<char>) {
    if k == 0 {
        (" works at "@, "Person"@, "Organization"@, "works_at"@)
    } else if k == 1 {
        (" knows "@, "Person"@, "Person"@, "knows"@)
    } else if k == 2 {
        (" likes "@, "Person"@, "Thing"@, "likes"@)
    } else {
        (" lives in "@, "Person"@, "Place"@, "lives_in"@)
    }
}

fn rule_exec(k: usize) -> (r: (&'static str, &'static str, &'static str, &'static str))
    requires
        k < 4,
    ensures
        (r.0@, r.1@, r.2@, r.3@) == rule(k as nat),
{
    if k == 0 {
        (" works at ", "Person", "Organization", "works_at")
    } else if k == 1 {
        (" knows ", "Person", "Person", "knows")
    } else if k == 2 {
        (" likes ", "Person", "Thing", "likes")
    } else {
        (" lives in ", "Person", "Place", "lives_in")
    }
}

/// The first rule (from `k` on) whose pattern occurs in `s`, with the position of its first occurrence.
pub open spec fn first_rule(s: Seq<char>, k: nat) -> Option<(nat, nat)>
    decreases 4 - k,
{
    if k >= 4 {
        None
    } else {
        match find_from(s, rule(k).0, 0) {
            Some(i) => Some((k, i)),
            None => first_rule(s, k + 1),
        }
    }
}

/// Entities as (name, type) and relationships as (from, to, type).
pub type ExtractionState = (Seq<(Seq<char>, Seq<char>)>, Seq<(Seq<char>, Seq<char>, Seq<char>)>);

/// Adds an entity unless one of that name is already there.
pub open spec fn push_unique_spec(es: Seq<(Seq<char>, Seq<char>)>, name: Seq<char>, ty: Seq<char>) -> Seq<(Seq<char>, Seq<char>)> {
    if exists|i: int| 0 <= i < es.len() && #[trigger] es[i].0 == name { es } else { es.push((name, ty)) }
}

/// What one sentence piece adds: the trimmed sentence is split at the first
/// rule that occurs in it; both sides, trimmed, must be non-empty.
pub open spec fn apply_sentence(st: ExtractionState, piece: Seq<char>) -> ExtractionState {
    let s = trim_spec(piece);
    if s.len() == 0 {
        st
    } else {
        match first_rule(s, 0) {
            None => st,
            Some((k, i)) => {
                let (pat, t1, t2, label) = rule(k);
                let left = trim_spec(s.take(i as int));
                let right = trim_spec(s.skip(i as int + pat.len()));
                if left.len() > 0 && right.len() > 0 {
                    (push_unique_spec(push_unique_spec(st.0, left, t1), right, t2), st.1.push((left, right, label)))
                } else {
                    st
                }
            },
        }
    }
}

pub open spec fn apply_sentences(pieces: Seq<Seq<char>>) -> ExtractionState
    decreases pieces.len(),
{
    if pieces.len() == 0 {
        (Seq::empty(), Seq::empty())
    } else {
        apply_sentence(apply_sentences(pieces.drop_last()), pieces.last())
    }
}

/// What the offline extractor finds in `text`.
pub open spec fn mock_extraction(text: Seq<char>) -> ExtractionState {
    apply_sentences(split_sentences_spec(text))
}

/// No two entities share a name.
pub open spec fn distinct_names(es: Seq<(Seq<char>, Seq<char>)>) -> bool {
    forall|i: int, j: int| 0 <= i < es.len() && 0 <= j < es.len() && i != j ==> (#[trigger] es[i]).0 != (#[trigger] es[j]).0
}

/// Some entity is called `name`.
pub open spec fn has_name(es: Seq<(Seq<char>, Seq<char>)>, name: Seq<char>) -> bool {
    exists|i: int| 0 <= i < es.len() && (#[trigger] es[i]).0 == name
}

/// Both ends of every relationship name an entity.
pub open spec fn endpoints_named(st: ExtractionState) -> bool {
    forall|k: int| 0 <= k < st.1.len() ==> has_name(st.0, (#[trigger] st.1[k]).0) && has_name(st.0, st.1[k].1)
}

proof fn lemma_push_unique(es: Seq<(Seq<char>, Seq<char>)>, name: Seq<char>, ty: Seq<char>)
    ensures
        distinct_names(es) ==> distinct_names(push_unique_spec(es, name, ty)),
        has_name(push_unique_spec(es, name, ty), name),
        forall|n: Seq<char>| has_name(es, n) ==> #[trigger] has_name(push_unique_spec(es, name, ty), n),
{
    let p = push_unique_spec(es, name, ty);
    if exists|i: int| 0 <= i < es.len() && #[trigger] es[i].0 == name {
    } else {
        assert(p[es.len() as int].0 == name);
        assert forall|n: Seq<char>| has_name(es, n) implies #[trigger] has_name(p, n) by {
            let i = choose|i: int| 0 <= i < es.len() && (#[trigger] es[i]).0 == n;
            assert(p[i] == es[i]);
        }
        if distinct_names(es) {
            assert forall|i: int, j: int| 0 <= i < p.len() && 0 <= j < p.len() && i != j implies (#[trigger] p[i]).0 != (#[trigger] p[j]).0 by {
                if i < es.len() && j < es.len() {
                    assert(p[i] == es[i] && p[j] == es[j]);
                } else if i < es.len() {
                    assert(p[i] == es[i]);
                } else {
                    assert(p[j] == es[j]);
                }
            }
        }
    }
}

proof fn lemma_apply_sentence_keeps(st: ExtractionState, piece: Seq<char>)
    requires
        distinct_names(st.0),
        endpoints_named(st),
    ensures
        distinct_names(apply_sentence(st, piece).0),
        endpoints_named(apply_sentence(st, piece)),
{
    let s = trim_spec(piece);
    if s.len() > 0 {
        if let Some((k, i)) = first_rule(s, 0) {
            let (pat, t1, t2, label) = rule(k);
            let left = trim_spec(s.take(i as int));
            let right = trim_spec(s.skip(i as int + pat.len()));
            if left.len() > 0 && right.len() > 0 {
                let e1 = push_unique_spec(st.0, left, t1);
                let e2 = push_unique_spec(e1, right, t2);
                lemma_push_unique(st.0, left, t1);
                lemma_push_unique(e1, right, t2);
                let rs = st.1.push((left, right, label));
                assert(has_name(e2, left));
                assert forall|j: int| 0 <= j < rs.len() implies has_name(e2, (#[trigger] rs[j]).0) && has_name(e2, rs[j].1) by {
                    if j < st.1.len() {
                        assert(rs[j] == st.1[j]);
                        assert(has_name(st.0, st.1[j].0));
                        assert(has_name(e1, st.1[j].0));
                        assert(has_name(st.0, st.1[j].1));
                        assert(has_name(e1, st.1[j].1));
                    }
                }
            }
        }
    }
}

proof fn lemma_apply_sentences_keeps(pieces: Seq<Seq<char>>)
    ensures
        distinct_names(apply_sentences(pieces).0),
        endpoints_named(apply_sentences(pieces)),
    decreases pieces.len(),
{
    if pieces.len() > 0 {
        lemma_apply_sentences_keeps(pieces.drop_last());
        lemma_apply_sentence_keeps(apply_sentences(pieces.drop_last()), pieces.last());
    }
}

/// Whatever the text, the offline extractor names each entity once, and both
/// ends of each relationship it finds are among its entities.
pub proof fn lemma_mock_extraction_well_formed(text: Seq<char>)
    ensures
        distinct_names(mock_extraction(text).0),
        endpoints_named(mock_extraction(text)),
{
    lemma_apply_sentences_keeps(split_sentences_spec(text));
}

pub open spec fn entities_view(es: Seq<Entity>) -> Seq<(Seq<char>, Seq<char>)> {
    es.map_values(|e: Entity| (e.name@, e.entity_type@))
}

pub open spec fn relationships_view(rs: Seq<Relationship>) -> Seq<(Seq<char>, Seq<char>, Seq<char>)> {
    rs.map_values(|r: Relationship| (r.from@, r.to@, r.relationship_type@))
}

/// Adds an entity without attributes unless one called `name` is already there.
pub fn push_unique_entity(entities: &mut Vec<Entity>, name: &str, entity_type: &str)
    requires
        forall|i: int| 0 <= i < old(entities)@.len() ==> (#[trigger] old(entities)@[i]).attributes@.len() == 0,
    ensures
        entities_view(final(entities)@) == push_unique_spec(entities_view(old(entities)@), name@, entity_type@),
        forall|i: int| 0 <= i < final(entities)@.len() ==> (#[trigger] final(entities)@[i]).attributes@.len() == 0,
{
    let ghost ev = entities_view(entities@);
    let mut i: usize = 0;
    while i < entities.len()
        invariant
            entities@ == old(entities)@,
            forall|j: int| 0 <= j < old(entities)@.len() ==> (#[trigger] old(entities)@[j]).attributes@.len() == 0,
            ev == entities_view(entities@),
            i <= entities@.len(),
            forall|j: int| 0 <= j < i ==> ev[j].0 != name@,
        decreases entities@.len() - i,
    {
        if str_eq(entities[i].name.as_str(), name) {
            assert(ev[i as int].0 == name@);
            return;
        }
        i = i + 1;
    }
    entities.push(Entity { name: string_from(name), entity_type: string_from(entity_type), attributes: Vec::new() });
    assert(entities_view(entities@) =~= ev.push((name@, entity_type@)));
}

impl MockKnowledgeExtractor {
    /// Applies one sentence piece (see [`apply_sentence`]).
    fn apply_piece(piece: &str, entities: &mut Vec<Entity>, relationships: &mut Vec<Relationship>)
        requires
            forall|i: int| 0 <= i < old(entities)@.len() ==> (#[trigger] old(entities)@[i]).attributes@.len() == 0,
        ensures
            (entities_view(final(entities)@), relationships_view(final(relationships)@))
                == apply_sentence((entities_view(old(entities)@), relationships_view(old(relationships)@)), piece@),
            forall|i: int| 0 <= i < final(entities)@.len() ==> (#[trigger] final(entities)@[i]).attributes@.len() == 0,
    {
        let s = trim(piece);
        let n = s.unicode_len();
        if n == 0 {
            return;
        }
        let mut k: usize = 0;
        while k < 4
            invariant
                k <= 4,
                first_rule(s@, 0) == first_rule(s@, k as nat),
                s@ == trim_spec(piece@),
                n == s@.len(),
                entities@ == old(entities)@,
                forall|j: int| 0 <= j < old(entities)@.len() ==> (#[trigger] old(entities)@[j]).attributes@.len() == 0,
                relationships@ == old(relationships)@,
            decreases 4 - k,
        {
            let (pat, t1, t2, label) = rule_exec(k);
            match find_str(s.as_str(), pat) {
                None => {},
                Some(i) => {
                    let m = pat.unicode_len();
                    let left = trim(substring(s.as_str(), 0, i).as_str());
                    let right = trim(substring(s.as_str(), i + m, n).as_str());
                    proof {
                        assert(s@.subrange(0, i as int) =~= s@.take(i as int));
                        assert(s@.subrange(i + m, n as int) =~= s@.skip(i + m));
                    }
                    if left.unicode_len() > 0 && right.unicode_len() > 0 {
                        push_unique_entity(entities, left.as_str(), t1);
                        push_unique_entity(entities, right.as_str(), t2);
                        let ghost before = relationships_view(relationships@);
                        relationships.push(Relationship { from: left, to: right, relationship_type: string_from(label) });
                        assert(relationships_view(relationships@) =~= before.push((left@, right@, label@)));
                    }
                    return;
                },
            }
            k = k + 1;
        }
    }
}

impl KnowledgeExtractor for MockKnowledgeExtractor {
    /// The one answer: what [`mock_extraction`] finds, with no attributes.
    open spec fn answers(&self, text: Seq<char>, r: Result<ExtractionResult, ExtractError>) -> bool {
        r matches Ok(x) && (entities_view(x.entities@), relationships_view(x.relationships@)) == mock_extraction(text)
            && forall|i: int| 0 <= i < x.entities@.len() ==> (#[trigger] x.entities@[i]).attributes@.len() == 0
    }

    fn extract(&self, text: &str) -> (r: Result<ExtractionResult, ExtractError>)
        ensures
            r matches Ok(x) && (entities_view(x.entities@), relationships_view(x.relationships@)) == mock_extraction(text@)
                && forall|i: int| 0 <= i < x.entities@.len() ==> (#[trigger] x.entities@[i]).attributes@.len() == 0,
    {
        let pieces = split_sentences(text);
        let ghost pv = pieces@.map_values(|x: String| x@);
        let mut entities: Vec<Entity> = Vec::new();
        let mut relationships: Vec<Relationship> = Vec::new();
        let mut i: usize = 0;
        assert(pv.take(0) =~= Seq::<Seq<char>>::empty());
        assert(entities_view(entities@) =~= Seq::<(Seq<char>, Seq<char>)>::empty());
        assert(relationships_view(relationships@) =~= Seq::<(Seq<char>, Seq<char>, Seq<char>)>::empty());
        while i < pieces.len()
            invariant
                pv == pieces@.map_values(|x: String| x@),
                pv == split_sentences_spec(text@),
                i <= pieces@.len(),
                (entities_view(entities@), relationships_view(relationships@)) == apply_sentences(pv.take(i as int)),
                forall|j: int| 0 <= j < entities@.len() ==> (#[trigger] entities@[j]).attributes@.len() == 0,
            decreases pieces@.len() - i,
        {
            proof {
                assert(pv.take(i as int + 1).drop_last() =~= pv.take(i as int));
                assert(pv.take(i as int + 1).last() == pieces@[i as int]@);
            }
            MockKnowledgeExtractor::apply_piece(pieces[i].as_str(), &mut entities, &mut relationships);
            i = i + 1;
        }
        assert(pv.take(pv.len() as int) =~= pv);
        Ok(ExtractionResult { entities, relationships })
    }
}

} // verus!
