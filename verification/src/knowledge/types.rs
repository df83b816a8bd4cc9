//! Entities and relationships extracted from messages.

use vstd::prelude::*;

verus! {

/// A named entity with its type and attributes (key, value).
#[derive(Debug, Clone)]
pub struct Entity {
    pub name: String,
    pub entity_type: String,
    pub attributes: Vec<(String, String)>,
}

/// A directed, typed relationship between two named entities.
#[derive(Debug, Clone)]
pub struct Relationship {
    pub from: String,
    pub to: String,
    pub relationship_type: String,
}

/// What an extractor found in one piece of text.
#[derive(Debug, Clone)]
pub struct ExtractionResult {
    pub entities: Vec<Entity>,
    pub relationships: Vec<Relationship>,
}

/// A request to extract knowledge from one stored message.
#[derive(Debug, Clone)]
pub struct KnowledgeJob {
    pub session_id: String,
    pub message_id: String,
    pub text: String,
}

/// Attribute pairs as character sequences.
pub open spec fn attrs_view(a: Seq<(String, String)>) -> Seq<(Seq<char>, Seq<char>)> {
    a.map_values(|p: (String, String)| (p.0@, p.1@))
}

/// A copy of an attribute list.
pub fn clone_attrs(a: &Vec<(String, String)>) -> (r: Vec<(String, String)>)
    ensures
        attrs_view(r@) == attrs_view(a@),
{
    let mut r: Vec<(String, String)> = Vec::new();
    let mut i: usize = 0;
    while i < a.len()
        invariant
            i <= a@.len(),
            r@.len() == i,
            attrs_view(r@) == attrs_view(a@).take(i as int),
        decreases a@.len() - i,
    {
        let k = a[i].0.clone();
        let v = a[i].1.clone();
        let ghost old_r = r@;
        r.push((k, v));
        assert forall|j: int| 0 <= j < i + 1 implies #[trigger] attrs_view(r@)[j] == attrs_view(a@).take(i as int + 1)[j] by {
            if j < i {
                assert(r@[j] == old_r[j]);
                assert(attrs_view(old_r)[j] == attrs_view(a@).take(i as int)[j]);
            }
        }
        assert(attrs_view(r@) =~= attrs_view(a@).take(i as int + 1));
        i = i + 1;
    }
    assert(attrs_view(a@).take(a@.len() as int) =~= attrs_view(a@));
    r
}

impl Entity {
    /// A copy of this entity.
    pub fn copy(&self) -> (r: Entity)
        ensures
            r.name@ == self.name@,
            r.entity_type@ == self.entity_type@,
            attrs_view(r.attributes@) == attrs_view(self.attributes@),
    {
        Entity { name: self.name.clone(), entity_type: self.entity_type.clone(), attributes: clone_attrs(&self.attributes) }
    }
}

impl Relationship {
    /// A copy of this relationship.
    pub fn copy(&self) -> (r: Relationship)
        ensures
            r.from@ == self.from@,
            r.to@ == self.to@,
            r.relationship_type@ == self.relationship_type@,
    {
        Relationship { from: self.from.clone(), to: self.to.clone(), relationship_type: self.relationship_type.clone() }
    }
}

} // verus!
