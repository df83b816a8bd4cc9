//! Per-session in-memory knowledge graph.
//!
//! Each session owns a directed multigraph of named entities. Extractions are
//! applied at most once per (session, message); entities are deduplicated by
//! name within a session, and every relationship adds an edge.

use vstd::prelude::*;
use vstd::string::*;
use crate::digraph::{index_limit, adjacent};
use crate::knowledge::types::{attrs_view, clone_attrs, Entity, Relationship};
use crate::assoc::{find_key, fold_insert, keys_of, to_map, lemma_fold_insert_to_map, lemma_to_map_push, lemma_to_map_update, lemma_to_map_remove, lemma_find_some};
use crate::text::{copy_strings, starts_with, spec_starts_with, push_str};
use crate::topology::{no_dup_names, 
    is_shortest_walk, is_walk, lemma_find_unique, nat_seq, reachable, spec_find, spec_related, string_from, strings_view, str_eq, LabeledGraph,
};

verus! {

/// Which side of a relationship the queried entity is on.
#[derive(Debug, Clone, Copy, PartialEq, Eq, Structural)]
pub enum RelationshipDirection {
    Incoming,
    Outgoing,
}

/// An entity adjacent to a queried one.
#[derive(Debug)]
pub struct RelatedEntity {
    pub name: String,
    pub entity_type: String,
    pub relationship_type: String,
    pub direction: RelationshipDirection,
}

/// One step of a path between entities.
#[derive(Debug)]
pub struct PathEdge {
    pub from: String,
    pub relationship_type: String,
    pub to: String,
}

/// Abstract state of one session's graph.
pub struct SessionModel {
    pub names: Seq<Seq<char>>,
    pub types: Seq<Seq<char>>,
    pub attrs: Seq<Seq<(Seq<char>, Seq<char>)>>,
    pub edges: Seq<(nat, nat)>,
    pub labels: Seq<Seq<char>>,
}

pub open spec fn empty_session() -> SessionModel {
    SessionModel {
        names: Seq::empty(),
        types: Seq::empty(),
        attrs: Seq::empty(),
        edges: Seq::empty(),
        labels: Seq::empty(),
    }
}

/// Adds an entity unless one with that name exists already.
pub open spec fn ensure_entity_model(
    m: SessionModel,
    name: Seq<char>,
    ty: Seq<char>,
    attrs: Seq<(Seq<char>, Seq<char>)>,
) -> SessionModel {
    if spec_find(m.names, name) is Some {
        m
    } else {
        SessionModel { names: m.names.push(name), types: m.types.push(ty), attrs: m.attrs.push(attrs), ..m }
    }
}

/// Entities of an extraction applied in order.
pub open spec fn apply_entities(m: SessionModel, ents: Seq<Entity>) -> SessionModel
    decreases ents.len(),
{
    if ents.len() == 0 {
        m
    } else {
        let e = ents.last();
        ensure_entity_model(apply_entities(m, ents.drop_last()), e.name@, e.entity_type@, attrs_view(e.attributes@))
    }
}

/// One relationship: both endpoints are ensured (as type "Other"), then the edge is added.
pub open spec fn add_relationship_model(m: SessionModel, r: Relationship) -> SessionModel {
    let m1 = ensure_entity_model(m, r.from@, "Other"@, Seq::empty());
    let m2 = ensure_entity_model(m1, r.to@, "Other"@, Seq::empty());
    SessionModel {
        edges: m2.edges.push((spec_find(m2.names, r.from@).unwrap(), spec_find(m2.names, r.to@).unwrap())),
        labels: m2.labels.push(r.relationship_type@),
        ..m2
    }
}

/// Relationships of an extraction applied in order.
pub open spec fn apply_relationships(m: SessionModel, rels: Seq<Relationship>) -> SessionModel
    decreases rels.len(),
{
    if rels.len() == 0 {
        m
    } else {
        add_relationship_model(apply_relationships(m, rels.drop_last()), rels.last())
    }
}

/// The session graph `m` has room for an extraction of `ents` and `rels`.
pub open spec fn extraction_fits(m: SessionModel, ents: Seq<Entity>, rels: Seq<Relationship>) -> bool {
    &&& m.names.len() + ents.len() + 2 * rels.len() < index_limit()
    &&& m.edges.len() + rels.len() < index_limit()
}

/// The key under which a processed message is remembered.
pub open spec fn dedup_key_model(session_id: Seq<char>, message_id: Seq<char>) -> Seq<char> {
    session_id + seq!['\0'] + message_id
}

/// The sessions and processed keys after an extraction from `message_id` of
/// `session_id`: applied to the session's graph unless that message was applied before.
pub open spec fn extraction_step(
    sessions: Map<Seq<char>, SessionModel>,
    processed: Set<Seq<char>>,
    session_id: Seq<char>,
    message_id: Seq<char>,
    ents: Seq<Entity>,
    rels: Seq<Relationship>,
) -> (Map<Seq<char>, SessionModel>, Set<Seq<char>>) {
    let key = dedup_key_model(session_id, message_id);
    if processed.contains(key) {
        (sessions, processed)
    } else {
        let base = if sessions.contains_key(session_id) { sessions[session_id] } else { empty_session() };
        (sessions.insert(session_id, apply_relationships(apply_entities(base, ents), rels)), processed.insert(key))
    }
}

/// Applying the same extraction of the same message twice has the effect of
/// applying it once.
pub proof fn lemma_extraction_idempotent(
    sessions: Map<Seq<char>, SessionModel>,
    processed: Set<Seq<char>>,
    session_id: Seq<char>,
    message_id: Seq<char>,
    ents: Seq<Entity>,
    rels: Seq<Relationship>,
)
    ensures
        ({
            let (s1, p1) = extraction_step(sessions, processed, session_id, message_id, ents, rels);
            extraction_step(s1, p1, session_id, message_id, ents, rels) == (s1, p1)
        }),
{
}

/// Deleting a session forgets which of its messages were applied: none of its
/// keys stays among the processed ones.
pub proof fn lemma_delete_resets_dedup(processed: Set<Seq<char>>, session_id: Seq<char>, message_id: Seq<char>)
    ensures
        !processed.filter(|k: Seq<char>| !spec_starts_with(k, session_id + seq!['\0'])).contains(dedup_key_model(session_id, message_id)),
{
    let pre = session_id + seq!['\0'];
    let k = dedup_key_model(session_id, message_id);
    assert(k.subrange(0, pre.len() as int) =~= pre);
}

/// Entities of a session in node order, as (name, type, attributes).
pub open spec fn entities_model(m: SessionModel) -> Seq<(Seq<char>, Seq<char>, Seq<(Seq<char>, Seq<char>)>)> {
    Seq::new(m.names.len(), |i: int| (m.names[i], m.types[i], m.attrs[i]))
}

/// Relationships of a session in edge order, as (from, to, type).
pub open spec fn relationships_model(m: SessionModel) -> Seq<(Seq<char>, Seq<char>, Seq<char>)> {
    Seq::new(m.edges.len(), |e: int| (m.names[m.edges[e].0 as int], m.names[m.edges[e].1 as int], m.labels[e]))
}

/// Neighbours of the entity at `n`, as (name, type, relationship type, outgoing?).
pub open spec fn related_model(m: SessionModel, n: nat) -> Seq<(Seq<char>, Seq<char>, Seq<char>, bool)> {
    spec_related(m.edges, n).map_values(|x: (nat, nat, bool)| (m.names[x.0 as int], m.types[x.0 as int], m.labels[x.1 as int], x.2))
}

/// A list of path steps follows the edge walk `p`.
pub open spec fn path_matches(names: Seq<Seq<char>>, edges: Seq<(nat, nat)>, labels: Seq<Seq<char>>, steps: Seq<PathEdge>, p: Seq<nat>) -> bool {
    &&& steps.len() == p.len()
    &&& forall|k: int| 0 <= k < p.len() ==> {
        &&& (#[trigger] steps[k]).from@ == names[edges[p[k] as int].0 as int]
        &&& steps[k].to@ == names[edges[p[k] as int].1 as int]
        &&& steps[k].relationship_type@ == labels[p[k] as int]
    }
}

pub open spec fn session_wf(m: SessionModel) -> bool {
    &&& m.types.len() == m.names.len()
    &&& m.attrs.len() == m.names.len()
    &&& m.labels.len() == m.edges.len()
    &&& forall|e: int| 0 <= e < m.edges.len() ==> (#[trigger] m.edges[e]).0 < m.names.len() && m.edges[e].1 < m.names.len()
}

/// The entities and edges of one session.
pub struct SessionGraph {
    topo: LabeledGraph,
    types: Vec<String>,
    attrs: Vec<Vec<(String, String)>>,
}

impl SessionGraph {
    pub closed spec fn model(&self) -> SessionModel {
        SessionModel {
            names: self.topo.names(),
            types: self.types@.map_values(|s: String| s@),
            attrs: self.attrs@.map_values(|a: Vec<(String, String)>| attrs_view(a@)),
            edges: self.topo.edges(),
            labels: self.topo.labels(),
        }
    }

    pub closed spec fn wf(&self) -> bool {
        &&& self.topo.wf()
        &&& self.types@.len() == self.topo.names().len()
        &&& self.attrs@.len() == self.topo.names().len()
    }

    pub proof fn lemma_wf(&self)
        requires
            self.wf(),
        ensures
            session_wf(self.model()),
            crate::topology::no_dup_names(self.model().names),
    {
        self.topo.lemma_wf();
    }

    /// (entities, relationships) of the session.
    pub fn counts(&self) -> (r: (usize, usize))
        requires
            self.wf(),
        ensures
            r.0 as nat == self.model().names.len(),
            r.1 as nat == self.model().edges.len(),
    {
        (self.topo.node_count(), self.topo.edge_count())
    }

    pub fn new() -> (g: Self)
        ensures
            g.wf(),
            g.model() == empty_session(),
    {
        let g = SessionGraph { topo: LabeledGraph::new(), types: Vec::new(), attrs: Vec::new() };
        assert(g.model().types =~= Seq::<Seq<char>>::empty());
        assert(g.model().attrs =~= Seq::<Seq<(Seq<char>, Seq<char>)>>::empty());
        g
    }

    /// Index of the entity `name`, adding it with `entity_type` and `attributes` when new.
    pub fn ensure_entity(&mut self, name: &str, entity_type: &str, attributes: Vec<(String, String)>) -> (idx: usize)
        requires
            old(self).wf(),
            old(self).model().names.len() < index_limit(),
        ensures
            final(self).wf(),
            final(self).model() == ensure_entity_model(old(self).model(), name@, entity_type@, attrs_view(attributes@)),
            spec_find(final(self).model().names, name@) == Some(idx as nat),
    {
        let ghost old_model = self.model();
        let (idx, created) = self.topo.ensure_node(name);
        if created {
            self.types.push(string_from(entity_type));
            self.attrs.push(attributes);
            assert(self.model().types =~= old_model.types.push(entity_type@));
            assert(self.model().attrs =~= old_model.attrs.push(attrs_view(attributes@)));
        }
        proof {
            self.topo.lemma_wf();
            crate::topology::lemma_find_unique(self.topo.names(), name@, idx as int);
        }
        idx
    }

    /// Adds the edge `a -> b` with the given relationship type.
    pub fn add_edge(&mut self, a: usize, b: usize, label: &str)
        requires
            old(self).wf(),
            a < old(self).model().names.len(),
            b < old(self).model().names.len(),
            old(self).model().edges.len() < index_limit(),
        ensures
            final(self).wf(),
            final(self).model() == (SessionModel {
                edges: old(self).model().edges.push((a as nat, b as nat)),
                labels: old(self).model().labels.push(label@),
                ..old(self).model()
            }),
    {
        self.topo.add_edge(a, b, label);
    }

    pub fn apply(&mut self, entities: &Vec<Entity>, relationships: &Vec<Relationship>)
        requires
            old(self).wf(),
            old(self).model().names.len() + entities@.len() + 2 * relationships@.len() < index_limit(),
            old(self).model().edges.len() + relationships@.len() < index_limit(),
        ensures
            final(self).wf(),
            final(self).model() == apply_relationships(apply_entities(old(self).model(), entities@), relationships@),
    {
        let ghost m0 = self.model();
        let mut i: usize = 0;
        while i < entities.len()
            invariant
                self.wf(),
                i <= entities@.len(),
                self.model() == apply_entities(m0, entities@.take(i as int)),
                self.model().names.len() <= m0.names.len() + i,
                self.model().edges == m0.edges,
                m0.names.len() + entities@.len() + 2 * relationships@.len() < index_limit(),
            decreases entities@.len() - i,
        {
            let e = &entities[i];
            let attrs = clone_attrs(&e.attributes);
            self.ensure_entity(e.name.as_str(), e.entity_type.as_str(), attrs);
            assert(entities@.take(i as int + 1).drop_last() =~= entities@.take(i as int));
            i = i + 1;
        }
        assert(entities@.take(entities@.len() as int) =~= entities@);
        let ghost m1 = self.model();
        let mut j: usize = 0;
        while j < relationships.len()
            invariant
                self.wf(),
                j <= relationships@.len(),
                self.model() == apply_relationships(m1, relationships@.take(j as int)),
                self.model().names.len() <= m1.names.len() + 2 * j,
                self.model().edges.len() == m1.edges.len() + j,
                m1.names.len() + 2 * relationships@.len() < index_limit(),
                m1.edges.len() + relationships@.len() < index_limit(),
            decreases relationships@.len() - j,
        {
            let r = &relationships[j];
            let a = self.ensure_entity(r.from.as_str(), "Other", Vec::new());
            let b = self.ensure_entity(r.to.as_str(), "Other", Vec::new());
            proof {
                assert(attrs_view(Seq::<(String, String)>::empty()) =~= Seq::empty());
                self.lemma_wf();
                let m = self.model();
                crate::topology::lemma_find_unique(m.names, r.from@, a as int);
            }
            self.add_edge(a, b, r.relationship_type.as_str());
            assert(relationships@.take(j as int + 1).drop_last() =~= relationships@.take(j as int));
            j = j + 1;
        }
        assert(relationships@.take(relationships@.len() as int) =~= relationships@);
    }

    /// Entities in node order.
    pub fn all_entities(&self) -> (r: Vec<Entity>)
        requires
            self.wf(),
        ensures
            entities_answer(self.model(), r@),
    {
        let n = self.topo.node_count();
        let mut r: Vec<Entity> = Vec::new();
        let mut i: usize = 0;
        while i < n
            invariant
                self.wf(),
                n == self.model().names.len(),
                i <= n,
                r@.len() == i,
                forall|j: int| 0 <= j < i ==> ({
                    let x = entities_model(self.model())[j];
                    &&& (#[trigger] r@[j]).name@ == x.0
                    &&& r@[j].entity_type@ == x.1
                    &&& attrs_view(r@[j].attributes@) == x.2
                }),
            decreases n - i,
        {
            let e = Entity {
                name: self.topo.name(i).clone(),
                entity_type: self.types[i].clone(),
                attributes: clone_attrs(&self.attrs[i]),
            };
            r.push(e);
            i = i + 1;
        }
        r
    }

    /// Relationships in edge order.
    pub fn all_relationships(&self) -> (r: Vec<Relationship>)
        requires
            self.wf(),
        ensures
            relationships_answer(self.model(), r@),
    {
        proof { self.lemma_wf(); }
        let m = self.topo.edge_count();
        let mut r: Vec<Relationship> = Vec::new();
        let mut e: usize = 0;
        while e < m
            invariant
                self.wf(),
                session_wf(self.model()),
                m == self.model().edges.len(),
                e <= m,
                r@.len() == e,
                forall|j: int| 0 <= j < e ==> ({
                    let x = relationships_model(self.model())[j];
                    &&& (#[trigger] r@[j]).from@ == x.0
                    &&& r@[j].to@ == x.1
                    &&& r@[j].relationship_type@ == x.2
                }),
            decreases m - e,
        {
            let (a, b) = self.topo.endpoints(e);
            assert(self.model().edges[e as int].0 < self.model().names.len());
            let rel = Relationship {
                from: self.topo.name(a).clone(),
                to: self.topo.name(b).clone(),
                relationship_type: self.topo.label(e).clone(),
            };
            r.push(rel);
            e = e + 1;
        }
        r
    }

    /// Entities adjacent to `name`: outgoing relationships first, newest first.
    pub fn related(&self, name: &str) -> (r: Vec<RelatedEntity>)
        requires
            self.wf(),
        ensures
            spec_find(self.model().names, name@) is None ==> r@.len() == 0,
            spec_find(self.model().names, name@) matches Some(n) ==> related_matches(r@, related_model(self.model(), n)),
    {
        match self.topo.find(name) {
            None => Vec::new(),
            Some(n) => {
                proof { self.lemma_wf(); }
                let rel = self.topo.related(n);
                let ghost target = related_model(self.model(), n as nat);
                let ghost sr = spec_related(self.model().edges, n as nat);
                proof {
                    lemma_related_in_range(self.model(), n as nat);
                }
                let mut r: Vec<RelatedEntity> = Vec::new();
                let mut i: usize = 0;
                while i < rel.len()
                    invariant
                        self.wf(),
                        session_wf(self.model()),
                        sr == spec_related(self.model().edges, n as nat),
                        target == related_model(self.model(), n as nat),
                        rel@.len() == sr.len(),
                        forall|j: int| 0 <= j < rel@.len() ==> ({
                            let x = #[trigger] rel@[j];
                            x.0 as nat == sr[j].0 && x.1 as nat == sr[j].1 && x.2 == sr[j].2
                        }),
                        forall|j: int| 0 <= j < sr.len() ==> (#[trigger] sr[j]).0 < self.model().names.len() && sr[j].1 < self.model().edges.len(),
                        i <= rel@.len(),
                        r@.len() == i,
                        forall|j: int| 0 <= j < i ==> related_entry_matches(#[trigger] r@[j], target[j]),
                    decreases rel@.len() - i,
                {
                    let (other, e, outgoing) = rel[i];
                    let item = RelatedEntity {
                        name: self.topo.name(other).clone(),
                        entity_type: self.types[other].clone(),
                        relationship_type: self.topo.label(e).clone(),
                        direction: if outgoing { RelationshipDirection::Outgoing } else { RelationshipDirection::Incoming },
                    };
                    r.push(item);
                    i = i + 1;
                }
                r
            }
        }
    }

    /// Path search along outgoing edges between two named entities.
    pub fn find_path(&self, from: &str, to: &str) -> (r: Option<Vec<PathEdge>>)
        requires
            self.wf(),
        ensures
            (spec_find(self.model().names, from@) is None || spec_find(self.model().names, to@) is None) ==> r is None,
            spec_find(self.model().names, from@) is Some && spec_find(self.model().names, to@) is Some ==> {
                let a = spec_find(self.model().names, from@).unwrap();
                let b = spec_find(self.model().names, to@).unwrap();
                &&& (r is None <==> !reachable(self.model().edges, a, b))
                &&& (r matches Some(steps) ==> path_found(self.model().names, self.model().edges, self.model().labels, a, b, steps@))
            },
    {
        named_path(&self.topo, from, to)
    }
}

/// Path search along outgoing edges between two named nodes of `topo`,
/// spelled out as named steps.
pub fn named_path(topo: &LabeledGraph, from: &str, to: &str) -> (r: Option<Vec<PathEdge>>)
    requires
        topo.wf(),
    ensures
        (spec_find(topo.names(), from@) is None || spec_find(topo.names(), to@) is None) ==> r is None,
        spec_find(topo.names(), from@) is Some && spec_find(topo.names(), to@) is Some ==> {
            let a = spec_find(topo.names(), from@).unwrap();
            let b = spec_find(topo.names(), to@).unwrap();
            &&& (r is None <==> !reachable(topo.edges(), a, b))
            &&& (r matches Some(steps) ==> path_found(topo.names(), topo.edges(), topo.labels(), a, b, steps@))
        },
{
    let a = match topo.find(from) {
        Some(a) => a,
        None => return None,
    };
    let b = match topo.find(to) {
        Some(b) => b,
        None => return None,
    };
    proof { topo.lemma_wf(); }
    match topo.find_path(a, b) {
        None => None,
        Some(p) => {
            let ghost walk = nat_seq(p@);
            let mut steps: Vec<PathEdge> = Vec::new();
            let mut i: usize = 0;
            while i < p.len()
                invariant
                    topo.wf(),
                    forall|e: int| 0 <= e < topo.edges().len() ==>
                        (#[trigger] topo.edges()[e]).0 < topo.names().len() && topo.edges()[e].1 < topo.names().len(),
                    walk == nat_seq(p@),
                    is_shortest_walk(topo.edges(), a as nat, b as nat, walk),
                    i <= p@.len(),
                    steps@.len() == i,
                    forall|k: int| 0 <= k < i ==> {
                        &&& (#[trigger] steps@[k]).from@ == topo.names()[topo.edges()[walk[k] as int].0 as int]
                        &&& steps@[k].to@ == topo.names()[topo.edges()[walk[k] as int].1 as int]
                        &&& steps@[k].relationship_type@ == topo.labels()[walk[k] as int]
                    },
                decreases p@.len() - i,
            {
                let e = p[i];
                assert(walk[i as int] == e as nat);
                assert(walk[i as int] < topo.edges().len());
                let (x, y) = topo.endpoints(e);
                steps.push(PathEdge {
                    from: topo.name(x).clone(),
                    relationship_type: topo.label(e).clone(),
                    to: topo.name(y).clone(),
                });
                i = i + 1;
            }
            assert(is_shortest_walk(topo.edges(), a as nat, b as nat, walk) && path_matches(topo.names(), topo.edges(), topo.labels(), steps@, walk));
            assert(reachable(topo.edges(), a as nat, b as nat));
            assert(path_found(topo.names(), topo.edges(), topo.labels(), a as nat, b as nat, steps@));
            Some(steps)
        }
    }
}

/// `steps` spells out a shortest walk from node `a` to node `b`.
pub open spec fn path_found(names: Seq<Seq<char>>, edges: Seq<(nat, nat)>, labels: Seq<Seq<char>>, a: nat, b: nat, steps: Seq<PathEdge>) -> bool {
    exists|p: Seq<nat>| is_shortest_walk(edges, a, b, p) && path_matches(names, edges, labels, steps, p)
}

pub open spec fn related_entry_matches(x: RelatedEntity, y: (Seq<char>, Seq<char>, Seq<char>, bool)) -> bool {
    &&& x.name@ == y.0
    &&& x.entity_type@ == y.1
    &&& x.relationship_type@ == y.2
    &&& (x.direction is Outgoing <==> y.3)
}

pub open spec fn related_matches(r: Seq<RelatedEntity>, m: Seq<(Seq<char>, Seq<char>, Seq<char>, bool)>) -> bool {
    &&& r.len() == m.len()
    &&& forall|j: int| 0 <= j < r.len() ==> related_entry_matches(#[trigger] r[j], m[j])
}

/// `r` lists the entities of `m` in node order.
pub open spec fn entities_answer(m: SessionModel, r: Seq<Entity>) -> bool {
    &&& r.len() == entities_model(m).len()
    &&& forall|i: int| 0 <= i < r.len() ==> ({
        let x = entities_model(m)[i];
        &&& (#[trigger] r[i]).name@ == x.0
        &&& r[i].entity_type@ == x.1
        &&& attrs_view(r[i].attributes@) == x.2
    })
}

/// `r` lists the relationships of `m` in edge order.
pub open spec fn relationships_answer(m: SessionModel, r: Seq<Relationship>) -> bool {
    &&& r.len() == relationships_model(m).len()
    &&& forall|e: int| 0 <= e < r.len() ==> ({
        let x = relationships_model(m)[e];
        &&& (#[trigger] r[e]).from@ == x.0
        &&& r[e].to@ == x.1
        &&& r[e].relationship_type@ == x.2
    })
}

/// `r` answers a neighbour query for `name` on `m`: nothing for an unknown
/// entity, else its neighbours as [`related_model`] orders them.
pub open spec fn related_answer(m: SessionModel, name: Seq<char>, r: Seq<RelatedEntity>) -> bool {
    &&& spec_find(m.names, name) is None ==> r.len() == 0
    &&& spec_find(m.names, name) matches Some(n) ==> related_matches(r, related_model(m, n))
}

/// `r` answers a path query from `from` to `to` on `m`: `None` when either
/// entity is unknown or `to` cannot be reached, else a shortest walk between them.
pub open spec fn path_answer(m: SessionModel, from: Seq<char>, to: Seq<char>, r: Option<Vec<PathEdge>>) -> bool {
    &&& (spec_find(m.names, from) is None || spec_find(m.names, to) is None) ==> r is None
    &&& spec_find(m.names, from) is Some && spec_find(m.names, to) is Some ==> {
        let a = spec_find(m.names, from).unwrap();
        let b = spec_find(m.names, to).unwrap();
        &&& (r is None <==> !reachable(m.edges, a, b))
        &&& (r matches Some(steps) ==> path_found(m.names, m.edges, m.labels, a, b, steps@))
    }
}

/// Neighbour entries point at existing nodes and edges.
pub proof fn lemma_related_in_range(m: SessionModel, n: nat)
    requires
        session_wf(m),
    ensures
        forall|j: int| 0 <= j < spec_related(m.edges, n).len() ==>
            (#[trigger] spec_related(m.edges, n)[j]).0 < m.names.len() && spec_related(m.edges, n)[j].1 < m.edges.len(),
{
    let outs = adjacent(m.edges, n, true);
    let ins = adjacent(m.edges, n, false);
    assert forall|j: int| 0 <= j < spec_related(m.edges, n).len() implies
        (#[trigger] spec_related(m.edges, n)[j]).0 < m.names.len() && spec_related(m.edges, n)[j].1 < m.edges.len() by {
        if j < outs.len() {
            crate::topology::lemma_adjacent_sound(m.edges, n, true, j);
        } else {
            crate::topology::lemma_adjacent_sound(m.edges, n, false, j - outs.len());
        }
    }
}


/// Session models of a session list.
pub open spec fn session_models(v: Seq<(String, SessionGraph)>) -> Seq<SessionModel> {
    v.map_values(|p: (String, SessionGraph)| p.1.model())
}

/// Per-session in-memory knowledge graph, with a record of which
/// (session, message) pairs have been applied.
pub struct KnowledgeGraph {
    sessions: Vec<(String, SessionGraph)>,
    processed: Vec<String>,
}

impl KnowledgeGraph {
    /// Session id -> the session's graph.
    pub closed spec fn sessions(&self) -> Map<Seq<char>, SessionModel> {
        to_map(keys_of(self.sessions@), session_models(self.sessions@))
    }

    /// Keys (see [`dedup_key_model`]) of the messages already applied.
    pub closed spec fn processed(&self) -> Set<Seq<char>> {
        self.processed@.map_values(|s: String| s@).to_set()
    }

    pub closed spec fn wf(&self) -> bool {
        &&& no_dup_names(keys_of(self.sessions@))
        &&& forall|i: int| 0 <= i < self.sessions@.len() ==> (#[trigger] self.sessions@[i]).1.wf()
    }

    /// The graph of `session_id`, empty when the session is unknown.
    pub open spec fn session_or_empty(&self, session_id: Seq<char>) -> SessionModel {
        if self.sessions().contains_key(session_id) { self.sessions()[session_id] } else { empty_session() }
    }


    pub fn new() -> (g: Self)
        ensures
            g.wf(),
            g.sessions() == Map::<Seq<char>, SessionModel>::empty(),
            g.processed() == Set::<Seq<char>>::empty(),
    {
        let g = KnowledgeGraph { sessions: Vec::new(), processed: Vec::new() };
        assert(g.sessions() =~= Map::<Seq<char>, SessionModel>::empty());
        assert(g.processed() =~= Set::<Seq<char>>::empty());
        g
    }

    fn dedup_key(session_id: &str, message_id: &str) -> (k: String)
        ensures
            k@ == dedup_key_model(session_id@, message_id@),
    {
        let mut k = string_from(session_id);
        proof { reveal_strlit("\0"); }
        push_str(&mut k, "\0");
        push_str(&mut k, message_id);
        k
    }

    fn contains_processed(&self, key: &String) -> (r: bool)
        ensures
            r == self.processed().contains(key@),
    {
        let mut i: usize = 0;
        while i < self.processed.len()
            invariant
                i <= self.processed@.len(),
                forall|j: int| 0 <= j < i ==> self.processed@[j]@ != key@,
            decreases self.processed@.len() - i,
        {
            if str_eq(self.processed[i].as_str(), key.as_str()) {
                assert(self.processed@.map_values(|s: String| s@)[i as int] == key@);
                return true;
            }
            i = i + 1;
        }
        assert(!self.processed@.map_values(|s: String| s@).contains(key@));
        false
    }

    /// (entities, relationships) of the session's graph; zeros for an unknown session.
    pub fn session_counts(&self, session_id: &str) -> (r: (usize, usize))
        requires
            self.wf(),
        ensures
            r.0 as nat == self.session_or_empty(session_id@).names.len(),
            r.1 as nat == self.session_or_empty(session_id@).edges.len(),
    {
        match find_key(&self.sessions, session_id) {
            None => (0, 0),
            Some(i) => {
                proof {
                    crate::topology::lemma_find_unique(keys_of(self.sessions@), session_id@, i as int);
                    assert(session_models(self.sessions@)[i as int] == self.sessions@[i as int].1.model());
                }
                self.sessions[i].1.counts()
            },
        }
    }

    /// Whether the message `message_id` of `session_id` has been applied.
    pub fn is_processed(&self, session_id: &str, message_id: &str) -> (r: bool)
        ensures
            r == self.processed().contains(dedup_key_model(session_id@, message_id@)),
    {
        let key = Self::dedup_key(session_id, message_id);
        self.contains_processed(&key)
    }

    /// Applies an extraction (see [`Self::apply_extraction`]) when the session's
    /// graph has room for it; else changes nothing. True when it was applied.
    pub fn apply_extraction_if_fits(
        &mut self,
        session_id: &str,
        message_id: &str,
        entities: Vec<Entity>,
        relationships: Vec<Relationship>,
    ) -> (applied: bool)
        requires
            old(self).wf(),
        ensures
            final(self).wf(),
            extraction_fits(old(self).session_or_empty(session_id@), entities@, relationships@) ==>
                (final(self).sessions(), final(self).processed())
                    == extraction_step(old(self).sessions(), old(self).processed(), session_id@, message_id@, entities@, relationships@),
            !extraction_fits(old(self).session_or_empty(session_id@), entities@, relationships@) ==>
                final(self).sessions() == old(self).sessions() && final(self).processed() == old(self).processed(),
            applied == (extraction_fits(old(self).session_or_empty(session_id@), entities@, relationships@)
                && !old(self).processed().contains(dedup_key_model(session_id@, message_id@))),
    {
        let (nodes, edges) = self.session_counts(session_id);
        let fits = (nodes as u128) + (entities.len() as u128) + 2 * (relationships.len() as u128) < 0xffff_ffffu128
            && (edges as u128) + (relationships.len() as u128) < 0xffff_ffffu128;
        if fits {
            self.apply_extraction(session_id, message_id, entities, relationships)
        } else {
            false
        }
    }

    /// Applies an extraction once per (session, message). Returns `false`, and
    /// changes nothing, when that message was applied before.
    pub fn apply_extraction(
        &mut self,
        session_id: &str,
        message_id: &str,
        entities: Vec<Entity>,
        relationships: Vec<Relationship>,
    ) -> (applied: bool)
        requires
            old(self).wf(),
            old(self).session_or_empty(session_id@).names.len() + entities@.len() + 2 * relationships@.len() < index_limit(),
            old(self).session_or_empty(session_id@).edges.len() + relationships@.len() < index_limit(),
        ensures
            final(self).wf(),
            applied == !old(self).processed().contains(dedup_key_model(session_id@, message_id@)),
            !applied ==> final(self).sessions() == old(self).sessions() && final(self).processed() == old(self).processed(),
            applied ==> final(self).processed() == old(self).processed().insert(dedup_key_model(session_id@, message_id@)),
            applied ==> final(self).sessions() == old(self).sessions().insert(
                session_id@,
                apply_relationships(apply_entities(old(self).session_or_empty(session_id@), entities@), relationships@),
            ),
            (final(self).sessions(), final(self).processed())
                == extraction_step(old(self).sessions(), old(self).processed(), session_id@, message_id@, entities@, relationships@),
    {
        let key = Self::dedup_key(session_id, message_id);
        if self.contains_processed(&key) {
            return false;
        }
        let ghost old_processed = self.processed@;
        self.processed.push(key);
        proof {
            let a = old_processed.map_values(|s: String| s@);
            let b = self.processed@.map_values(|s: String| s@);
            assert(b =~= a.push(key@));
            assert forall|x: Seq<char>| b.contains(x) <==> (a.contains(x) || x == key@) by {
                if b.contains(x) {
                    let j = choose|j: int| 0 <= j < b.len() && b[j] == x;
                    if j < a.len() { assert(a[j] == x); }
                }
                if a.contains(x) {
                    let j = choose|j: int| 0 <= j < a.len() && a[j] == x;
                    assert(b[j] == x);
                }
                if x == key@ {
                    assert(b[a.len() as int] == x);
                }
            }
            assert(self.processed() =~= old(self).processed().insert(key@));
        }
        let idx = match find_key(&self.sessions, session_id) {
            Some(i) => i,
            None => {
                let ghost ks = keys_of(self.sessions@);
                let ghost vs = session_models(self.sessions@);
                let sg = SessionGraph::new();
                self.sessions.push((string_from(session_id), sg));
                proof {
                    assert(keys_of(self.sessions@) =~= ks.push(session_id@));
                    assert(session_models(self.sessions@) =~= vs.push(empty_session()));
                    lemma_to_map_push(ks, vs, session_id@, empty_session());
                    assert forall|i: int| 0 <= i < self.sessions@.len() implies (#[trigger] self.sessions@[i]).1.wf() by {
                        if i < ks.len() {
                            assert(self.sessions@[i] == old(self).sessions@[i]);
                        }
                    }
                }
                self.sessions.len() - 1
            }
        };
        let ghost mid = self.sessions@;
        proof {
            assert(keys_of(mid)[idx as int] == session_id@);
            crate::topology::lemma_find_unique(keys_of(mid), session_id@, idx as int);
            assert(mid[idx as int].1.model() == old(self).session_or_empty(session_id@));
        }
        let (sid, mut sg) = self.sessions.remove(idx);
        assert(sg.wf());
        sg.apply(&entities, &relationships);
        self.sessions.insert(idx, (sid, sg));
        proof {
            assert(keys_of(self.sessions@) =~= keys_of(mid));
            assert(session_models(self.sessions@) =~= session_models(mid).update(idx as int, sg.model()));
            lemma_to_map_update(keys_of(mid), session_models(mid), idx as int, sg.model());
            assert forall|i: int| 0 <= i < self.sessions@.len() implies (#[trigger] self.sessions@[i]).1.wf() by {
                if i != idx {
                    assert(self.sessions@[i] == mid[i]);
                }
            }
        }
        true
    }

    /// Entities related to `entity_name` in a session: outgoing relationships
    /// first, then incoming ones, each newest first.
    pub fn get_related(&self, session_id: &str, entity_name: &str) -> (r: Vec<RelatedEntity>)
        requires
            self.wf(),
        ensures
            related_answer(self.session_or_empty(session_id@), entity_name@, r@),
    {
        match find_key(&self.sessions, session_id) {
            None => Vec::new(),
            Some(i) => {
                proof {
                    assert(session_models(self.sessions@)[i as int] == self.sessions@[i as int].1.model());
                }
                self.sessions[i].1.related(entity_name)
            },
        }
    }

    /// Breadth-first path search along outgoing edges in one session.
    /// `None` when the session or either entity is unknown, or no path exists.
    pub fn find_path(&self, session_id: &str, from: &str, to: &str) -> (r: Option<Vec<PathEdge>>)
        requires
            self.wf(),
        ensures
            path_answer(self.session_or_empty(session_id@), from@, to@, r),
    {
        match find_key(&self.sessions, session_id) {
            None => None,
            Some(i) => {
                proof {
                    assert(session_models(self.sessions@)[i as int] == self.sessions@[i as int].1.model());
                }
                self.sessions[i].1.find_path(from, to)
            },
        }
    }

    /// All entities of a session in insertion order.
    pub fn all_entities(&self, session_id: &str) -> (r: Vec<Entity>)
        requires
            self.wf(),
        ensures
            entities_answer(self.session_or_empty(session_id@), r@),
    {
        match find_key(&self.sessions, session_id) {
            None => {
                let r: Vec<Entity> = Vec::new();
                r
            },
            Some(i) => {
                proof {
                    assert(session_models(self.sessions@)[i as int] == self.sessions@[i as int].1.model());
                }
                self.sessions[i].1.all_entities()
            },
        }
    }

    /// All relationships of a session in insertion order.
    pub fn all_relationships(&self, session_id: &str) -> (r: Vec<Relationship>)
        requires
            self.wf(),
        ensures
            relationships_answer(self.session_or_empty(session_id@), r@),
    {
        match find_key(&self.sessions, session_id) {
            None => {
                let r: Vec<Relationship> = Vec::new();
                r
            },
            Some(i) => {
                proof {
                    assert(session_models(self.sessions@)[i as int] == self.sessions@[i as int].1.model());
                }
                self.sessions[i].1.all_relationships()
            },
        }
    }

    /// Forgets a session: its graph and the record of its applied messages.
    pub fn delete_session(&mut self, session_id: &str)
        requires
            old(self).wf(),
        ensures
            final(self).wf(),
            final(self).sessions() == old(self).sessions().remove(session_id@),
            final(self).processed() == old(self).processed().filter(
                |k: Seq<char>| !spec_starts_with(k, session_id@ + seq!['\0'])),
    {
        match find_key(&self.sessions, session_id) {
            None => {
                proof {
                    assert(old(self).sessions().remove(session_id@) =~= old(self).sessions());
                }
            },
            Some(i) => {
                let ghost ks = keys_of(self.sessions@);
                let ghost vs = session_models(self.sessions@);
                let ghost before = self.sessions@;
                self.sessions.remove(i);
                proof {
                    assert(keys_of(self.sessions@) =~= ks.remove(i as int));
                    assert(session_models(self.sessions@) =~= vs.remove(i as int));
                    lemma_to_map_remove(ks, vs, i as int);
                    assert forall|j: int| 0 <= j < self.sessions@.len() implies (#[trigger] self.sessions@[j]).1.wf() by {
                        if j < i {
                            assert(self.sessions@[j] == before[j]);
                        } else {
                            assert(self.sessions@[j] == before[j + 1]);
                        }
                    }
                }
            },
        }
        let mut prefix = string_from(session_id);
        proof { reveal_strlit("\0"); }
        push_str(&mut prefix, "\0");
        let ghost pre = prefix@;
        let ghost old_keys = self.processed@.map_values(|s: String| s@);
        let mut kept: Vec<String> = Vec::new();
        let mut i: usize = 0;
        while i < self.processed.len()
            invariant
                pre == prefix@,
                pre == session_id@ + seq!['\0'],
                old_keys == self.processed@.map_values(|s: String| s@),
                i <= self.processed@.len(),
                kept@.map_values(|s: String| s@) == old_keys.take(i as int).filter(|k: Seq<char>| !spec_starts_with(k, pre)),
            decreases self.processed@.len() - i,
        {
            let ghost before_kept = kept@.map_values(|s: String| s@);
            if !starts_with(self.processed[i].as_str(), prefix.as_str()) {
                kept.push(self.processed[i].clone());
                assert(kept@.map_values(|s: String| s@) =~= before_kept.push(old_keys[i as int]));
            }
            proof {
                let f = |k: Seq<char>| !spec_starts_with(k, pre);
                assert(old_keys.take(i as int + 1).drop_last() =~= old_keys.take(i as int));
                assert(old_keys.take(i as int + 1).last() == old_keys[i as int]);
                assert(old_keys.take(i as int + 1).filter(f) == if f(old_keys[i as int]) {
                    old_keys.take(i as int).filter(f).push(old_keys[i as int])
                } else {
                    old_keys.take(i as int).filter(f)
                }) by {
                    reveal(Seq::filter);
                }
            }
            i = i + 1;
        }
        proof {
            let f = |k: Seq<char>| !spec_starts_with(k, pre);
            assert(old_keys.take(old_keys.len() as int) =~= old_keys);
            let newk = kept@.map_values(|s: String| s@);
            assert forall|k: Seq<char>| newk.to_set().contains(k) <==> old(self).processed().filter(f).contains(k) by {
                if newk.contains(k) {
                    old_keys.lemma_filter_contains_rev(f, k);
                    let j = choose|j: int| 0 <= j < newk.len() && newk[j] == k;
                    old_keys.lemma_filter_pred(f, j);
                }
                if old_keys.contains(k) && f(k) {
                    let j = choose|j: int| 0 <= j < old_keys.len() && old_keys[j] == k;
                    old_keys.lemma_filter_contains(f, j);
                }
            }
        }
        self.processed = kept;
        proof {
            assert(self.processed() =~= old(self).processed().filter(|k: Seq<char>| !spec_starts_with(k, session_id@ + seq!['\0'])));
        }
    }
}


/// One session's graph in a snapshot: its entities in node order and its
/// relationships in edge order.
#[derive(Debug, Clone)]
pub struct SessionGraphSnapshot {
    pub session_id: String,
    pub entities: Vec<Entity>,
    pub relationships: Vec<Relationship>,
}

/// The knowledge graph's part of a state snapshot.
#[derive(Debug, Clone)]
pub struct GraphSnapshot {
    pub sessions: Vec<SessionGraphSnapshot>,
    /// Keys (see [`dedup_key_model`]) of the messages already applied.
    pub processed: Vec<String>,
}

impl Default for GraphSnapshot {
    fn default() -> (s: GraphSnapshot)
        ensures
            s.sessions@.len() == 0,
            s.processed@.len() == 0,
    {
        GraphSnapshot { sessions: Vec::new(), processed: Vec::new() }
    }
}

/// The graph a session snapshot restores: its entities, then its
/// relationships, applied to an empty graph.
pub open spec fn restored_session(s: SessionGraphSnapshot) -> SessionModel {
    apply_relationships(apply_entities(empty_session(), s.entities@), s.relationships@)
}

/// Session ids of a snapshot, in order.
pub open spec fn snapshot_ids(snap: GraphSnapshot) -> Seq<Seq<char>> {
    snap.sessions@.map_values(|s: SessionGraphSnapshot| s.session_id@)
}

/// A session snapshot fits the graph's index space when restored.
pub open spec fn restorable(s: SessionGraphSnapshot) -> bool {
    &&& s.entities@.len() + 2 * s.relationships@.len() < index_limit()
    &&& s.relationships@.len() < index_limit()
}

/// The sessions that session snapshots restore, in order: a repeated session
/// id keeps its last graph, and a session too large for the index space is left out.
pub open spec fn restore_sessions(ss: Seq<SessionGraphSnapshot>) -> Map<Seq<char>, SessionModel>
    decreases ss.len(),
{
    if ss.len() == 0 {
        Map::empty()
    } else if restorable(ss.last()) {
        restore_sessions(ss.drop_last()).insert(ss.last().session_id@, restored_session(ss.last()))
    } else {
        restore_sessions(ss.drop_last())
    }
}

/// The sessions a snapshot restores.
pub open spec fn snapshot_sessions(snap: GraphSnapshot) -> Map<Seq<char>, SessionModel> {
    restore_sessions(snap.sessions@)
}

/// Restoring sessions that all fit is inserting each in turn.
proof fn lemma_restore_all_fit(ss: Seq<SessionGraphSnapshot>)
    requires
        forall|i: int| 0 <= i < ss.len() ==> restorable(#[trigger] ss[i]),
    ensures
        restore_sessions(ss) == fold_insert(ss.map_values(|s: SessionGraphSnapshot| (s.session_id@, restored_session(s)))),
    decreases ss.len(),
{
    if ss.len() > 0 {
        let rest = ss.drop_last();
        assert forall|i: int| 0 <= i < rest.len() implies restorable(#[trigger] rest[i]) by {
            assert(rest[i] == ss[i]);
        }
        lemma_restore_all_fit(rest);
        let kvs = ss.map_values(|s: SessionGraphSnapshot| (s.session_id@, restored_session(s)));
        assert(kvs.drop_last() =~= rest.map_values(|s: SessionGraphSnapshot| (s.session_id@, restored_session(s))));
        assert(restorable(ss[ss.len() - 1]));
    }
}

/// The processed keys a snapshot restores.
pub open spec fn snapshot_processed(snap: GraphSnapshot) -> Set<Seq<char>> {
    strings_view(snap.processed@).to_set()
}

/// Every session of the snapshot fits the graph's index space when restored.
pub open spec fn snapshot_fits(snap: GraphSnapshot) -> bool {
    forall|i: int| 0 <= i < snap.sessions@.len() ==> restorable(#[trigger] snap.sessions@[i])
}

/// Every session graph is well formed and names each entity once.
pub open spec fn sessions_well_formed(sessions: Map<Seq<char>, SessionModel>) -> bool {
    forall|k: Seq<char>| #[trigger] sessions.contains_key(k) ==> session_wf(sessions[k]) && no_dup_names(sessions[k].names)
}

/// `snap` lists each session of `sessions` once, with its entities and
/// relationships as the graph lists them, and the processed keys.
pub open spec fn graph_describes(snap: GraphSnapshot, sessions: Map<Seq<char>, SessionModel>, processed: Set<Seq<char>>) -> bool {
    &&& no_dup_names(snapshot_ids(snap))
    &&& forall|i: int| 0 <= i < snap.sessions@.len() ==> {
        let id = (#[trigger] snap.sessions@[i]).session_id@;
        &&& sessions.contains_key(id)
        &&& entities_answer(sessions[id], snap.sessions@[i].entities@)
        &&& relationships_answer(sessions[id], snap.sessions@[i].relationships@)
    }
    &&& forall|k: Seq<char>| #[trigger] sessions.contains_key(k) ==> snapshot_ids(snap).contains(k)
    &&& snapshot_processed(snap) == processed
}

/// Applying the entities of a graph with distinct names, in order, to an
/// empty graph rebuilds its nodes.
proof fn lemma_restore_entities(m: SessionModel, ents: Seq<Entity>, k: int)
    requires
        session_wf(m),
        no_dup_names(m.names),
        entities_answer(m, ents),
        0 <= k <= ents.len(),
    ensures
        apply_entities(empty_session(), ents.take(k)) == (SessionModel {
            names: m.names.take(k),
            types: m.types.take(k),
            attrs: m.attrs.take(k),
            edges: Seq::empty(),
            labels: Seq::empty(),
        }),
    decreases k,
{
    if k == 0 {
        assert(ents.take(0) =~= Seq::<Entity>::empty());
        assert(m.names.take(0) =~= Seq::<Seq<char>>::empty());
        assert(m.types.take(0) =~= Seq::<Seq<char>>::empty());
        assert(m.attrs.take(0) =~= Seq::<Seq<(Seq<char>, Seq<char>)>>::empty());
        assert(empty_session() == (SessionModel {
            names: m.names.take(0),
            types: m.types.take(0),
            attrs: m.attrs.take(0),
            edges: Seq::empty(),
            labels: Seq::empty(),
        }));
    } else {
        lemma_restore_entities(m, ents, k - 1);
        assert(ents.take(k).drop_last() =~= ents.take(k - 1));
        let e = ents[k - 1];
        assert(ents.take(k).last() == e);
        assert(e.name@ == m.names[k - 1]);
        let prev = m.names.take(k - 1);
        assert forall|j: int| 0 <= j < prev.len() implies prev[j] != e.name@ by {
            assert(prev[j] == m.names[j]);
        }
        assert(spec_find(prev, e.name@) is None);
        assert(m.names.take(k) =~= prev.push(m.names[k - 1]));
        assert(m.types.take(k) =~= m.types.take(k - 1).push(m.types[k - 1]));
        assert(m.attrs.take(k) =~= m.attrs.take(k - 1).push(m.attrs[k - 1]));
    }
}

/// Applying the relationships of a graph with distinct names, in order, to
/// its nodes rebuilds its edges.
proof fn lemma_restore_relationships(m: SessionModel, rels: Seq<Relationship>, k: int)
    requires
        session_wf(m),
        no_dup_names(m.names),
        relationships_answer(m, rels),
        0 <= k <= rels.len(),
    ensures
        apply_relationships(SessionModel { edges: Seq::empty(), labels: Seq::empty(), ..m }, rels.take(k))
            == (SessionModel { edges: m.edges.take(k), labels: m.labels.take(k), ..m }),
    decreases k,
{
    let base = SessionModel { edges: Seq::empty(), labels: Seq::empty(), ..m };
    if k == 0 {
        assert(rels.take(0) =~= Seq::<Relationship>::empty());
        assert(m.edges.take(0) =~= Seq::<(nat, nat)>::empty());
        assert(m.labels.take(0) =~= Seq::<Seq<char>>::empty());
        assert(base == (SessionModel { edges: m.edges.take(0), labels: m.labels.take(0), ..m }));
    } else {
        lemma_restore_relationships(m, rels, k - 1);
        assert(rels.take(k).drop_last() =~= rels.take(k - 1));
        let r = rels[k - 1];
        assert(rels.take(k).last() == r);
        let prev = SessionModel { edges: m.edges.take(k - 1), labels: m.labels.take(k - 1), ..m };
        let (a, b) = m.edges[k - 1];
        assert(r.from@ == m.names[a as int] && r.to@ == m.names[b as int]);
        lemma_find_unique(m.names, r.from@, a as int);
        lemma_find_unique(m.names, r.to@, b as int);
        assert(ensure_entity_model(prev, r.from@, "Other"@, Seq::empty()) == prev);
        assert(m.edges.take(k) =~= m.edges.take(k - 1).push(m.edges[k - 1]));
        assert(m.labels.take(k) =~= m.labels.take(k - 1).push(m.labels[k - 1]));
    }
}

/// A session snapshot taken from a well-formed graph restores that graph.
pub proof fn lemma_restore_session(m: SessionModel, s: SessionGraphSnapshot)
    requires
        session_wf(m),
        no_dup_names(m.names),
        entities_answer(m, s.entities@),
        relationships_answer(m, s.relationships@),
    ensures
        restored_session(s) == m,
{
    let ents = s.entities@;
    let rels = s.relationships@;
    lemma_restore_entities(m, ents, ents.len() as int);
    assert(ents.take(ents.len() as int) =~= ents);
    assert(m.names.take(ents.len() as int) =~= m.names);
    assert(m.types.take(ents.len() as int) =~= m.types);
    assert(m.attrs.take(ents.len() as int) =~= m.attrs);
    lemma_restore_relationships(m, rels, rels.len() as int);
    assert(rels.take(rels.len() as int) =~= rels);
    assert(m.edges.take(rels.len() as int) =~= m.edges);
    assert(m.labels.take(rels.len() as int) =~= m.labels);
}

/// Restoring a snapshot that describes well-formed session graphs gives back
/// those graphs and the processed keys, when every session fits the index space.
pub proof fn lemma_graph_snapshot_round_trip(snap: GraphSnapshot, sessions: Map<Seq<char>, SessionModel>, processed: Set<Seq<char>>)
    requires
        graph_describes(snap, sessions, processed),
        sessions_well_formed(sessions),
        snapshot_fits(snap),
    ensures
        snapshot_sessions(snap) == sessions,
        snapshot_processed(snap) == processed,
{
    lemma_restore_all_fit(snap.sessions@);
    let kvs = snap.sessions@.map_values(|s: SessionGraphSnapshot| (s.session_id@, restored_session(s)));
    let ks = kvs.map_values(|p: (Seq<char>, SessionModel)| p.0);
    let vs = kvs.map_values(|p: (Seq<char>, SessionModel)| p.1);
    assert(ks =~= snapshot_ids(snap));
    lemma_fold_insert_to_map(kvs);
    assert forall|i: int| 0 <= i < vs.len() implies vs[i] == sessions[ks[i]] by {
        let s = snap.sessions@[i];
        assert(sessions.contains_key(s.session_id@));
        lemma_restore_session(sessions[s.session_id@], s);
    }
    assert forall|k: Seq<char>| #[trigger] to_map(ks, vs).contains_key(k) <==> sessions.contains_key(k) by {
        if sessions.contains_key(k) {
            let i = choose|i: int| 0 <= i < ks.len() && ks[i] == k;
            assert(0 <= i < ks.len() && ks[i] == k);
        }
        if to_map(ks, vs).contains_key(k) {
            lemma_find_some(ks, k);
            let i = spec_find(ks, k).unwrap() as int;
            assert(sessions.contains_key(snap.sessions@[i].session_id@));
        }
    }
    assert forall|k: Seq<char>| #[trigger] to_map(ks, vs).contains_key(k) implies to_map(ks, vs)[k] == sessions[k] by {
        lemma_find_some(ks, k);
    }
    assert(to_map(ks, vs) =~= sessions);
}

impl KnowledgeGraph {
    /// Sets the graph of `session_id` to `sg`.
    fn put_session(&mut self, session_id: &str, sg: SessionGraph)
        requires
            old(self).wf(),
            sg.wf(),
        ensures
            final(self).wf(),
            final(self).sessions() == old(self).sessions().insert(session_id@, sg.model()),
            final(self).processed() == old(self).processed(),
    {
        let ghost ks = keys_of(self.sessions@);
        let ghost vs = session_models(self.sessions@);
        let ghost m = sg.model();
        match find_key(&self.sessions, session_id) {
            Some(i) => {
                let sid = self.sessions[i].0.clone();
                self.sessions.set(i, (sid, sg));
                proof {
                    assert(keys_of(self.sessions@) =~= ks);
                    assert(session_models(self.sessions@) =~= vs.update(i as int, m));
                    lemma_to_map_update(ks, vs, i as int, m);
                    assert forall|j: int| 0 <= j < self.sessions@.len() implies (#[trigger] self.sessions@[j]).1.wf() by {
                        if j != i {
                            assert(self.sessions@[j] == old(self).sessions@[j]);
                        }
                    }
                }
            },
            None => {
                self.sessions.push((string_from(session_id), sg));
                proof {
                    assert(keys_of(self.sessions@) =~= ks.push(session_id@));
                    assert(session_models(self.sessions@) =~= vs.push(m));
                    lemma_to_map_push(ks, vs, session_id@, m);
                    assert forall|j: int| 0 <= j < self.sessions@.len() implies (#[trigger] self.sessions@[j]).1.wf() by {
                        if j < ks.len() {
                            assert(self.sessions@[j] == old(self).sessions@[j]);
                        }
                    }
                }
            },
        }
    }

    /// The graph's part of a state snapshot.
    pub fn to_snapshot(&self) -> (s: GraphSnapshot)
        requires
            self.wf(),
        ensures
            graph_describes(s, self.sessions(), self.processed()),
            sessions_well_formed(self.sessions()),
    {
        let mut out: Vec<SessionGraphSnapshot> = Vec::new();
        let mut i: usize = 0;
        while i < self.sessions.len()
            invariant
                self.wf(),
                i <= self.sessions@.len(),
                out@.len() == i,
                forall|j: int| 0 <= j < i ==> {
                    &&& (#[trigger] out@[j]).session_id@ == self.sessions@[j].0@
                    &&& entities_answer(self.sessions@[j].1.model(), out@[j].entities@)
                    &&& relationships_answer(self.sessions@[j].1.model(), out@[j].relationships@)
                },
            decreases self.sessions@.len() - i,
        {
            let g = &self.sessions[i].1;
            out.push(SessionGraphSnapshot {
                session_id: self.sessions[i].0.clone(),
                entities: g.all_entities(),
                relationships: g.all_relationships(),
            });
            i = i + 1;
        }
        let snap = GraphSnapshot { sessions: out, processed: copy_strings(self.processed.as_slice()) };
        proof {
            let keys = keys_of(self.sessions@);
            assert(snapshot_ids(snap) =~= keys);
            assert forall|j: int| 0 <= j < snap.sessions@.len() implies {
                let id = (#[trigger] snap.sessions@[j]).session_id@;
                &&& self.sessions().contains_key(id)
                &&& entities_answer(self.sessions()[id], snap.sessions@[j].entities@)
                &&& relationships_answer(self.sessions()[id], snap.sessions@[j].relationships@)
            } by {
                assert(keys[j] == self.sessions@[j].0@);
                lemma_find_unique(keys, keys[j], j);
                assert(session_models(self.sessions@)[j] == self.sessions@[j].1.model());
            }
            assert forall|k: Seq<char>| #[trigger] self.sessions().contains_key(k) implies snapshot_ids(snap).contains(k) by {
                lemma_find_some(keys, k);
            }
            assert(snapshot_processed(snap) =~= self.processed());
            assert forall|k: Seq<char>| #[trigger] self.sessions().contains_key(k) implies
                session_wf(self.sessions()[k]) && no_dup_names(self.sessions()[k].names) by {
                lemma_find_some(keys, k);
                let j = spec_find(keys, k).unwrap() as int;
                assert(session_models(self.sessions@)[j] == self.sessions@[j].1.model());
                self.sessions@[j].1.lemma_wf();
            }
        }
        snap
    }

    /// The graph a snapshot restores (see [`snapshot_sessions`]).
    pub fn from_snapshot(snap: GraphSnapshot) -> (g: KnowledgeGraph)
        ensures
            g.wf(),
            g.sessions() == snapshot_sessions(snap),
            g.processed() == snapshot_processed(snap),
    {
        let mut g = KnowledgeGraph::new();
        let ghost ss = snap.sessions@;
        let mut i: usize = 0;
        assert(ss.take(0) =~= Seq::<SessionGraphSnapshot>::empty());
        while i < snap.sessions.len()
            invariant
                g.wf(),
                ss == snap.sessions@,
                i <= ss.len(),
                g.sessions() == restore_sessions(ss.take(i as int)),
                g.processed() == Set::<Seq<char>>::empty(),
            decreases ss.len() - i,
        {
            let s = &snap.sessions[i];
            assert(ss.take(i as int + 1).drop_last() =~= ss.take(i as int));
            assert(ss.take(i as int + 1).last() == ss[i as int]);
            let ne = s.entities.len() as u64;
            let nr = s.relationships.len() as u64;
            if ne < 0xffff_ffff && nr <= 0x7fff_ffff && ne + 2 * nr < 0xffff_ffff {
                let mut sg = SessionGraph::new();
                sg.apply(&s.entities, &s.relationships);
                g.put_session(s.session_id.as_str(), sg);
            }
            i = i + 1;
        }
        assert(ss.take(ss.len() as int) =~= ss);
        g.processed = copy_strings(snap.processed.as_slice());
        proof {
            assert(g.processed() =~= snapshot_processed(snap));
        }
        g
    }
}

impl Default for KnowledgeGraph {
    fn default() -> (g: KnowledgeGraph)
        ensures
            g.wf(),
            g.sessions() == Map::<Seq<char>, SessionModel>::empty(),
            g.processed() == Set::<Seq<char>>::empty(),
    {
        KnowledgeGraph::new()
    }
}

} // verus!
