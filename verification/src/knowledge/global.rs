//! The global knowledge graph: one graph merged from every shared session.
//!
//! Entities are unified by name across sessions and remember which sessions
//! (and agents) contributed them; relationships are deduplicated by
//! (from, to, type) and remember their contributing sessions. Entity types and
//! attributes are last-writer-wins by the Raft log index of the write.

use vstd::prelude::*;
use crate::assoc::{find_key, fold_insert, keys_of, to_map, lemma_fold_insert_to_map, lemma_to_map_push, lemma_to_map_update, lemma_find_some};
use crate::digraph::{adjacent, index_limit};
use crate::knowledge::graph::{named_path, path_found, related_entry_matches, related_matches, PathEdge, RelatedEntity, RelationshipDirection};
use crate::knowledge::types::{attrs_view, Entity, Relationship};
use crate::text::{insert_sorted, strictly_sorted};
use crate::topology::{
    is_walk, lemma_find_unique, nat_seq, no_dup_names, reachable, spec_find, spec_related, string_from, str_eq,
    LabeledGraph,
};

verus! {

/// Whether a session's knowledge is merged into the global graph.
#[derive(Debug, Clone, Copy, PartialEq, Eq, Structural)]
pub enum Visibility {
    Private,
    Shared,
}

impl Default for Visibility {
    /// Sessions are private unless made shared.
    fn default() -> (v: Visibility)
        ensures
            v is Private,
    {
        Visibility::Private
    }
}

/// An entity with several targets for the same relationship type.
#[derive(Debug, Clone)]
pub struct Conflict {
    pub from: String,
    pub relationship_type: String,
    pub targets: Vec<String>,
}

impl Default for GlobalGraph {
    fn default() -> (g: GlobalGraph)
        ensures
            g.wf(),
            g.model() == empty_global(),
    {
        GlobalGraph::new()
    }
}

/// Abstract state of one global entity.
pub struct GNode {
    pub name: Seq<char>,
    pub etype: Seq<char>,
    pub etype_index: u64,
    /// key -> (value, log index of the write)
    pub attrs: Map<Seq<char>, (Seq<char>, u64)>,
    /// session -> agent of that session, if one was named
    pub prov: Map<Seq<char>, Option<Seq<char>>>,
}

/// Abstract state of the global graph: nodes, edges (source, target) with
/// their relationship types and contributing sessions, by index.
pub struct GlobalModel {
    pub nodes: Seq<GNode>,
    pub edges: Seq<(nat, nat)>,
    pub labels: Seq<Seq<char>>,
    pub sources: Seq<Set<Seq<char>>>,
}

pub open spec fn gnames(m: GlobalModel) -> Seq<Seq<char>> {
    m.nodes.map_values(|n: GNode| n.name)
}

pub open spec fn empty_global() -> GlobalModel {
    GlobalModel { nodes: Seq::empty(), edges: Seq::empty(), labels: Seq::empty(), sources: Seq::empty() }
}

/// Node `name` is recorded as seen in `session`; its type is replaced when the
/// new type is a real one ("Other" is a placeholder) written at an index no
/// older than the current type's.
pub open spec fn g_touch(n: GNode, ty: Seq<char>, session: Seq<char>, agent: Option<Seq<char>>, index: u64) -> GNode {
    let n1 = GNode { prov: if n.prov.contains_key(session) { n.prov } else { n.prov.insert(session, agent) }, ..n };
    if ty != "Other"@ && index >= n1.etype_index {
        GNode { etype: ty, etype_index: index, ..n1 }
    } else {
        n1
    }
}

pub open spec fn g_new_node(name: Seq<char>, ty: Seq<char>, session: Seq<char>, agent: Option<Seq<char>>, index: u64) -> GNode {
    GNode {
        name,
        etype: ty,
        etype_index: index,
        attrs: Map::empty(),
        prov: Map::empty().insert(session, agent),
    }
}

pub open spec fn g_ensure(m: GlobalModel, name: Seq<char>, ty: Seq<char>, session: Seq<char>, agent: Option<Seq<char>>, index: u64) -> GlobalModel {
    match spec_find(gnames(m), name) {
        Some(i) => GlobalModel { nodes: m.nodes.update(i as int, g_touch(m.nodes[i as int], ty, session, agent, index)), ..m },
        None => GlobalModel { nodes: m.nodes.push(g_new_node(name, ty, session, agent, index)), ..m },
    }
}

/// Attributes written at `index`: each key keeps the value of the latest write.
pub open spec fn g_merge_attrs(a: Map<Seq<char>, (Seq<char>, u64)>, kvs: Seq<(Seq<char>, Seq<char>)>, index: u64) -> Map<Seq<char>, (Seq<char>, u64)>
    decreases kvs.len(),
{
    if kvs.len() == 0 {
        a
    } else {
        let prev = g_merge_attrs(a, kvs.drop_last(), index);
        let (k, v) = kvs.last();
        if !prev.contains_key(k) || index >= prev[k].1 {
            prev.insert(k, (v, index))
        } else {
            prev
        }
    }
}

pub open spec fn g_merge_entity(m: GlobalModel, e: Entity, session: Seq<char>, agent: Option<Seq<char>>, index: u64) -> GlobalModel {
    let m1 = g_ensure(m, e.name@, e.entity_type@, session, agent, index);
    let i = spec_find(gnames(m1), e.name@).unwrap() as int;
    GlobalModel {
        nodes: m1.nodes.update(i, GNode { attrs: g_merge_attrs(m1.nodes[i].attrs, attrs_view(e.attributes@), index), ..m1.nodes[i] }),
        ..m1
    }
}

pub open spec fn g_merge_entities(m: GlobalModel, ents: Seq<Entity>, session: Seq<char>, agent: Option<Seq<char>>, index: u64) -> GlobalModel
    decreases ents.len(),
{
    if ents.len() == 0 {
        m
    } else {
        g_merge_entity(g_merge_entities(m, ents.drop_last(), session, agent, index), ents.last(), session, agent, index)
    }
}

/// The edge `a -> b` of type `t`, if there is one.
pub open spec fn g_find_edge(m: GlobalModel, a: nat, b: nat, t: Seq<char>) -> Option<nat> {
    if exists|e: int| 0 <= e < m.edges.len() && m.edges[e] == (a, b) && m.labels[e] == t {
        Some((choose|e: int| 0 <= e < m.edges.len() && m.edges[e] == (a, b) && m.labels[e] == t) as nat)
    } else {
        None
    }
}

pub open spec fn g_merge_relationship(m: GlobalModel, r: Relationship, session: Seq<char>, agent: Option<Seq<char>>, index: u64) -> GlobalModel {
    let m1 = g_ensure(m, r.from@, "Other"@, session, agent, index);
    let m2 = g_ensure(m1, r.to@, "Other"@, session, agent, index);
    let a = spec_find(gnames(m2), r.from@).unwrap();
    let b = spec_find(gnames(m2), r.to@).unwrap();
    match g_find_edge(m2, a, b, r.relationship_type@) {
        Some(e) => GlobalModel { sources: m2.sources.update(e as int, m2.sources[e as int].insert(session)), ..m2 },
        None => GlobalModel {
            edges: m2.edges.push((a, b)),
            labels: m2.labels.push(r.relationship_type@),
            sources: m2.sources.push(Set::empty().insert(session)),
            ..m2
        },
    }
}

pub open spec fn g_merge_relationships(m: GlobalModel, rels: Seq<Relationship>, session: Seq<char>, agent: Option<Seq<char>>, index: u64) -> GlobalModel
    decreases rels.len(),
{
    if rels.len() == 0 {
        m
    } else {
        g_merge_relationship(g_merge_relationships(m, rels.drop_last(), session, agent, index), rels.last(), session, agent, index)
    }
}

/// Well-formed global state: unique names, edges between existing nodes, and
/// at most one edge per (from, to, type).
pub open spec fn global_wf(m: GlobalModel) -> bool {
    &&& no_dup_names(gnames(m))
    &&& m.labels.len() == m.edges.len()
    &&& m.sources.len() == m.edges.len()
    &&& forall|e: int| 0 <= e < m.edges.len() ==> (#[trigger] m.edges[e]).0 < m.nodes.len() && m.edges[e].1 < m.nodes.len()
    &&& forall|e1: int, e2: int| 0 <= e1 < m.edges.len() && 0 <= e2 < m.edges.len() && e1 != e2
        && m.edges[e1] == m.edges[e2] ==> m.labels[e1] != m.labels[e2]
}

/// Per-node data kept beside the structural graph.
pub struct GlobalNodeData {
    entity_type: String,
    entity_type_index: u64,
    attributes: Vec<(String, (String, u64))>,
    provenance: Vec<(String, Option<String>)>,
}

pub open spec fn opt_view(o: Option<String>) -> Option<Seq<char>> {
    match o {
        Some(s) => Some(s@),
        None => None,
    }
}

/// The map from session to agent that a provenance list stands for.
pub open spec fn prov_map(v: Seq<(String, Option<String>)>) -> Map<Seq<char>, Option<Seq<char>>> {
    to_map(keys_of(v), v.map_values(|p: (String, Option<String>)| opt_view(p.1)))
}

impl GlobalNodeData {
    pub closed spec fn attrs_model(&self) -> Map<Seq<char>, (Seq<char>, u64)> {
        to_map(keys_of(self.attributes@), self.attributes@.map_values(|p: (String, (String, u64))| (p.1.0@, p.1.1)))
    }

    pub closed spec fn prov_model(&self) -> Map<Seq<char>, Option<Seq<char>>> {
        prov_map(self.provenance@)
    }

    pub closed spec fn wf(&self) -> bool {
        &&& no_dup_names(keys_of(self.attributes@))
        &&& no_dup_names(keys_of(self.provenance@))
    }

    pub closed spec fn node_model(&self, name: Seq<char>) -> GNode {
        GNode {
            name,
            etype: self.entity_type@,
            etype_index: self.entity_type_index,
            attrs: self.attrs_model(),
            prov: self.prov_model(),
        }
    }
}


pub fn clone_opt(o: &Option<String>) -> (r: Option<String>)
    ensures
        opt_view(r) == opt_view(*o),
{
    match o {
        Some(s) => Some(s.clone()),
        None => None,
    }
}

/// `v` without the pair keyed `key`.
pub fn without_key(v: &Vec<(String, Option<String>)>, key: &str) -> (r: Vec<(String, Option<String>)>)
    requires
        no_dup_names(keys_of(v@)),
    ensures
        no_dup_names(keys_of(r@)),
        prov_map(r@) == prov_map(v@).remove(key@),
{
    let ghost ks = keys_of(v@);
    let ghost vs = v@.map_values(|p: (String, Option<String>)| opt_view(p.1));
    match find_key(v, key) {
        None => {
            let mut r: Vec<(String, Option<String>)> = Vec::new();
            let mut i: usize = 0;
            while i < v.len()
                invariant
                    i <= v@.len(),
                    r@.len() == i,
                    forall|j: int| 0 <= j < i ==> (#[trigger] r@[j]).0@ == v@[j].0@ && opt_view(r@[j].1) == opt_view(v@[j].1),
                decreases v@.len() - i,
            {
                r.push((v[i].0.clone(), clone_opt(&v[i].1)));
                i = i + 1;
            }
            proof {
                assert(keys_of(r@) =~= ks);
                assert(r@.map_values(|p: (String, Option<String>)| opt_view(p.1)) =~= vs);
                assert(to_map(ks, vs).remove(key@) =~= to_map(ks, vs));
            }
            r
        },
        Some(t) => {
            let mut r: Vec<(String, Option<String>)> = Vec::new();
            let mut i: usize = 0;
            while i < v.len()
                invariant
                    t < v@.len(),
                    i <= v@.len(),
                    r@.len() == if i <= t { i as int } else { i - 1 },
                    forall|q: int| 0 <= q < r@.len() && q < t ==> (#[trigger] r@[q]).0@ == v@[q].0@ && opt_view(r@[q].1) == opt_view(v@[q].1),
                    forall|q: int| t <= q < r@.len() ==> (#[trigger] r@[q]).0@ == v@[q + 1].0@ && opt_view(r@[q].1) == opt_view(v@[q + 1].1),
                decreases v@.len() - i,
            {
                if i != t {
                    r.push((v[i].0.clone(), clone_opt(&v[i].1)));
                }
                i = i + 1;
            }
            proof {
                assert(keys_of(r@) =~= ks.remove(t as int));
                assert(r@.map_values(|p: (String, Option<String>)| opt_view(p.1)) =~= vs.remove(t as int));
                crate::assoc::lemma_to_map_remove(ks, vs, t as int);
            }
            r
        },
    }
}

/// `v` without the string `x`.
pub fn without_value(v: &Vec<String>, x: &str) -> (r: Vec<String>)
    requires
        unique_strings(v@),
    ensures
        unique_strings(r@),
        string_set(r@) == string_set(v@).remove(x@),
{
    let ghost a = v@.map_values(|s: String| s@);
    let mut r: Vec<String> = Vec::new();
    let mut i: usize = 0;
    while i < v.len()
        invariant
            a == v@.map_values(|s: String| s@),
            no_dup_names(a),
            i <= v@.len(),
            r@.map_values(|s: String| s@) == a.take(i as int).filter(|y: Seq<char>| y != x@),
        decreases v@.len() - i,
    {
        let ghost before = r@.map_values(|s: String| s@);
        if !str_eq(v[i].as_str(), x) {
            r.push(v[i].clone());
            assert(r@.map_values(|s: String| s@) =~= before.push(a[i as int]));
        }
        proof {
            let f = |y: Seq<char>| y != x@;
            assert(a.take(i as int + 1).drop_last() =~= a.take(i as int));
            assert(a.take(i as int + 1).filter(f) == if f(a[i as int]) {
                a.take(i as int).filter(f).push(a[i as int])
            } else {
                a.take(i as int).filter(f)
            }) by {
                reveal(Seq::filter);
            }
        }
        i = i + 1;
    }
    proof {
        let f = |y: Seq<char>| y != x@;
        assert(a.take(a.len() as int) =~= a);
        let b = r@.map_values(|s: String| s@);
        assert forall|y: Seq<char>| b.contains(y) <==> (a.contains(y) && y != x@) by {
            if b.contains(y) {
                a.lemma_filter_contains_rev(f, y);
                let j = choose|j: int| 0 <= j < b.len() && b[j] == y;
                a.lemma_filter_pred(f, j);
            }
            if a.contains(y) && y != x@ {
                let j = choose|j: int| 0 <= j < a.len() && a[j] == y;
                a.lemma_filter_contains(f, j);
            }
        }
        assert(string_set(r@) =~= string_set(v@).remove(x@));
        lemma_filter_no_dup(a, f);
    }
    r
}

proof fn lemma_filter_no_dup(a: Seq<Seq<char>>, f: spec_fn(Seq<char>) -> bool)
    requires
        no_dup_names(a),
    ensures
        no_dup_names(a.filter(f)),
    decreases a.len(),
{
    reveal(Seq::filter);
    if a.len() > 0 {
        let rest = a.drop_last();
        assert(no_dup_names(rest));
        lemma_filter_no_dup(rest, f);
        let fr = rest.filter(f);
        if f(a.last()) {
            assert forall|i: int| 0 <= i < fr.len() implies fr[i] != a.last() by {
                rest.lemma_filter_contains_rev(f, fr[i]);
                let j = choose|j: int| 0 <= j < rest.len() && rest[j] == fr[i];
                assert(a[j] == rest[j]);
            }
            let g = fr.push(a.last());
            assert(a.filter(f) == g);
            assert forall|i: int, j: int| 0 <= i < g.len() && 0 <= j < g.len() && i != j implies g[i] != g[j] by {
                if i < fr.len() && j < fr.len() {
                } else if i == fr.len() {
                    assert(g[j] == fr[j]);
                } else {
                    assert(g[i] == fr[i]);
                }
            }
        }
    }
}

/// A copy of an attribute table.
pub fn clone_attr_entries(v: &Vec<(String, (String, u64))>) -> (r: Vec<(String, (String, u64))>)
    ensures
        r@.len() == v@.len(),
        forall|j: int| 0 <= j < v@.len() ==> (#[trigger] r@[j]).0@ == v@[j].0@ && r@[j].1.0@ == v@[j].1.0@ && r@[j].1.1 == v@[j].1.1,
{
    let mut r: Vec<(String, (String, u64))> = Vec::new();
    let mut i: usize = 0;
    while i < v.len()
        invariant
            i <= v@.len(),
            r@.len() == i,
            forall|j: int| 0 <= j < i ==> (#[trigger] r@[j]).0@ == v@[j].0@ && r@[j].1.0@ == v@[j].1.0@ && r@[j].1.1 == v@[j].1.1,
        decreases v@.len() - i,
    {
        r.push((v[i].0.clone(), (v[i].1.0.clone(), v[i].1.1)));
        i = i + 1;
    }
    r
}

impl GlobalNodeData {
    /// Attributes as (key, current value) pairs, in insertion order.
    fn attribute_pairs(&self) -> (r: Vec<(String, String)>)
        requires
            self.wf(),
        ensures
            no_dup_names(attrs_view(r@).map_values(|p: (Seq<char>, Seq<char>)| p.0)),
            pairs_map(attrs_view(r@)) == self.attrs_model().map_values(|v: (Seq<char>, u64)| v.0),
    {
        let mut r: Vec<(String, String)> = Vec::new();
        let mut i: usize = 0;
        while i < self.attributes.len()
            invariant
                self.wf(),
                i <= self.attributes@.len(),
                r@.len() == i,
                forall|j: int| 0 <= j < i ==> (#[trigger] r@[j]).0@ == self.attributes@[j].0@ && r@[j].1@ == self.attributes@[j].1.0@,
            decreases self.attributes@.len() - i,
        {
            r.push((self.attributes[i].0.clone(), self.attributes[i].1.0.clone()));
            i = i + 1;
        }
        proof {
            let ks = attrs_view(r@).map_values(|p: (Seq<char>, Seq<char>)| p.0);
            assert(ks =~= keys_of(self.attributes@));
            let vs = attrs_view(r@).map_values(|p: (Seq<char>, Seq<char>)| p.1);
            let avs = self.attributes@.map_values(|p: (String, (String, u64))| (p.1.0@, p.1.1));
            assert forall|k: Seq<char>| #[trigger] pairs_map(attrs_view(r@)).contains_key(k) implies
                pairs_map(attrs_view(r@))[k] == self.attrs_model().map_values(|v: (Seq<char>, u64)| v.0)[k] by {
                lemma_find_some(ks, k);
            }
            assert(pairs_map(attrs_view(r@)) =~= self.attrs_model().map_values(|v: (Seq<char>, u64)| v.0));
        }
        r
    }

    fn new_node(ty: &str, session: &str, agent: &Option<String>, index: u64) -> (d: GlobalNodeData)
        ensures
            d.wf(),
            forall|name: Seq<char>| #[trigger] d.node_model(name) == g_new_node(name, ty@, session@, opt_view(*agent), index),
    {
        let mut provenance: Vec<(String, Option<String>)> = Vec::new();
        provenance.push((string_from(session), clone_opt(agent)));
        let d = GlobalNodeData {
            entity_type: string_from(ty),
            entity_type_index: index,
            attributes: Vec::new(),
            provenance,
        };
        proof {
            let ks = keys_of(d.provenance@);
            assert(ks =~= seq![session@]);
            lemma_find_unique(ks, session@, 0);
            assert(d.attrs_model() =~= Map::empty());
            assert(d.prov_model() =~= Map::<Seq<char>, Option<Seq<char>>>::empty().insert(session@, opt_view(*agent)));
        }
        d
    }

    fn touch(&mut self, ty: &str, session: &str, agent: &Option<String>, index: u64)
        requires
            old(self).wf(),
        ensures
            final(self).wf(),
            forall|name: Seq<char>| #[trigger] final(self).node_model(name) == g_touch(old(self).node_model(name), ty@, session@, opt_view(*agent), index),
    {
        if find_key(&self.provenance, session).is_none() {
            let ghost ks = keys_of(self.provenance@);
            let ghost vs = self.provenance@.map_values(|p: (String, Option<String>)| opt_view(p.1));
            self.provenance.push((string_from(session), clone_opt(agent)));
            proof {
                assert(keys_of(self.provenance@) =~= ks.push(session@));
                assert(self.provenance@.map_values(|p: (String, Option<String>)| opt_view(p.1)) =~= vs.push(opt_view(*agent)));
                lemma_to_map_push(ks, vs, session@, opt_view(*agent));
            }
        }
        let other = "Other";
        if !str_eq(ty, other) && index >= self.entity_type_index {
            self.entity_type = string_from(ty);
            self.entity_type_index = index;
        }
    }

    fn merge_attrs(&mut self, kvs: &Vec<(String, String)>, index: u64)
        requires
            old(self).wf(),
        ensures
            final(self).wf(),
            forall|name: Seq<char>| #[trigger] final(self).node_model(name) == (GNode {
                attrs: g_merge_attrs(old(self).node_model(name).attrs, attrs_view(kvs@), index),
                ..old(self).node_model(name)
            }),
    {
        let ghost a0 = self.attrs_model();
        let mut i: usize = 0;
        while i < kvs.len()
            invariant
                self.wf(),
                i <= kvs@.len(),
                self.attrs_model() == g_merge_attrs(a0, attrs_view(kvs@).take(i as int), index),
                self.entity_type == old(self).entity_type,
                self.entity_type_index == old(self).entity_type_index,
                self.provenance == old(self).provenance,
            decreases kvs@.len() - i,
        {
            let key = &kvs[i].0;
            let value = &kvs[i].1;
            let ghost ks = keys_of(self.attributes@);
            let ghost vs = self.attributes@.map_values(|p: (String, (String, u64))| (p.1.0@, p.1.1));
            proof {
                assert(attrs_view(kvs@).take(i as int + 1).drop_last() =~= attrs_view(kvs@).take(i as int));
                assert(attrs_view(kvs@).take(i as int + 1).last() == (key@, value@));
            }
            match find_key(&self.attributes, key.as_str()) {
                None => {
                    self.attributes.push((key.clone(), (value.clone(), index)));
                    proof {
                        assert(keys_of(self.attributes@) =~= ks.push(key@));
                        assert(self.attributes@.map_values(|p: (String, (String, u64))| (p.1.0@, p.1.1)) =~= vs.push((value@, index)));
                        lemma_to_map_push(ks, vs, key@, (value@, index));
                    }
                },
                Some(j) => {
                    proof {
                        lemma_find_some(ks, key@);
                        assert(vs[j as int] == (self.attributes@[j as int].1.0@, self.attributes@[j as int].1.1));
                    }
                    if index >= self.attributes[j].1.1 {
                        let entry = (key.clone(), (value.clone(), index));
                        self.attributes.set(j, entry);
                        proof {
                            assert(keys_of(self.attributes@) =~= ks);
                            assert(self.attributes@.map_values(|p: (String, (String, u64))| (p.1.0@, p.1.1)) =~= vs.update(j as int, (value@, index)));
                            lemma_to_map_update(ks, vs, j as int, (value@, index));
                        }
                    }
                },
            }
            i = i + 1;
        }
        assert(attrs_view(kvs@).take(kvs@.len() as int) =~= attrs_view(kvs@));
    }
}


impl GlobalNodeData {
    /// This entity as a node snapshot called `name`.
    fn snapshot(&self, name: &String) -> (ns: GlobalNodeSnapshot)
        requires
            self.wf(),
        ensures
            snap_node(ns) == self.node_model(name@),
    {
        let mut attributes: Vec<(String, String, u64)> = Vec::new();
        let mut i: usize = 0;
        while i < self.attributes.len()
            invariant
                self.wf(),
                i <= self.attributes@.len(),
                attributes@.len() == i,
                forall|j: int| 0 <= j < i ==> (#[trigger] attributes@[j]).0@ == self.attributes@[j].0@
                    && attributes@[j].1@ == self.attributes@[j].1.0@ && attributes@[j].2 == self.attributes@[j].1.1,
            decreases self.attributes@.len() - i,
        {
            let (k, (v, x)) = &self.attributes[i];
            attributes.push((k.clone(), v.clone(), *x));
            i = i + 1;
        }
        let mut provenance: Vec<(String, Option<String>)> = Vec::new();
        let mut i: usize = 0;
        while i < self.provenance.len()
            invariant
                self.wf(),
                i <= self.provenance@.len(),
                provenance@.len() == i,
                forall|j: int| 0 <= j < i ==> (#[trigger] provenance@[j]).0@ == self.provenance@[j].0@
                    && opt_view(provenance@[j].1) == opt_view(self.provenance@[j].1),
            decreases self.provenance@.len() - i,
        {
            provenance.push((self.provenance[i].0.clone(), clone_opt(&self.provenance[i].1)));
            i = i + 1;
        }
        let ns = GlobalNodeSnapshot {
            name: name.clone(),
            entity_type: self.entity_type.clone(),
            entity_type_index: self.entity_type_index,
            attributes,
            provenance,
        };
        proof {
            let sa = snap_attrs(ns);
            assert(sa.map_values(|p: (Seq<char>, (Seq<char>, u64))| p.0) =~= keys_of(self.attributes@));
            assert(sa.map_values(|p: (Seq<char>, (Seq<char>, u64))| p.1)
                =~= self.attributes@.map_values(|p: (String, (String, u64))| (p.1.0@, p.1.1)));
            lemma_fold_insert_to_map(sa);
            let sp = snap_prov(ns);
            assert(sp.map_values(|p: (Seq<char>, Option<Seq<char>>)| p.0) =~= keys_of(self.provenance@));
            assert(sp.map_values(|p: (Seq<char>, Option<Seq<char>>)| p.1)
                =~= self.provenance@.map_values(|p: (String, Option<String>)| opt_view(p.1)));
            lemma_fold_insert_to_map(sp);
        }
        ns
    }

    /// The entity a node snapshot describes; of repeated keys the later pair wins.
    fn from_snapshot_node(ns: &GlobalNodeSnapshot) -> (d: GlobalNodeData)
        ensures
            d.wf(),
            forall|name: Seq<char>| #[trigger] d.node_model(name) == (GNode { name, ..snap_node(*ns) }),
    {
        let mut attributes: Vec<(String, (String, u64))> = Vec::new();
        let ghost sa = snap_attrs(*ns);
        let mut i: usize = 0;
        assert(sa.take(0) =~= Seq::<(Seq<char>, (Seq<char>, u64))>::empty());
        assert(attributes@.map_values(|p: (String, (String, u64))| (p.1.0@, p.1.1)) =~= Seq::<(Seq<char>, u64)>::empty());
        while i < ns.attributes.len()
            invariant
                sa == snap_attrs(*ns),
                i <= ns.attributes@.len(),
                no_dup_names(keys_of(attributes@)),
                to_map(keys_of(attributes@), attributes@.map_values(|p: (String, (String, u64))| (p.1.0@, p.1.1)))
                    == fold_insert(sa.take(i as int)),
            decreases ns.attributes@.len() - i,
        {
            let (k, v, x) = &ns.attributes[i];
            let ghost ks = keys_of(attributes@);
            let ghost vs = attributes@.map_values(|p: (String, (String, u64))| (p.1.0@, p.1.1));
            proof {
                assert(sa.take(i as int + 1).drop_last() =~= sa.take(i as int));
                assert(sa.take(i as int + 1).last() == (k@, (v@, *x)));
            }
            match find_key(&attributes, k.as_str()) {
                None => {
                    attributes.push((k.clone(), (v.clone(), *x)));
                    proof {
                        assert(keys_of(attributes@) =~= ks.push(k@));
                        assert(attributes@.map_values(|p: (String, (String, u64))| (p.1.0@, p.1.1)) =~= vs.push((v@, *x)));
                        lemma_to_map_push(ks, vs, k@, (v@, *x));
                    }
                },
                Some(j) => {
                    proof { lemma_find_some(ks, k@); }
                    attributes.set(j, (k.clone(), (v.clone(), *x)));
                    proof {
                        assert(keys_of(attributes@) =~= ks);
                        assert(attributes@.map_values(|p: (String, (String, u64))| (p.1.0@, p.1.1)) =~= vs.update(j as int, (v@, *x)));
                        lemma_to_map_update(ks, vs, j as int, (v@, *x));
                    }
                },
            }
            i = i + 1;
        }
        let mut provenance: Vec<(String, Option<String>)> = Vec::new();
        let ghost sp = snap_prov(*ns);
        let mut i: usize = 0;
        assert(sp.take(0) =~= Seq::<(Seq<char>, Option<Seq<char>>)>::empty());
        assert(prov_map(provenance@) =~= Map::empty());
        while i < ns.provenance.len()
            invariant
                sp == snap_prov(*ns),
                i <= ns.provenance@.len(),
                no_dup_names(keys_of(provenance@)),
                prov_map(provenance@) == fold_insert(sp.take(i as int)),
            decreases ns.provenance@.len() - i,
        {
            let (sess, ag) = &ns.provenance[i];
            let ghost ks = keys_of(provenance@);
            let ghost vs = provenance@.map_values(|p: (String, Option<String>)| opt_view(p.1));
            proof {
                assert(sp.take(i as int + 1).drop_last() =~= sp.take(i as int));
                assert(sp.take(i as int + 1).last() == (sess@, opt_view(*ag)));
            }
            match find_key(&provenance, sess.as_str()) {
                None => {
                    provenance.push((sess.clone(), clone_opt(ag)));
                    proof {
                        assert(keys_of(provenance@) =~= ks.push(sess@));
                        assert(provenance@.map_values(|p: (String, Option<String>)| opt_view(p.1)) =~= vs.push(opt_view(*ag)));
                        lemma_to_map_push(ks, vs, sess@, opt_view(*ag));
                    }
                },
                Some(j) => {
                    proof { lemma_find_some(ks, sess@); }
                    provenance.set(j, (sess.clone(), clone_opt(ag)));
                    proof {
                        assert(keys_of(provenance@) =~= ks);
                        assert(provenance@.map_values(|p: (String, Option<String>)| opt_view(p.1)) =~= vs.update(j as int, opt_view(*ag)));
                        lemma_to_map_update(ks, vs, j as int, opt_view(*ag));
                    }
                },
            }
            i = i + 1;
        }
        proof {
            assert(sa.take(sa.len() as int) =~= sa);
            assert(sp.take(sp.len() as int) =~= sp);
        }
        GlobalNodeData { entity_type: ns.entity_type.clone(), entity_type_index: ns.entity_type_index, attributes, provenance }
    }
}

/// A copy of a list of strings.
pub fn clone_strings(v: &Vec<String>) -> (r: Vec<String>)
    ensures
        r@.map_values(|s: String| s@) == v@.map_values(|s: String| s@),
{
    let mut r: Vec<String> = Vec::new();
    let mut i: usize = 0;
    while i < v.len()
        invariant
            i <= v@.len(),
            r@.map_values(|s: String| s@) == v@.map_values(|s: String| s@).take(i as int),
        decreases v@.len() - i,
    {
        let ghost before = r@;
        r.push(v[i].clone());
        assert(r@ == before.push(v@[i as int]));
        assert(r@.map_values(|s: String| s@) =~= before.map_values(|s: String| s@).push(v@[i as int]@));
        assert(r@.map_values(|s: String| s@) =~= v@.map_values(|s: String| s@).take(i as int + 1));
        i = i + 1;
    }
    assert(v@.map_values(|s: String| s@).take(v@.len() as int) =~= v@.map_values(|s: String| s@));
    r
}

/// Adds each of `xs` to a list of distinct strings.
pub fn insert_all_unique(v: &mut Vec<String>, xs: &Vec<String>)
    requires
        unique_strings(old(v)@),
    ensures
        unique_strings(final(v)@),
        string_set(final(v)@) == string_set(old(v)@).union(string_set(xs@)),
{
    let mut i: usize = 0;
    while i < xs.len()
        invariant
            i <= xs@.len(),
            unique_strings(v@),
            string_set(v@) == string_set(old(v)@).union(string_set(xs@.take(i as int))),
        decreases xs@.len() - i,
    {
        insert_unique(v, xs[i].as_str());
        proof {
            let a = xs@.take(i as int);
            let b = xs@.take(i as int + 1);
            assert(b.map_values(|s: String| s@) =~= a.map_values(|s: String| s@).push(xs@[i as int]@));
            a.map_values(|s: String| s@).lemma_push_to_set_commute(xs@[i as int]@);
            assert(string_set(v@) =~= string_set(old(v)@).union(string_set(b)));
        }
        i = i + 1;
    }
    proof {
        assert(xs@.take(xs@.len() as int) =~= xs@);
    }
}


/// Set view of a list of strings.
pub open spec fn string_set(v: Seq<String>) -> Set<Seq<char>> {
    v.map_values(|s: String| s@).to_set()
}

pub open spec fn unique_strings(v: Seq<String>) -> bool {
    no_dup_names(v.map_values(|s: String| s@))
}

/// Adds `x` to a list of distinct strings unless it is there already.
pub fn insert_unique(v: &mut Vec<String>, x: &str)
    requires
        unique_strings(old(v)@),
    ensures
        unique_strings(final(v)@),
        string_set(final(v)@) == string_set(old(v)@).insert(x@),
{
    let ghost a = old(v)@.map_values(|s: String| s@);
    let mut i: usize = 0;
    while i < v.len()
        invariant
            v@ == old(v)@,
            unique_strings(v@),
            a == v@.map_values(|s: String| s@),
            i <= v@.len(),
            forall|j: int| 0 <= j < i ==> a[j] != x@,
        decreases v@.len() - i,
    {
        if str_eq(v[i].as_str(), x) {
            proof {
                assert(a[i as int] == x@);
                assert(string_set(v@).insert(x@) =~= string_set(v@));
            }
            return;
        }
        i = i + 1;
    }
    v.push(string_from(x));
    proof {
        let b = v@.map_values(|s: String| s@);
        assert(b =~= a.push(x@));
        assert forall|y: Seq<char>| b.contains(y) <==> (a.contains(y) || y == x@) by {
            if b.contains(y) {
                let j = choose|j: int| 0 <= j < b.len() && b[j] == y;
                if j < a.len() { assert(a[j] == y); }
            }
            if a.contains(y) {
                let j = choose|j: int| 0 <= j < a.len() && a[j] == y;
                assert(b[j] == y);
            }
            if y == x@ { assert(b[a.len() as int] == y); }
        }
        assert(string_set(v@) =~= string_set(old(v)@).insert(x@));
    }
}

/// The global knowledge graph.
pub struct GlobalGraph {
    topo: LabeledGraph,
    nodes: Vec<GlobalNodeData>,
    sources: Vec<Vec<String>>,
}

impl GlobalGraph {
    pub closed spec fn model(&self) -> GlobalModel {
        GlobalModel {
            nodes: Seq::new(self.nodes@.len(), |i: int| self.nodes@[i].node_model(self.topo.names()[i])),
            edges: self.topo.edges(),
            labels: self.topo.labels(),
            sources: self.sources@.map_values(|v: Vec<String>| string_set(v@)),
        }
    }

    pub closed spec fn wf(&self) -> bool {
        &&& self.topo.wf()
        &&& self.nodes@.len() == self.topo.names().len()
        &&& self.sources@.len() == self.topo.edges().len()
        &&& forall|i: int| 0 <= i < self.nodes@.len() ==> (#[trigger] self.nodes@[i]).wf()
        &&& forall|e: int| 0 <= e < self.sources@.len() ==> unique_strings((#[trigger] self.sources@[e])@)
        &&& global_wf(self.model())
    }

    /// A well-formed graph's model is well formed.
    pub proof fn lemma_wf(&self)
        requires
            self.wf(),
        ensures
            global_wf(self.model()),
    {
    }

    proof fn lemma_names(&self)
        requires
            self.nodes@.len() == self.topo.names().len(),
        ensures
            gnames(self.model()) == self.topo.names(),
    {
        assert(gnames(self.model()) =~= self.topo.names());
    }

    pub fn new() -> (g: Self)
        ensures
            g.wf(),
            g.model() == empty_global(),
    {
        let g = GlobalGraph { topo: LabeledGraph::new(), nodes: Vec::new(), sources: Vec::new() };
        assert(g.model().nodes =~= Seq::<GNode>::empty());
        assert(g.model().sources =~= Seq::<Set<Seq<char>>>::empty());
        g
    }

    fn ensure_entity(&mut self, name: &str, ty: &str, session: &str, agent: &Option<String>, index: u64) -> (idx: usize)
        requires
            old(self).wf(),
            g_ensure(old(self).model(), name@, ty@, session@, opt_view(*agent), index).nodes.len() <= index_limit(),
        ensures
            final(self).wf(),
            final(self).model() == g_ensure(old(self).model(), name@, ty@, session@, opt_view(*agent), index),
            spec_find(gnames(final(self).model()), name@) == Some(idx as nat),
    {
        proof { self.lemma_names(); }
        let ghost m0 = self.model();
        let (idx, created) = self.topo.ensure_node(name);
        if created {
            let d = GlobalNodeData::new_node(ty, session, agent, index);
            self.nodes.push(d);
            proof {
                assert(self.model().nodes =~= m0.nodes.push(g_new_node(name@, ty@, session@, opt_view(*agent), index)));
            }
        } else {
            let mut d = self.nodes.remove(idx);
            d.touch(ty, session, agent, index);
            self.nodes.insert(idx, d);
            proof {
                assert(self.model().nodes =~= m0.nodes.update(idx as int, g_touch(m0.nodes[idx as int], ty@, session@, opt_view(*agent), index)));
            }
        }
        proof {
            self.lemma_names();
            self.topo.lemma_wf();
            lemma_find_unique(self.topo.names(), name@, idx as int);
            assert forall|i: int| 0 <= i < self.nodes@.len() implies (#[trigger] self.nodes@[i]).wf() by {
                if i != idx as int {
                    if created {
                        assert(self.nodes@[i] == old(self).nodes@[i]);
                    } else {
                        assert(self.nodes@[i] == old(self).nodes@[i]);
                    }
                }
            }
            assert(gnames(self.model()) == self.topo.names());
        }
        idx
    }

    fn find_edge(&self, a: usize, b: usize, label: &str) -> (r: Option<usize>)
        requires
            self.wf(),
            a < self.model().nodes.len(),
        ensures
            r == match g_find_edge(self.model(), a as nat, b as nat, label@) { Some(e) => Some(e as usize), None => None::<usize> },
    {
        let outs = self.topo.out_edges(a);
        let ghost sa = adjacent(self.model().edges, a as nat, true);
        let mut k: usize = 0;
        while k < outs.len()
            invariant
                self.wf(),
                k <= outs@.len(),
                outs@.len() == sa.len(),
                sa == adjacent(self.model().edges, a as nat, true),
                forall|j: int| 0 <= j < outs@.len() ==> (#[trigger] outs@[j]).0 as nat == sa[j].0 && outs@[j].1 as nat == sa[j].1,
                forall|j: int| 0 <= j < k ==> sa[j].1 != b as nat || self.model().labels[sa[j].0 as int] != label@,
            decreases outs@.len() - k,
        {
            let (e, other) = outs[k];
            proof { crate::topology::lemma_adjacent_sound(self.model().edges, a as nat, true, k as int); }
            if other == b && str_eq(self.topo.label(e).as_str(), label) {
                proof {
                    let m = self.model();
                    assert(m.edges[e as int] == (a as nat, b as nat) && m.labels[e as int] == label@);
                    let c = choose|c: int| 0 <= c < m.edges.len() && m.edges[c] == (a as nat, b as nat) && m.labels[c] == label@;
                    assert(c == e as int);
                }
                return Some(e);
            }
            k = k + 1;
        }
        proof {
            let m = self.model();
            if exists|c: int| 0 <= c < m.edges.len() && m.edges[c] == (a as nat, b as nat) && m.labels[c] == label@ {
                let c = choose|c: int| 0 <= c < m.edges.len() && m.edges[c] == (a as nat, b as nat) && m.labels[c] == label@;
                crate::topology::lemma_adjacent_complete(m.edges, a as nat, true, c);
                let j = choose|j: int| 0 <= j < sa.len() && #[trigger] sa[j].0 == c;
                crate::topology::lemma_adjacent_sound(m.edges, a as nat, true, j);
            }
        }
        None
    }

    fn merge_entity(&mut self, e: &Entity, session: &str, agent: &Option<String>, index: u64)
        requires
            old(self).wf(),
            g_merge_entity(old(self).model(), *e, session@, opt_view(*agent), index).nodes.len() <= index_limit(),
        ensures
            final(self).wf(),
            final(self).model() == g_merge_entity(old(self).model(), *e, session@, opt_view(*agent), index),
    {
        proof {
            lemma_g_ensure_keeps(self.model(), e.name@, e.entity_type@, session@, opt_view(*agent), index);
            lemma_find_some(gnames(g_ensure(self.model(), e.name@, e.entity_type@, session@, opt_view(*agent), index)), e.name@);
        }
        let i = self.ensure_entity(e.name.as_str(), e.entity_type.as_str(), session, agent, index);
        let ghost m1 = self.model();
        let ghost mid_nodes = self.nodes@;
        let mut d = self.nodes.remove(i);
        d.merge_attrs(&e.attributes, index);
        self.nodes.insert(i, d);
        proof {
            let n1 = m1.nodes[i as int];
            assert(self.model().nodes =~= m1.nodes.update(i as int, GNode { attrs: g_merge_attrs(n1.attrs, attrs_view(e.attributes@), index), ..n1 }));
            assert forall|j: int| 0 <= j < self.nodes@.len() implies (#[trigger] self.nodes@[j]).wf() by {
                if j != i as int {
                    assert(self.nodes@[j] == mid_nodes[j]);
                }
            }
            assert(gnames(self.model()) =~= gnames(m1));
            assert(global_wf(self.model()));
        }
    }

    fn merge_relationship(&mut self, r: &Relationship, session: &str, agent: &Option<String>, index: u64)
        requires
            old(self).wf(),
            fits_index_space(g_merge_relationship(old(self).model(), *r, session@, opt_view(*agent), index)),
        ensures
            final(self).wf(),
            final(self).model() == g_merge_relationship(old(self).model(), *r, session@, opt_view(*agent), index),
    {
        proof {
            let m0 = self.model();
            let m1 = g_ensure(m0, r.from@, "Other"@, session@, opt_view(*agent), index);
            lemma_g_ensure_keeps(m1, r.to@, "Other"@, session@, opt_view(*agent), index);
            lemma_g_ensure_keeps(m0, r.from@, "Other"@, session@, opt_view(*agent), index);
        }
        let a = self.ensure_entity(r.from.as_str(), "Other", session, agent, index);
        let ghost m1 = self.model();
        let b = self.ensure_entity(r.to.as_str(), "Other", session, agent, index);
        let ghost m2 = self.model();
        proof {
            self.lemma_names();
            self.topo.lemma_wf();
            lemma_find_some(gnames(m1), r.from@);
            lemma_g_ensure_keeps(m1, r.to@, "Other"@, session@, opt_view(*agent), index);
            lemma_find_unique(gnames(m2), r.from@, a as int);
        }
        match self.find_edge(a, b, r.relationship_type.as_str()) {
            Some(e) => {
                let ghost before = self.sources@;
                let mut srcs = self.sources.remove(e);
                insert_unique(&mut srcs, session);
                self.sources.insert(e, srcs);
                proof {
                    assert(self.model().sources =~= m2.sources.update(e as int, m2.sources[e as int].insert(session@)));
                    assert(self.model().nodes =~= m2.nodes);
                    assert forall|j: int| 0 <= j < self.sources@.len() implies unique_strings((#[trigger] self.sources@[j])@) by {
                        if j != e as int {
                            assert(self.sources@[j] == before[j]);
                        }
                    }
                    assert(gnames(self.model()) =~= gnames(m2));
                }
            },
            None => {
                let ghost before = self.sources@;
                self.topo.add_edge(a, b, r.relationship_type.as_str());
                let mut srcs: Vec<String> = Vec::new();
                insert_unique(&mut srcs, session);
                self.sources.push(srcs);
                proof {
                    assert(string_set(Seq::<String>::empty()) =~= Set::empty());
                    assert(self.model().sources =~= m2.sources.push(Set::empty().insert(session@)));
                    assert(self.model().nodes =~= m2.nodes);
                    assert forall|j: int| 0 <= j < self.sources@.len() implies unique_strings((#[trigger] self.sources@[j])@) by {
                        if j < before.len() {
                            assert(self.sources@[j] == before[j]);
                        }
                    }
                    assert(gnames(self.model()) =~= gnames(m2));
                    let m = self.model();
                    assert forall|e1: int, e2: int| 0 <= e1 < m.edges.len() && 0 <= e2 < m.edges.len() && e1 != e2
                        && m.edges[e1] == m.edges[e2] implies m.labels[e1] != m.labels[e2] by {
                        if e1 < m2.edges.len() && e2 < m2.edges.len() {
                        } else if e1 == m2.edges.len() {
                            assert(m.edges[e1] == (a as nat, b as nat));
                            assert(m.labels[e1] == r.relationship_type@);
                            assert(m2.edges[e2] == (a as nat, b as nat));
                        } else {
                            assert(m2.edges[e1] == (a as nat, b as nat));
                        }
                    }
                }
            },
        }
    }

    /// Merges one extraction from `session_id` (written by `agent_id`, if any)
    /// at log index `index` into the global graph.
    pub fn merge_with_agent(
        &mut self,
        session_id: &str,
        agent_id: Option<String>,
        index: u64,
        entities: Vec<Entity>,
        relationships: Vec<Relationship>,
    )
        requires
            old(self).wf(),
            fits_index_space(g_merge_relationships(
                g_merge_entities(old(self).model(), entities@, session_id@, opt_view(agent_id), index),
                relationships@, session_id@, opt_view(agent_id), index)),
        ensures
            final(self).wf(),
            final(self).model() == g_merge_relationships(
                g_merge_entities(old(self).model(), entities@, session_id@, opt_view(agent_id), index),
                relationships@, session_id@, opt_view(agent_id), index),
    {
        let ghost m0 = self.model();
        let ghost ag = opt_view(agent_id);
        let ghost rs = relationships@;
        let mut i: usize = 0;
        assert(entities@.skip(0) =~= entities@);
        while i < entities.len()
            invariant
                self.wf(),
                i <= entities@.len(),
                self.model() == g_merge_entities(m0, entities@.take(i as int), session_id@, ag, index),
                fits_index_space(g_merge_relationships(
                    g_merge_entities(self.model(), entities@.skip(i as int), session_id@, ag, index), rs, session_id@, ag, index)),
                rs == relationships@,
                ag == opt_view(agent_id),
            decreases entities@.len() - i,
        {
            let ghost cur = self.model();
            let ghost e = entities@[i as int];
            proof {
                let rest = entities@.skip(i as int + 1);
                assert(entities@.skip(i as int) =~= seq![e] + rest);
                lemma_merge_entities_split(cur, seq![e], rest, session_id@, ag, index);
                assert(seq![e].drop_last() =~= Seq::<Entity>::empty());
                assert(seq![e].last() == e);
                assert(g_merge_entities(cur, Seq::<Entity>::empty(), session_id@, ag, index) == cur);
                let next = g_merge_entity(cur, e, session_id@, ag, index);
                assert(g_merge_entities(cur, seq![e], session_id@, ag, index) == next);
                lemma_merge_entities_grow(next, rest, session_id@, ag, index);
                lemma_merge_relationships_grow(g_merge_entities(next, rest, session_id@, ag, index), rs, session_id@, ag, index);
            }
            self.merge_entity(&entities[i], session_id, &agent_id, index);
            assert(entities@.take(i as int + 1).drop_last() =~= entities@.take(i as int));
            i = i + 1;
        }
        assert(entities@.take(entities@.len() as int) =~= entities@);
        assert(entities@.skip(entities@.len() as int) =~= Seq::<Entity>::empty());
        let ghost m1 = self.model();
        let mut j: usize = 0;
        assert(relationships@.skip(0) =~= relationships@);
        while j < relationships.len()
            invariant
                self.wf(),
                j <= relationships@.len(),
                self.model() == g_merge_relationships(m1, relationships@.take(j as int), session_id@, ag, index),
                fits_index_space(g_merge_relationships(self.model(), relationships@.skip(j as int), session_id@, ag, index)),
                ag == opt_view(agent_id),
            decreases relationships@.len() - j,
        {
            let ghost cur = self.model();
            let ghost r = relationships@[j as int];
            proof {
                let rest = relationships@.skip(j as int + 1);
                assert(relationships@.skip(j as int) =~= seq![r] + rest);
                lemma_merge_relationships_split(cur, seq![r], rest, session_id@, ag, index);
                assert(seq![r].drop_last() =~= Seq::<Relationship>::empty());
                assert(seq![r].last() == r);
                assert(g_merge_relationships(cur, Seq::<Relationship>::empty(), session_id@, ag, index) == cur);
                let next = g_merge_relationship(cur, r, session_id@, ag, index);
                assert(g_merge_relationships(cur, seq![r], session_id@, ag, index) == next);
                lemma_merge_relationships_grow(next, rest, session_id@, ag, index);
            }
            self.merge_relationship(&relationships[j], session_id, &agent_id, index);
            assert(relationships@.take(j as int + 1).drop_last() =~= relationships@.take(j as int));
            j = j + 1;
        }
        assert(relationships@.take(relationships@.len() as int) =~= relationships@);
    }

    /// Entities related to `name`: outgoing relationships first, then incoming ones, newest first.
    pub fn get_related(&self, name: &str) -> (r: Vec<RelatedEntity>)
        requires
            self.wf(),
        ensures
            global_related_answer(self.model(), name@, r@),
    {
        proof { self.lemma_names(); }
        match self.topo.find(name) {
            None => Vec::new(),
            Some(n) => {
                proof { self.topo.lemma_wf(); }
                let rel = self.topo.related(n);
                let ghost m = self.model();
                let ghost target = g_related_model(m, n as nat);
                let ghost sr = spec_related(m.edges, n as nat);
                proof { lemma_g_related_in_range(m, n as nat); }
                let mut r: Vec<RelatedEntity> = Vec::new();
                let mut i: usize = 0;
                while i < rel.len()
                    invariant
                        self.wf(),
                        m == self.model(),
                        gnames(m) == self.topo.names(),
                        sr == spec_related(m.edges, n as nat),
                        target == g_related_model(m, n as nat),
                        rel@.len() == sr.len(),
                        forall|j: int| 0 <= j < rel@.len() ==> ({
                            let x = #[trigger] rel@[j];
                            x.0 as nat == sr[j].0 && x.1 as nat == sr[j].1 && x.2 == sr[j].2
                        }),
                        forall|j: int| 0 <= j < sr.len() ==> (#[trigger] sr[j]).0 < m.nodes.len() && sr[j].1 < m.edges.len(),
                        i <= rel@.len(),
                        r@.len() == i,
                        forall|j: int| 0 <= j < i ==> related_entry_matches(#[trigger] r@[j], target[j]),
                    decreases rel@.len() - i,
                {
                    let (other, e, outgoing) = rel[i];
                    let item = RelatedEntity {
                        name: self.topo.name(other).clone(),
                        entity_type: self.nodes[other].entity_type.clone(),
                        relationship_type: self.topo.label(e).clone(),
                        direction: if outgoing { RelationshipDirection::Outgoing } else { RelationshipDirection::Incoming },
                    };
                    r.push(item);
                    i = i + 1;
                }
                r
            },
        }
    }

    /// The current value of attribute `key` of entity `name`.
    pub fn entity_attribute(&self, name: &str, key: &str) -> (r: Option<String>)
        requires
            self.wf(),
        ensures
            r is Some <==> (spec_find(gnames(self.model()), name@) is Some
                && self.model().nodes[spec_find(gnames(self.model()), name@).unwrap() as int].attrs.contains_key(key@)),
            r matches Some(v) ==> v@ == self.model().nodes[spec_find(gnames(self.model()), name@).unwrap() as int].attrs[key@].0,
    {
        proof { self.lemma_names(); }
        match self.topo.find(name) {
            None => None,
            Some(n) => {
                let d = &self.nodes[n];
                match find_key(&d.attributes, key) {
                    None => None,
                    Some(j) => {
                        proof {
                            lemma_find_some(keys_of(d.attributes@), key@);
                        }
                        Some(d.attributes[j].1.0.clone())
                    },
                }
            },
        }
    }

    /// All entities, with each attribute's current value.
    pub fn all_entities(&self) -> (r: Vec<Entity>)
        requires
            self.wf(),
        ensures
            global_entities_answer(self.model(), r@),
    {
        let n = self.nodes.len();
        let mut r: Vec<Entity> = Vec::new();
        let mut i: usize = 0;
        while i < n
            invariant
                self.wf(),
                n == self.model().nodes.len(),
                i <= n,
                r@.len() == i,
                forall|j: int| 0 <= j < i ==> {
                    &&& (#[trigger] r@[j]).name@ == self.model().nodes[j].name
                    &&& r@[j].entity_type@ == self.model().nodes[j].etype
                    &&& no_dup_names(attrs_view(r@[j].attributes@).map_values(|p: (Seq<char>, Seq<char>)| p.0))
                    &&& pairs_map(attrs_view(r@[j].attributes@)) == self.model().nodes[j].attrs.map_values(|v: (Seq<char>, u64)| v.0)
                },
            decreases n - i,
        {
            let d = &self.nodes[i];
            let attributes = d.attribute_pairs();
            r.push(Entity { name: self.topo.name(i).clone(), entity_type: d.entity_type.clone(), attributes });
            i = i + 1;
        }
        r
    }

    /// All relationships in insertion order.
    pub fn all_relationships(&self) -> (r: Vec<Relationship>)
        requires
            self.wf(),
        ensures
            global_relationships_answer(self.model(), r@),
    {
        proof { self.lemma_names(); }
        let m = self.topo.edge_count();
        let mut r: Vec<Relationship> = Vec::new();
        let mut e: usize = 0;
        while e < m
            invariant
                self.wf(),
                gnames(self.model()) == self.topo.names(),
                m == self.model().edges.len(),
                e <= m,
                r@.len() == e,
                forall|j: int| 0 <= j < e ==> {
                    &&& (#[trigger] r@[j]).from@ == self.model().nodes[self.model().edges[j].0 as int].name
                    &&& r@[j].to@ == self.model().nodes[self.model().edges[j].1 as int].name
                    &&& r@[j].relationship_type@ == self.model().labels[j]
                },
            decreases m - e,
        {
            let (a, b) = self.topo.endpoints(e);
            proof {
                assert(gnames(self.model())[a as int] == self.model().nodes[a as int].name);
                assert(gnames(self.model())[b as int] == self.model().nodes[b as int].name);
            }
            r.push(Relationship {
                from: self.topo.name(a).clone(),
                to: self.topo.name(b).clone(),
                relationship_type: self.topo.label(e).clone(),
            });
            e = e + 1;
        }
        r
    }

    /// Path search along outgoing edges between two named entities.
    pub fn find_path(&self, from: &str, to: &str) -> (r: Option<Vec<PathEdge>>)
        requires
            self.wf(),
        ensures
            global_path_answer(self.model(), from@, to@, r),
    {
        proof { self.lemma_names(); }
        named_path(&self.topo, from, to)
    }

    /// Removes every contribution of `session_id`. Entities and relationships
    /// left without any contributing session are dropped; the rest keep
    /// their order.
    pub fn prune_session(&mut self, session_id: &str)
        requires
            old(self).wf(),
        ensures
            final(self).wf(),
            final(self).model().nodes == pruned_nodes(old(self).model().nodes, session_id@, old(self).model().nodes.len()),
            named_edges(final(self).model()) == pruned_edges(old(self).model(), session_id@, old(self).model().edges.len()),
    {
        proof { self.lemma_names(); self.topo.lemma_wf(); }
        let ghost m = self.model();
        let ghost s = session_id@;
        let n = self.nodes.len();
        let mut topo = LabeledGraph::new();
        let mut nodes: Vec<GlobalNodeData> = Vec::new();
        let mut map: Vec<Option<usize>> = Vec::new();
        let mut i: usize = 0;
        while i < n
            invariant
                self.wf(),
                m == self.model(),
                s == session_id@,
                gnames(m) == self.topo.names(),
                n == m.nodes.len(),
                i <= n,
                topo.wf(),
                nodes@.len() == topo.names().len(),
                topo.edges().len() == 0,
                forall|k: int| 0 <= k < nodes@.len() ==> (#[trigger] nodes@[k]).wf(),
                Seq::new(nodes@.len(), |k: int| nodes@[k].node_model(topo.names()[k])) == pruned_nodes(m.nodes, s, i as nat),
                map@.len() == i,
                topo.names().len() <= i,
                n <= index_limit(),
                forall|j: int| 0 <= j < i ==> (#[trigger] map@[j] is Some <==> node_survives(m.nodes[j], s)),
                forall|j: int| 0 <= j < i && map@[j] is Some ==> (#[trigger] map@[j]).unwrap() < topo.names().len()
                    && topo.names()[map@[j].unwrap() as int] == m.nodes[j].name,
                forall|k: int| 0 <= k < topo.names().len() ==> exists|j: int| 0 <= j < i && #[trigger] topo.names()[k] == m.nodes[j].name,
            decreases n - i,
        {
            let d = &self.nodes[i];
            let prov = without_key(&d.provenance, session_id);
            proof {
                lemma_pruned_nodes_step(m.nodes, s, i as nat);
                assert(m.nodes[i as int] == d.node_model(gnames(m)[i as int]));
            }
            if prov.len() > 0 {
                proof {
                    let pk = keys_of(prov@);
                    assert(pk[0] == prov@[0].0@);
                    lemma_find_unique(pk, pk[0], 0);
                    assert(prov_map(prov@).contains_key(pk[0]));
                    assert(d.prov_model() == prov_map(d.provenance@));
                    assert(prov_map(d.provenance@).remove(s).contains_key(pk[0]));
                    assert(d.prov_model().remove(s).contains_key(pk[0]));
                    assert(m.nodes[i as int].prov.contains_key(pk[0]) && pk[0] != s);
                    assert(node_survives(m.nodes[i as int], s));
                    assert forall|k: int| 0 <= k < topo.names().len() implies topo.names()[k] != m.nodes[i as int].name by {
                        let j = choose|j: int| 0 <= j < i && #[trigger] topo.names()[k] == m.nodes[j].name;
                        assert(gnames(m)[j] == m.nodes[j].name);
                        assert(gnames(m)[i as int] == m.nodes[i as int].name);
                    }
                    assert(gnames(m)[i as int] == m.nodes[i as int].name);
                }
                let ghost before = nodes@;
                let ghost old_names = topo.names();
                let (k, _) = topo.ensure_node(self.topo.name(i).as_str());
                let nd = GlobalNodeData {
                    entity_type: d.entity_type.clone(),
                    entity_type_index: d.entity_type_index,
                    attributes: clone_attr_entries(&d.attributes),
                    provenance: prov,
                };
                nodes.push(nd);
                map.push(Some(k));
                proof {
                    assert(keys_of(nd.attributes@) =~= keys_of(d.attributes@));
                    assert(nd.attributes@.map_values(|p: (String, (String, u64))| (p.1.0@, p.1.1))
                        =~= d.attributes@.map_values(|p: (String, (String, u64))| (p.1.0@, p.1.1)));
                    assert(nd.attrs_model() == d.attrs_model());
                    assert(nd.wf());
                    assert(nd.node_model(m.nodes[i as int].name) =~= pruned_node(m.nodes[i as int], s));
                    assert(Seq::new(nodes@.len(), |q: int| nodes@[q].node_model(topo.names()[q])) =~=
                        pruned_nodes(m.nodes, s, i as nat).push(pruned_node(m.nodes[i as int], s)));
                    assert forall|q: int| 0 <= q < nodes@.len() implies (#[trigger] nodes@[q]).wf() by {
                        if q < before.len() { assert(nodes@[q] == before[q]); }
                    }
                    assert forall|q: int| 0 <= q < topo.names().len() implies exists|j: int| 0 <= j < i + 1 && #[trigger] topo.names()[q] == m.nodes[j].name by {
                        if q < old_names.len() {
                            let j = choose|j: int| 0 <= j < i && #[trigger] old_names[q] == m.nodes[j].name;
                            assert(topo.names()[q] == m.nodes[j].name);
                        } else {
                            assert(topo.names()[q] == m.nodes[i as int].name);
                        }
                    }
                    assert forall|j: int| 0 <= j < i + 1 && map@[j] is Some implies (#[trigger] map@[j]).unwrap() < topo.names().len()
                        && topo.names()[map@[j].unwrap() as int] == m.nodes[j].name by {
                        if j < i {
                            assert(topo.names()[map@[j].unwrap() as int] == old_names[map@[j].unwrap() as int]);
                        }
                    }
                }
            } else {
                map.push(None);
                proof {
                    assert(!(d.prov_model().remove(s).dom().len() > 0) || true);
                    assert forall|k: Seq<char>| m.nodes[i as int].prov.contains_key(k) implies k == s by {
                        if k != s {
                            assert(d.prov_model().remove(s).contains_key(k));
                            lemma_find_some(keys_of(prov@), k);
                        }
                    }
                    assert(!node_survives(m.nodes[i as int], s));
                }
            }
            i = i + 1;
        }
        let ghost nm = GlobalModel {
            nodes: Seq::new(nodes@.len(), |k: int| nodes@[k].node_model(topo.names()[k])),
            edges: topo.edges(),
            labels: topo.labels(),
            sources: Seq::empty(),
        };
        let ecount = self.topo.edge_count();
        let mut sources: Vec<Vec<String>> = Vec::new();
        let mut e: usize = 0;
        let ghost mut origin: Seq<nat> = Seq::empty();
        while e < ecount
            invariant
                self.wf(),
                m == self.model(),
                s == session_id@,
                gnames(m) == self.topo.names(),
                ecount == m.edges.len(),
                n == m.nodes.len(),
                e <= ecount,
                topo.wf(),
                nodes@.len() == topo.names().len(),
                forall|k: int| 0 <= k < nodes@.len() ==> (#[trigger] nodes@[k]).wf(),
                Seq::new(nodes@.len(), |k: int| nodes@[k].node_model(topo.names()[k])) == pruned_nodes(m.nodes, s, n as nat),
                map@.len() == n,
                forall|j: int| 0 <= j < n ==> (#[trigger] map@[j] is Some <==> node_survives(m.nodes[j], s)),
                forall|j: int| 0 <= j < n && map@[j] is Some ==> (#[trigger] map@[j]).unwrap() < topo.names().len()
                    && topo.names()[map@[j].unwrap() as int] == m.nodes[j].name,
                sources@.len() == topo.edges().len(),
                topo.edges().len() <= e,
                ecount <= index_limit(),
                forall|q: int| 0 <= q < sources@.len() ==> unique_strings((#[trigger] sources@[q])@),
                origin.len() == topo.edges().len(),
                forall|q: int| 0 <= q < origin.len() ==> (#[trigger] origin[q]) < e
                    && map@[m.edges[origin[q] as int].0 as int] == Some(topo.edges()[q].0 as usize)
                    && map@[m.edges[origin[q] as int].1 as int] == Some(topo.edges()[q].1 as usize)
                    && topo.labels()[q] == m.labels[origin[q] as int],
                forall|q1: int, q2: int| 0 <= q1 < q2 < origin.len() ==> #[trigger] origin[q1] < #[trigger] origin[q2],
                named_edges_of(topo.names(), topo.edges(), topo.labels(), sources@) == pruned_edges(m, s, e as nat),
            decreases ecount - e,
        {
            let srcs = without_value(&self.sources[e], session_id);
            let (a, b) = self.topo.endpoints(e);
            proof {
                lemma_pruned_edges_step(m, s, e as nat);
                assert(self.sources@[e as int]@.map_values(|x: String| x@).to_set() == m.sources[e as int]);
            }
            if srcs.len() > 0 && map[a].is_some() && map[b].is_some() {
                let na = map[a].unwrap();
                let nb = map[b].unwrap();
                let ghost before_src = sources@;
                let ghost old_edges = topo.edges();
                let ghost old_labels = topo.labels();
                let ghost old_origin = origin;
                let ghost ne = named_edges_of(topo.names(), topo.edges(), topo.labels(), sources@);
                proof {
                    assert(srcs@.map_values(|x: String| x@)[0] == srcs@[0]@);
                    assert(string_set(srcs@).contains(srcs@[0]@));
                    assert(m.sources[e as int] == string_set(self.sources@[e as int]@));
                    assert(m.sources[e as int].contains(srcs@[0]@) && srcs@[0]@ != s);
                    assert(m.edges[e as int] == (a as nat, b as nat));
                    assert(edge_survives(m, s, e as nat));
                    self.topo.lemma_wf();
                }
                let lbl = self.topo.label(e);
                proof { topo.lemma_wf(); }
                topo.add_edge(na, nb, lbl.as_str());
                sources.push(srcs);
                proof {
                    origin = origin.push(e as nat);
                    assert forall|q: int| 0 <= q < sources@.len() implies unique_strings((#[trigger] sources@[q])@) by {
                        if q < before_src.len() { assert(sources@[q] == before_src[q]); }
                    }
                    let last = old_edges.len() as int;
                    assert(topo.edges()[last] == (na as nat, nb as nat));
                    assert(topo.labels()[last] == m.labels[e as int]);
                    assert forall|q: int| 0 <= q < origin.len() implies (#[trigger] origin[q]) < e + 1
                        && map@[m.edges[origin[q] as int].0 as int] == Some(topo.edges()[q].0 as usize)
                        && map@[m.edges[origin[q] as int].1 as int] == Some(topo.edges()[q].1 as usize)
                        && topo.labels()[q] == m.labels[origin[q] as int] by {
                        if q < last {
                            assert(origin[q] == old_origin[q]);
                            assert(topo.edges()[q] == old_edges[q]);
                            assert(topo.labels()[q] == old_labels[q]);
                        }
                    }
                    assert(topo.names()[na as int] == m.nodes[a as int].name);
                    assert(topo.names()[nb as int] == m.nodes[b as int].name);
                    assert(gnames(m)[a as int] == m.nodes[a as int].name);
                    assert(gnames(m)[b as int] == m.nodes[b as int].name);
                    let ne2 = named_edges_of(topo.names(), topo.edges(), topo.labels(), sources@);
                    assert forall|q: int| 0 <= q < last implies #[trigger] ne2[q] == ne[q] by {
                        assert(topo.edges()[q] == old_edges[q]);
                        assert(topo.labels()[q] == old_labels[q]);
                        assert(sources@[q] == before_src[q]);
                    }
                    assert(ne2[last] == pruned_edge(m, s, e as nat));
                    assert(ne2 =~= ne.push(pruned_edge(m, s, e as nat)));
                }
            } else {
                proof {
                    if edge_survives(m, s, e as nat) {
                        let k = choose|k: Seq<char>| m.sources[e as int].contains(k) && k != s;
                        assert(string_set(srcs@).contains(k));
                        let sv = srcs@.map_values(|x: String| x@);
                        assert(sv.contains(k));
                        assert(sv.len() > 0);
                        assert(m.edges[e as int] == (a as nat, b as nat));
                    }
                }
            }
            e = e + 1;
        }
        let ghost final_nodes = nodes@;
        self.topo = topo;
        self.nodes = nodes;
        self.sources = sources;
        proof {
            let fm = self.model();
            self.lemma_names();
            self.topo.lemma_wf();
            assert(fm.nodes =~= pruned_nodes(m.nodes, s, n as nat));
            assert(named_edges(fm) =~= named_edges_of(self.topo.names(), self.topo.edges(), self.topo.labels(), self.sources@));
            assert forall|e1: int, e2: int| 0 <= e1 < fm.edges.len() && 0 <= e2 < fm.edges.len() && e1 != e2
                && fm.edges[e1] == fm.edges[e2] implies fm.labels[e1] != fm.labels[e2] by {
                let o1 = origin[e1] as int;
                let o2 = origin[e2] as int;
                if e1 < e2 { assert(origin[e1] < origin[e2]); } else { assert(origin[e2] < origin[e1]); }
                let (x1, y1) = m.edges[o1];
                let (x2, y2) = m.edges[o2];
                assert(m.nodes[x1 as int].name == m.nodes[x2 as int].name);
                assert(m.nodes[y1 as int].name == m.nodes[y2 as int].name);
                assert(gnames(m)[x1 as int] == gnames(m)[x2 as int]);
                assert(gnames(m)[y1 as int] == gnames(m)[y2 as int]);
                assert(m.edges[o1] == m.edges[o2]);
            }
        }
    }


    /// Relationship types for which an entity has several targets, entity by entity.
    pub fn conflicts(&self) -> (r: Vec<Conflict>)
        requires
            self.wf(),
        ensures
            r@.map_values(|c: Conflict| conflict_view(c)) == graph_conflicts(self.model(), self.model().nodes.len()),
    {
        proof { self.lemma_names(); self.topo.lemma_wf(); }
        let ghost m = self.model();
        let count = self.nodes.len();
        let mut result: Vec<Conflict> = Vec::new();
        let mut n: usize = 0;
        while n < count
            invariant
                self.wf(),
                m == self.model(),
                gnames(m) == self.topo.names(),
                count == m.nodes.len(),
                n <= count,
                result@.map_values(|c: Conflict| conflict_view(c)) == graph_conflicts(m, n as nat),
            decreases count - n,
        {
            let outs = self.topo.out_edges(n);
            let ghost so = adjacent(m.edges, n as nat, true);
            let mut groups: Vec<(String, Vec<String>)> = Vec::new();
            let mut k: usize = 0;
            while k < outs.len()
                invariant
                    self.wf(),
                    m == self.model(),
                    gnames(m) == self.topo.names(),
                    n < count,
                    count == m.nodes.len(),
                    so == adjacent(m.edges, n as nat, true),
                    outs@.len() == so.len(),
                    forall|j: int| 0 <= j < outs@.len() ==> (#[trigger] outs@[j]).0 as nat == so[j].0 && outs@[j].1 as nat == so[j].1,
                    k <= outs@.len(),
                    keys_of(groups@) == first_labels(so.take(k as int), m.labels),
                    forall|j: int| 0 <= j < groups@.len() ==> (#[trigger] groups@[j]).1@.map_values(|s: String| s@)
                        == targets_labelled(so.take(k as int), m.labels, gnames(m), groups@[j].0@),
                decreases outs@.len() - k,
            {
                let (e, t) = outs[k];
                proof { crate::topology::lemma_adjacent_sound(m.edges, n as nat, true, k as int); }
                let lbl = self.topo.label(e);
                let tname = self.topo.name(t);
                let ghost prev = so.take(k as int);
                let ghost next = so.take(k as int + 1);
                proof {
                    assert(next.drop_last() =~= prev);
                    assert(next.last() == so[k as int]);
                    lemma_first_labels_no_dup(prev, m.labels);
                }
                let ghost before = groups@;
                match find_key(&groups, lbl.as_str()) {
                    Some(j) => {
                        let (g, mut ts) = groups.remove(j);
                        ts.push(tname.clone());
                        groups.insert(j, (g, ts));
                        proof {
                            lemma_find_some(keys_of(before), lbl@);
                            assert(first_labels(prev, m.labels).contains(lbl@));
                            assert(keys_of(groups@) =~= keys_of(before));
                            assert forall|q: int| 0 <= q < groups@.len() implies (#[trigger] groups@[q]).1@.map_values(|s: String| s@)
                                == targets_labelled(next, m.labels, gnames(m), groups@[q].0@) by {
                                if q == j as int {
                                    assert(groups@[q].1@.map_values(|s: String| s@)
                                        =~= before[q].1@.map_values(|s: String| s@).push(tname@));
                                } else {
                                    assert(groups@[q] == before[q]);
                                    assert(keys_of(before)[q] != lbl@);
                                }
                            }
                        }
                    },
                    None => {
                        let mut ts: Vec<String> = Vec::new();
                        ts.push(tname.clone());
                        groups.push((lbl.clone(), ts));
                        proof {
                            assert(!first_labels(prev, m.labels).contains(lbl@));
                            lemma_targets_absent(prev, m.labels, gnames(m), lbl@);
                            assert(keys_of(groups@) =~= keys_of(before).push(lbl@));
                            assert forall|q: int| 0 <= q < groups@.len() implies (#[trigger] groups@[q]).1@.map_values(|s: String| s@)
                                == targets_labelled(next, m.labels, gnames(m), groups@[q].0@) by {
                                if q < before.len() {
                                    assert(groups@[q] == before[q]);
                                    assert(keys_of(before)[q] != lbl@);
                                } else {
                                    assert(groups@[q].1@.map_values(|s: String| s@) =~= seq![tname@]);
                                }
                            }
                        }
                    },
                }
                k = k + 1;
            }
            proof { assert(so.take(so.len() as int) =~= so); }
            let ghost ls = first_labels(so, m.labels);
            let from = self.topo.name(n);
            let ghost base = result@.map_values(|c: Conflict| conflict_view(c));
            let mut j: usize = 0;
            while j < groups.len()
                invariant
                    self.wf(),
                    m == self.model(),
                    gnames(m) == self.topo.names(),
                    n < count,
                    count == m.nodes.len(),
                    so == adjacent(m.edges, n as nat, true),
                    ls == first_labels(so, m.labels),
                    from@ == gnames(m)[n as int],
                    keys_of(groups@) == ls,
                    forall|q: int| 0 <= q < groups@.len() ==> (#[trigger] groups@[q]).1@.map_values(|s: String| s@)
                        == targets_labelled(so, m.labels, gnames(m), groups@[q].0@),
                    j <= groups@.len(),
                    base == graph_conflicts(m, n as nat),
                    result@.map_values(|c: Conflict| conflict_view(c))
                        == base + conflict_groups(ls.take(j as int), so, m.labels, gnames(m), from@),
                decreases groups@.len() - j,
            {
                let ghost before = result@;
                proof {
                    assert(ls.take(j as int + 1).drop_last() =~= ls.take(j as int));
                    assert(ls.take(j as int + 1).last() == groups@[j as int].0@);
                }
                if groups[j].1.len() > 1 {
                    let c = Conflict {
                        from: from.clone(),
                        relationship_type: groups[j].0.clone(),
                        targets: groups[j].1.clone(),
                    };
                    result.push(c);
                    proof {
                        assert(result@.map_values(|c: Conflict| conflict_view(c))
                            =~= before.map_values(|c: Conflict| conflict_view(c)).push(conflict_view(c)));
                    }
                }
                j = j + 1;
            }
            proof {
                assert(ls.take(ls.len() as int) =~= ls);
            }
            n = n + 1;
        }
        result
    }


    /// Sessions that contributed entity `name`, in ascending order.
    pub fn entity_sources(&self, name: &str) -> (r: Vec<String>)
        requires
            self.wf(),
        ensures
            sources_answer(self.model(), name@, r@),
    {
        proof { self.lemma_names(); }
        match self.topo.find(name) {
            None => Vec::new(),
            Some(n) => {
                let d = &self.nodes[n];
                let ghost ks = keys_of(d.provenance@);
                let mut r: Vec<String> = Vec::new();
                let mut i: usize = 0;
                while i < d.provenance.len()
                    invariant
                        ks == keys_of(d.provenance@),
                        i <= d.provenance@.len(),
                        strictly_sorted(r@.map_values(|s: String| s@)),
                        r@.map_values(|s: String| s@).to_set() == ks.take(i as int).to_set(),
                    decreases d.provenance@.len() - i,
                {
                    insert_sorted(&mut r, d.provenance[i].0.clone());
                    assert(ks.take(i as int + 1) =~= ks.take(i as int).push(ks[i as int]));
                    proof { ks.take(i as int).lemma_push_to_set_commute(ks[i as int]); }
                    i = i + 1;
                }
                proof {
                    assert(ks.take(ks.len() as int) =~= ks);
                    assert(self.model().nodes[n as int] == d.node_model(gnames(self.model())[n as int]));
                    assert forall|k: Seq<char>| ks.to_set().contains(k) <==> #[trigger] d.prov_model().dom().contains(k) by {
                        if ks.contains(k) {
                            let j = choose|j: int| 0 <= j < ks.len() && ks[j] == k;
                            assert(0 <= j < ks.len() && ks[j] == k);
                        }
                        if d.prov_model().dom().contains(k) {
                            lemma_find_some(ks, k);
                        }
                    }
                    assert(ks.to_set() =~= d.prov_model().dom());
                }
                r
            },
        }
    }

    /// Agents named by the sessions that contributed entity `name`, distinct and in ascending order.
    pub fn entity_agents(&self, name: &str) -> (r: Vec<String>)
        requires
            self.wf(),
        ensures
            spec_find(gnames(self.model()), name@) is None ==> r@.len() == 0,
            spec_find(gnames(self.model()), name@) matches Some(i) ==> {
                &&& strictly_sorted(r@.map_values(|s: String| s@))
                &&& r@.map_values(|s: String| s@).to_set() == agents_of(self.model().nodes[i as int].prov)
            },
    {
        proof { self.lemma_names(); }
        match self.topo.find(name) {
            None => Vec::new(),
            Some(n) => {
                let d = &self.nodes[n];
                let ghost pv = d.provenance@;
                let mut r: Vec<String> = Vec::new();
                let mut i: usize = 0;
                while i < d.provenance.len()
                    invariant
                        pv == d.provenance@,
                        i <= pv.len(),
                        strictly_sorted(r@.map_values(|s: String| s@)),
                        r@.map_values(|s: String| s@).to_set()
                            == Set::new(|a: Seq<char>| exists|j: int| 0 <= j < i && #[trigger] opt_view(pv[j].1) == Some(a)),
                    decreases pv.len() - i,
                {
                    let ghost before = r@.map_values(|s: String| s@).to_set();
                    match &d.provenance[i].1 {
                        Some(a) => {
                            insert_sorted(&mut r, a.clone());
                            proof {
                                assert(opt_view(pv[i as int].1) == Some(a@));
                                assert(r@.map_values(|s: String| s@).to_set()
                                    =~= Set::new(|x: Seq<char>| exists|j: int| 0 <= j < i + 1 && #[trigger] opt_view(pv[j].1) == Some(x)));
                            }
                        },
                        None => {
                            proof {
                                assert(opt_view(pv[i as int].1) is None);
                                assert(r@.map_values(|s: String| s@).to_set()
                                    =~= Set::new(|x: Seq<char>| exists|j: int| 0 <= j < i + 1 && #[trigger] opt_view(pv[j].1) == Some(x)));
                            }
                        },
                    }
                    i = i + 1;
                }
                proof {
                    let ks = keys_of(pv);
                    assert(self.model().nodes[n as int] == d.node_model(gnames(self.model())[n as int]));
                    let pm = d.prov_model();
                    assert forall|x: Seq<char>| (exists|j: int| 0 <= j < pv.len() && #[trigger] opt_view(pv[j].1) == Some(x))
                        <==> #[trigger] agents_of(pm).contains(x) by {
                        if exists|j: int| 0 <= j < pv.len() && #[trigger] opt_view(pv[j].1) == Some(x) {
                            let j = choose|j: int| 0 <= j < pv.len() && #[trigger] opt_view(pv[j].1) == Some(x);
                            lemma_find_unique(ks, ks[j], j);
                            assert(pm.contains_key(ks[j]) && pm[ks[j]] == Some(x));
                        }
                        if agents_of(pm).contains(x) {
                            let k = choose|k: Seq<char>| pm.contains_key(k) && pm[k] == Some(x);
                            lemma_find_some(ks, k);
                            let j = spec_find(ks, k).unwrap() as int;
                            assert(opt_view(pv[j].1) == Some(x));
                        }
                    }
                    assert(r@.map_values(|s: String| s@).to_set() =~= agents_of(pm));
                }
                r
            },
        }
    }


    /// A snapshot listing every entity and relationship in index order.
    pub fn to_snapshot(&self) -> (r: GlobalGraphSnapshot)
        requires
            self.wf(),
        ensures
            describes(r, self.model()),
    {
        proof { self.lemma_names(); self.topo.lemma_wf(); }
        let ghost m = self.model();
        let count = self.nodes.len();
        let mut nodes: Vec<GlobalNodeSnapshot> = Vec::new();
        let mut i: usize = 0;
        while i < count
            invariant
                self.wf(),
                m == self.model(),
                gnames(m) == self.topo.names(),
                count == m.nodes.len(),
                i <= count,
                nodes@.len() == i,
                forall|j: int| 0 <= j < i ==> snap_node(#[trigger] nodes@[j]) == m.nodes[j],
            decreases count - i,
        {
            let ns = self.nodes[i].snapshot(self.topo.name(i));
            nodes.push(ns);
            i = i + 1;
        }
        let ecount = self.topo.edge_count();
        let mut edges: Vec<GlobalEdgeSnapshot> = Vec::new();
        let mut e: usize = 0;
        while e < ecount
            invariant
                self.wf(),
                m == self.model(),
                gnames(m) == self.topo.names(),
                ecount == m.edges.len(),
                e <= ecount,
                edges@.len() == e,
                forall|q: int| 0 <= q < e ==> {
                    &&& (#[trigger] edges@[q]).from@ == gnames(m)[m.edges[q].0 as int]
                    &&& edges@[q].to@ == gnames(m)[m.edges[q].1 as int]
                    &&& edges@[q].relationship_type@ == m.labels[q]
                    &&& string_set(edges@[q].sources@) == m.sources[q]
                },
            decreases ecount - e,
        {
            let (a, b) = self.topo.endpoints(e);
            let srcs = clone_strings(&self.sources[e]);
            edges.push(GlobalEdgeSnapshot {
                from: self.topo.name(a).clone(),
                to: self.topo.name(b).clone(),
                relationship_type: self.topo.label(e).clone(),
                sources: srcs,
            });
            e = e + 1;
        }
        GlobalGraphSnapshot { nodes, edges }
    }

    /// The global graph a snapshot describes (see [`restore_model`]).
    pub fn from_snapshot(snap: GlobalGraphSnapshot) -> (g: Self)
        requires
            snap.nodes@.len() < index_limit(),
            snap.edges@.len() < index_limit(),
        ensures
            g.wf(),
            g.model() == restore_model(snap),
    {
        let mut g = GlobalGraph::new();
        let mut i: usize = 0;
        assert(snap.nodes@.take(0) =~= Seq::<GlobalNodeSnapshot>::empty());
        while i < snap.nodes.len()
            invariant
                g.wf(),
                i <= snap.nodes@.len(),
                snap.nodes@.len() < index_limit(),
                g.model().nodes == restore_nodes(snap.nodes@.take(i as int)),
                g.model().nodes.len() <= i,
                g.model().edges.len() == 0,
                g.model().labels.len() == 0,
                g.model().sources.len() == 0,
            decreases snap.nodes@.len() - i,
        {
            let ns = &snap.nodes[i];
            let d = GlobalNodeData::from_snapshot_node(ns);
            let ghost m0 = g.model();
            proof {
                g.lemma_names();
                g.topo.lemma_wf();
                assert(snap.nodes@.take(i as int + 1).drop_last() =~= snap.nodes@.take(i as int));
                assert(snap.nodes@.take(i as int + 1).last() == *ns);
                assert(m0.nodes.map_values(|x: GNode| x.name) == gnames(m0));
            }
            let (k, created) = g.topo.ensure_node(ns.name.as_str());
            if created {
                g.nodes.push(d);
                proof {
                    assert(g.model().nodes =~= m0.nodes.push(snap_node(*ns)));
                }
            } else {
                let ghost before = g.nodes@;
                g.nodes.set(k, d);
                proof {
                    assert(g.model().nodes =~= m0.nodes.update(k as int, snap_node(*ns)));
                    assert forall|q: int| 0 <= q < g.nodes@.len() implies (#[trigger] g.nodes@[q]).wf() by {
                        if q != k as int { assert(g.nodes@[q] == before[q]); }
                    }
                }
            }
            proof {
                g.lemma_names();
                g.topo.lemma_wf();
                assert(g.model().sources =~= Seq::<Set<Seq<char>>>::empty());
            }
            i = i + 1;
        }
        proof { assert(snap.nodes@.take(snap.nodes@.len() as int) =~= snap.nodes@); }
        let ghost m0 = g.model();
        proof {
            assert(m0.edges =~= Seq::<(nat, nat)>::empty());
            assert(m0.labels =~= Seq::<Seq<char>>::empty());
            assert(m0.sources =~= Seq::<Set<Seq<char>>>::empty());
            assert(m0 == (GlobalModel { nodes: restore_nodes(snap.nodes@), edges: Seq::empty(), labels: Seq::empty(), sources: Seq::empty() }));
        }
        let mut j: usize = 0;
        assert(snap.edges@.take(0) =~= Seq::<GlobalEdgeSnapshot>::empty());
        while j < snap.edges.len()
            invariant
                g.wf(),
                j <= snap.edges@.len(),
                snap.edges@.len() < index_limit(),
                g.model() == restore_edges(m0, snap.edges@.take(j as int)),
                g.model().edges.len() <= j,
            decreases snap.edges@.len() - j,
        {
            let es = &snap.edges[j];
            let ghost prev = g.model();
            proof {
                g.lemma_names();
                g.topo.lemma_wf();
                assert(snap.edges@.take(j as int + 1).drop_last() =~= snap.edges@.take(j as int));
                assert(snap.edges@.take(j as int + 1).last() == *es);
            }
            match (g.topo.find(es.from.as_str()), g.topo.find(es.to.as_str())) {
                (Some(a), Some(b)) => {
                    proof {
                        lemma_find_unique(gnames(prev), es.from@, a as int);
                        lemma_find_unique(gnames(prev), es.to@, b as int);
                    }
                    match g.find_edge(a, b, es.relationship_type.as_str()) {
                        Some(x) => {
                            let ghost before = g.sources@;
                            let mut srcs = g.sources.remove(x);
                            insert_all_unique(&mut srcs, &es.sources);
                            g.sources.insert(x, srcs);
                            proof {
                                assert(g.model().sources =~= prev.sources.update(x as int, prev.sources[x as int].union(string_set(es.sources@))));
                                assert(g.model().nodes =~= prev.nodes);
                                assert forall|q: int| 0 <= q < g.sources@.len() implies unique_strings((#[trigger] g.sources@[q])@) by {
                                    if q != x as int {
                                        assert(g.sources@[q] == before[q]);
                                    }
                                }
                                assert(gnames(g.model()) =~= gnames(prev));
                            }
                        },
                        None => {
                            let ghost before = g.sources@;
                            g.topo.add_edge(a, b, es.relationship_type.as_str());
                            let mut srcs: Vec<String> = Vec::new();
                            insert_all_unique(&mut srcs, &es.sources);
                            g.sources.push(srcs);
                            proof {
                                assert(string_set(Seq::<String>::empty()) =~= Set::empty());
                                assert(Set::<Seq<char>>::empty().union(string_set(es.sources@)) =~= string_set(es.sources@));
                                assert(g.model().sources =~= prev.sources.push(string_set(es.sources@)));
                                assert(g.model().nodes =~= prev.nodes);
                                assert forall|q: int| 0 <= q < g.sources@.len() implies unique_strings((#[trigger] g.sources@[q])@) by {
                                    if q < before.len() {
                                        assert(g.sources@[q] == before[q]);
                                    }
                                }
                                assert(gnames(g.model()) =~= gnames(prev));
                                let m = g.model();
                                assert forall|e1: int, e2: int| 0 <= e1 < m.edges.len() && 0 <= e2 < m.edges.len() && e1 != e2
                                    && m.edges[e1] == m.edges[e2] implies m.labels[e1] != m.labels[e2] by {
                                    if e1 < prev.edges.len() && e2 < prev.edges.len() {
                                    } else if e1 == prev.edges.len() {
                                        assert(m.edges[e1] == (a as nat, b as nat));
                                        assert(m.labels[e1] == es.relationship_type@);
                                        assert(prev.edges[e2] == (a as nat, b as nat));
                                    } else {
                                        assert(prev.edges[e1] == (a as nat, b as nat));
                                    }
                                }
                            }
                        },
                    }
                },
                _ => {
                    proof {
                        if spec_find(gnames(prev), es.from@) is Some {
                            assert(spec_find(gnames(prev), es.to@) is None);
                        }
                    }
                },
            }
            j = j + 1;
        }
        proof { assert(snap.edges@.take(snap.edges@.len() as int) =~= snap.edges@); }
        g
    }

    /// [`GlobalGraph::merge_with_agent`] without an agent.
    pub fn merge(&mut self, session_id: &str, index: u64, entities: Vec<Entity>, relationships: Vec<Relationship>)
        requires
            old(self).wf(),
            fits_index_space(g_merge_relationships(
                g_merge_entities(old(self).model(), entities@, session_id@, None, index),
                relationships@, session_id@, None, index)),
        ensures
            final(self).wf(),
            final(self).model() == g_merge_relationships(
                g_merge_entities(old(self).model(), entities@, session_id@, None, index),
                relationships@, session_id@, None, index),
    {
        self.merge_with_agent(session_id, None, index, entities, relationships);
    }
}

/// The graph's nodes and edges fit petgraph's index space, as every
/// addition that built them must have.
pub open spec fn fits_index_space(m: GlobalModel) -> bool {
    m.nodes.len() <= index_limit() && m.edges.len() <= index_limit()
}

proof fn lemma_merge_entities_split(m: GlobalModel, a: Seq<Entity>, b: Seq<Entity>, s: Seq<char>, ag: Option<Seq<char>>, index: u64)
    ensures
        g_merge_entities(m, a + b, s, ag, index) == g_merge_entities(g_merge_entities(m, a, s, ag, index), b, s, ag, index),
    decreases b.len(),
{
    if b.len() == 0 {
        assert(a + b =~= a);
    } else {
        lemma_merge_entities_split(m, a, b.drop_last(), s, ag, index);
        assert((a + b).drop_last() =~= a + b.drop_last());
        assert((a + b).last() == b.last());
    }
}

proof fn lemma_merge_relationships_split(m: GlobalModel, a: Seq<Relationship>, b: Seq<Relationship>, s: Seq<char>, ag: Option<Seq<char>>, index: u64)
    ensures
        g_merge_relationships(m, a + b, s, ag, index) == g_merge_relationships(g_merge_relationships(m, a, s, ag, index), b, s, ag, index),
    decreases b.len(),
{
    if b.len() == 0 {
        assert(a + b =~= a);
    } else {
        lemma_merge_relationships_split(m, a, b.drop_last(), s, ag, index);
        assert((a + b).drop_last() =~= a + b.drop_last());
        assert((a + b).last() == b.last());
    }
}

/// Merging entities never removes a node and keeps the edges.
proof fn lemma_merge_entities_grow(m: GlobalModel, b: Seq<Entity>, s: Seq<char>, ag: Option<Seq<char>>, index: u64)
    ensures
        g_merge_entities(m, b, s, ag, index).nodes.len() >= m.nodes.len(),
        g_merge_entities(m, b, s, ag, index).edges.len() == m.edges.len(),
    decreases b.len(),
{
    if b.len() > 0 {
        lemma_merge_entities_grow(m, b.drop_last(), s, ag, index);
        let p = g_merge_entities(m, b.drop_last(), s, ag, index);
        lemma_g_ensure_keeps(p, b.last().name@, b.last().entity_type@, s, ag, index);
    }
}

/// Merging relationships never removes a node or an edge.
proof fn lemma_merge_relationships_grow(m: GlobalModel, b: Seq<Relationship>, s: Seq<char>, ag: Option<Seq<char>>, index: u64)
    ensures
        g_merge_relationships(m, b, s, ag, index).nodes.len() >= m.nodes.len(),
        g_merge_relationships(m, b, s, ag, index).edges.len() >= m.edges.len(),
    decreases b.len(),
{
    if b.len() > 0 {
        lemma_merge_relationships_grow(m, b.drop_last(), s, ag, index);
        let p = g_merge_relationships(m, b.drop_last(), s, ag, index);
        let r = b.last();
        lemma_g_ensure_keeps(p, r.from@, "Other"@, s, ag, index);
        let p1 = g_ensure(p, r.from@, "Other"@, s, ag, index);
        lemma_g_ensure_keeps(p1, r.to@, "Other"@, s, ag, index);
    }
}

/// Sighting an entity keeps every existing node's name; an existing node's type
/// changes only to a real (non-placeholder) type given for that very name; a
/// node it creates has the name and type given.
proof fn lemma_g_ensure_types(m: GlobalModel, name: Seq<char>, ty: Seq<char>, s: Seq<char>, ag: Option<Seq<char>>, index: u64)
    ensures
        ({
            let r = g_ensure(m, name, ty, s, ag, index);
            &&& r.nodes.len() >= m.nodes.len()
            &&& forall|x: int| 0 <= x < m.nodes.len() ==> (#[trigger] r.nodes[x]).name == m.nodes[x].name
                && (r.nodes[x].etype == m.nodes[x].etype || (m.nodes[x].name == name && ty != "Other"@ && r.nodes[x].etype == ty))
            &&& forall|x: int| m.nodes.len() <= x < r.nodes.len() ==> (#[trigger] r.nodes[x]).name == name && r.nodes[x].etype == ty
        }),
{
    let r = g_ensure(m, name, ty, s, ag, index);
    match spec_find(gnames(m), name) {
        Some(i) => {
            lemma_find_some(gnames(m), name);
            assert(gnames(m)[i as int] == m.nodes[i as int].name);
            assert forall|x: int| 0 <= x < m.nodes.len() implies (#[trigger] r.nodes[x]).name == m.nodes[x].name
                && (r.nodes[x].etype == m.nodes[x].etype || (m.nodes[x].name == name && ty != "Other"@ && r.nodes[x].etype == ty)) by {
                if x == i as int {
                    assert(r.nodes[x] == g_touch(m.nodes[x], ty, s, ag, index));
                }
            }
        },
        None => {},
    }
}

/// Merging one entity changes node names and types as sighting it does.
proof fn lemma_g_merge_entity_types(m: GlobalModel, e: Entity, s: Seq<char>, ag: Option<Seq<char>>, index: u64)
    ensures
        ({
            let r = g_merge_entity(m, e, s, ag, index);
            let q = g_ensure(m, e.name@, e.entity_type@, s, ag, index);
            &&& r.nodes.len() == q.nodes.len()
            &&& forall|x: int| 0 <= x < r.nodes.len() ==> (#[trigger] r.nodes[x]).name == q.nodes[x].name && r.nodes[x].etype == q.nodes[x].etype
        }),
{
    let q = g_ensure(m, e.name@, e.entity_type@, s, ag, index);
    lemma_g_ensure_keeps(m, e.name@, e.entity_type@, s, ag, index);
    lemma_find_some(gnames(q), e.name@);
}

/// After merging a batch of entities, every node that existed keeps its name,
/// and its type is its old type or a real type that an entity of the batch
/// with its name gave; every node the batch created has the name and type of
/// an entity of the batch.
proof fn lemma_g_merge_entities_types(m: GlobalModel, ents: Seq<Entity>, s: Seq<char>, ag: Option<Seq<char>>, index: u64)
    ensures
        ({
            let r = g_merge_entities(m, ents, s, ag, index);
            &&& r.nodes.len() >= m.nodes.len()
            &&& forall|x: int| 0 <= x < m.nodes.len() ==> (#[trigger] r.nodes[x]).name == m.nodes[x].name
                && (r.nodes[x].etype == m.nodes[x].etype || (r.nodes[x].etype != "Other"@
                    && exists|k: int| 0 <= k < ents.len() && (#[trigger] ents[k]).name@ == m.nodes[x].name && ents[k].entity_type@ == r.nodes[x].etype))
            &&& forall|x: int| m.nodes.len() <= x < r.nodes.len() ==>
                exists|k: int| 0 <= k < ents.len() && (#[trigger] ents[k]).name@ == (#[trigger] r.nodes[x]).name && ents[k].entity_type@ == r.nodes[x].etype
        }),
    decreases ents.len(),
{
    if ents.len() > 0 {
        let d = ents.drop_last();
        let e = ents.last();
        let last = ents.len() - 1;
        assert(ents[last] == e);
        lemma_g_merge_entities_types(m, d, s, ag, index);
        let p = g_merge_entities(m, d, s, ag, index);
        let q = g_ensure(p, e.name@, e.entity_type@, s, ag, index);
        let r = g_merge_entities(m, ents, s, ag, index);
        lemma_g_ensure_types(p, e.name@, e.entity_type@, s, ag, index);
        lemma_g_merge_entity_types(p, e, s, ag, index);
        assert(r == g_merge_entity(p, e, s, ag, index));
        assert forall|x: int| 0 <= x < m.nodes.len() implies (#[trigger] r.nodes[x]).name == m.nodes[x].name
            && (r.nodes[x].etype == m.nodes[x].etype || (r.nodes[x].etype != "Other"@
                && exists|k: int| 0 <= k < ents.len() && (#[trigger] ents[k]).name@ == m.nodes[x].name && ents[k].entity_type@ == r.nodes[x].etype)) by {
            assert(r.nodes[x].name == q.nodes[x].name && r.nodes[x].etype == q.nodes[x].etype);
            assert(q.nodes[x].name == p.nodes[x].name);
            if q.nodes[x].etype == p.nodes[x].etype {
                if p.nodes[x].etype != m.nodes[x].etype {
                    let k = choose|k: int| 0 <= k < d.len() && (#[trigger] d[k]).name@ == m.nodes[x].name && d[k].entity_type@ == p.nodes[x].etype;
                    assert(ents[k] == d[k]);
                }
            } else {
                assert(p.nodes[x].name == e.name@);
                assert(ents[last].name@ == m.nodes[x].name);
            }
        }
        assert forall|x: int| m.nodes.len() <= x < r.nodes.len() implies
            exists|k: int| 0 <= k < ents.len() && (#[trigger] ents[k]).name@ == (#[trigger] r.nodes[x]).name && ents[k].entity_type@ == r.nodes[x].etype by {
            assert(r.nodes[x].name == q.nodes[x].name && r.nodes[x].etype == q.nodes[x].etype);
            if x < p.nodes.len() {
                assert(q.nodes[x].name == p.nodes[x].name);
                if q.nodes[x].etype == p.nodes[x].etype {
                    let k = choose|k: int| 0 <= k < d.len() && (#[trigger] d[k]).name@ == (#[trigger] p.nodes[x]).name && d[k].entity_type@ == p.nodes[x].etype;
                    assert(ents[k] == d[k]);
                } else {
                    assert(ents[last].name@ == r.nodes[x].name);
                }
            } else {
                assert(ents[last].name@ == r.nodes[x].name);
            }
        }
    }
}

/// Merging relationships never changes an existing entity's name or type:
/// an endpoint sighting carries only the placeholder type "Other", which
/// never replaces a type. The nodes it creates for unknown endpoints have the
/// placeholder type.
pub proof fn lemma_relationships_keep_types(m: GlobalModel, rels: Seq<Relationship>, s: Seq<char>, ag: Option<Seq<char>>, index: u64)
    ensures
        ({
            let r = g_merge_relationships(m, rels, s, ag, index);
            &&& r.nodes.len() >= m.nodes.len()
            &&& forall|x: int| 0 <= x < m.nodes.len() ==> (#[trigger] r.nodes[x]).name == m.nodes[x].name && r.nodes[x].etype == m.nodes[x].etype
            &&& forall|x: int| m.nodes.len() <= x < r.nodes.len() ==> (#[trigger] r.nodes[x]).etype == "Other"@
        }),
    decreases rels.len(),
{
    if rels.len() > 0 {
        lemma_relationships_keep_types(m, rels.drop_last(), s, ag, index);
        let p = g_merge_relationships(m, rels.drop_last(), s, ag, index);
        let rel = rels.last();
        let m1 = g_ensure(p, rel.from@, "Other"@, s, ag, index);
        let m2 = g_ensure(m1, rel.to@, "Other"@, s, ag, index);
        lemma_g_ensure_types(p, rel.from@, "Other"@, s, ag, index);
        lemma_g_ensure_types(m1, rel.to@, "Other"@, s, ag, index);
        let r = g_merge_relationships(m, rels, s, ag, index);
        assert(r.nodes == m2.nodes);
        assert forall|x: int| 0 <= x < m.nodes.len() implies (#[trigger] r.nodes[x]).name == m.nodes[x].name && r.nodes[x].etype == m.nodes[x].etype by {
            assert(m2.nodes[x].etype == m1.nodes[x].etype);
            assert(m1.nodes[x].etype == p.nodes[x].etype);
        }
        assert forall|x: int| m.nodes.len() <= x < r.nodes.len() implies (#[trigger] r.nodes[x]).etype == "Other"@ by {
            if x < m1.nodes.len() {
                assert(m2.nodes[x].etype == m1.nodes[x].etype);
                if x < p.nodes.len() {
                    assert(m1.nodes[x].etype == p.nodes[x].etype);
                }
            }
        }
    }
}

/// Merging a session's entities and relationships into the global graph
/// keeps every entity's name, and leaves each entity's type either as it was
/// or as a real type that an entity of the batch with that name gave: the
/// placeholder "Other" of a relationship endpoint never replaces a known type.
/// Entities the merge creates take their type from the batch, or the
/// placeholder when only a relationship names them.
pub proof fn lemma_merge_keeps_real_types(
    m: GlobalModel,
    ents: Seq<Entity>,
    rels: Seq<Relationship>,
    s: Seq<char>,
    ag: Option<Seq<char>>,
    index: u64,
)
    ensures
        ({
            let e = g_merge_entities(m, ents, s, ag, index);
            let r = g_merge_relationships(e, rels, s, ag, index);
            &&& r.nodes.len() >= m.nodes.len()
            &&& forall|x: int| 0 <= x < m.nodes.len() ==> (#[trigger] r.nodes[x]).name == m.nodes[x].name
                && (r.nodes[x].etype == m.nodes[x].etype || (r.nodes[x].etype != "Other"@
                    && exists|k: int| 0 <= k < ents.len() && (#[trigger] ents[k]).name@ == m.nodes[x].name && ents[k].entity_type@ == r.nodes[x].etype))
            &&& forall|x: int| m.nodes.len() <= x < r.nodes.len() ==> (#[trigger] r.nodes[x]).etype == "Other"@
                || exists|k: int| 0 <= k < ents.len() && (#[trigger] ents[k]).name@ == r.nodes[x].name && ents[k].entity_type@ == r.nodes[x].etype
        }),
{
    let e = g_merge_entities(m, ents, s, ag, index);
    let r = g_merge_relationships(e, rels, s, ag, index);
    lemma_g_merge_entities_types(m, ents, s, ag, index);
    lemma_relationships_keep_types(e, rels, s, ag, index);
    assert forall|x: int| 0 <= x < m.nodes.len() implies (#[trigger] r.nodes[x]).name == m.nodes[x].name
        && (r.nodes[x].etype == m.nodes[x].etype || (r.nodes[x].etype != "Other"@
            && exists|k: int| 0 <= k < ents.len() && (#[trigger] ents[k]).name@ == m.nodes[x].name && ents[k].entity_type@ == r.nodes[x].etype)) by {
        assert(r.nodes[x] == r.nodes[x]);
        assert(e.nodes[x].name == m.nodes[x].name);
    }
    assert forall|x: int| m.nodes.len() <= x < r.nodes.len() implies (#[trigger] r.nodes[x]).etype == "Other"@
        || exists|k: int| 0 <= k < ents.len() && (#[trigger] ents[k]).name@ == r.nodes[x].name && ents[k].entity_type@ == r.nodes[x].etype by {
        if x < e.nodes.len() {
            assert(r.nodes[x].name == e.nodes[x].name && r.nodes[x].etype == e.nodes[x].etype);
            assert(e.nodes[x] == e.nodes[x]);
        }
    }
}

pub proof fn lemma_g_ensure_keeps(m: GlobalModel, name: Seq<char>, ty: Seq<char>, s: Seq<char>, ag: Option<Seq<char>>, index: u64)
    ensures
        m.nodes.len() <= g_ensure(m, name, ty, s, ag, index).nodes.len() <= m.nodes.len() + 1,
        forall|i: int| 0 <= i < m.nodes.len() ==> #[trigger] gnames(g_ensure(m, name, ty, s, ag, index))[i] == gnames(m)[i],
        g_ensure(m, name, ty, s, ag, index).edges == m.edges,
        g_ensure(m, name, ty, s, ag, index).labels == m.labels,
        g_ensure(m, name, ty, s, ag, index).sources == m.sources,
        spec_find(gnames(g_ensure(m, name, ty, s, ag, index)), name) is Some,
{
    let r = g_ensure(m, name, ty, s, ag, index);
    match spec_find(gnames(m), name) {
        Some(i) => {
            lemma_find_some(gnames(m), name);
            assert forall|j: int| 0 <= j < m.nodes.len() implies #[trigger] gnames(r)[j] == gnames(m)[j] by {
                if j == i as int {
                    assert(r.nodes[j].name == m.nodes[j].name);
                }
            }
            assert(gnames(r)[i as int] == name);
        },
        None => {
            assert(gnames(r)[m.nodes.len() as int] == name);
        },
    }
}

/// Entity `name` exists and lists session `s` among its contributors.
pub open spec fn lists_source(m: GlobalModel, name: Seq<char>, s: Seq<char>) -> bool {
    spec_find(gnames(m), name) matches Some(i) && m.nodes[i as int].prov.contains_key(s)
}

/// Ensuring an entity keeps names distinct, keeps every recorded contributor,
/// and records `s` for the ensured entity.
proof fn lemma_g_ensure_sources(m: GlobalModel, name: Seq<char>, ty: Seq<char>, s: Seq<char>, ag: Option<Seq<char>>, index: u64)
    requires
        no_dup_names(gnames(m)),
    ensures
        no_dup_names(gnames(g_ensure(m, name, ty, s, ag, index))),
        lists_source(g_ensure(m, name, ty, s, ag, index), name, s),
        forall|x: Seq<char>, t: Seq<char>| #[trigger] lists_source(m, x, t) ==> lists_source(g_ensure(m, name, ty, s, ag, index), x, t),
{
    let r = g_ensure(m, name, ty, s, ag, index);
    lemma_g_ensure_keeps(m, name, ty, s, ag, index);
    match spec_find(gnames(m), name) {
        Some(i) => {
            lemma_find_some(gnames(m), name);
            assert(gnames(r) =~= gnames(m));
        },
        None => {
            assert(gnames(r) =~= gnames(m).push(name));
            assert(no_dup_names(gnames(r)));
        },
    }
    lemma_find_some(gnames(r), name);
    let j = spec_find(gnames(r), name).unwrap() as int;
    assert(r.nodes[j].prov.contains_key(s));
    assert forall|x: Seq<char>, t: Seq<char>| #[trigger] lists_source(m, x, t) implies lists_source(r, x, t) by {
        lemma_find_some(gnames(m), x);
        let i = spec_find(gnames(m), x).unwrap() as int;
        assert(gnames(r)[i] == x);
        lemma_find_unique(gnames(r), x, i);
    }
}

/// Merging an extraction from session `s` records `s` for every entity it
/// names, and keeps every contributor recorded before.
pub proof fn lemma_merge_records_sources(
    m: GlobalModel,
    ents: Seq<Entity>,
    rels: Seq<Relationship>,
    s: Seq<char>,
    ag: Option<Seq<char>>,
    index: u64,
)
    requires
        no_dup_names(gnames(m)),
    ensures
        ({
            let r = g_merge_relationships(g_merge_entities(m, ents, s, ag, index), rels, s, ag, index);
            &&& forall|i: int| 0 <= i < ents.len() ==> lists_source(r, (#[trigger] ents[i]).name@, s)
            &&& forall|i: int| 0 <= i < rels.len() ==> lists_source(r, (#[trigger] rels[i]).from@, s) && lists_source(r, rels[i].to@, s)
            &&& forall|x: Seq<char>, t: Seq<char>| #[trigger] lists_source(m, x, t) ==> lists_source(r, x, t)
        }),
{
    lemma_merge_entities_sources(m, ents, s, ag, index);
    lemma_merge_relationships_sources(g_merge_entities(m, ents, s, ag, index), rels, s, ag, index);
}

proof fn lemma_merge_entities_sources(m: GlobalModel, ents: Seq<Entity>, s: Seq<char>, ag: Option<Seq<char>>, index: u64)
    requires
        no_dup_names(gnames(m)),
    ensures
        no_dup_names(gnames(g_merge_entities(m, ents, s, ag, index))),
        forall|i: int| 0 <= i < ents.len() ==> lists_source(g_merge_entities(m, ents, s, ag, index), (#[trigger] ents[i]).name@, s),
        forall|x: Seq<char>, t: Seq<char>| #[trigger] lists_source(m, x, t) ==> lists_source(g_merge_entities(m, ents, s, ag, index), x, t),
    decreases ents.len(),
{
    if ents.len() > 0 {
        let rest = ents.drop_last();
        let e = ents.last();
        lemma_merge_entities_sources(m, rest, s, ag, index);
        let p = g_merge_entities(m, rest, s, ag, index);
        let m1 = g_ensure(p, e.name@, e.entity_type@, s, ag, index);
        lemma_g_ensure_sources(p, e.name@, e.entity_type@, s, ag, index);
        let r = g_merge_entities(m, ents, s, ag, index);
        lemma_find_some(gnames(m1), e.name@);
        let k = spec_find(gnames(m1), e.name@).unwrap() as int;
        assert(gnames(r) =~= gnames(m1));
        assert forall|x: Seq<char>, t: Seq<char>| #[trigger] lists_source(m1, x, t) implies lists_source(r, x, t) by {
            lemma_find_some(gnames(m1), x);
        }
        assert forall|i: int| 0 <= i < ents.len() implies lists_source(r, (#[trigger] ents[i]).name@, s) by {
            if i < rest.len() {
                assert(rest[i] == ents[i]);
                assert(lists_source(p, rest[i].name@, s));
            }
        }
    }
}

proof fn lemma_merge_relationships_sources(m: GlobalModel, rels: Seq<Relationship>, s: Seq<char>, ag: Option<Seq<char>>, index: u64)
    requires
        no_dup_names(gnames(m)),
    ensures
        no_dup_names(gnames(g_merge_relationships(m, rels, s, ag, index))),
        forall|i: int| 0 <= i < rels.len() ==> lists_source(g_merge_relationships(m, rels, s, ag, index), (#[trigger] rels[i]).from@, s)
            && lists_source(g_merge_relationships(m, rels, s, ag, index), rels[i].to@, s),
        forall|x: Seq<char>, t: Seq<char>| #[trigger] lists_source(m, x, t) ==> lists_source(g_merge_relationships(m, rels, s, ag, index), x, t),
    decreases rels.len(),
{
    if rels.len() > 0 {
        let rest = rels.drop_last();
        let rl = rels.last();
        lemma_merge_relationships_sources(m, rest, s, ag, index);
        let p = g_merge_relationships(m, rest, s, ag, index);
        let m1 = g_ensure(p, rl.from@, "Other"@, s, ag, index);
        lemma_g_ensure_sources(p, rl.from@, "Other"@, s, ag, index);
        let m2 = g_ensure(m1, rl.to@, "Other"@, s, ag, index);
        lemma_g_ensure_sources(m1, rl.to@, "Other"@, s, ag, index);
        let r = g_merge_relationships(m, rels, s, ag, index);
        assert(r.nodes == m2.nodes);
        assert(gnames(r) =~= gnames(m2));
        assert forall|x: Seq<char>, t: Seq<char>| #[trigger] lists_source(m2, x, t) implies lists_source(r, x, t) by {
        }
        assert forall|i: int| 0 <= i < rels.len() implies lists_source(r, (#[trigger] rels[i]).from@, s) && lists_source(r, rels[i].to@, s) by {
            if i < rest.len() {
                assert(rest[i] == rels[i]);
                assert(lists_source(p, rest[i].from@, s));
                assert(lists_source(p, rest[i].to@, s));
            }
        }
    }
}

/// Neighbours of node `n`, as (name, type, relationship type, outgoing?).
pub open spec fn g_related_model(m: GlobalModel, n: nat) -> Seq<(Seq<char>, Seq<char>, Seq<char>, bool)> {
    spec_related(m.edges, n).map_values(|x: (nat, nat, bool)| (m.nodes[x.0 as int].name, m.nodes[x.0 as int].etype, m.labels[x.1 as int], x.2))
}

pub proof fn lemma_g_related_in_range(m: GlobalModel, n: nat)
    requires
        global_wf(m),
    ensures
        forall|j: int| 0 <= j < spec_related(m.edges, n).len() ==>
            (#[trigger] spec_related(m.edges, n)[j]).0 < m.nodes.len() && spec_related(m.edges, n)[j].1 < m.edges.len(),
{
    let outs = adjacent(m.edges, n, true);
    assert forall|j: int| 0 <= j < spec_related(m.edges, n).len() implies
        (#[trigger] spec_related(m.edges, n)[j]).0 < m.nodes.len() && spec_related(m.edges, n)[j].1 < m.edges.len() by {
        if j < outs.len() {
            crate::topology::lemma_adjacent_sound(m.edges, n, true, j);
        } else {
            crate::topology::lemma_adjacent_sound(m.edges, n, false, j - outs.len());
        }
    }
}

/// The map that a list of (key, value) pairs with distinct keys stands for.
pub open spec fn pairs_map(kvs: Seq<(Seq<char>, Seq<char>)>) -> Map<Seq<char>, Seq<char>> {
    to_map(kvs.map_values(|p: (Seq<char>, Seq<char>)| p.0), kvs.map_values(|p: (Seq<char>, Seq<char>)| p.1))
}

/// Node `n` still has a contributor once `s` is removed.
pub open spec fn node_survives(n: GNode, s: Seq<char>) -> bool {
    exists|k: Seq<char>| n.prov.contains_key(k) && k != s
}

pub open spec fn pruned_node(n: GNode, s: Seq<char>) -> GNode {
    GNode { prov: n.prov.remove(s), ..n }
}

/// The first `k` nodes with `s` removed, dropping those left without contributors.
pub open spec fn pruned_nodes(nodes: Seq<GNode>, s: Seq<char>, k: nat) -> Seq<GNode>
    decreases k,
{
    if k == 0 {
        Seq::empty()
    } else {
        let prev = pruned_nodes(nodes, s, (k - 1) as nat);
        if node_survives(nodes[k - 1], s) { prev.push(pruned_node(nodes[k - 1], s)) } else { prev }
    }
}

/// Edges by endpoint names, as (from, to, type, contributing sessions).
pub open spec fn named_edges_of(names: Seq<Seq<char>>, edges: Seq<(nat, nat)>, labels: Seq<Seq<char>>, sources: Seq<Vec<String>>) -> Seq<(Seq<char>, Seq<char>, Seq<char>, Set<Seq<char>>)> {
    Seq::new(edges.len(), |e: int| (names[edges[e].0 as int], names[edges[e].1 as int], labels[e], string_set(sources[e]@)))
}

pub open spec fn named_edges(m: GlobalModel) -> Seq<(Seq<char>, Seq<char>, Seq<char>, Set<Seq<char>>)> {
    Seq::new(m.edges.len(), |e: int| (gnames(m)[m.edges[e].0 as int], gnames(m)[m.edges[e].1 as int], m.labels[e], m.sources[e]))
}

/// Edge `e` keeps a contributor other than `s`, and both its ends survive.
pub open spec fn edge_survives(m: GlobalModel, s: Seq<char>, e: nat) -> bool {
    &&& exists|k: Seq<char>| m.sources[e as int].contains(k) && k != s
    &&& node_survives(m.nodes[m.edges[e as int].0 as int], s)
    &&& node_survives(m.nodes[m.edges[e as int].1 as int], s)
}

pub open spec fn pruned_edge(m: GlobalModel, s: Seq<char>, e: nat) -> (Seq<char>, Seq<char>, Seq<char>, Set<Seq<char>>) {
    (gnames(m)[m.edges[e as int].0 as int], gnames(m)[m.edges[e as int].1 as int], m.labels[e as int], m.sources[e as int].remove(s))
}

/// The first `k` edges with `s` removed, dropping those that do not survive.
pub open spec fn pruned_edges(m: GlobalModel, s: Seq<char>, k: nat) -> Seq<(Seq<char>, Seq<char>, Seq<char>, Set<Seq<char>>)>
    decreases k,
{
    if k == 0 {
        Seq::empty()
    } else {
        let prev = pruned_edges(m, s, (k - 1) as nat);
        if edge_survives(m, s, (k - 1) as nat) { prev.push(pruned_edge(m, s, (k - 1) as nat)) } else { prev }
    }
}

/// After pruning session `s`, no remaining entity lists `s` and each still has a
/// contributor; every entity that had another contributor remains.
pub proof fn lemma_prune_forgets_session_nodes(nodes: Seq<GNode>, s: Seq<char>, k: nat)
    requires
        k <= nodes.len(),
    ensures
        forall|i: int| 0 <= i < pruned_nodes(nodes, s, k).len() ==> {
            &&& !(#[trigger] pruned_nodes(nodes, s, k)[i]).prov.contains_key(s)
            &&& exists|c: Seq<char>| pruned_nodes(nodes, s, k)[i].prov.contains_key(c)
        },
        forall|j: int| 0 <= j < k && node_survives(#[trigger] nodes[j], s) ==>
            exists|i: int| 0 <= i < pruned_nodes(nodes, s, k).len() && pruned_nodes(nodes, s, k)[i] == pruned_node(nodes[j], s),
    decreases k,
{
    if k > 0 {
        let k1 = (k - 1) as nat;
        lemma_prune_forgets_session_nodes(nodes, s, k1);
        lemma_pruned_nodes_step(nodes, s, k1);
        let prev = pruned_nodes(nodes, s, k1);
        let cur = pruned_nodes(nodes, s, k);
        if node_survives(nodes[k1 as int], s) {
            let n = nodes[k1 as int];
            let c = choose|c: Seq<char>| n.prov.contains_key(c) && c != s;
            assert(cur[prev.len() as int] == pruned_node(n, s));
            assert(pruned_node(n, s).prov.contains_key(c));
            assert forall|i: int| 0 <= i < cur.len() implies {
                &&& !(#[trigger] cur[i]).prov.contains_key(s)
                &&& exists|c: Seq<char>| cur[i].prov.contains_key(c)
            } by {
                if i < prev.len() {
                    assert(cur[i] == prev[i]);
                } else {
                    assert(cur[i].prov.contains_key(c));
                }
            }
            assert forall|j: int| 0 <= j < k && node_survives(#[trigger] nodes[j], s) implies
                exists|i: int| 0 <= i < cur.len() && cur[i] == pruned_node(nodes[j], s) by {
                if j < k1 {
                    let i = choose|i: int| 0 <= i < prev.len() && prev[i] == pruned_node(nodes[j], s);
                    assert(cur[i] == prev[i]);
                } else {
                    assert(cur[prev.len() as int] == pruned_node(nodes[j], s));
                }
            }
        }
    }
}

/// After pruning session `s`, no remaining relationship lists `s` among its
/// sessions, and each still has one.
pub proof fn lemma_prune_forgets_session_edges(m: GlobalModel, s: Seq<char>, k: nat)
    requires
        k <= m.edges.len(),
    ensures
        forall|e: int| 0 <= e < pruned_edges(m, s, k).len() ==> {
            &&& !(#[trigger] pruned_edges(m, s, k)[e]).3.contains(s)
            &&& exists|c: Seq<char>| pruned_edges(m, s, k)[e].3.contains(c)
        },
    decreases k,
{
    if k > 0 {
        let k1 = (k - 1) as nat;
        lemma_prune_forgets_session_edges(m, s, k1);
        lemma_pruned_edges_step(m, s, k1);
        let prev = pruned_edges(m, s, k1);
        let cur = pruned_edges(m, s, k);
        if edge_survives(m, s, k1) {
            let c = choose|c: Seq<char>| m.sources[k1 as int].contains(c) && c != s;
            assert forall|e: int| 0 <= e < cur.len() implies {
                &&& !(#[trigger] cur[e]).3.contains(s)
                &&& exists|c: Seq<char>| cur[e].3.contains(c)
            } by {
                if e < prev.len() {
                    assert(cur[e] == prev[e]);
                } else {
                    assert(cur[e] == pruned_edge(m, s, k1));
                    assert(cur[e].3.contains(c));
                }
            }
        }
    }
}

/// Nodes that no longer list `s` and each keep a contributor are left as they are.
proof fn lemma_prune_nodes_noop(nodes: Seq<GNode>, s: Seq<char>, k: nat)
    requires
        k <= nodes.len(),
        forall|i: int| 0 <= i < nodes.len() ==> {
            &&& !(#[trigger] nodes[i]).prov.contains_key(s)
            &&& exists|c: Seq<char>| nodes[i].prov.contains_key(c)
        },
    ensures
        pruned_nodes(nodes, s, k) == nodes.take(k as int),
    decreases k,
{
    if k > 0 {
        let k1 = (k - 1) as nat;
        lemma_prune_nodes_noop(nodes, s, k1);
        lemma_pruned_nodes_step(nodes, s, k1);
        let n = nodes[k1 as int];
        let c = choose|c: Seq<char>| n.prov.contains_key(c);
        assert(n.prov.contains_key(c) && c != s);
        assert(node_survives(n, s));
        assert(n.prov.remove(s) =~= n.prov);
        assert(pruned_node(n, s) == n);
        assert(nodes.take(k1 as int).push(n) =~= nodes.take(k as int));
    }
}

/// Edges of a graph pruned of `s` are left as they are by pruning `s` again.
proof fn lemma_prune_edges_noop(m: GlobalModel, s: Seq<char>, k: nat)
    requires
        global_wf(m),
        k <= m.edges.len(),
        forall|i: int| 0 <= i < m.nodes.len() ==> {
            &&& !(#[trigger] m.nodes[i]).prov.contains_key(s)
            &&& exists|c: Seq<char>| m.nodes[i].prov.contains_key(c)
        },
        forall|e: int| 0 <= e < m.edges.len() ==> {
            &&& !(#[trigger] m.sources[e]).contains(s)
            &&& exists|c: Seq<char>| m.sources[e].contains(c)
        },
    ensures
        pruned_edges(m, s, k) == named_edges(m).take(k as int),
    decreases k,
{
    if k > 0 {
        let k1 = (k - 1) as nat;
        lemma_prune_edges_noop(m, s, k1);
        lemma_pruned_edges_step(m, s, k1);
        let e = k1 as int;
        let c = choose|c: Seq<char>| m.sources[e].contains(c);
        assert(m.sources[e].contains(c) && c != s);
        let a = m.nodes[m.edges[e].0 as int];
        let b = m.nodes[m.edges[e].1 as int];
        let ca = choose|c: Seq<char>| a.prov.contains_key(c);
        let cb = choose|c: Seq<char>| b.prov.contains_key(c);
        assert(a.prov.contains_key(ca) && ca != s);
        assert(b.prov.contains_key(cb) && cb != s);
        assert(edge_survives(m, s, k1));
        assert(m.sources[e].remove(s) =~= m.sources[e]);
        assert(pruned_edge(m, s, k1) == named_edges(m)[e]);
        assert(named_edges(m).take(e).push(named_edges(m)[e]) =~= named_edges(m).take(k as int));
    }
}

/// Pruning a session twice is pruning it once: when `m1` is `m0` pruned of
/// `s`, pruning `s` from `m1` keeps every node and every relationship of `m1`.
pub proof fn lemma_prune_idempotent(m0: GlobalModel, m1: GlobalModel, s: Seq<char>)
    requires
        global_wf(m0),
        global_wf(m1),
        m1.nodes == pruned_nodes(m0.nodes, s, m0.nodes.len()),
        named_edges(m1) == pruned_edges(m0, s, m0.edges.len()),
    ensures
        pruned_nodes(m1.nodes, s, m1.nodes.len()) == m1.nodes,
        pruned_edges(m1, s, m1.edges.len()) == named_edges(m1),
{
    lemma_prune_forgets_session_nodes(m0.nodes, s, m0.nodes.len());
    lemma_prune_forgets_session_edges(m0, s, m0.edges.len());
    assert forall|e: int| 0 <= e < m1.edges.len() implies {
        &&& !(#[trigger] m1.sources[e]).contains(s)
        &&& exists|c: Seq<char>| m1.sources[e].contains(c)
    } by {
        assert(named_edges(m1)[e].3 == m1.sources[e]);
        assert(pruned_edges(m0, s, m0.edges.len())[e].3 == m1.sources[e]);
    }
    assert forall|i: int| 0 <= i < m1.nodes.len() implies {
        &&& !(#[trigger] m1.nodes[i]).prov.contains_key(s)
        &&& exists|c: Seq<char>| m1.nodes[i].prov.contains_key(c)
    } by {
        assert(m1.nodes[i] == pruned_nodes(m0.nodes, s, m0.nodes.len())[i]);
    }
    lemma_prune_nodes_noop(m1.nodes, s, m1.nodes.len());
    assert(m1.nodes.take(m1.nodes.len() as int) =~= m1.nodes);
    lemma_prune_edges_noop(m1, s, m1.edges.len());
    assert(named_edges(m1).take(m1.edges.len() as int) =~= named_edges(m1));
}

/// Attribute writes at distinct log indexes commute: whichever of two writes
/// of key `k` is applied first, the attributes end the same, so replicas that
/// apply them in different orders agree.
pub proof fn lemma_attribute_writes_commute(
    a: Map<Seq<char>, (Seq<char>, u64)>,
    k: Seq<char>,
    v1: Seq<char>,
    i1: u64,
    v2: Seq<char>,
    i2: u64,
)
    requires
        i1 != i2,
    ensures
        g_merge_attrs(g_merge_attrs(a, seq![(k, v1)], i1), seq![(k, v2)], i2)
            == g_merge_attrs(g_merge_attrs(a, seq![(k, v2)], i2), seq![(k, v1)], i1),
{
    let w1 = seq![(k, v1)];
    let w2 = seq![(k, v2)];
    assert(w1.drop_last() =~= Seq::<(Seq<char>, Seq<char>)>::empty());
    assert(w2.drop_last() =~= Seq::<(Seq<char>, Seq<char>)>::empty());
    let e = Seq::<(Seq<char>, Seq<char>)>::empty();
    let one = |b: Map<Seq<char>, (Seq<char>, u64)>, v: Seq<char>, i: u64|
        if !b.contains_key(k) || i >= b[k].1 { b.insert(k, (v, i)) } else { b };
    assert forall|b: Map<Seq<char>, (Seq<char>, u64)>, i: u64| g_merge_attrs(b, w1, i) == one(b, v1, i) by {
        assert(g_merge_attrs(b, e, i) == b);
        assert(w1.last() == (k, v1));
    }
    assert forall|b: Map<Seq<char>, (Seq<char>, u64)>, i: u64| g_merge_attrs(b, w2, i) == one(b, v2, i) by {
        assert(g_merge_attrs(b, e, i) == b);
        assert(w2.last() == (k, v2));
    }
    let x = one(one(a, v1, i1), v2, i2);
    let y = one(one(a, v2, i2), v1, i1);
    assert(x =~= y);
}

/// Type writes at distinct log indexes commute: whichever of two sightings of
/// an entity is applied first, it ends with the same type.
pub proof fn lemma_type_writes_commute(
    n: GNode,
    t1: Seq<char>,
    s1: Seq<char>,
    ag1: Option<Seq<char>>,
    i1: u64,
    t2: Seq<char>,
    s2: Seq<char>,
    ag2: Option<Seq<char>>,
    i2: u64,
)
    requires
        i1 != i2,
    ensures
        g_touch(g_touch(n, t1, s1, ag1, i1), t2, s2, ag2, i2).etype == g_touch(g_touch(n, t2, s2, ag2, i2), t1, s1, ag1, i1).etype,
        g_touch(g_touch(n, t1, s1, ag1, i1), t2, s2, ag2, i2).etype_index
            == g_touch(g_touch(n, t2, s2, ag2, i2), t1, s1, ag1, i1).etype_index,
{
}

proof fn lemma_pruned_nodes_step(nodes: Seq<GNode>, s: Seq<char>, k: nat)
    ensures
        pruned_nodes(nodes, s, k + 1) == if node_survives(nodes[k as int], s) {
            pruned_nodes(nodes, s, k).push(pruned_node(nodes[k as int], s))
        } else {
            pruned_nodes(nodes, s, k)
        },
{
}

proof fn lemma_pruned_edges_step(m: GlobalModel, s: Seq<char>, k: nat)
    ensures
        pruned_edges(m, s, k + 1) == if edge_survives(m, s, k) {
            pruned_edges(m, s, k).push(pruned_edge(m, s, k))
        } else {
            pruned_edges(m, s, k)
        },
{
}

pub proof fn lemma_merge_entity_sizes(m: GlobalModel, e: Entity, s: Seq<char>, ag: Option<Seq<char>>, index: u64)
    ensures
        g_merge_entity(m, e, s, ag, index).nodes.len() <= m.nodes.len() + 1,
        g_merge_entity(m, e, s, ag, index).edges == m.edges,
{
    lemma_g_ensure_keeps(m, e.name@, e.entity_type@, s, ag, index);
    let m1 = g_ensure(m, e.name@, e.entity_type@, s, ag, index);
    lemma_find_some(gnames(m1), e.name@);
}

pub proof fn lemma_merge_relationship_sizes(m: GlobalModel, r: Relationship, s: Seq<char>, ag: Option<Seq<char>>, index: u64)
    ensures
        g_merge_relationship(m, r, s, ag, index).nodes.len() <= m.nodes.len() + 2,
        g_merge_relationship(m, r, s, ag, index).edges.len() <= m.edges.len() + 1,
{
    lemma_g_ensure_keeps(m, r.from@, "Other"@, s, ag, index);
    let m1 = g_ensure(m, r.from@, "Other"@, s, ag, index);
    lemma_g_ensure_keeps(m1, r.to@, "Other"@, s, ag, index);
}


/// The distinct labels of the edges `outs` (edge, target), in order of first appearance.
pub open spec fn first_labels(outs: Seq<(nat, nat)>, labels: Seq<Seq<char>>) -> Seq<Seq<char>>
    decreases outs.len(),
{
    if outs.len() == 0 {
        Seq::empty()
    } else {
        let prev = first_labels(outs.drop_last(), labels);
        let l = labels[outs.last().0 as int];
        if prev.contains(l) { prev } else { prev.push(l) }
    }
}

/// Names of the targets of the edges of `outs` labelled `l`, in order.
pub open spec fn targets_labelled(outs: Seq<(nat, nat)>, labels: Seq<Seq<char>>, names: Seq<Seq<char>>, l: Seq<char>) -> Seq<Seq<char>>
    decreases outs.len(),
{
    if outs.len() == 0 {
        Seq::empty()
    } else {
        let prev = targets_labelled(outs.drop_last(), labels, names, l);
        if labels[outs.last().0 as int] == l { prev.push(names[outs.last().1 as int]) } else { prev }
    }
}

/// (from, type, targets) for each label of `ls` that has more than one target.
pub open spec fn conflict_groups(ls: Seq<Seq<char>>, outs: Seq<(nat, nat)>, labels: Seq<Seq<char>>, names: Seq<Seq<char>>, from: Seq<char>)
    -> Seq<(Seq<char>, Seq<char>, Seq<Seq<char>>)>
    decreases ls.len(),
{
    if ls.len() == 0 {
        Seq::empty()
    } else {
        let prev = conflict_groups(ls.drop_last(), outs, labels, names, from);
        let t = targets_labelled(outs, labels, names, ls.last());
        if t.len() > 1 { prev.push((from, ls.last(), t)) } else { prev }
    }
}

/// Conflicts of node `n`: per relationship type of its outgoing edges (in order
/// of first appearance, newest edge first), the targets when there are several.
pub open spec fn node_conflicts(m: GlobalModel, n: nat) -> Seq<(Seq<char>, Seq<char>, Seq<Seq<char>>)> {
    let outs = adjacent(m.edges, n, true);
    conflict_groups(first_labels(outs, m.labels), outs, m.labels, gnames(m), gnames(m)[n as int])
}

/// Conflicts of the first `k` nodes, node by node.
pub open spec fn graph_conflicts(m: GlobalModel, k: nat) -> Seq<(Seq<char>, Seq<char>, Seq<Seq<char>>)>
    decreases k,
{
    if k == 0 { Seq::empty() } else { graph_conflicts(m, (k - 1) as nat) + node_conflicts(m, (k - 1) as nat) }
}

pub open spec fn conflict_view(c: Conflict) -> (Seq<char>, Seq<char>, Seq<Seq<char>>) {
    (c.from@, c.relationship_type@, c.targets@.map_values(|s: String| s@))
}

proof fn lemma_targets_absent(outs: Seq<(nat, nat)>, labels: Seq<Seq<char>>, names: Seq<Seq<char>>, l: Seq<char>)
    requires
        !first_labels(outs, labels).contains(l),
    ensures
        targets_labelled(outs, labels, names, l) == Seq::<Seq<char>>::empty(),
    decreases outs.len(),
{
    if outs.len() > 0 {
        let prev = first_labels(outs.drop_last(), labels);
        if prev.contains(l) {
            let j = choose|j: int| 0 <= j < prev.len() && prev[j] == l;
            let lst = labels[outs.last().0 as int];
            if !prev.contains(lst) {
                assert(prev.push(lst)[j] == l);
            }
        }
        lemma_targets_absent(outs.drop_last(), labels, names, l);
        if labels[outs.last().0 as int] == l {
            let p = first_labels(outs, labels);
            if prev.contains(l) {
            } else {
                assert(p == prev.push(l));
                assert(p[prev.len() as int] == l);
            }
        }
    }
}

proof fn lemma_first_labels_no_dup(outs: Seq<(nat, nat)>, labels: Seq<Seq<char>>)
    ensures
        no_dup_names(first_labels(outs, labels)),
    decreases outs.len(),
{
    if outs.len() > 0 {
        lemma_first_labels_no_dup(outs.drop_last(), labels);
    }
}


/// `r` lists every entity of `m` in node order, each attribute with its current value.
pub open spec fn global_entities_answer(m: GlobalModel, r: Seq<Entity>) -> bool {
    &&& r.len() == m.nodes.len()
    &&& forall|i: int| 0 <= i < r.len() ==> {
        &&& (#[trigger] r[i]).name@ == m.nodes[i].name
        &&& r[i].entity_type@ == m.nodes[i].etype
        &&& no_dup_names(attrs_view(r[i].attributes@).map_values(|p: (Seq<char>, Seq<char>)| p.0))
        &&& pairs_map(attrs_view(r[i].attributes@)) == m.nodes[i].attrs.map_values(|v: (Seq<char>, u64)| v.0)
    }
}

/// `r` lists every relationship of `m` in edge order.
pub open spec fn global_relationships_answer(m: GlobalModel, r: Seq<Relationship>) -> bool {
    &&& r.len() == m.edges.len()
    &&& forall|e: int| 0 <= e < r.len() ==> {
        &&& (#[trigger] r[e]).from@ == m.nodes[m.edges[e].0 as int].name
        &&& r[e].to@ == m.nodes[m.edges[e].1 as int].name
        &&& r[e].relationship_type@ == m.labels[e]
    }
}

/// `r` answers a neighbour query for `name`: nothing for an unknown entity.
pub open spec fn global_related_answer(m: GlobalModel, name: Seq<char>, r: Seq<RelatedEntity>) -> bool {
    &&& spec_find(gnames(m), name) is None ==> r.len() == 0
    &&& spec_find(gnames(m), name) matches Some(n) ==> related_matches(r, g_related_model(m, n))
}

/// `r` answers a path query: `None` when an entity is unknown or unreachable, else a shortest walk.
pub open spec fn global_path_answer(m: GlobalModel, from: Seq<char>, to: Seq<char>, r: Option<Vec<PathEdge>>) -> bool {
    &&& (spec_find(gnames(m), from) is None || spec_find(gnames(m), to) is None) ==> r is None
    &&& spec_find(gnames(m), from) is Some && spec_find(gnames(m), to) is Some ==> {
        let a = spec_find(gnames(m), from).unwrap();
        let b = spec_find(gnames(m), to).unwrap();
        &&& (r is None <==> !reachable(m.edges, a, b))
        &&& (r matches Some(steps) ==> path_found(gnames(m), m.edges, m.labels, a, b, steps@))
    }
}

/// `r` lists, in ascending order and once each, the sessions that contributed `name`.
pub open spec fn sources_answer(m: GlobalModel, name: Seq<char>, r: Seq<String>) -> bool {
    &&& spec_find(gnames(m), name) is None ==> r.len() == 0
    &&& spec_find(gnames(m), name) matches Some(i) ==> {
        &&& strictly_sorted(r.map_values(|s: String| s@))
        &&& r.map_values(|s: String| s@).to_set() == m.nodes[i as int].prov.dom()
    }
}

/// Agents recorded in a provenance map.
pub open spec fn agents_of(prov: Map<Seq<char>, Option<Seq<char>>>) -> Set<Seq<char>> {
    Set::new(|a: Seq<char>| exists|k: Seq<char>| prov.contains_key(k) && prov[k] == Some(a))
}


/// One entity of a global-graph snapshot.
#[derive(Debug, Clone)]
pub struct GlobalNodeSnapshot {
    pub name: String,
    pub entity_type: String,
    pub entity_type_index: u64,
    /// (key, value, log index of the write)
    pub attributes: Vec<(String, String, u64)>,
    /// (session, agent)
    pub provenance: Vec<(String, Option<String>)>,
}

/// One relationship of a global-graph snapshot.
#[derive(Debug, Clone)]
pub struct GlobalEdgeSnapshot {
    pub from: String,
    pub to: String,
    pub relationship_type: String,
    pub sources: Vec<String>,
}

/// A serialisable copy of the global graph.
#[derive(Debug, Clone)]
pub struct GlobalGraphSnapshot {
    pub nodes: Vec<GlobalNodeSnapshot>,
    pub edges: Vec<GlobalEdgeSnapshot>,
}

impl Default for GlobalGraphSnapshot {
    /// The empty snapshot.
    fn default() -> (s: GlobalGraphSnapshot)
        ensures
            s.nodes@.len() == 0,
            s.edges@.len() == 0,
    {
        GlobalGraphSnapshot { nodes: Vec::new(), edges: Vec::new() }
    }
}

pub open spec fn snap_attrs(ns: GlobalNodeSnapshot) -> Seq<(Seq<char>, (Seq<char>, u64))> {
    ns.attributes@.map_values(|t: (String, String, u64)| (t.0@, (t.1@, t.2)))
}

pub open spec fn snap_prov(ns: GlobalNodeSnapshot) -> Seq<(Seq<char>, Option<Seq<char>>)> {
    ns.provenance@.map_values(|p: (String, Option<String>)| (p.0@, opt_view(p.1)))
}

/// The entity a node snapshot describes; of repeated keys the later pair wins.
pub open spec fn snap_node(ns: GlobalNodeSnapshot) -> GNode {
    GNode {
        name: ns.name@,
        etype: ns.entity_type@,
        etype_index: ns.entity_type_index,
        attrs: fold_insert(snap_attrs(ns)),
        prov: fold_insert(snap_prov(ns)),
    }
}

/// Entities restored from node snapshots in order; a repeated name replaces
/// the earlier entity of that name.
pub open spec fn restore_nodes(ns: Seq<GlobalNodeSnapshot>) -> Seq<GNode>
    decreases ns.len(),
{
    if ns.len() == 0 {
        Seq::empty()
    } else {
        let prev = restore_nodes(ns.drop_last());
        let n = snap_node(ns.last());
        match spec_find(prev.map_values(|g: GNode| g.name), n.name) {
            Some(i) => prev.update(i as int, n),
            None => prev.push(n),
        }
    }
}

/// Relationships restored from edge snapshots in order onto `m`. One naming an
/// unknown entity is skipped; a repeated (from, to, type) adds its sources to
/// the relationship already restored.
pub open spec fn restore_edges(m: GlobalModel, es: Seq<GlobalEdgeSnapshot>) -> GlobalModel
    decreases es.len(),
{
    if es.len() == 0 {
        m
    } else {
        let prev = restore_edges(m, es.drop_last());
        let e = es.last();
        match (spec_find(gnames(prev), e.from@), spec_find(gnames(prev), e.to@)) {
            (Some(a), Some(b)) => match g_find_edge(prev, a, b, e.relationship_type@) {
                Some(x) => GlobalModel { sources: prev.sources.update(x as int, prev.sources[x as int].union(string_set(e.sources@))), ..prev },
                None => GlobalModel {
                    edges: prev.edges.push((a, b)),
                    labels: prev.labels.push(e.relationship_type@),
                    sources: prev.sources.push(string_set(e.sources@)),
                    ..prev
                },
            },
            _ => prev,
        }
    }
}

/// The global state a snapshot restores to.
pub open spec fn restore_model(snap: GlobalGraphSnapshot) -> GlobalModel {
    restore_edges(
        GlobalModel { nodes: restore_nodes(snap.nodes@), edges: Seq::empty(), labels: Seq::empty(), sources: Seq::empty() },
        snap.edges@,
    )
}

/// `snap` lists exactly the entities and relationships of `m`, in index order.
pub open spec fn describes(snap: GlobalGraphSnapshot, m: GlobalModel) -> bool {
    &&& snap.nodes@.len() == m.nodes.len()
    &&& forall|i: int| 0 <= i < m.nodes.len() ==> snap_node(#[trigger] snap.nodes@[i]) == m.nodes[i]
    &&& snap.edges@.len() == m.edges.len()
    &&& forall|e: int| 0 <= e < m.edges.len() ==> {
        &&& (#[trigger] snap.edges@[e]).from@ == gnames(m)[m.edges[e].0 as int]
        &&& snap.edges@[e].to@ == gnames(m)[m.edges[e].1 as int]
        &&& snap.edges@[e].relationship_type@ == m.labels[e]
        &&& string_set(snap.edges@[e].sources@) == m.sources[e]
    }
}

proof fn lemma_restore_nodes_prefix(snap: GlobalGraphSnapshot, m: GlobalModel, k: int)
    requires
        global_wf(m),
        describes(snap, m),
        0 <= k <= m.nodes.len(),
    ensures
        restore_nodes(snap.nodes@.take(k)) == m.nodes.take(k),
    decreases k,
{
    let ns = snap.nodes@;
    if k == 0 {
        assert(ns.take(0) =~= Seq::<GlobalNodeSnapshot>::empty());
        assert(m.nodes.take(0) =~= Seq::<GNode>::empty());
    } else {
        let j = k - 1;
        lemma_restore_nodes_prefix(snap, m, j);
        let prev = m.nodes.take(j);
        assert(ns.take(k).drop_last() =~= ns.take(j));
        assert(ns.take(k).last() == ns[j]);
        let pn = prev.map_values(|g: GNode| g.name);
        assert forall|t: int| 0 <= t < pn.len() implies pn[t] != m.nodes[j].name by {
            assert(gnames(m)[t] == pn[t]);
            assert(gnames(m)[j] == m.nodes[j].name);
        }
        assert(spec_find(pn, snap_node(ns[j]).name) is None);
        assert(m.nodes.take(k) =~= prev.push(m.nodes[j]));
    }
}

proof fn lemma_restore_edges_prefix(snap: GlobalGraphSnapshot, m: GlobalModel, m0: GlobalModel, q: int)
    requires
        global_wf(m),
        describes(snap, m),
        m0 == (GlobalModel { nodes: m.nodes, edges: Seq::empty(), labels: Seq::empty(), sources: Seq::empty() }),
        0 <= q <= m.edges.len(),
    ensures
        restore_edges(m0, snap.edges@.take(q)) == (GlobalModel {
            nodes: m.nodes, edges: m.edges.take(q), labels: m.labels.take(q), sources: m.sources.take(q),
        }),
    decreases q,
{
    let es = snap.edges@;
    if q == 0 {
        assert(es.take(0) =~= Seq::<GlobalEdgeSnapshot>::empty());
        assert(m.edges.take(0) =~= Seq::<(nat, nat)>::empty());
        assert(m.labels.take(0) =~= Seq::<Seq<char>>::empty());
        assert(m.sources.take(0) =~= Seq::<Set<Seq<char>>>::empty());
    } else {
        let p = q - 1;
        lemma_restore_edges_prefix(snap, m, m0, p);
        let prev = GlobalModel { nodes: m.nodes, edges: m.edges.take(p), labels: m.labels.take(p), sources: m.sources.take(p) };
        assert(es.take(q).drop_last() =~= es.take(p));
        assert(es.take(q).last() == es[p]);
        let (a, b) = m.edges[p];
        assert(gnames(prev) == gnames(m));
        assert(gnames(m)[a as int] == es[p].from@);
        assert(gnames(m)[b as int] == es[p].to@);
        lemma_find_unique(gnames(m), es[p].from@, a as int);
        lemma_find_unique(gnames(m), es[p].to@, b as int);
        if exists|x: int| 0 <= x < prev.edges.len() && prev.edges[x] == (a, b) && prev.labels[x] == es[p].relationship_type@ {
            let x = choose|x: int| 0 <= x < prev.edges.len() && prev.edges[x] == (a, b) && prev.labels[x] == es[p].relationship_type@;
            assert(m.edges[x] == m.edges[p]);
            assert(m.labels[x] == m.labels[p]);
        }
        assert(g_find_edge(prev, a, b, es[p].relationship_type@) is None);
        assert(m.edges.take(q) =~= prev.edges.push((a, b)));
        assert(m.labels.take(q) =~= prev.labels.push(es[p].relationship_type@));
        assert(m.sources.take(q) =~= prev.sources.push(string_set(es[p].sources@)));
    }
}

/// Restoring a snapshot that describes a well-formed global state gives that
/// state back: what `to_snapshot` writes, `from_snapshot` reads back unchanged.
pub proof fn lemma_snapshot_round_trip(snap: GlobalGraphSnapshot, m: GlobalModel)
    requires
        global_wf(m),
        describes(snap, m),
    ensures
        restore_model(snap) == m,
{
    lemma_restore_nodes_prefix(snap, m, m.nodes.len() as int);
    assert(snap.nodes@.take(m.nodes.len() as int) =~= snap.nodes@);
    assert(m.nodes.take(m.nodes.len() as int) =~= m.nodes);
    let m0 = GlobalModel { nodes: m.nodes, edges: Seq::empty(), labels: Seq::empty(), sources: Seq::empty() };
    lemma_restore_edges_prefix(snap, m, m0, m.edges.len() as int);
    assert(snap.edges@.take(m.edges.len() as int) =~= snap.edges@);
    assert(m.edges.take(m.edges.len() as int) =~= m.edges);
    assert(m.labels.take(m.labels.len() as int) =~= m.labels);
    assert(m.sources.take(m.sources.len() as int) =~= m.sources);
}

} // verus!
