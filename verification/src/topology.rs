//! A directed multigraph with named nodes and labelled edges, built on the
//! structural `petgraph` graph of [`crate::digraph`]. It carries the parts
//! that the per-session and global knowledge graphs share: lookup by name,
//! neighbourhoods, and breadth-first path search.

use vstd::prelude::*;
use petgraph::graph::DiGraph;
use crate::digraph::{adjacent, digraph_edges_at, digraph_add_edge, digraph_add_node, digraph_edge_endpoints, digraph_edges, digraph_new, digraph_node_count, index_limit};
use vstd::string::*;

verus! {

/// Seq-of-chars view of a list of strings.
pub open spec fn strings_view(v: Seq<String>) -> Seq<Seq<char>> {
    v.map_values(|s: String| s@)
}

/// `p` is a walk from `a` to `b` along `edges` (a sequence of edge indices).
pub open spec fn is_walk(edges: Seq<(nat, nat)>, a: nat, b: nat, p: Seq<nat>) -> bool {
    &&& forall|k: int| 0 <= k < p.len() ==> #[trigger] p[k] < edges.len()
    &&& if p.len() == 0 {
        a == b
    } else {
        &&& edges[p[0] as int].0 == a
        &&& edges[p[p.len() - 1] as int].1 == b
        &&& forall|k: int| 0 <= k < p.len() - 1 ==> edges[#[trigger] p[k] as int].1 == edges[p[k + 1] as int].0
    }
}

/// There is a walk from `a` to `b`.
pub open spec fn reachable(edges: Seq<(nat, nat)>, a: nat, b: nat) -> bool {
    exists|p: Seq<nat>| is_walk(edges, a, b, p)
}

/// `p` is a walk from `a` to `b`, and no walk between them is shorter.
pub open spec fn is_shortest_walk(edges: Seq<(nat, nat)>, a: nat, b: nat, p: Seq<nat>) -> bool {
    &&& is_walk(edges, a, b, p)
    &&& forall|q: Seq<nat>| #[trigger] is_walk(edges, a, b, q) ==> p.len() <= q.len()
}

/// `v` can be reached from `a` in at most `k` steps.
spec fn within(edges: Seq<(nat, nat)>, a: nat, k: nat, v: nat) -> bool {
    exists|p: Seq<nat>| #[trigger] is_walk(edges, a, v, p) && p.len() <= k
}

/// A walk without its last edge ends where that edge starts.
proof fn lemma_walk_drop_last(edges: Seq<(nat, nat)>, a: nat, v: nat, p: Seq<nat>)
    requires
        is_walk(edges, a, v, p),
        p.len() > 0,
    ensures
        is_walk(edges, a, edges[p.last() as int].0, p.drop_last()),
{
    let m = p.len() as int;
    if m >= 2 {
        assert(edges[p[m - 2] as int].1 == edges[p[m - 1] as int].0);
    }
}

/// A walk followed by an edge out of its end is a walk.
proof fn lemma_walk_append(edges: Seq<(nat, nat)>, a: nat, b: nat, p: Seq<nat>, e: nat)
    requires
        is_walk(edges, a, b, p),
        e < edges.len(),
        edges[e as int].0 == b,
    ensures
        is_walk(edges, a, edges[e as int].1, p.push(e)),
{
    let q = p.push(e);
    assert forall|k: int| 0 <= k < q.len() implies #[trigger] q[k] < edges.len() by {
        if k < p.len() {
            assert(q[k] == p[k]);
        }
    }
    assert forall|k: int| 0 <= k < q.len() - 1 implies edges[#[trigger] q[k] as int].1 == edges[q[k + 1] as int].0 by {
        assert(q[k] == p[k]);
        if k + 1 < p.len() {
            assert(q[k + 1] == p[k + 1]);
        }
    }
}

proof fn lemma_within_zero(edges: Seq<(nat, nat)>, a: nat, v: nat)
    requires
        within(edges, a, 0, v),
    ensures
        v == a,
{
    let p = choose|p: Seq<nat>| #[trigger] is_walk(edges, a, v, p) && p.len() <= 0;
}

proof fn lemma_within_mono(edges: Seq<(nat, nat)>, a: nat, k: nat, k2: nat, v: nat)
    requires
        within(edges, a, k, v),
        k <= k2,
    ensures
        within(edges, a, k2, v),
{
    let p = choose|p: Seq<nat>| #[trigger] is_walk(edges, a, v, p) && p.len() <= k;
    assert(is_walk(edges, a, v, p) && p.len() <= k2);
}

/// The end of a walk of length `m` is within `m` steps of its start.
proof fn lemma_walk_within(edges: Seq<(nat, nat)>, a: nat, v: nat, p: Seq<nat>)
    requires
        is_walk(edges, a, v, p),
    ensures
        within(edges, a, p.len(), v),
{
    assert(is_walk(edges, a, v, p) && p.len() <= p.len());
}

/// A node first reached in step `k + 1` is the target of an edge from a node within `k` steps.
proof fn lemma_within_last(edges: Seq<(nat, nat)>, a: nat, k: nat, v: nat) -> (e: int)
    requires
        within(edges, a, k + 1, v),
        !within(edges, a, k, v),
    ensures
        0 <= e < edges.len(),
        edges[e].1 == v,
        within(edges, a, k, edges[e].0),
{
    let p = choose|p: Seq<nat>| #[trigger] is_walk(edges, a, v, p) && p.len() <= k + 1;
    if p.len() <= k {
        assert(is_walk(edges, a, v, p) && p.len() <= k);
    }
    lemma_walk_drop_last(edges, a, v, p);
    let u = edges[p.last() as int].0;
    assert(is_walk(edges, a, u, p.drop_last()) && p.drop_last().len() <= k);
    p.last() as int
}

/// Index of the node called `name`, if any.
pub open spec fn spec_find(names: Seq<Seq<char>>, name: Seq<char>) -> Option<nat> {
    if exists|i: int| 0 <= i < names.len() && names[i] == name {
        Some((choose|i: int| 0 <= i < names.len() && names[i] == name) as nat)
    } else {
        None
    }
}

/// With unique names, the node found for `name` is the one that has it.
pub proof fn lemma_find_unique(names: Seq<Seq<char>>, name: Seq<char>, i: int)
    requires
        no_dup_names(names),
        0 <= i < names.len(),
        names[i] == name,
    ensures
        spec_find(names, name) == Some(i as nat),
{
    let j = choose|j: int| 0 <= j < names.len() && names[j] == name;
    assert(0 <= j < names.len() && names[j] == name);
}

pub open spec fn no_dup_names(names: Seq<Seq<char>>) -> bool {
    forall|i: int, j: int| 0 <= i < names.len() && 0 <= j < names.len() && i != j ==> names[i] != names[j]
}

/// Edge indices of a `usize` vector as naturals.
pub open spec fn nat_seq(v: Seq<usize>) -> Seq<nat> {
    v.map_values(|x: usize| x as nat)
}

/// Neighbourhood of `n`: its outgoing edges newest first, then its incoming
/// edges newest first, each as (other endpoint, edge index, outgoing?).
pub open spec fn spec_related(edges: Seq<(nat, nat)>, n: nat) -> Seq<(nat, nat, bool)> {
    adjacent(edges, n, true).map_values(|p: (nat, nat)| (p.1, p.0, true))
        + adjacent(edges, n, false).map_values(|p: (nat, nat)| (p.1, p.0, false))
}

/// Every entry of the adjacency list of `n` is an edge touching `n` on that side.
pub proof fn lemma_adjacent_sound(edges: Seq<(nat, nat)>, n: nat, outgoing: bool, k: int)
    requires
        0 <= k < adjacent(edges, n, outgoing).len(),
    ensures
        adjacent(edges, n, outgoing)[k].0 < edges.len(),
        outgoing ==> edges[adjacent(edges, n, outgoing)[k].0 as int] == (n, adjacent(edges, n, outgoing)[k].1),
        !outgoing ==> edges[adjacent(edges, n, outgoing)[k].0 as int] == (adjacent(edges, n, outgoing)[k].1, n),
    decreases edges.len(),
{
    if edges.len() > 0 {
        let last = edges.last();
        let rest = edges.drop_last();
        let matched = (outgoing && last.0 == n) || (!outgoing && last.1 == n);
        if matched && k == 0 {
        } else {
            let k2 = if matched { k - 1 } else { k };
            lemma_adjacent_sound(rest, n, outgoing, k2);
        }
    }
}

/// Every edge touching `n` on that side appears in its adjacency list.
pub proof fn lemma_adjacent_complete(edges: Seq<(nat, nat)>, n: nat, outgoing: bool, e: int)
    requires
        0 <= e < edges.len(),
        outgoing ==> edges[e].0 == n,
        !outgoing ==> edges[e].1 == n,
    ensures
        exists|k: int| 0 <= k < adjacent(edges, n, outgoing).len()
            && #[trigger] adjacent(edges, n, outgoing)[k].0 == e,
    decreases edges.len(),
{
    let rest = edges.drop_last();
    let last = edges.last();
    let matched = (outgoing && last.0 == n) || (!outgoing && last.1 == n);
    if e == edges.len() - 1 {
        assert(adjacent(edges, n, outgoing)[0].0 == e);
    } else {
        lemma_adjacent_complete(rest, n, outgoing, e);
        let k = choose|k: int| 0 <= k < adjacent(rest, n, outgoing).len() && #[trigger] adjacent(rest, n, outgoing)[k].0 == e;
        if matched {
            assert(adjacent(edges, n, outgoing)[k + 1].0 == e);
        } else {
            assert(adjacent(edges, n, outgoing)[k].0 == e);
        }
    }
}

/// Prepending an edge that ends where a walk starts gives a longer walk.
pub proof fn lemma_walk_prepend(edges: Seq<(nat, nat)>, a: nat, b: nat, c: nat, e: nat, p: Seq<nat>)
    requires
        e < edges.len(),
        edges[e as int] == (a, b),
        is_walk(edges, b, c, p),
    ensures
        is_walk(edges, a, c, seq![e] + p),
{
    let q = seq![e] + p;
    assert forall|k: int| 0 <= k < q.len() implies #[trigger] q[k] < edges.len() by {
        if k > 0 {
            assert(q[k] == p[k - 1]);
        }
    }
    if p.len() > 0 {
        assert forall|k: int| 0 <= k < q.len() - 1 implies edges[#[trigger] q[k] as int].1 == edges[q[k + 1] as int].0 by {
            if k > 0 {
                assert(q[k] == p[k - 1]);
                assert(q[k + 1] == p[k]);
            }
        }
    }
}

/// A set of nodes closed under edges that holds `a` but not `b` rules out a walk from `a` to `b`.
pub proof fn lemma_closed_blocks(edges: Seq<(nat, nat)>, s: spec_fn(nat) -> bool, a: nat, b: nat, p: Seq<nat>)
    requires
        s(a),
        !s(b),
        forall|e: int| 0 <= e < edges.len() && #[trigger] s(edges[e].0) ==> s(edges[e].1),
    ensures
        !is_walk(edges, a, b, p),
{
    if is_walk(edges, a, b, p) {
        assert forall|k: int| 0 <= k < p.len() implies #[trigger] s(edges[p[k] as int].1) by {
            lemma_walk_prefix_in(edges, s, a, b, p, k);
        }
        if p.len() > 0 {
            assert(s(edges[p[p.len() - 1] as int].1));
        }
    }
}

proof fn lemma_walk_prefix_in(edges: Seq<(nat, nat)>, s: spec_fn(nat) -> bool, a: nat, b: nat, p: Seq<nat>, k: int)
    requires
        s(a),
        forall|e: int| 0 <= e < edges.len() && #[trigger] s(edges[e].0) ==> s(edges[e].1),
        is_walk(edges, a, b, p),
        0 <= k < p.len(),
    ensures
        s(edges[p[k] as int].1),
    decreases k,
{
    assert(p[k] < edges.len());
    if k == 0 {
        assert(s(edges[p[0] as int].0));
    } else {
        lemma_walk_prefix_in(edges, s, a, b, p, k - 1);
        assert(edges[p[k - 1] as int].1 == edges[p[k] as int].0);
    }
}

/// Number of filled slots.
pub open spec fn count_some<T>(v: Seq<Option<T>>) -> nat
    decreases v.len(),
{
    if v.len() == 0 {
        0
    } else {
        count_some(v.drop_last()) + if v.last() is Some { 1nat } else { 0nat }
    }
}

proof fn lemma_count_none<T>(v: Seq<Option<T>>)
    requires
        forall|j: int| 0 <= j < v.len() ==> v[j] is None,
    ensures
        count_some(v) == 0,
    decreases v.len(),
{
    if v.len() > 0 {
        lemma_count_none(v.drop_last());
    }
}

proof fn lemma_count_some_bound<T>(v: Seq<Option<T>>)
    ensures
        count_some(v) <= v.len(),
    decreases v.len(),
{
    if v.len() > 0 {
        lemma_count_some_bound(v.drop_last());
    }
}

proof fn lemma_count_some_fill<T>(v: Seq<Option<T>>, i: int, x: T)
    requires
        0 <= i < v.len(),
        v[i] is None,
    ensures
        count_some(v.update(i, Some(x))) == count_some(v) + 1,
    decreases v.len(),
{
    let w = v.update(i, Some(x));
    if i == v.len() - 1 {
        assert(w.drop_last() =~= v.drop_last());
    } else {
        assert(w.drop_last() =~= v.drop_last().update(i, Some(x)));
        lemma_count_some_fill(v.drop_last(), i, x);
    }
}

pub struct LabeledGraph {
    graph: DiGraph<(), ()>,
    names: Vec<String>,
    labels: Vec<String>,
}

impl LabeledGraph {
    /// Node names, by node index.
    pub closed spec fn names(&self) -> Seq<Seq<char>> {
        strings_view(self.names@)
    }

    /// Edges as (source, target), by edge index (insertion order).
    pub closed spec fn edges(&self) -> Seq<(nat, nat)> {
        digraph_edges(self.graph)
    }

    /// Edge labels, by edge index.
    pub closed spec fn labels(&self) -> Seq<Seq<char>> {
        strings_view(self.labels@)
    }

    pub closed spec fn wf(&self) -> bool {
        &&& digraph_node_count(self.graph) == self.names@.len()
        &&& digraph_edges(self.graph).len() == self.labels@.len()
        &&& forall|e: int| 0 <= e < digraph_edges(self.graph).len() ==>
            (#[trigger] digraph_edges(self.graph)[e]).0 < self.names@.len()
            && digraph_edges(self.graph)[e].1 < self.names@.len()
        &&& no_dup_names(self.names())
        &&& self.names@.len() <= index_limit()
        &&& digraph_edges(self.graph).len() <= index_limit()
    }

    pub proof fn lemma_wf(&self)
        requires
            self.wf(),
        ensures
            self.labels().len() == self.edges().len(),
            forall|e: int| 0 <= e < self.edges().len() ==>
                (#[trigger] self.edges()[e]).0 < self.names().len() && self.edges()[e].1 < self.names().len(),
            no_dup_names(self.names()),
            self.names().len() <= index_limit(),
            self.edges().len() <= index_limit(),
    {
    }

    pub fn new() -> (g: Self)
        ensures
            g.wf(),
            g.names() == Seq::<Seq<char>>::empty(),
            g.edges() == Seq::<(nat, nat)>::empty(),
            g.labels() == Seq::<Seq<char>>::empty(),
    {
        let g = LabeledGraph { graph: digraph_new(), names: Vec::new(), labels: Vec::new() };
        assert(g.names() =~= Seq::<Seq<char>>::empty());
        assert(g.labels() =~= Seq::<Seq<char>>::empty());
        g
    }

    pub fn node_count(&self) -> (n: usize)
        requires
            self.wf(),
        ensures
            n == self.names().len(),
    {
        self.names.len()
    }

    pub fn edge_count(&self) -> (n: usize)
        requires
            self.wf(),
        ensures
            n == self.edges().len(),
    {
        self.labels.len()
    }

    pub fn name(&self, i: usize) -> (s: &String)
        requires
            self.wf(),
            i < self.names().len(),
        ensures
            s@ == self.names()[i as int],
    {
        &self.names[i]
    }

    pub fn label(&self, e: usize) -> (s: &String)
        requires
            self.wf(),
            e < self.edges().len(),
        ensures
            s@ == self.labels()[e as int],
    {
        &self.labels[e]
    }

    pub fn endpoints(&self, e: usize) -> (r: (usize, usize))
        requires
            self.wf(),
            e < self.edges().len(),
        ensures
            r.0 as nat == self.edges()[e as int].0,
            r.1 as nat == self.edges()[e as int].1,
    {
        digraph_edge_endpoints(&self.graph, e)
    }

    /// Index of the node called `name`.
    pub fn find(&self, name: &str) -> (r: Option<usize>)
        requires
            self.wf(),
        ensures
            r matches Some(i) ==> i < self.names().len() && self.names()[i as int] == name@,
            r is None <==> spec_find(self.names(), name@) is None,
            r matches Some(i) ==> spec_find(self.names(), name@) == Some(i as nat),
    {
        let mut i: usize = 0;
        while i < self.names.len()
            invariant
                self.wf(),
                i <= self.names@.len(),
                forall|j: int| 0 <= j < i ==> self.names()[j] != name@,
            decreases self.names@.len() - i,
        {
            if str_eq(self.names[i].as_str(), name) {
                proof {
                    assert(self.names()[i as int] == self.names@[i as int]@);
                    lemma_find_unique(self.names(), name@, i as int);
                }
                return Some(i);
            }
            i = i + 1;
        }
        None
    }

    /// The edges of `n` on one side, newest first, as (edge index, other endpoint).
    fn adjacency(&self, n: usize, outgoing: bool) -> (r: Vec<(usize, usize)>)
        requires
            self.wf(),
            n < self.names().len(),
        ensures
            r@.len() == adjacent(self.edges(), n as nat, outgoing).len(),
            forall|j: int| 0 <= j < r@.len() ==> (#[trigger] r@[j]).0 as nat == adjacent(self.edges(), n as nat, outgoing)[j].0
                && r@[j].1 as nat == adjacent(self.edges(), n as nat, outgoing)[j].1,
    {
        let es = digraph_edges_at(&self.graph, n, outgoing);
        let ghost spec = adjacent(self.edges(), n as nat, outgoing);
        let mut r: Vec<(usize, usize)> = Vec::new();
        let mut i: usize = 0;
        while i < es.len()
            invariant
                spec == adjacent(self.edges(), n as nat, outgoing),
                es@.len() == spec.len(),
                forall|j: int| 0 <= j < es@.len() ==> {
                    &&& (#[trigger] es@[j]).0 as nat == spec[j].0
                    &&& self.edges()[es@[j].0 as int] == (es@[j].1 as nat, es@[j].2 as nat)
                },
                i <= es@.len(),
                r@.len() == i,
                forall|j: int| 0 <= j < i ==> (#[trigger] r@[j]).0 as nat == spec[j].0 && r@[j].1 as nat == spec[j].1,
            decreases es@.len() - i,
        {
            let (e, source, target) = es[i];
            proof {
                lemma_adjacent_sound(self.edges(), n as nat, outgoing, i as int);
            }
            let other = if outgoing { target } else { source };
            r.push((e, other));
            i = i + 1;
        }
        r
    }

    /// Neighbourhood of `n`: outgoing edges (newest first), then incoming ones,
    /// each as (other endpoint, edge index, outgoing?).
    pub fn related(&self, n: usize) -> (r: Vec<(usize, usize, bool)>)
        requires
            self.wf(),
            n < self.names().len(),
        ensures
            r@.len() == spec_related(self.edges(), n as nat).len(),
            forall|i: int| 0 <= i < r@.len() ==> ({
                let x = #[trigger] r@[i];
                let y = spec_related(self.edges(), n as nat)[i];
                x.0 as nat == y.0 && x.1 as nat == y.1 && x.2 == y.2
            }),
    {
        let outs = self.adjacency(n, true);
        let ins = self.adjacency(n, false);
        let ghost spec_out = adjacent(self.edges(), n as nat, true);
        let ghost spec_in = adjacent(self.edges(), n as nat, false);
        let ghost target = spec_related(self.edges(), n as nat);
        let mut r: Vec<(usize, usize, bool)> = Vec::new();
        let mut i: usize = 0;
        while i < outs.len()
            invariant
                i <= outs@.len(),
                outs@.len() == spec_out.len(),
                forall|j: int| 0 <= j < outs@.len() ==> (#[trigger] outs@[j]).0 as nat == spec_out[j].0 && outs@[j].1 as nat == spec_out[j].1,
                target == spec_out.map_values(|p: (nat, nat)| (p.1, p.0, true)) + spec_in.map_values(|p: (nat, nat)| (p.1, p.0, false)),
                r@.len() == i,
                forall|j: int| 0 <= j < i ==> ({
                    let x = #[trigger] r@[j];
                    x.0 as nat == target[j].0 && x.1 as nat == target[j].1 && x.2 == target[j].2
                }),
            decreases outs@.len() - i,
        {
            let (e, other) = outs[i];
            r.push((other, e, true));
            i = i + 1;
        }
        let mut k: usize = 0;
        while k < ins.len()
            invariant
                k <= ins@.len(),
                ins@.len() == spec_in.len(),
                outs@.len() == spec_out.len(),
                forall|j: int| 0 <= j < ins@.len() ==> (#[trigger] ins@[j]).0 as nat == spec_in[j].0 && ins@[j].1 as nat == spec_in[j].1,
                target == spec_out.map_values(|p: (nat, nat)| (p.1, p.0, true)) + spec_in.map_values(|p: (nat, nat)| (p.1, p.0, false)),
                r@.len() == outs@.len() + k,
                forall|j: int| 0 <= j < r@.len() ==> ({
                    let x = #[trigger] r@[j];
                    x.0 as nat == target[j].0 && x.1 as nat == target[j].1 && x.2 == target[j].2
                }),
            decreases ins@.len() - k,
        {
            let (e, other) = ins[k];
            r.push((other, e, false));
            k = k + 1;
        }
        r
    }

    /// Outgoing edges of `n`, newest first, as (edge index, target).
    pub fn out_edges(&self, n: usize) -> (r: Vec<(usize, usize)>)
        requires
            self.wf(),
            n < self.names().len(),
        ensures
            r@.len() == adjacent(self.edges(), n as nat, true).len(),
            forall|j: int| 0 <= j < r@.len() ==> (#[trigger] r@[j]).0 as nat == adjacent(self.edges(), n as nat, true)[j].0
                && r@[j].1 as nat == adjacent(self.edges(), n as nat, true)[j].1,
    {
        self.adjacency(n, true)
    }

    /// Breadth-first search along outgoing edges from `from` to `to`.
    /// Returns the edge indices of the walk found, or `None` when `to` cannot be reached.
    pub fn find_path(&self, from: usize, to: usize) -> (r: Option<Vec<usize>>)
        requires
            self.wf(),
            from < self.names().len(),
            to < self.names().len(),
        ensures
            r matches Some(p) ==> is_shortest_walk(self.edges(), from as nat, to as nat, nat_seq(p@)),
            r is None <==> !reachable(self.edges(), from as nat, to as nat),
    {
        let ghost edges = self.edges();
        if from == to {
            let p: Vec<usize> = Vec::new();
            assert(nat_seq(p@) =~= Seq::<nat>::empty());
            assert(is_walk(edges, from as nat, to as nat, Seq::<nat>::empty()));
            return Some(p);
        }
        let n = self.names.len();
        let mut parent: Vec<Option<(usize, usize)>> = Vec::new();
        let mut i: usize = 0;
        while i < n
            invariant
                i <= n,
                parent@.len() == i,
                forall|j: int| 0 <= j < i ==> parent@[j] is None,
            decreases n - i,
        {
            parent.push(None);
            i = i + 1;
        }
        assert(count_some(parent@) == 0) by {
            lemma_count_none(parent@);
        }
        let mut queue: Vec<usize> = Vec::new();
        queue.push(from);
        let mut head: usize = 0;
        let mut found = false;
        assert(queue@[0] == from);
        let ghost mut dist: Seq<nat> = Seq::new(n as nat, |j: int| 0nat);
        let ghost mut lv: nat = 0;
        proof {
            assert forall|v: nat| #[trigger] within(edges, from as nat, 0, v) implies v == from by {
                lemma_within_zero(edges, from as nat, v);
            }
        }
        while head < queue.len() && !found
            invariant
                self.wf(),
                head == 0 ==> lv == 0,
                queue@.len() > 0,
                queue@[0] == from,
                forall|q: int| head <= q < queue@.len() && (#[trigger] queue@[q]) != from ==> lv <= dist[queue@[q] as int] <= lv + 1,
                forall|q1: int, q2: int| #![trigger queue@[q1], queue@[q2]] head <= q1 <= q2 < queue@.len() && queue@[q1] != from && queue@[q2] != from
                    ==> dist[queue@[q1] as int] <= dist[queue@[q2] as int],
                forall|v: nat, k: nat| v < n && (v == from || parent@[v as int] is Some) && #[trigger] within(edges, from as nat, k, v)
                    ==> dist[v as int] <= k,
                forall|v: nat| #[trigger] within(edges, from as nat, lv, v) ==> v == from || (v < n && parent@[v as int] is Some),
                edges == self.edges(),
                n == self.names().len(),
                from < n, to < n, from != to,
                parent@.len() == n,
                dist.len() == n,
                dist[from as int] == 0,
                head <= queue@.len(),
                queue@.len() + (if found { 1nat } else { 0nat }) == 1 + count_some(parent@),
                forall|q: int| 0 <= q < queue@.len() ==> #[trigger] queue@[q] < n,
                forall|v: int| 0 <= v < n ==> (#[trigger] parent@[v] matches Some(pe) ==> {
                    &&& pe.1 < edges.len()
                    &&& edges[pe.1 as int] == (pe.0 as nat, v as nat)
                    &&& pe.0 < n
                    &&& (pe.0 == from || parent@[pe.0 as int] is Some)
                    &&& (v != from ==> dist[v] == dist[pe.0 as int] + 1)
                }),
                forall|q: int| 0 <= q < queue@.len() ==> (#[trigger] queue@[q] == from || parent@[queue@[q] as int] is Some),
                !found ==> forall|v: int| 0 <= v < n && (v == from || parent@[v] is Some) ==> #[trigger] queue@.contains(v as usize),
                !found ==> forall|q: int, e: int| #![trigger queue@[q], edges[e]] 0 <= q < head && 0 <= e < edges.len() && edges[e].0 == queue@[q] as nat
                    ==> edges[e].1 == from as nat || parent@[edges[e].1 as int] is Some,
                found ==> parent@[to as int] is Some,
                !found ==> parent@[to as int] is None,
            decreases n + 1 - head, if found { 0nat } else { 1nat },
        {
            proof {
                lemma_count_some_bound(parent@);
            }
            let current = queue[head];
            proof {
                self.lemma_wf();
                if current != from {
                    let d = dist[current as int];
                    if d == lv + 1 {
                        assert forall|v: nat| #[trigger] within(edges, from as nat, (lv + 1) as nat, v)
                            implies v == from || (v < n && parent@[v as int] is Some) by {
                            if !within(edges, from as nat, lv, v) {
                                let e = lemma_within_last(edges, from as nat, lv, v);
                                let u = edges[e].0;
                                assert(u < n);
                                assert(dist[u as int] <= lv);
                                let ui: int = u as int;
                                let q: int = if u == from as nat {
                                    0
                                } else {
                                    assert(queue@.contains(ui as usize));
                                    choose|q: int| 0 <= q < queue@.len() && queue@[q] == ui as usize
                                };
                                assert(queue@[q] == ui as usize);
                                if q >= head {
                                    assert(dist[queue@[head as int] as int] <= dist[queue@[q] as int]);
                                }
                                assert(edges[e].0 == queue@[q] as nat);
                            }
                        }
                    }
                    lv = d;
                }
            }
            head = head + 1;
            let adj = self.adjacency(current, true);
            let ghost spec_adj = adjacent(edges, current as nat, true);
            proof {
                assert forall|j: int| 0 <= j < spec_adj.len() implies #[trigger] spec_adj[j].1 < n by {
                    lemma_adjacent_sound(edges, current as nat, true, j);
                    self.lemma_wf();
                }
            }
            let mut k: usize = 0;
            while k < adj.len() && !found
                invariant
                    self.wf(),
                    edges == self.edges(),
                    n == self.names().len(),
                    from < n, to < n, from != to,
                    current < n,
                    queue@.len() > 0,
                    queue@[0] == from,
                    dist[current as int] == lv || (current == from && head > 1),
                    forall|q: int| head <= q < queue@.len() && (#[trigger] queue@[q]) != from ==> lv <= dist[queue@[q] as int] <= lv + 1,
                    forall|q1: int, q2: int| #![trigger queue@[q1], queue@[q2]] head <= q1 <= q2 < queue@.len() && queue@[q1] != from && queue@[q2] != from
                        ==> dist[queue@[q1] as int] <= dist[queue@[q2] as int],
                    forall|v: nat, k: nat| v < n && (v == from || parent@[v as int] is Some) && #[trigger] within(edges, from as nat, k, v)
                        ==> dist[v as int] <= k,
                    forall|v: nat| #[trigger] within(edges, from as nat, lv, v) ==> v == from || (v < n && parent@[v as int] is Some),
                    0 < head <= queue@.len(),
                    queue@[head - 1] == current,
                    k <= adj@.len(),
                    adj@.len() == spec_adj.len(),
                    spec_adj == adjacent(edges, current as nat, true),
                    forall|j: int| 0 <= j < spec_adj.len() ==> #[trigger] spec_adj[j].1 < n,
                    forall|j: int| 0 <= j < adj@.len() ==> (#[trigger] adj@[j]).0 as nat == spec_adj[j].0 && adj@[j].1 as nat == spec_adj[j].1,
                    parent@.len() == n,
                    dist.len() == n,
                    dist[from as int] == 0,
                    queue@.len() + (if found { 1nat } else { 0nat }) == 1 + count_some(parent@),
                    forall|q: int| 0 <= q < queue@.len() ==> #[trigger] queue@[q] < n,
                    forall|v: int| 0 <= v < n ==> (#[trigger] parent@[v] matches Some(pe) ==> {
                        &&& pe.1 < edges.len()
                        &&& edges[pe.1 as int] == (pe.0 as nat, v as nat)
                        &&& pe.0 < n
                        &&& (pe.0 == from || parent@[pe.0 as int] is Some)
                        &&& (v != from ==> dist[v] == dist[pe.0 as int] + 1)
                    }),
                    current == from || parent@[current as int] is Some,
                    forall|q: int| 0 <= q < queue@.len() ==> (#[trigger] queue@[q] == from || parent@[queue@[q] as int] is Some),
                    !found ==> forall|v: int| 0 <= v < n && (v == from || parent@[v] is Some) ==> #[trigger] queue@.contains(v as usize),
                    forall|q: int, e: int| #![trigger queue@[q], edges[e]] 0 <= q < head - 1 && 0 <= e < edges.len() && edges[e].0 == queue@[q] as nat
                        ==> edges[e].1 == from as nat || parent@[edges[e].1 as int] is Some,
                    forall|j: int| 0 <= j < k ==> #[trigger] spec_adj[j].1 == from as nat || parent@[spec_adj[j].1 as int] is Some,
                    found ==> parent@[to as int] is Some,
                    !found ==> parent@[to as int] is None,
                decreases adj@.len() - k, if found { 0nat } else { 1nat },
            {
                let (e, next) = adj[k];
                let ghost pre = parent@;
                proof {
                    lemma_adjacent_sound(edges, current as nat, true, k as int);
                }
                if next != from && parent[next].is_none() {
                    let ghost old_parent = parent@;
                    let ghost old_queue = queue@;
                    let ghost old_dist = dist;
                    proof {
                        if current == from && head > 1 {
                            assert(edges[e as int].0 == queue@[0] as nat);
                        }
                        assert(dist[current as int] == lv);
                        assert forall|m: nat| #[trigger] within(edges, from as nat, m, next as nat) implies lv + 1 <= m by {
                            if m <= lv {
                                lemma_within_mono(edges, from as nat, m, lv, next as nat);
                            }
                        }
                        assert forall|q: int| 0 <= q < old_queue.len() implies #[trigger] old_queue[q] != next by {
                            assert(old_queue[q] == from || old_parent[old_queue[q] as int] is Some);
                        }
                        lemma_count_some_fill(parent@, next as int, (current, e));
                        lemma_count_some_bound(parent@);
                        dist = dist.update(next as int, dist[current as int] + 1);
                    }
                    parent.set(next, Some((current, e)));
                    if next == to {
                        found = true;
                    } else {
                        queue.push(next);
                    }
                    proof {
                        assert forall|v: nat, m: nat| v < n && (v == from || parent@[v as int] is Some) && #[trigger] within(edges, from as nat, m, v)
                            implies dist[v as int] <= m by {
                            if v != next as nat {
                                assert(parent@[v as int] == old_parent[v as int]);
                                assert(dist[v as int] == old_dist[v as int]);
                            }
                        }
                        assert forall|q: int| head <= q < queue@.len() && (#[trigger] queue@[q]) != from implies lv <= dist[queue@[q] as int] <= lv + 1 by {
                            if q < old_queue.len() {
                                assert(queue@[q] == old_queue[q]);
                                assert(old_queue[q] != next);
                            }
                        }
                        assert forall|q1: int, q2: int| #![trigger queue@[q1], queue@[q2]] head <= q1 <= q2 < queue@.len() && queue@[q1] != from && queue@[q2] != from
                            implies dist[queue@[q1] as int] <= dist[queue@[q2] as int] by {
                            if q1 < old_queue.len() {
                                assert(queue@[q1] == old_queue[q1]);
                                assert(old_queue[q1] != next);
                            }
                            if q2 < old_queue.len() {
                                assert(queue@[q2] == old_queue[q2]);
                                assert(old_queue[q2] != next);
                            }
                        }
                        assert forall|v: int| 0 <= v < n && (v == from || parent@[v] is Some) && !found implies #[trigger] queue@.contains(v as usize) by {
                            if v == next as int {
                                assert(queue@[queue@.len() - 1] == next);
                            } else {
                                assert(old_parent[v] == parent@[v]);
                                assert(v == from || old_parent[v] is Some);
                                assert(old_queue.contains(v as usize));
                                let q = choose|q: int| 0 <= q < old_queue.len() && old_queue[q] == v as usize;
                                assert(queue@[q] == v as usize);
                            }
                        }
                    }
                } else if next == from && parent[next].is_none() {
                    // `from` itself is rediscovered through a cycle: it keeps its place as the root.
                    let ghost old_parent = parent@;
                    let ghost old_queue = queue@;
                    proof {
                        lemma_count_some_fill(parent@, next as int, (current, e));
                        lemma_count_some_bound(parent@);
                    }
                    parent.set(next, Some((current, e)));
                    queue.push(next);
                    proof {
                        assert forall|v: int| 0 <= v < n && (v == from || parent@[v] is Some) implies #[trigger] queue@.contains(v as usize) by {
                            if v == next as int {
                                assert(queue@[queue@.len() - 1] == next);
                            } else {
                                assert(old_parent[v] == parent@[v]);
                                assert(old_queue.contains(v as usize));
                                let q = choose|q: int| 0 <= q < old_queue.len() && old_queue[q] == v as usize;
                                assert(queue@[q] == v as usize);
                            }
                        }
                    }
                }
                proof {
                    assert(forall|v: int| 0 <= v < n && #[trigger] pre[v] is Some ==> parent@[v] is Some);
                    assert(spec_adj[k as int].1 == next as nat);
                    assert(next == from || parent@[next as int] is Some);
                    assert forall|j: int| 0 <= j < k + 1 implies #[trigger] spec_adj[j].1 == from as nat || parent@[spec_adj[j].1 as int] is Some by {
                        if j < k {
                            let w = spec_adj[j].1 as int;
                            assert(0 <= w < n);
                            assert(spec_adj[j].1 == from as nat || pre[w] is Some);
                            if pre[w] is Some {
                                assert(parent@[w] is Some);
                            }
                        }
                    }
                }
                k = k + 1;
            }
            proof {
                if !found {
                    assert forall|q: int, e: int| #![trigger queue@[q], edges[e]] 0 <= q < head && 0 <= e < edges.len() && edges[e].0 == queue@[q] as nat
                        implies edges[e].1 == from as nat || parent@[edges[e].1 as int] is Some by {
                        if q == head - 1 {
                            lemma_adjacent_complete(edges, current as nat, true, e);
                            let j = choose|j: int| 0 <= j < spec_adj.len() && #[trigger] spec_adj[j].0 == e;
                            lemma_adjacent_sound(edges, current as nat, true, j);
                        }
                    }
                }
            }
        }
        if !found {
            proof {
                let s = |v: nat| v == from as nat || (v < n && parent@[v as int] is Some);
                assert forall|e: int| 0 <= e < edges.len() && #[trigger] s(edges[e].0) implies s(edges[e].1) by {
                    let u = edges[e].0;
                    assert(queue@.contains(u as usize));
                    let q = choose|q: int| 0 <= q < queue@.len() && queue@[q] == u as usize;
                    assert(edges[e].0 == queue@[q] as nat);
                }
                assert forall|p: Seq<nat>| !is_walk(edges, from as nat, to as nat, p) by {
                    lemma_closed_blocks(edges, s, from as nat, to as nat, p);
                }
            }
            return None;
        }
        proof {
            assert forall|q: Seq<nat>| #[trigger] is_walk(edges, from as nat, to as nat, q) implies dist[to as int] <= q.len() by {
                lemma_walk_within(edges, from as nat, to as nat, q);
            }
        }
        let ghost best = dist[to as int];
        // Walk back from `to` along parents.
        let mut node = to;
        let mut rev: Vec<usize> = Vec::new();
        let ghost mut walk: Seq<nat> = Seq::empty();
        while node != from
            invariant
                self.wf(),
                edges == self.edges(),
                n == self.names().len(),
                from < n, to < n,
                node < n,
                parent@.len() == n,
                dist.len() == n,
                dist[from as int] == 0,
                forall|v: int| 0 <= v < n ==> (#[trigger] parent@[v] matches Some(pe) ==> {
                    &&& pe.1 < edges.len()
                    &&& edges[pe.1 as int] == (pe.0 as nat, v as nat)
                    &&& pe.0 < n
                    &&& (pe.0 == from || parent@[pe.0 as int] is Some)
                    &&& (v != from ==> dist[v] == dist[pe.0 as int] + 1)
                }),
                node == from || parent@[node as int] is Some,
                is_walk(edges, node as nat, to as nat, walk),
                best == dist[to as int],
                walk.len() + dist[node as int] == best,
                forall|q: Seq<nat>| #[trigger] is_walk(edges, from as nat, to as nat, q) ==> best <= q.len(),
                walk.len() == rev@.len(),
                forall|j: int| 0 <= j < rev@.len() ==> rev@[j] as nat == #[trigger] walk[walk.len() - 1 - j],
            decreases dist[node as int],
        {
            let (prev, e) = parent[node].unwrap();
            proof {
                lemma_walk_prepend(edges, prev as nat, node as nat, to as nat, e as nat, walk);
                let w2 = seq![e as nat] + walk;
                assert forall|j: int| 0 <= j < rev@.len() + 1 implies (#[trigger] rev@.push(e)[j]) as nat == w2[w2.len() - 1 - j] by {
                    if j < rev@.len() {
                        assert(w2[w2.len() - 1 - j] == walk[walk.len() - 1 - j]);
                    }
                }
                walk = w2;
            }
            rev.push(e);
            node = prev;
        }
        let mut path: Vec<usize> = Vec::new();
        let mut j: usize = rev.len();
        while j > 0
            invariant
                j <= rev@.len(),
                walk.len() == rev@.len(),
                forall|t: int| 0 <= t < rev@.len() ==> rev@[t] as nat == #[trigger] walk[walk.len() - 1 - t],
                path@.len() == rev@.len() - j,
                forall|t: int| 0 <= t < path@.len() ==> #[trigger] path@[t] as nat == walk[t],
            decreases j,
        {
            j = j - 1;
            assert(rev@[j as int] as nat == walk[walk.len() - 1 - j]);
            path.push(rev[j]);
        }
        assert(nat_seq(path@) =~= walk);
        Some(path)
    }

    /// Returns the index of the node called `name`, adding it when absent.
    pub fn ensure_node(&mut self, name: &str) -> (r: (usize, bool))
        requires
            old(self).wf(),
            old(self).names().len() < index_limit() || spec_find(old(self).names(), name@) is Some,
        ensures
            final(self).wf(),
            final(self).edges() == old(self).edges(),
            final(self).labels() == old(self).labels(),
            spec_find(old(self).names(), name@) matches Some(i) ==> r == (i as usize, false) && final(self).names() == old(self).names(),
            spec_find(old(self).names(), name@) is None ==> r == (old(self).names().len() as usize, true)
                && final(self).names() == old(self).names().push(name@),
            r.0 < final(self).names().len(),
            final(self).names()[r.0 as int] == name@,
    {
        match self.find(name) {
            Some(i) => (i, false),
            None => {
                let ghost old_names = self.names();
                let idx = digraph_add_node(&mut self.graph);
                self.names.push(string_from(name));
                assert(self.names() =~= old_names.push(name@));
                (idx, true)
            }
        }
    }

    /// Appends the edge `a -> b` labelled `label`.
    pub fn add_edge(&mut self, a: usize, b: usize, label: &str) -> (e: usize)
        requires
            old(self).wf(),
            a < old(self).names().len(),
            b < old(self).names().len(),
            old(self).edges().len() < index_limit(),
        ensures
            final(self).wf(),
            e == old(self).edges().len(),
            final(self).names() == old(self).names(),
            final(self).edges() == old(self).edges().push((a as nat, b as nat)),
            final(self).labels() == old(self).labels().push(label@),
    {
        let ghost old_labels = self.labels();
        let e = digraph_add_edge(&mut self.graph, a, b);
        self.labels.push(string_from(label));
        assert(self.labels() =~= old_labels.push(label@));
        e
    }
}

/// Byte-for-byte equality of two string slices.
pub fn str_eq(a: &str, b: &str) -> (r: bool)
    ensures
        r == (a@ == b@),
{
    let la = a.unicode_len();
    let lb = b.unicode_len();
    if la != lb {
        return false;
    }
    let mut i: usize = 0;
    while i < la
        invariant
            la == a@.len(),
            lb == b@.len(),
            la == lb,
            i <= la,
            forall|j: int| 0 <= j < i ==> a@[j] == b@[j],
        decreases la - i,
    {
        if a.get_char(i) != b.get_char(i) {
            return false;
        }
        i = i + 1;
    }
    assert(a@ =~= b@);
    true
}

/// An owned copy of `s`.
pub fn string_from(s: &str) -> (r: String)
    ensures
        r@ == s@,
{
    String::from_str(s)
}

} // verus!
