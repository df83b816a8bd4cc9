//! Trusted boundary to `petgraph`: a directed graph whose structure (nodes
//! and edges) is kept by `petgraph::graph::DiGraph`. Payloads live beside it
//! in the callers' own vectors, addressed by the same indices.

use vstd::prelude::*;
use petgraph::graph::{DiGraph, EdgeIndex, NodeIndex};
use petgraph::visit::EdgeRef;
use petgraph::Direction;

verus! {

#[verifier::external_type_specification]
#[verifier::external_body]
#[verifier::reject_recursive_types(N)]
#[verifier::reject_recursive_types(E)]
#[verifier::reject_recursive_types(Ty)]
#[verifier::reject_recursive_types(Ix)]
pub struct ExGraph<N, E, Ty, Ix>(petgraph::graph::Graph<N, E, Ty, Ix>);

#[verifier::external_type_specification]
#[verifier::external_body]
pub struct ExDirected(petgraph::Directed);

/// The edges of a structural graph, in insertion order, as (source, target).
pub uninterp spec fn digraph_edges(g: DiGraph<(), ()>) -> Seq<(nat, nat)>;

/// The number of nodes of a structural graph; nodes are `0..count`.
pub uninterp spec fn digraph_node_count(g: DiGraph<(), ()>) -> nat;

/// Largest index petgraph's default (`u32`) index type can hand out.
pub open spec fn index_limit() -> nat {
    0xffff_ffffnat
}

/// The edges touching `n` in direction `outgoing` (source side when true,
/// target side when false), newest first: `(edge index, other endpoint)`.
pub open spec fn adjacent(edges: Seq<(nat, nat)>, n: nat, outgoing: bool) -> Seq<(nat, nat)>
    decreases edges.len(),
{
    if edges.len() == 0 {
        Seq::empty()
    } else {
        let last = edges.last();
        let id = (edges.len() - 1) as nat;
        let rest = adjacent(edges.drop_last(), n, outgoing);
        if outgoing && last.0 == n {
            seq![(id, last.1)] + rest
        } else if !outgoing && last.1 == n {
            seq![(id, last.0)] + rest
        } else {
            rest
        }
    }
}

/// Wraps `DiGraph::new`: the graph starts with no nodes and no edges.
#[verifier::external_body]
pub(crate) fn digraph_new() -> (g: DiGraph<(), ()>)
    ensures
        digraph_node_count(g) == 0,
        digraph_edges(g) == Seq::<(nat, nat)>::empty(),
{
    DiGraph::new()
}

/// Wraps `Graph::add_node`: the new node gets the next index; edges stay.
/// petgraph panics when the `u32` index space is exhausted, which `requires` excludes.
#[verifier::external_body]
pub(crate) fn digraph_add_node(g: &mut DiGraph<(), ()>) -> (idx: usize)
    requires
        digraph_node_count(*old(g)) < index_limit(),
    ensures
        idx == digraph_node_count(*old(g)),
        digraph_node_count(*final(g)) == digraph_node_count(*old(g)) + 1,
        digraph_edges(*final(g)) == digraph_edges(*old(g)),
{
    g.add_node(()).index()
}

/// Wraps `Graph::add_edge`: the edge `(a, b)` is appended to the edge list.
/// petgraph panics on unknown endpoints or an exhausted index space, which `requires` excludes.
#[verifier::external_body]
pub(crate) fn digraph_add_edge(g: &mut DiGraph<(), ()>, a: usize, b: usize) -> (idx: usize)
    requires
        a < digraph_node_count(*old(g)),
        b < digraph_node_count(*old(g)),
        digraph_edges(*old(g)).len() < index_limit(),
    ensures
        idx == digraph_edges(*old(g)).len(),
        digraph_node_count(*final(g)) == digraph_node_count(*old(g)),
        digraph_edges(*final(g)) == digraph_edges(*old(g)).push((a as nat, b as nat)),
{
    g.add_edge(NodeIndex::new(a), NodeIndex::new(b), ()).index()
}

/// Wraps `Graph::edges_directed`: for a directed graph petgraph lists the
/// edges leaving (or entering) a node newest first, each with its stored
/// endpoints; each is handed back as (edge index, source, target).
#[verifier::external_body]
pub(crate) fn digraph_edges_at(g: &DiGraph<(), ()>, n: usize, outgoing: bool) -> (res: Vec<(usize, usize, usize)>)
    requires
        n < digraph_node_count(*g),
    ensures
        res@.len() == adjacent(digraph_edges(*g), n as nat, outgoing).len(),
        forall|i: int| 0 <= i < res@.len() ==> {
            &&& (#[trigger] res@[i]).0 as nat == adjacent(digraph_edges(*g), n as nat, outgoing)[i].0
            &&& digraph_edges(*g)[res@[i].0 as int] == (res@[i].1 as nat, res@[i].2 as nat)
        },
{
    let dir = if outgoing { Direction::Outgoing } else { Direction::Incoming };
    g.edges_directed(NodeIndex::new(n), dir)
        .map(|e| (EdgeRef::id(&e).index(), EdgeRef::source(&e).index(), EdgeRef::target(&e).index()))
        .collect()
}

/// Wraps `Graph::edge_endpoints` for an existing edge.
#[verifier::external_body]
pub(crate) fn digraph_edge_endpoints(g: &DiGraph<(), ()>, e: usize) -> (res: (usize, usize))
    requires
        e < digraph_edges(*g).len(),
    ensures
        res.0 as nat == digraph_edges(*g)[e as int].0,
        res.1 as nat == digraph_edges(*g)[e as int].1,
{
    let (a, b) = g.edge_endpoints(EdgeIndex::new(e)).unwrap();
    (a.index(), b.index())
}

} // verus!
