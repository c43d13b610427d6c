//! The directed multigraph that carries a pair's pools, kept in a
//! `petgraph` graph. Nodes are numbered from zero in the order in which
//! they were added; every edge carries one number, which the subgraph uses
//! to find the edge's bundle of pools.

use vstd::prelude::*;
use petgraph::visit::EdgeRef;

verus! {

#[verifier::external_type_specification]
#[verifier::external_body]
#[verifier::reject_recursive_types(N)]
#[verifier::reject_recursive_types(E)]
#[verifier::reject_recursive_types(Ty)]
#[verifier::reject_recursive_types(Ix)]
pub struct ExGraph<N, E, Ty, Ix>(petgraph::graph::Graph<N, E, Ty, Ix>);

#[verifier::external_type_specification]
#[verifier::external_body]
pub struct ExDirected(petgraph::Directed);

/// A directed graph without node weights, whose edges carry a number and
/// whose indices are `usize`.
pub type PoolGraph = petgraph::graph::Graph<(), usize, petgraph::Directed, usize>;

/// The number of nodes of a graph.
pub uninterp spec fn graph_node_count(g: PoolGraph) -> nat;

/// The edges of a graph in the order in which they were added, each as
/// source, target and the number it carries.
pub uninterp spec fn graph_edges(g: PoolGraph) -> Seq<(usize, usize, usize)>;

/// The edges that leave node `a`, the one added last first, each as target
/// and the number it carries.
pub open spec fn outgoing(edges: Seq<(usize, usize, usize)>, a: usize) -> Seq<(usize, usize)>
    decreases edges.len(),
{
    if edges.len() == 0 {
        Seq::empty()
    } else {
        let e = edges.last();
        if e.0 == a {
            seq![(e.1, e.2)] + outgoing(edges.drop_last(), a)
        } else {
            outgoing(edges.drop_last(), a)
        }
    }
}

/// `Graph::default`: a graph without nodes and edges.
#[verifier::external_body]
pub(crate) fn graph_new() -> (g: PoolGraph)
    ensures
        graph_node_count(g) == 0,
        graph_edges(g) == Seq::<(usize, usize, usize)>::empty(),
{
    petgraph::graph::Graph::default()
}

/// `Graph::node_count`: the number of nodes.
#[verifier::external_body]
pub(crate) fn graph_nodes(g: &PoolGraph) -> (n: usize)
    ensures
        n == graph_node_count(*g),
{
    g.node_count()
}

/// `Graph::add_node`: the new node gets the next free index, and the edges
/// stay as they are. With `usize` indices the call does not panic.
#[verifier::external_body]
pub(crate) fn graph_add_node(g: &mut PoolGraph) -> (ix: usize)
    ensures
        ix == graph_node_count(*old(g)),
        graph_node_count(*final(g)) == graph_node_count(*old(g)) + 1,
        graph_edges(*final(g)) == graph_edges(*old(g)),
{
    g.add_node(()).index()
}

/// `Graph::add_edge`: the edge is added behind the others, parallel edges
/// included, and the nodes stay as they are. The call panics where a node
/// does not exist, which the precondition leaves out.
#[verifier::external_body]
pub(crate) fn graph_add_edge(g: &mut PoolGraph, a: usize, b: usize, weight: usize)
    requires
        a < graph_node_count(*old(g)),
        b < graph_node_count(*old(g)),
    ensures
        graph_node_count(*final(g)) == graph_node_count(*old(g)),
        graph_edges(*final(g)) == graph_edges(*old(g)).push((a, b, weight)),
{
    g.add_edge(petgraph::graph::NodeIndex::new(a), petgraph::graph::NodeIndex::new(b), weight);
}

/// `Graph::edges`: the edges that leave `a`, walked from the one added last
/// to the one added first; none where the node does not exist. Each edge is
/// handed out as its target and the number it carries.
#[verifier::external_body]
pub(crate) fn graph_edges_from(g: &PoolGraph, a: usize) -> (r: Vec<(usize, usize)>)
    ensures
        r@ == outgoing(graph_edges(*g), a),
{
    g.edges(petgraph::graph::NodeIndex::new(a)).map(|e| (e.target().index(), *e.weight())).collect()
}

/// The place among all edges of the `j`-th edge that leaves node `a`,
/// counting from the one added last.
pub open spec fn edge_of(edges: Seq<(usize, usize, usize)>, a: usize, j: int) -> int
    decreases edges.len(),
{
    if edges.len() == 0 {
        -1
    } else if edges.last().0 == a {
        if j == 0 {
            edges.len() - 1
        } else {
            edge_of(edges.drop_last(), a, j - 1)
        }
    } else {
        edge_of(edges.drop_last(), a, j)
    }
}

/// Every entry of the edges that leave a node is an edge of the graph.
pub proof fn lemma_outgoing_sound(edges: Seq<(usize, usize, usize)>, a: usize, j: int)
    requires
        0 <= j < outgoing(edges, a).len(),
    ensures
        0 <= edge_of(edges, a, j) < edges.len(),
        edges[edge_of(edges, a, j)] == (a, outgoing(edges, a)[j].0, outgoing(edges, a)[j].1),
    decreases edges.len(),
{
    if edges.len() > 0 {
        if edges.last().0 == a {
            if j > 0 {
                lemma_outgoing_sound(edges.drop_last(), a, j - 1);
            }
        } else {
            lemma_outgoing_sound(edges.drop_last(), a, j);
        }
    }
}

/// Every edge that leaves a node is among the edges that leave it.
pub proof fn lemma_outgoing_complete(edges: Seq<(usize, usize, usize)>, a: usize, k: int)
    requires
        0 <= k < edges.len(),
        edges[k].0 == a,
    ensures
        exists|j: int|
            0 <= j < outgoing(edges, a).len() && #[trigger] outgoing(edges, a)[j] == (
                edges[k].1,
                edges[k].2,
            ),
    decreases edges.len(),
{
    let out = outgoing(edges, a);
    if k == edges.len() - 1 {
        assert(out[0] == (edges[k].1, edges[k].2));
    } else {
        lemma_outgoing_complete(edges.drop_last(), a, k);
        let rest = outgoing(edges.drop_last(), a);
        let j = choose|j: int| 0 <= j < rest.len() && #[trigger] rest[j] == (edges[k].1, edges[k].2);
        if edges.last().0 == a {
            assert(out[j + 1] == rest[j]);
        } else {
            assert(out[j] == rest[j]);
        }
    }
}

} // verus!
