//! The directed multigraph that carries the token graph's adjacency.
//!
//! The graph itself is petgraph's `Graph`. Its contents are modelled by two
//! sequences, the node weights in index order and the edges in insertion
//! order; every function below is a thin call into petgraph whose contract is
//! taken on trust.

use vstd::prelude::*;
use crate::token::Token;
use petgraph::Directed;
use petgraph::graph::Graph;
use petgraph::graph::NodeIndex;
use petgraph::visit::EdgeRef;

verus! {

/// petgraph's `Graph`, which the verifier carries around without looking
/// inside.
#[verifier::external_type_specification]
#[verifier::external_body]
#[verifier::reject_recursive_types(N)]
#[verifier::reject_recursive_types(E)]
#[verifier::reject_recursive_types(Ty)]
#[verifier::reject_recursive_types(Ix)]
pub struct ExGraph<N, E, Ty, Ix>(Graph<N, E, Ty, Ix>);

/// petgraph's marker for graphs with directed edges.
#[verifier::external_type_specification]
#[verifier::external_body]
pub struct ExDirected(Directed);

/// The node weights of a graph, by node index.
pub uninterp spec fn graph_nodes(g: Graph<Token, u64>) -> Seq<Token>;

/// The edges of a graph as `(source, target, weight)`, in the order in which
/// they were added.
pub uninterp spec fn graph_edges(g: Graph<Token, u64>) -> Seq<(usize, usize, u64)>;

/// The `(target, weight)` pairs of the edges that leave `node`, most recently
/// added edge first.
pub open spec fn outgoing(edges: Seq<(usize, usize, u64)>, node: usize) -> Seq<(usize, u64)>
    decreases edges.len(),
{
    if edges.len() == 0 {
        Seq::empty()
    } else {
        let last = edges.last();
        let rest = outgoing(edges.drop_last(), node);
        if last.0 == node {
            seq![(last.1, last.2)] + rest
        } else {
            rest
        }
    }
}

/// `Graph::new`: a directed graph without nodes and without edges.
#[verifier::external_body]
pub(crate) fn graph_new() -> (g: Graph<Token, u64>)
    ensures
        graph_nodes(g) == Seq::<Token>::empty(),
        graph_edges(g) == Seq::<(usize, usize, u64)>::empty(),
{
    Graph::new()
}

/// `Graph::add_node`: appends a node with the given weight and returns its
/// index, which is the number of nodes before the call. petgraph panics when
/// the index type is exhausted, hence the bound.
#[verifier::external_body]
pub(crate) fn graph_add_node(g: &mut Graph<Token, u64>, weight: Token) -> (index: usize)
    requires
        graph_nodes(*old(g)).len() < u32::MAX,
    ensures
        graph_nodes(*final(g)) == graph_nodes(*old(g)).push(weight),
        graph_edges(*final(g)) == graph_edges(*old(g)),
        index == graph_nodes(*old(g)).len(),
{
    g.add_node(weight).index()
}

/// `Graph::add_edge`: appends an edge from `a` to `b`; parallel edges are
/// kept. petgraph panics on a missing endpoint and when the index type is
/// exhausted, hence the bounds.
#[verifier::external_body]
pub(crate) fn graph_add_edge(g: &mut Graph<Token, u64>, a: usize, b: usize, weight: u64)
    requires
        a < graph_nodes(*old(g)).len(),
        b < graph_nodes(*old(g)).len(),
        graph_edges(*old(g)).len() < u32::MAX,
    ensures
        graph_nodes(*final(g)) == graph_nodes(*old(g)),
        graph_edges(*final(g)) == graph_edges(*old(g)).push((a, b, weight)),
{
    g.add_edge(NodeIndex::new(a), NodeIndex::new(b), weight);
}

/// `Graph::edges`: the edges that leave `a`, each as its target and weight.
/// In a directed graph petgraph walks them from the most recently added to
/// the oldest.
#[verifier::external_body]
pub(crate) fn graph_out_edges(g: &Graph<Token, u64>, a: usize) -> (out: Vec<(usize, u64)>)
    requires
        a < graph_nodes(*g).len(),
    ensures
        out@ == outgoing(graph_edges(*g), a),
{
    g.edges(NodeIndex::new(a)).map(|e| (e.target().index(), *e.weight())).collect()
}

/// Indexing a graph by a node index: the weight of node `a`. petgraph panics
/// on an index that is not a node's, hence the bound.
#[verifier::external_body]
pub(crate) fn graph_node_weight(g: &Graph<Token, u64>, a: usize) -> (weight: Token)
    requires
        a < graph_nodes(*g).len(),
    ensures
        weight == graph_nodes(*g)[a as int],
{
    g[NodeIndex::new(a)]
}

/// `Graph::edge_references`: all edges in the order of their indices, which
/// is the order in which they were added, each as source, target and weight.
#[verifier::external_body]
pub(crate) fn graph_edge_list(g: &Graph<Token, u64>) -> (list: Vec<(usize, usize, u64)>)
    ensures
        list@ == graph_edges(*g),
{
    g.edge_references().map(|e| (e.source().index(), e.target().index(), *e.weight())).collect()
}

/// `Graph::node_count`: the number of nodes.
#[verifier::external_body]
pub(crate) fn graph_node_count(g: &Graph<Token, u64>) -> (n: usize)
    ensures
        n == graph_nodes(*g).len(),
{
    g.node_count()
}

} // verus!
