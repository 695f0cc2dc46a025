//! Trusted items for the `petgraph` directed graph that stores the network.
//!
//! The graph's contents are named by two spec functions: the node weights in
//! index order and the edges (source index, target index, weight) in the order
//! in which they were added.
use vstd::prelude::*;
use petgraph::graph::{DiGraph, EdgeIndex, NodeIndex};
use petgraph::visit::{Bfs, EdgeRef, Walker};
use petgraph::{Directed, Graph};

verus! {

#[verifier::external_type_specification]
#[verifier::external_body]
#[verifier::reject_recursive_types(N)]
#[verifier::reject_recursive_types(E)]
#[verifier::reject_recursive_types(Ty)]
#[verifier::reject_recursive_types(Ix)]
pub struct ExGraph<N, E, Ty, Ix>(Graph<N, E, Ty, Ix>);

#[verifier::external_type_specification]
#[verifier::external_body]
pub struct ExDirected(Directed);

/// The node weights of the graph, in node index order.
pub uninterp spec fn graph_nodes(g: Graph<u32, i32, Directed, u32>) -> Seq<u32>;

/// The edges of the graph as (source index, target index, weight), in the
/// order in which they were added.
pub uninterp spec fn graph_edges(g: Graph<u32, i32, Directed, u32>) -> Seq<(usize, usize, i32)>;

/// Index of the most recently added edge from `a` to `b`, if any.
pub open spec fn last_edge_index(edges: Seq<(usize, usize, i32)>, a: usize, b: usize) -> Option<int>
    decreases edges.len(),
{
    if edges.len() == 0 {
        None
    } else if edges.last().0 == a && edges.last().1 == b {
        Some(edges.len() - 1)
    } else {
        last_edge_index(edges.drop_last(), a, b)
    }
}

/// The targets of the edges that leave node `a`.
pub open spec fn out_targets(edges: Seq<(usize, usize, i32)>, a: usize) -> Set<usize> {
    Set::new(|t: usize| exists|e: int| 0 <= e < edges.len() && #[trigger] edges[e] == (a, t, edges[e].2))
}

/// `p` is a walk: each entry after the first is the target of an edge that
/// leaves the entry before it.
pub open spec fn is_walk(edges: Seq<(usize, usize, i32)>, p: Seq<usize>) -> bool {
    &&& p.len() >= 1
    &&& forall|k: int| 0 <= k < p.len() - 1 ==> out_targets(edges, #[trigger] p[k]).contains(p[k + 1])
}

/// The nodes that a walk from `s` reaches, `s` included.
pub open spec fn reachable_from(edges: Seq<(usize, usize, i32)>, s: usize) -> Set<usize> {
    Set::new(|t: usize| exists|p: Seq<usize>| #[trigger] is_walk(edges, p) && p[0] == s && p.last() == t)
}

/// Relies on `Graph::new`: the new graph has no nodes and no edges.
#[verifier::external_body]
pub(crate) fn graph_new() -> (g: Graph<u32, i32, Directed, u32>)
    ensures
        graph_nodes(g) == Seq::<u32>::empty(),
        graph_edges(g) == Seq::<(usize, usize, i32)>::empty(),
{
    DiGraph::new()
}

/// Relies on `Graph::add_node`: the weight is appended to the node list and
/// its index is the former node count. It panics when the count reaches the
/// largest `u32`, which `requires` leaves out.
#[verifier::external_body]
pub(crate) fn graph_add_node(g: &mut Graph<u32, i32, Directed, u32>, weight: u32) -> (r: usize)
    requires
        graph_nodes(*old(g)).len() < u32::MAX,
    ensures
        r == graph_nodes(*old(g)).len(),
        graph_nodes(*final(g)) == graph_nodes(*old(g)).push(weight),
        graph_edges(*final(g)) == graph_edges(*old(g)),
{
    g.add_node(weight).index()
}

/// Relies on `Graph::add_edge`: the edge is appended to the edge list. It
/// panics on an endpoint that is not a node, or when the edge count reaches
/// the largest `u32`; `requires` leaves both out.
#[verifier::external_body]
pub(crate) fn graph_add_edge(g: &mut Graph<u32, i32, Directed, u32>, a: usize, b: usize, weight: i32)
    requires
        a < graph_nodes(*old(g)).len(),
        b < graph_nodes(*old(g)).len(),
        graph_edges(*old(g)).len() < u32::MAX,
    ensures
        graph_nodes(*final(g)) == graph_nodes(*old(g)),
        graph_edges(*final(g)) == graph_edges(*old(g)).push((a, b, weight)),
{
    g.add_edge(NodeIndex::new(a), NodeIndex::new(b), weight);
}

/// Relies on `Graph::node_count`: the length of the node list.
#[verifier::external_body]
pub(crate) fn graph_node_count(g: &Graph<u32, i32, Directed, u32>) -> (r: usize)
    ensures
        r == graph_nodes(*g).len(),
{
    g.node_count()
}

/// Relies on `Graph::node_weight`: the weight stored at a node index.
#[verifier::external_body]
pub(crate) fn graph_node_weight(g: &Graph<u32, i32, Directed, u32>, a: usize) -> (r: u32)
    requires
        a < graph_nodes(*g).len(),
    ensures
        r == graph_nodes(*g)[a as int],
{
    *g.node_weight(NodeIndex::new(a)).unwrap()
}

/// Relies on `Graph::neighbors`: for a directed graph, the targets of the
/// edges that leave `a` (one entry per edge).
#[verifier::external_body]
pub(crate) fn graph_neighbors(g: &Graph<u32, i32, Directed, u32>, a: usize) -> (r: Vec<usize>)
    requires
        a < graph_nodes(*g).len(),
    ensures
        r@.to_set() == out_targets(graph_edges(*g), a),
{
    g.neighbors(NodeIndex::new(a)).map(|n| n.index()).collect()
}

/// Relies on `Graph::find_edge`: for a directed graph it walks the outgoing
/// list of `a`, which holds the most recently added edge first, and returns
/// the first edge that ends at `b`.
#[verifier::external_body]
pub(crate) fn graph_find_edge(g: &Graph<u32, i32, Directed, u32>, a: usize, b: usize) -> (r: Option<usize>)
    requires
        a < graph_nodes(*g).len(),
        b < graph_nodes(*g).len(),
    ensures
        r is None <==> last_edge_index(graph_edges(*g), a, b) is None,
        r matches Some(e) ==> last_edge_index(graph_edges(*g), a, b) == Some(e as int),
{
    g.find_edge(NodeIndex::new(a), NodeIndex::new(b)).map(|e| e.index())
}

/// Relies on `Graph::edge_weight`: the weight stored at an edge index.
#[verifier::external_body]
pub(crate) fn graph_edge_weight(g: &Graph<u32, i32, Directed, u32>, e: usize) -> (r: i32)
    requires
        e < graph_edges(*g).len(),
    ensures
        r == graph_edges(*g)[e as int].2,
{
    *g.edge_weight(EdgeIndex::new(e)).unwrap()
}

/// Relies on `Bfs` walked over the graph: starting at `start`, it visits
/// every node that outgoing edges reach from it.
#[verifier::external_body]
pub(crate) fn graph_bfs(g: &Graph<u32, i32, Directed, u32>, start: usize) -> (r: Vec<usize>)
    requires
        start < graph_nodes(*g).len(),
    ensures
        r@.to_set() == reachable_from(graph_edges(*g), start),
{
    Bfs::new(g, NodeIndex::new(start)).iter(g).map(|n| n.index()).collect()
}

/// Relies on `Graph::edge_references`: every edge, in index order, as
/// (source index, target index, weight).
#[verifier::external_body]
pub(crate) fn graph_edge_list(g: &Graph<u32, i32, Directed, u32>) -> (r: Vec<(usize, usize, i32)>)
    ensures
        r@ == graph_edges(*g),
{
    g.edge_references().map(|e| (e.source().index(), e.target().index(), *e.weight())).collect()
}

} // verus!
