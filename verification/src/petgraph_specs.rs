use vstd::prelude::*;

use petgraph::graph::{Graph, NodeIndex};
use petgraph::visit::{EdgeRef, Topo, Walker};

use crate::domain::GoodId;

verus! {

/// `petgraph::graph::Graph`, carried through the library as an opaque value.
#[verifier::external_type_specification]
#[verifier::external_body]
#[verifier::reject_recursive_types(N)]
#[verifier::reject_recursive_types(E)]
#[verifier::reject_recursive_types(Ty)]
#[verifier::reject_recursive_types(Ix)]
pub struct ExGraph<N, E, Ty, Ix>(Graph<N, E, Ty, Ix>);

/// `petgraph::Directed`, the edge-direction marker of a directed `Graph`.
#[verifier::external_type_specification]
#[verifier::external_body]
pub struct ExDirected(petgraph::Directed);

/// The node weights of a dependency graph, by node index, as good names.
pub uninterp spec fn graph_nodes(g: Graph<GoodId, u64>) -> Seq<Seq<char>>;

/// The edges of a dependency graph in the order they were added: source index,
/// target index, weight.
pub uninterp spec fn graph_edges(g: Graph<GoodId, u64>) -> Seq<(usize, usize, u64)>;

/// The order in which `petgraph::visit::Topo` visits the nodes of a graph.
pub uninterp spec fn topo_order(g: Graph<GoodId, u64>) -> Seq<usize>;

/// The largest node or edge count that a `Graph` with `u32` indices can reach.
pub open spec fn graph_index_limit() -> nat {
    0xffff_ffff
}

/// `Graph::new`: a graph with no nodes and no edges.
#[verifier::external_body]
pub(crate) fn graph_new() -> (g: Graph<GoodId, u64>)
    ensures
        graph_nodes(g) == Seq::<Seq<char>>::empty(),
        graph_edges(g) == Seq::<(usize, usize, u64)>::empty(),
{
    Graph::new()
}

/// `Graph::add_node`: appends a node with weight `w` and returns its index, which is the
/// old node count. It panics when the node count has reached the index limit, which
/// `requires` rules out.
#[verifier::external_body]
pub(crate) fn graph_add_node(g: &mut Graph<GoodId, u64>, w: GoodId) -> (i: usize)
    requires
        graph_nodes(*old(g)).len() < graph_index_limit(),
    ensures
        i == graph_nodes(*old(g)).len(),
        graph_nodes(*final(g)) == graph_nodes(*old(g)).push(w@),
        graph_edges(*final(g)) == graph_edges(*old(g)),
{
    g.add_node(w).index()
}

/// `Graph::add_edge`: appends an edge from node `a` to node `b` with weight `w`. It
/// panics when a node is missing or the edge count has reached the index limit, which
/// `requires` rules out.
#[verifier::external_body]
pub(crate) fn graph_add_edge(g: &mut Graph<GoodId, u64>, a: usize, b: usize, w: u64)
    requires
        a < graph_nodes(*old(g)).len(),
        b < graph_nodes(*old(g)).len(),
        graph_edges(*old(g)).len() < graph_index_limit(),
    ensures
        graph_nodes(*final(g)) == graph_nodes(*old(g)),
        graph_edges(*final(g)) == graph_edges(*old(g)).push((a, b, w)),
{
    g.add_edge(NodeIndex::new(a), NodeIndex::new(b), w);
}

pub open spec fn leaves(a: usize) -> spec_fn((usize, usize, u64)) -> bool {
    |e: (usize, usize, u64)| e.0 == a
}

/// `Graph::edges` on a directed graph: the edges that leave node `a`, most recently
/// added first, as (source, target, weight).
#[verifier::external_body]
pub(crate) fn graph_edges_from(g: &Graph<GoodId, u64>, a: usize) -> (r: Vec<(usize, usize, u64)>)
    requires
        a < graph_nodes(*g).len(),
    ensures
        r@ == graph_edges(*g).filter(leaves(a)).reverse(),
{
    g.edges(NodeIndex::new(a)).map(|e| (e.source().index(), e.target().index(), *e.weight())).collect()
}

/// `Graph::node_weight` on an existing node: the weight stored there.
#[verifier::external_body]
pub(crate) fn graph_node_weight(g: &Graph<GoodId, u64>, i: usize) -> (r: &GoodId)
    requires
        i < graph_nodes(*g).len(),
    ensures
        r@ == graph_nodes(*g)[i as int],
{
    g.node_weight(NodeIndex::new(i)).unwrap()
}

/// What a walk of `Topo` over a graph with `n` nodes and the edges `edges` returns:
/// - no node twice, and only nodes of the graph;
/// - a node only after every node that has an edge into it;
/// - every node all of whose predecessors it returns.
///
/// `Topo` starts from the nodes without incoming edges, returns a node when it pops it
/// unvisited, marks it visited, and pushes each successor all of whose predecessors are
/// now visited; the walk runs until nothing is left to pop.
pub open spec fn is_topo_walk(n: nat, edges: Seq<(usize, usize, u64)>, order: Seq<usize>) -> bool {
    &&& order.no_duplicates()
    &&& forall|k: int| 0 <= k < order.len() ==> #[trigger] order[k] < n
    &&& forall|k: int, e: int|
        0 <= k < order.len() && 0 <= e < edges.len() && #[trigger] edges[e].1 == #[trigger] order[k]
            ==> exists|j: int| 0 <= j < k && order[j] == edges[e].0
    &&& forall|v: usize|
        #![trigger order.contains(v)]
        v < n && (forall|e: int| 0 <= e < edges.len() && edges[e].1 == v ==> order.contains(edges[e].0))
            ==> order.contains(v)
}

/// The nodes that `Topo::new(g).iter(g)` returns, in its order: a topological walk of
/// the graph in the sense of `is_topo_walk`. Which of several ready nodes comes first is
/// named by `topo_order`, not described.
#[verifier::external_body]
pub(crate) fn graph_topo_order(g: &Graph<GoodId, u64>) -> (r: Vec<usize>)
    ensures
        r@ == topo_order(*g),
        is_topo_walk(graph_nodes(*g).len(), graph_edges(*g), r@),
{
    Topo::new(g).iter(g).map(|n| n.index()).collect()
}

} // verus!
