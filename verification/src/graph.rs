//! The directed graph of the petgraph crate, as far as the dependencies of
//! rules need it: nodes that carry a rule id, edges from a rule to the rules
//! that depend on it, a topological order, and reachability.
use vstd::prelude::*;
use petgraph::graph::{Graph, NodeIndex};
use petgraph::Directed;

verus! {

/// The marker of petgraph for graphs whose edges have a direction.
#[verifier::external_type_specification]
#[verifier::external_body]
pub struct ExDirected(Directed);

/// The graph of petgraph. What it holds is read through [`graph_nodes`]
/// and [`graph_edges`].
#[verifier::external_type_specification]
#[verifier::external_body]
#[verifier::reject_recursive_types(N)]
#[verifier::reject_recursive_types(E)]
#[verifier::reject_recursive_types(Ty)]
#[verifier::reject_recursive_types(Ix)]
pub struct ExGraph<N, E, Ty, Ix>(Graph<N, E, Ty, Ix>);

/// The ids that the nodes of a graph carry, by node index.
pub uninterp spec fn graph_nodes(g: Graph<String, (), Directed, u32>) -> Seq<Seq<char>>;

/// The edges of a graph, in the order in which they were added, each as
/// the indices of the node it leaves and of the node it enters.
pub uninterp spec fn graph_edges(g: Graph<String, (), Directed, u32>) -> Seq<(int, int)>;

/// The most nodes, and the most edges, that a graph can hold: its indices
/// are `u32`, and the largest one is kept free.
pub const GRAPH_LIMIT: usize = 0xffff_ffff;

/// Whether every step of a path is an edge.
pub open spec fn is_walk(edges: Seq<(int, int)>, path: Seq<int>) -> bool {
    forall|i: int| 0 <= i < path.len() - 1 ==> edges.contains((#[trigger] path[i], path[i + 1]))
}

/// Whether a path leads from `from` to `to` along the edges; the path of
/// no step leads from a node to itself.
pub open spec fn reachable(edges: Seq<(int, int)>, from: int, to: int) -> bool {
    exists|path: Seq<int>|
        path.len() >= 1 && path[0] == from && path.last() == to && #[trigger] is_walk(edges, path)
}

/// Whether a path of at least one step leads from a node back to itself.
pub open spec fn has_cycle(edges: Seq<(int, int)>) -> bool {
    exists|path: Seq<int>| path.len() >= 2 && path[0] == path.last() && #[trigger] is_walk(edges, path)
}

/// The indices that a list of positions holds.
pub open spec fn positions(order: Seq<usize>) -> Seq<int> {
    order.map_values(|i: usize| i as int)
}

/// Whether `order` lists every node of a graph of `n` nodes once, each
/// before the nodes that its edges enter.
pub open spec fn topological(order: Seq<int>, n: int, edges: Seq<(int, int)>) -> bool {
    &&& order.len() == n
    &&& order.no_duplicates()
    &&& forall|i: int| 0 <= i < order.len() ==> 0 <= #[trigger] order[i] < n
    &&& forall|i: int, j: int|
        0 <= i < order.len() && 0 <= j < order.len() && edges.contains(
            (#[trigger] order[i], #[trigger] order[j]),
        ) ==> i < j
}

/// Calls `Graph::new`: a graph without nodes and edges.
#[verifier::external_body]
pub(crate) fn new_graph() -> (g: Graph<String, (), Directed, u32>)
    ensures
        graph_nodes(g) == Seq::<Seq<char>>::empty(),
        graph_edges(g) == Seq::<(int, int)>::empty(),
{
    Graph::new()
}

/// Calls `Graph::add_node`: the new node carries `id`, gets the next
/// index, and the edges stay. The call panics on a full graph.
#[verifier::external_body]
pub(crate) fn add_node(g: &mut Graph<String, (), Directed, u32>, id: &String) -> (index: usize)
    requires
        graph_nodes(*old(g)).len() < GRAPH_LIMIT,
    ensures
        graph_nodes(*final(g)) == graph_nodes(*old(g)).push(id@),
        graph_edges(*final(g)) == graph_edges(*old(g)),
        index == graph_nodes(*old(g)).len(),
{
    g.add_node(id.clone()).index()
}

/// Calls `Graph::edge_count`: the number of edges of the graph.
#[verifier::external_body]
pub(crate) fn edge_count(g: &Graph<String, (), Directed, u32>) -> (n: usize)
    ensures
        n == graph_edges(*g).len(),
{
    g.edge_count()
}

/// Calls `Graph::add_edge`: one more edge, from `from` to `to`; the nodes
/// stay. The call panics where a node does not exist and on a full graph.
#[verifier::external_body]
pub(crate) fn add_edge(g: &mut Graph<String, (), Directed, u32>, from: usize, to: usize)
    requires
        from < graph_nodes(*old(g)).len(),
        to < graph_nodes(*old(g)).len(),
        graph_edges(*old(g)).len() < GRAPH_LIMIT,
    ensures
        graph_nodes(*final(g)) == graph_nodes(*old(g)),
        graph_edges(*final(g)) == graph_edges(*old(g)).push((from as int, to as int)),
{
    g.add_edge(NodeIndex::new(from), NodeIndex::new(to), ());
}

/// Calls `petgraph::algo::toposort`: for a graph without a cycle, its
/// nodes in an order in which each comes before its successors; `None`
/// for a graph with a cycle, a loop at one node included.
#[verifier::external_body]
pub(crate) fn toposort(g: &Graph<String, (), Directed, u32>) -> (r: Option<Vec<usize>>)
    ensures
        r is None <==> has_cycle(graph_edges(*g)),
        r matches Some(order) ==> topological(
            positions(order@),
            graph_nodes(*g).len() as int,
            graph_edges(*g),
        ),
{
    petgraph::algo::toposort(g, None).ok().map(
        |order| order.into_iter().map(|node| node.index()).collect(),
    )
}

/// Calls `petgraph::algo::has_path_connecting`: whether a path leads from
/// `from` to `to`, which is so where they are the same node.
#[verifier::external_body]
pub(crate) fn has_path(g: &Graph<String, (), Directed, u32>, from: usize, to: usize) -> (r: bool)
    requires
        from < graph_nodes(*g).len(),
        to < graph_nodes(*g).len(),
    ensures
        r == reachable(graph_edges(*g), from as int, to as int),
{
    petgraph::algo::has_path_connecting(g, NodeIndex::new(from), NodeIndex::new(to), None)
}

} // verus!
