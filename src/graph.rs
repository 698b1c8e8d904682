use vstd::prelude::*;
use petgraph::graphmap::DiGraphMap;

verus! {

/// petgraph's graph keyed by node values; opaque here, read through `graph_nodes` and
/// `graph_edges`.
#[verifier::external_type_specification]
#[verifier::external_body]
#[verifier::reject_recursive_types(N)]
#[verifier::reject_recursive_types(E)]
#[verifier::reject_recursive_types(Ty)]
#[verifier::reject_recursive_types(S)]
pub struct ExGraphMap<N, E, Ty, S>(petgraph::graphmap::GraphMap<N, E, Ty, S>) where
    S: std::hash::BuildHasher;

/// petgraph's marker for directed edges.
#[verifier::external_type_specification]
#[verifier::external_body]
pub struct ExDirected(petgraph::Directed);

/// The directed edges of a cost graph, keyed by (source, target), with their costs.
pub uninterp spec fn graph_edges(g: DiGraphMap<i32, u64>) -> Map<(i32, i32), u64>;

/// The nodes of a cost graph, in the order in which they were added.
pub uninterp spec fn graph_nodes(g: DiGraphMap<i32, u64>) -> Seq<i32>;

/// `s` with `x` appended, unless `s` holds it already.
pub open spec fn push_new(s: Seq<i32>, x: i32) -> Seq<i32> {
    if s.contains(x) {
        s
    } else {
        s.push(x)
    }
}

/// Relies on `GraphMap::new`: a new graph has no node and no edge.
#[verifier::external_body]
pub(crate) fn new_graph() -> (r: DiGraphMap<i32, u64>)
    ensures
        graph_nodes(r).len() == 0,
        graph_edges(r).dom().len() == 0 && graph_edges(r).dom().finite(),
{
    DiGraphMap::new()
}

/// Relies on `GraphMap::add_edge`: it adds each endpoint that is new to the nodes, and sets
/// the cost of the edge from `a` to `b`, replacing an earlier one.
#[verifier::external_body]
pub(crate) fn add_edge(g: &mut DiGraphMap<i32, u64>, a: i32, b: i32, cost: u64)
    ensures
        graph_nodes(*final(g)) == push_new(push_new(graph_nodes(*old(g)), a), b),
        graph_edges(*final(g)) == graph_edges(*old(g)).insert((a, b), cost),
{
    g.add_edge(a, b, cost);
}

/// Relies on `GraphMap::add_node`: it adds `n` to the nodes unless it is there already;
/// the edges stay as they are.
#[verifier::external_body]
pub(crate) fn add_node(g: &mut DiGraphMap<i32, u64>, n: i32)
    ensures
        graph_nodes(*final(g)) == push_new(graph_nodes(*old(g)), n),
        graph_edges(*final(g)) == graph_edges(*old(g)),
{
    g.add_node(n);
}

/// Relies on `GraphMap::node_count`: the number of nodes.
#[verifier::external_body]
pub(crate) fn node_count(g: &DiGraphMap<i32, u64>) -> (r: usize)
    ensures
        r == graph_nodes(*g).len(),
{
    g.node_count()
}

/// Relies on `GraphMap::edges`: each outgoing edge of `a` once, as (target, cost); every
/// edge joins two nodes of the graph.
#[verifier::external_body]
pub(crate) fn out_edges(g: &DiGraphMap<i32, u64>, a: i32) -> (r: Vec<(i32, u64)>)
    ensures
        forall|i: int|
            0 <= i < r@.len() ==> graph_edges(*g).contains_key((a, #[trigger] r@[i].0))
                && graph_edges(*g)[(a, r@[i].0)] == r@[i].1 && graph_nodes(*g).contains(a)
                && graph_nodes(*g).contains(r@[i].0),
        forall|b: i32|
            graph_edges(*g).contains_key((a, b)) ==> exists|i: int|
                0 <= i < r@.len() && #[trigger] r@[i].0 == b,
        forall|i: int, j: int| 0 <= i < j < r@.len() ==> r@[i].0 != r@[j].0,
{
    g.edges(a).map(|(_, b, c)| (b, *c)).collect()
}

} // verus!
