//! The requirement graph: a `petgraph` directed graph map from requirement
//! UUIDs (as `u128`) with one weighted edge per child → parent link.
//!
//! The graph's contents are described by two names: the set of its nodes and
//! the map from `(child, parent)` pairs to edge data. Each `petgraph` method
//! the library calls has a wrapper stating its effect on those two names.

use vstd::prelude::*;

use petgraph::graphmap::DiGraphMap;

use crate::hrid::Hrid;

verus! {

#[verifier::external_type_specification]
#[verifier::external_body]
#[verifier::reject_recursive_types(N)]
#[verifier::reject_recursive_types(E)]
#[verifier::reject_recursive_types(Ty)]
#[verifier::reject_recursive_types(S)]
pub struct ExGraphMap<N, E, Ty, S: core::hash::BuildHasher>(
    petgraph::graphmap::GraphMap<N, E, Ty, S>,
);

#[verifier::external_type_specification]
#[verifier::external_body]
pub struct ExDirected(petgraph::Directed);

/// Data stored on a child → parent edge.
pub struct EdgeData {
    /// The parent's HRID when the link was made (may go stale on rename).
    pub parent_hrid: Hrid,
    /// The parent's fingerprint when the link was made or last reviewed.
    pub fingerprint: String,
}

/// The graph type: UUID nodes, edges carrying [`EdgeData`].
pub type Graph = DiGraphMap<u128, EdgeData>;

/// The nodes of a graph.
pub uninterp spec fn graph_nodes(g: Graph) -> Set<u128>;

/// The edges of a graph with their data, keyed by `(source, target)`.
pub uninterp spec fn graph_edges(g: Graph) -> Map<(u128, u128), EdgeData>;

/// `GraphMap::new`: an empty graph.
#[verifier::external_body]
pub(crate) fn graph_new() -> (r: Graph)
    ensures
        graph_nodes(r).is_empty(),
        graph_edges(r).dom().is_empty(),
{
    DiGraphMap::new()
}


/// The edges left after removing node `n`.
pub open spec fn edges_without(m: Map<(u128, u128), EdgeData>, n: u128) -> Map<(u128, u128), EdgeData> {
    m.restrict(m.dom().filter(|k: (u128, u128)| k.0 != n && k.1 != n))
}

/// The old weight `add_edge` hands back: the previous data of the edge, if any.
pub open spec fn previous_weight(m: Map<(u128, u128), EdgeData>, k: (u128, u128)) -> Option<EdgeData> {
    if m.contains_key(k) {
        Some(m[k])
    } else {
        None
    }
}

/// The targets of the edges leaving `a` (`forward`), or the sources of the
/// edges entering `a` (otherwise).
pub open spec fn neighbour_set(m: Map<(u128, u128), EdgeData>, a: u128, forward: bool) -> Set<u128> {
    if forward {
        Set::new(|b: u128| m.contains_key((a, b)))
    } else {
        Set::new(|b: u128| m.contains_key((b, a)))
    }
}

/// `GraphMap::add_node`: adds `n` to the nodes; edges are unchanged.
#[verifier::external_body]
pub(crate) fn graph_add_node(g: &mut Graph, n: u128)
    ensures
        graph_nodes(*final(g)) == graph_nodes(*old(g)).insert(n),
        graph_edges(*final(g)) == graph_edges(*old(g)),
{
    g.add_node(n);
}

/// `GraphMap::add_edge`: adds both endpoints to the nodes and sets the data
/// of the edge `(a, b)`, handing back the data it replaced.
#[verifier::external_body]
pub(crate) fn graph_add_edge(g: &mut Graph, a: u128, b: u128, w: EdgeData) -> (r: Option<EdgeData>)
    ensures
        graph_nodes(*final(g)) == graph_nodes(*old(g)).insert(a).insert(b),
        graph_edges(*final(g)) == graph_edges(*old(g)).insert((a, b), w),
        r == previous_weight(graph_edges(*old(g)), (a, b)),
{
    g.add_edge(a, b, w)
}

/// `GraphMap::remove_node`: removes `n` and every edge touching it; reports
/// whether `n` was a node.
#[verifier::external_body]
pub(crate) fn graph_remove_node(g: &mut Graph, n: u128) -> (r: bool)
    ensures
        r == graph_nodes(*old(g)).contains(n),
        graph_nodes(*final(g)) == graph_nodes(*old(g)).remove(n),
        graph_edges(*final(g)) == edges_without(graph_edges(*old(g)), n),
{
    g.remove_node(n)
}

/// `GraphMap::remove_edge`: removes the edge `(a, b)` and hands back its data.
#[verifier::external_body]
pub(crate) fn graph_remove_edge(g: &mut Graph, a: u128, b: u128) -> (r: Option<EdgeData>)
    ensures
        graph_nodes(*final(g)) == graph_nodes(*old(g)),
        graph_edges(*final(g)) == graph_edges(*old(g)).remove((a, b)),
        r == previous_weight(graph_edges(*old(g)), (a, b)),
{
    g.remove_edge(a, b)
}

/// `GraphMap::contains_node`.
#[verifier::external_body]
pub(crate) fn graph_contains_node(g: &Graph, n: u128) -> (r: bool)
    ensures
        r == graph_nodes(*g).contains(n),
{
    g.contains_node(n)
}

/// `GraphMap::contains_edge`.
#[verifier::external_body]
pub(crate) fn graph_contains_edge(g: &Graph, a: u128, b: u128) -> (r: bool)
    ensures
        r == graph_edges(*g).contains_key((a, b)),
{
    g.contains_edge(a, b)
}

/// `GraphMap::edge_weight`: the data of the edge `(a, b)`, if present.
#[verifier::external_body]
pub(crate) fn graph_edge_weight(g: &Graph, a: u128, b: u128) -> (r: Option<&EdgeData>)
    ensures
        r is Some == graph_edges(*g).contains_key((a, b)),
        r matches Some(w) ==> *w == graph_edges(*g)[(a, b)],
{
    g.edge_weight(a, b)
}

/// `GraphMap::nodes`, collected: every node once, in the graph's order.
#[verifier::external_body]
pub(crate) fn graph_node_list(g: &Graph) -> (r: Vec<u128>)
    ensures
        r@.no_duplicates(),
        r@.to_set() == graph_nodes(*g),
{
    g.nodes().collect()
}

/// `GraphMap::neighbors_directed`, collected: the targets of the edges
/// leaving `a` (`forward`) or the sources of the edges entering `a`, each
/// once, in the graph's order.
#[verifier::external_body]
pub(crate) fn graph_neighbours(g: &Graph, a: u128, forward: bool) -> (r: Vec<u128>)
    ensures
        r@.no_duplicates(),
        r@.to_set() == neighbour_set(graph_edges(*g), a, forward),
{
    let dir = if forward {
        petgraph::Direction::Outgoing
    } else {
        petgraph::Direction::Incoming
    };
    g.neighbors_directed(a, dir).collect()
}

} // verus!
