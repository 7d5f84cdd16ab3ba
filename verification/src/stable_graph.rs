//! `petgraph`'s `StableGraph`, as far as the library calls it.
//!
//! What a graph holds has two names: its nodes by index and its edges by
//! index. Each function below makes one call and says over these names what
//! the call does.

use crate::graph::{Dependency, Operator};
use petgraph::stable_graph::{EdgeIndex, NodeIndex, StableGraph};
use petgraph::Direction;
use vstd::prelude::*;

verus! {

/// `petgraph::stable_graph::StableGraph`, opaque: what it holds is known
/// by the two names below.
#[verifier::external_type_specification]
#[verifier::external_body]
#[verifier::reject_recursive_types(N)]
#[verifier::reject_recursive_types(E)]
#[verifier::reject_recursive_types(Ty)]
#[verifier::reject_recursive_types(Ix)]
pub struct ExStableGraph<N, E, Ty, Ix>(StableGraph<N, E, Ty, Ix>);

/// `petgraph::Directed`, the marker of graphs with directed edges.
#[verifier::external_type_specification]
#[verifier::external_body]
pub struct ExDirected(petgraph::Directed);

/// The nodes of a graph: the weight at each node index in use.
pub uninterp spec fn graph_nodes(g: StableGraph<Operator, Dependency>) -> Map<u32, Operator>;

/// The edges of a graph: source, target and weight at each edge index in
/// use.
pub uninterp spec fn graph_edges(g: StableGraph<Operator, Dependency>) -> Map<
    u32,
    (u32, u32, Dependency),
>;

/// The edges of `edges` that do not touch node `a`.
pub open spec fn edges_without(edges: Map<u32, (u32, u32, Dependency)>, a: u32) -> Map<
    u32,
    (u32, u32, Dependency),
> {
    Map::new(
        |e: u32| edges.contains_key(e) && edges[e].0 != a && edges[e].1 != a,
        |e: u32| edges[e],
    )
}

/// Whether `v` lists its items without a repeat.
pub open spec fn no_repeats(v: Seq<u32>) -> bool {
    forall|i: int, j: int| 0 <= i < j < v.len() ==> v[i] != v[j]
}

/// Whether `v` rises strictly.
pub open spec fn ascending(v: Seq<u32>) -> bool {
    forall|i: int, j: int| 0 <= i < j < v.len() ==> v[i] < v[j]
}

/// `StableGraph::new`: a graph without nodes and edges.
#[verifier::external_body]
pub(crate) fn empty_graph() -> (g: StableGraph<Operator, Dependency>)
    ensures
        graph_nodes(g).dom() == Set::<u32>::empty(),
        graph_edges(g).dom() == Set::<u32>::empty(),
{
    StableGraph::new()
}

/// Whether every index that a graph can give out is a key of `used`:
/// all but the largest, which stands for "none".
pub open spec fn used_up<V>(used: Map<u32, V>) -> bool {
    forall|i: u32| i < u32::MAX ==> #[trigger] used.contains_key(i)
}

/// Whether every key of `used` is an index that a graph can give out.
pub open spec fn in_range<V>(used: Map<u32, V>) -> bool {
    forall|i: u32| #[trigger] used.contains_key(i) ==> i < u32::MAX
}

/// `StableGraph::try_add_node`: on success the weight stands at an index
/// that was not in use and is not the largest; on failure nothing has
/// changed. It fails only where no vacant slot is left and the slots
/// have reached the largest index, so that every index is in use. Edges
/// stay.
#[verifier::external_body]
pub(crate) fn try_add_node(g: &mut StableGraph<Operator, Dependency>, weight: Operator) -> (r:
    Option<u32>)
    ensures
        graph_edges(*final(g)) == graph_edges(*old(g)),
        r matches Some(id) ==> id < u32::MAX && !graph_nodes(*old(g)).contains_key(id)
            && graph_nodes(*final(g)) == graph_nodes(*old(g)).insert(id, weight),
        r is None ==> graph_nodes(*final(g)) == graph_nodes(*old(g)),
        r is None ==> used_up(graph_nodes(*old(g))),
{
    g.try_add_node(weight).ok().map(|n| n.index() as u32)
}

/// `StableGraph::try_add_edge` between two nodes of the graph: on
/// success the edge stands at an index that was not in use and is not
/// the largest; on failure nothing has changed. Between two nodes of the
/// graph it fails only where no vacant slot is left and the slots have
/// reached the largest index, so that every index is in use. Nodes stay.
#[verifier::external_body]
pub(crate) fn try_add_edge(
    g: &mut StableGraph<Operator, Dependency>,
    a: u32,
    b: u32,
    weight: Dependency,
) -> (r: Option<u32>)
    requires
        graph_nodes(*old(g)).contains_key(a),
        graph_nodes(*old(g)).contains_key(b),
    ensures
        graph_nodes(*final(g)) == graph_nodes(*old(g)),
        r matches Some(e) ==> e < u32::MAX && !graph_edges(*old(g)).contains_key(e)
            && graph_edges(*final(g)) == graph_edges(*old(g)).insert(e, (a, b, weight)),
        r is None ==> graph_edges(*final(g)) == graph_edges(*old(g)),
        r is None ==> used_up(graph_edges(*old(g))),
{
    g.try_add_edge(NodeIndex::new(a as usize), NodeIndex::new(b as usize), weight).ok().map(
        |e| e.index() as u32,
    )
}

/// `StableGraph::remove_node`: the node leaves with every edge that
/// touches it, and its weight is returned; `None`, and nothing changed,
/// where the index was not in use.
#[verifier::external_body]
pub(crate) fn remove_node(g: &mut StableGraph<Operator, Dependency>, a: u32) -> (r: Option<
    Operator,
>)
    ensures
        graph_nodes(*old(g)).contains_key(a) ==> r == Some(graph_nodes(*old(g))[a])
            && graph_nodes(*final(g)) == graph_nodes(*old(g)).remove(a) && graph_edges(*final(g))
            == edges_without(graph_edges(*old(g)), a),
        !graph_nodes(*old(g)).contains_key(a) ==> r is None && graph_nodes(*final(g))
            == graph_nodes(*old(g)) && graph_edges(*final(g)) == graph_edges(*old(g)),
{
    g.remove_node(NodeIndex::new(a as usize))
}

/// `StableGraph::remove_edge`: the edge leaves; nothing changes where the
/// index was not in use. Nodes stay.
#[verifier::external_body]
pub(crate) fn remove_edge(g: &mut StableGraph<Operator, Dependency>, e: u32)
    ensures
        graph_nodes(*final(g)) == graph_nodes(*old(g)),
        graph_edges(*final(g)) == graph_edges(*old(g)).remove(e),
{
    let _ = g.remove_edge(EdgeIndex::new(e as usize));
}

/// `StableGraph::node_weight`: the weight at the index, if it is in use.
#[verifier::external_body]
pub(crate) fn node_weight(g: &StableGraph<Operator, Dependency>, a: u32) -> (r: Option<Operator>)
    ensures
        r == if graph_nodes(*g).contains_key(a) {
            Some(graph_nodes(*g)[a])
        } else {
            None
        },
{
    g.node_weight(NodeIndex::new(a as usize)).copied()
}

/// `StableGraph::node_indices`: the node indices in use, in rising order.
#[verifier::external_body]
pub(crate) fn node_ids(g: &StableGraph<Operator, Dependency>) -> (v: Vec<u32>)
    ensures
        ascending(v@),
        forall|a: u32| graph_nodes(*g).contains_key(a) <==> v@.contains(a),
{
    g.node_indices().map(|n| n.index() as u32).collect()
}

/// `StableGraph::edges_directed` with `Incoming`: the indices of the
/// edges into node `a`, each once.
#[verifier::external_body]
pub(crate) fn incoming_edges(g: &StableGraph<Operator, Dependency>, a: u32) -> (v: Vec<u32>)
    requires
        graph_nodes(*g).contains_key(a),
    ensures
        no_repeats(v@),
        forall|e: u32|
            v@.contains(e) <==> (graph_edges(*g).contains_key(e) && graph_edges(*g)[e].1 == a),
{
    g.edges_directed(NodeIndex::new(a as usize), Direction::Incoming).map(
        |e| petgraph::visit::EdgeRef::id(&e).index() as u32,
    ).collect()
}

/// `StableGraph::edges_directed` with `Outgoing`: the indices of the
/// edges out of node `a`, each once.
#[verifier::external_body]
pub(crate) fn outgoing_edges(g: &StableGraph<Operator, Dependency>, a: u32) -> (v: Vec<u32>)
    requires
        graph_nodes(*g).contains_key(a),
    ensures
        no_repeats(v@),
        forall|e: u32|
            v@.contains(e) <==> (graph_edges(*g).contains_key(e) && graph_edges(*g)[e].0 == a),
{
    g.edges_directed(NodeIndex::new(a as usize), Direction::Outgoing).map(
        |e| petgraph::visit::EdgeRef::id(&e).index() as u32,
    ).collect()
}

/// `StableGraph::edge_endpoints`: source and target of the edge, if the
/// index is in use.
#[verifier::external_body]
pub(crate) fn edge_endpoints(g: &StableGraph<Operator, Dependency>, e: u32) -> (r: Option<
    (u32, u32),
>)
    ensures
        r == if graph_edges(*g).contains_key(e) {
            Some((graph_edges(*g)[e].0, graph_edges(*g)[e].1))
        } else {
            None
        },
{
    g.edge_endpoints(EdgeIndex::new(e as usize)).map(|p| (p.0.index() as u32, p.1.index() as u32))
}

/// `StableGraph::edge_weight`: the weight of the edge, if the index is in
/// use.
#[verifier::external_body]
pub(crate) fn edge_weight(g: &StableGraph<Operator, Dependency>, e: u32) -> (r: Option<
    &Dependency,
>)
    ensures
        r == if graph_edges(*g).contains_key(e) {
            Some(&graph_edges(*g)[e].2)
        } else {
            None
        },
{
    g.edge_weight(EdgeIndex::new(e as usize))
}


/// `StableGraph::edge_indices`: the edge indices in use.
#[verifier::external_body]
pub(crate) fn edge_ids(g: &StableGraph<Operator, Dependency>) -> (v: Vec<u32>)
    ensures
        forall|e: u32| graph_edges(*g).contains_key(e) <==> v@.contains(e),
{
    g.edge_indices().map(|e| e.index() as u32).collect()
}


/// `StableGraph::node_weight_mut`, written through: the node gets the
/// weight `weight` and its old weight is returned; `None`, and nothing
/// changed, where the index was not in use. Edges stay.
#[verifier::external_body]
pub(crate) fn replace_node_weight(
    g: &mut StableGraph<Operator, Dependency>,
    a: u32,
    weight: Operator,
) -> (r: Option<Operator>)
    ensures
        graph_edges(*final(g)) == graph_edges(*old(g)),
        graph_nodes(*old(g)).contains_key(a) ==> r == Some(graph_nodes(*old(g))[a])
            && graph_nodes(*final(g)) == graph_nodes(*old(g)).insert(a, weight),
        !graph_nodes(*old(g)).contains_key(a) ==> r is None && graph_nodes(*final(g))
            == graph_nodes(*old(g)),
{
    let slot = g.node_weight_mut(NodeIndex::new(a as usize))?;
    let before = *slot;
    *slot = weight;
    Some(before)
}

} // verus!
