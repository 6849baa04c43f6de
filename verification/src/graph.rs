//! The directed graph of states, held in petgraph's `StableGraph`.
//!
//! What the graph holds is named by spec functions over the graph value;
//! the contracts below say how each call that the ranking makes changes or
//! reads it. Nothing here is proved: each contract restates what petgraph's
//! source does.

use vstd::prelude::*;
use petgraph::stable_graph::{NodeIndex, StableGraph};
use petgraph::{Directed, Direction};

verus! {

#[verifier::external_type_specification]
#[verifier::external_body]
#[verifier::reject_recursive_types(N)]
#[verifier::reject_recursive_types(E)]
#[verifier::reject_recursive_types(Ty)]
#[verifier::reject_recursive_types(Ix)]
pub struct ExStableGraph<N, E, Ty, Ix>(StableGraph<N, E, Ty, Ix>);

#[verifier::external_type_specification]
#[verifier::external_body]
pub struct ExDirected(Directed);

/// The node slots of a graph, by index: the node's weight and the targets of
/// its outgoing edges in the order the graph walks them, or nothing where a
/// node was removed.
pub uninterp spec fn graph_nodes(g: StableGraph<String, (), Directed, u32>) -> Seq<Option<(Seq<char>, Seq<int>)>>;

/// How many edge slots the graph holds, vacant ones included.
pub uninterp spec fn graph_edge_slots(g: StableGraph<String, (), Directed, u32>) -> nat;

/// The node order that petgraph's `toposort` returns for a graph with these
/// node slots, or nothing where it reports a cycle.
pub uninterp spec fn topo_order(nodes: Seq<Option<(Seq<char>, Seq<int>)>>) -> Option<Seq<int>>;

/// The targets of a node slot's outgoing edges (none for a vacant slot).
pub open spec fn out_of(slot: Option<(Seq<char>, Seq<int>)>) -> Seq<int> {
    match slot {
        Some(n) => n.1,
        None => Seq::empty(),
    }
}

/// The weight of a node slot (empty for a vacant slot).
pub open spec fn weight_of(slot: Option<(Seq<char>, Seq<int>)>) -> Seq<char> {
    match slot {
        Some(n) => n.0,
        None => Seq::empty(),
    }
}

/// Whether no node slot is vacant.
pub open spec fn all_present(nodes: Seq<Option<(Seq<char>, Seq<int>)>>) -> bool {
    forall|i: int| 0 <= i < nodes.len() ==> (#[trigger] nodes[i]) is Some
}

/// Whether `order` lists each node slot once and every edge goes from an
/// earlier node to a later one.
pub open spec fn is_topological(nodes: Seq<Option<(Seq<char>, Seq<int>)>>, order: Seq<int>) -> bool {
    &&& order.len() == nodes.len()
    &&& forall|i: int| 0 <= i < order.len() ==> 0 <= #[trigger] order[i] < nodes.len()
    &&& forall|i: int, j: int| 0 <= i < j < order.len() ==> #[trigger] order[i] != #[trigger] order[j]
    &&& forall|i: int, j: int, k: int|
        0 <= i < order.len() && 0 <= j < order.len() && 0 <= k < out_of(nodes[order[i]]).len()
            && out_of(nodes[order[i]])[k] == order[j] ==> i < j
}

/// `StableGraph::new`: a directed graph with no node and no edge.
#[verifier::external_body]
pub(crate) fn graph_new() -> (g: StableGraph<String, (), Directed, u32>)
    ensures
        graph_nodes(g) == Seq::<Option<(Seq<char>, Seq<int>)>>::empty(),
        graph_edge_slots(g) == 0,
{
    StableGraph::new()
}

/// `StableGraph::add_node`: in a graph with no vacant node slot, the node
/// takes the next index, with no edges; its index is returned.
#[verifier::external_body]
pub(crate) fn graph_add_node(g: &mut StableGraph<String, (), Directed, u32>, weight: String) -> (r: usize)
    requires
        all_present(graph_nodes(*old(g))),
        graph_nodes(*old(g)).len() < u32::MAX,
    ensures
        r == graph_nodes(*old(g)).len(),
        graph_nodes(*final(g)) == graph_nodes(*old(g)).push(Some((weight@, Seq::<int>::empty()))),
        graph_edge_slots(*final(g)) == graph_edge_slots(*old(g)),
{
    g.add_node(weight).index()
}

/// `StableGraph::add_edge` with no weight: the edge from `a` to `b` becomes
/// the first of `a`'s outgoing edges; it takes a vacant edge slot or a new one.
#[verifier::external_body]
pub(crate) fn graph_add_edge(g: &mut StableGraph<String, (), Directed, u32>, a: usize, b: usize)
    requires
        a < graph_nodes(*old(g)).len(),
        b < graph_nodes(*old(g)).len(),
        graph_nodes(*old(g)).len() < u32::MAX,
        graph_nodes(*old(g))[a as int] is Some,
        graph_nodes(*old(g))[b as int] is Some,
        graph_edge_slots(*old(g)) < u32::MAX,
    ensures
        graph_nodes(*final(g)) == graph_nodes(*old(g)).update(
            a as int,
            Some((weight_of(graph_nodes(*old(g))[a as int]), seq![b as int] + out_of(graph_nodes(*old(g))[a as int]))),
        ),
        graph_edge_slots(*final(g)) == graph_edge_slots(*old(g)) || graph_edge_slots(*final(g))
            == graph_edge_slots(*old(g)) + 1,
{
    g.add_edge(NodeIndex::new(a), NodeIndex::new(b), ());
}

/// `StableGraph::neighbors_directed` towards `Outgoing`: the targets of `a`'s
/// outgoing edges, in the graph's order.
#[verifier::external_body]
pub(crate) fn graph_out_neighbors(g: &StableGraph<String, (), Directed, u32>, a: usize) -> (r: Vec<usize>)
    requires
        a < graph_nodes(*g).len(),
        graph_nodes(*g).len() < u32::MAX,
        graph_nodes(*g)[a as int] is Some,
    ensures
        r@.len() == out_of(graph_nodes(*g)[a as int]).len(),
        forall|i: int| 0 <= i < r@.len() ==> r@[i] == out_of(graph_nodes(*g)[a as int])[i],
{
    let mut out = Vec::new();
    for n in g.neighbors_directed(NodeIndex::new(a), Direction::Outgoing) {
        out.push(n.index());
    }
    out
}

/// `StableGraph::node_count`: in a graph with no vacant node slot, the number of slots.
#[verifier::external_body]
pub(crate) fn graph_node_count(g: &StableGraph<String, (), Directed, u32>) -> (r: usize)
    requires
        all_present(graph_nodes(*g)),
    ensures
        r == graph_nodes(*g).len(),
{
    g.node_count()
}

/// Indexing a `StableGraph` by node: the weight of node `a`.
#[verifier::external_body]
pub(crate) fn graph_weight(g: &StableGraph<String, (), Directed, u32>, a: usize) -> (r: String)
    requires
        a < graph_nodes(*g).len(),
        graph_nodes(*g).len() < u32::MAX,
        graph_nodes(*g)[a as int] is Some,
    ensures
        r@ == weight_of(graph_nodes(*g)[a as int]),
{
    g[NodeIndex::new(a)].clone()
}

/// `petgraph::algo::toposort` with no workspace: on success the order that
/// `topo_order` names, which lists every node once, each before the targets
/// of its edges; nothing where it reports a cycle, which its documentation
/// says it does only for a graph that is not acyclic, so one with no
/// topological order.
#[verifier::external_body]
pub(crate) fn graph_toposort(g: &StableGraph<String, (), Directed, u32>) -> (r: Option<Vec<usize>>)
    requires
        all_present(graph_nodes(*g)),
    ensures
        match r {
            Some(v) => topo_order(graph_nodes(*g)) == Some(v@.map_values(|x: usize| x as int))
                && is_topological(graph_nodes(*g), v@.map_values(|x: usize| x as int)),
            None => topo_order(graph_nodes(*g)) is None && !(exists|o: Seq<int>| is_topological(graph_nodes(*g), o)),
        },
{
    match petgraph::algo::toposort(g, None) {
        Ok(order) => {
            let mut v = Vec::new();
            for n in order {
                v.push(n.index());
            }
            Some(v)
        },
        Err(_) => None,
    }
}

} // verus!
