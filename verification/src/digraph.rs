//! The edges of a directed graph, kept by the `petgraph` crate.

use vstd::prelude::*;
use petgraph::graph::{Graph, NodeIndex};
use petgraph::Directed;

verus! {

/// `petgraph::graph::Graph`: nodes and edges with weights, the nodes
/// numbered from zero.
#[verifier::external_type_specification]
#[verifier::external_body]
#[verifier::reject_recursive_types(N)]
#[verifier::reject_recursive_types(E)]
#[verifier::reject_recursive_types(Ty)]
#[verifier::reject_recursive_types(Ix)]
pub struct ExGraph<N, E, Ty, Ix>(Graph<N, E, Ty, Ix>);

/// `petgraph::Directed`: the marker of graphs with directed edges.
#[verifier::external_type_specification]
#[verifier::external_body]
pub struct ExDirected(Directed);

/// `petgraph::Direction`: `Outgoing` or `Incoming`.
#[verifier::external_type_specification]
pub struct ExDirection(petgraph::Direction);

/// `Clone` for `Direction`, which the crate derives: the copy is the same
/// direction.
pub assume_specification[ <petgraph::Direction as Clone>::clone ](d: &petgraph::Direction) -> (r:
    petgraph::Direction)
    ensures
        r == *d,
;

/// The number of nodes of a graph; they are numbered from zero.
pub uninterp spec fn topology_nodes(g: Graph<(), (), Directed, usize>) -> nat;

/// The edges of a graph, each as source and target, in the order in which
/// they were added.
pub uninterp spec fn topology_edges(g: Graph<(), (), Directed, usize>) -> Seq<(usize, usize)>;

/// The nodes at the other end of the edges that leave `a` (or that enter it,
/// where `outgoing` is false), the one of the newest edge first.
pub open spec fn neighbours_of(edges: Seq<(usize, usize)>, a: usize, outgoing: bool) -> Seq<usize>
    decreases edges.len(),
{
    if edges.len() == 0 {
        Seq::empty()
    } else {
        let e = edges.last();
        let rest = neighbours_of(edges.drop_last(), a, outgoing);
        if outgoing && e.0 == a {
            seq![e.1] + rest
        } else if !outgoing && e.1 == a {
            seq![e.0] + rest
        } else {
            rest
        }
    }
}

/// `Graph::with_capacity`: a graph without nodes and edges.
#[verifier::external_body]
pub(crate) fn topology_new() -> (g: Graph<(), (), Directed, usize>)
    ensures
        topology_nodes(g) == 0,
        topology_edges(g) == Seq::<(usize, usize)>::empty(),
{
    Graph::with_capacity(0, 0)
}

/// `Graph::node_count`.
#[verifier::external_body]
pub(crate) fn topology_node_count(g: &Graph<(), (), Directed, usize>) -> (n: usize)
    ensures
        n == topology_nodes(*g),
{
    g.node_count()
}

/// `Graph::edge_count`.
#[verifier::external_body]
pub(crate) fn topology_edge_count(g: &Graph<(), (), Directed, usize>) -> (n: usize)
    ensures
        n == topology_edges(*g).len(),
{
    g.edge_count()
}

/// `Graph::add_node`: the new node gets the next number; the edges stay.
#[verifier::external_body]
pub(crate) fn topology_add_node(g: &mut Graph<(), (), Directed, usize>) -> (ix: usize)
    ensures
        ix == topology_nodes(*old(g)),
        topology_nodes(*final(g)) == topology_nodes(*old(g)) + 1,
        topology_edges(*final(g)) == topology_edges(*old(g)),
{
    g.add_node(()).index()
}

/// `Graph::add_edge`: appends the edge from `a` to `b`, also where one is
/// there already. The crate panics on a node that does not exist.
#[verifier::external_body]
pub(crate) fn topology_add_edge(g: &mut Graph<(), (), Directed, usize>, a: usize, b: usize)
    requires
        a < topology_nodes(*old(g)),
        b < topology_nodes(*old(g)),
    ensures
        topology_nodes(*final(g)) == topology_nodes(*old(g)),
        topology_edges(*final(g)) == topology_edges(*old(g)).push((a, b)),
{
    g.add_edge(NodeIndex::new(a), NodeIndex::new(b), ());
}

/// `Graph::update_edge`: appends the edge from `a` to `b` unless the graph
/// has one already.
#[verifier::external_body]
pub(crate) fn topology_update_edge(g: &mut Graph<(), (), Directed, usize>, a: usize, b: usize)
    requires
        a < topology_nodes(*old(g)),
        b < topology_nodes(*old(g)),
    ensures
        topology_nodes(*final(g)) == topology_nodes(*old(g)),
        topology_edges(*final(g)) == if topology_edges(*old(g)).contains((a, b)) {
            topology_edges(*old(g))
        } else {
            topology_edges(*old(g)).push((a, b))
        },
{
    g.update_edge(NodeIndex::new(a), NodeIndex::new(b), ());
}

/// `Graph::neighbors_directed`: the targets of the edges that leave `a`, or
/// the sources of those that enter it, newest edge first; nothing for a node
/// that does not exist.
#[verifier::external_body]
pub(crate) fn topology_neighbours(g: &Graph<(), (), Directed, usize>, a: usize, dir: petgraph::Direction) -> (r:
    Vec<usize>)
    ensures
        r@ == neighbours_of(topology_edges(*g), a, dir is Outgoing),
{
    g.neighbors_directed(NodeIndex::new(a), dir).map(|n| n.index()).collect()
}

/// `Clone` for `Graph`: the copy has the same nodes and the same edges, in
/// the same order.
#[verifier::external_body]
pub(crate) fn topology_clone(g: &Graph<(), (), Directed, usize>) -> (r: Graph<
    (),
    (),
    Directed,
    usize,
>)
    ensures
        topology_nodes(r) == topology_nodes(*g),
        topology_edges(r) == topology_edges(*g),
{
    g.clone()
}

} // verus!
