//! The binding graph's store: a `petgraph` graph whose nodes carry the two counters and whose
//! edges carry the bound action, or mark membership in a layer.
//!
//! Nothing in this file is proved. Each function states what the `petgraph` source shows of
//! the method it calls, over two names: the node weights of a graph by node index, and its
//! edges in the order in which they were added.
use crate::keymap::AnyKey;
use petgraph::graph::Graph;
use petgraph::graph::NodeIndex;
use petgraph::visit::EdgeRef;
use petgraph::Directed;
use petgraph::Direction;
use vstd::prelude::*;

verus! {

/// `petgraph::graph::Graph`, opaque to the verifier.
#[verifier::external_type_specification]
#[verifier::external_body]
#[verifier::reject_recursive_types(N)]
#[verifier::reject_recursive_types(E)]
#[verifier::reject_recursive_types(Ty)]
#[verifier::reject_recursive_types(Ix)]
pub struct ExGraph<N, E, Ty, Ix>(Graph<N, E, Ty, Ix>);

/// `petgraph::Directed`, the marker of a graph with directed edges.
#[verifier::external_type_specification]
#[verifier::external_body]
pub struct ExDirected(Directed);

/// What a node of the binding graph carries: how many of its switches are down, and how many
/// it needs.
#[derive(Clone, Copy, Debug, PartialEq, Eq, Structural)]
pub struct Node {
    pub active: usize,
    pub threshold: usize,
}

/// What an edge of the binding graph carries.
#[derive(Clone, Copy, Debug, PartialEq, Eq, Structural)]
pub enum Edge {
    /// From the last switch of a chord to the node of the chord's other switches: the action
    /// that the chord is bound to.
    Action(AnyKey),
    /// From a switch to a layer that the switch belongs to.
    Layer,
}

/// The node weights of `g`, by node index.
pub uninterp spec fn graph_nodes(g: Graph<Node, Edge, Directed, usize>) -> Seq<Node>;

/// The edges of `g` as (source, target, weight), in the order in which they were added.
pub uninterp spec fn graph_edges(g: Graph<Node, Edge, Directed, usize>) -> Seq<
    (usize, usize, Edge),
>;

/// The position of the edge from `a` to `b` that was added last, if there is one.
pub open spec fn newest_edge(edges: Seq<(usize, usize, Edge)>, a: usize, b: usize) -> Option<int>
    decreases edges.len(),
{
    if edges.len() == 0 {
        None
    } else if edges.last().0 == a && edges.last().1 == b {
        Some(edges.len() - 1)
    } else {
        newest_edge(edges.drop_last(), a, b)
    }
}

/// `edges` with the weight of the newest edge from `a` to `b` replaced by `weight`, or, where
/// there is no such edge, with one added at the end.
pub open spec fn put_edge(edges: Seq<(usize, usize, Edge)>, a: usize, b: usize, weight: Edge) -> Seq<
    (usize, usize, Edge),
> {
    match newest_edge(edges, a, b) {
        Some(k) => edges.update(k, (a, b, weight)),
        None => edges.push((a, b, weight)),
    }
}

/// The edges that leave `a`, as (target, weight), the one added last first.
pub open spec fn outgoing_of(edges: Seq<(usize, usize, Edge)>, a: usize) -> Seq<(usize, Edge)>
    decreases edges.len(),
{
    if edges.len() == 0 {
        Seq::empty()
    } else {
        let older = outgoing_of(edges.drop_last(), a);
        if edges.last().0 == a {
            seq![(edges.last().1, edges.last().2)] + older
        } else {
            older
        }
    }
}

/// `Graph::with_capacity(0, 0)`: a graph without nodes and edges.
#[verifier::external_body]
pub(crate) fn new_graph() -> (g: Graph<Node, Edge, Directed, usize>)
    ensures
        graph_nodes(g) == Seq::<Node>::empty(),
        graph_edges(g) == Seq::<(usize, usize, Edge)>::empty(),
{
    Graph::with_capacity(0, 0)
}

/// `Graph::add_node`: the node is added behind the others and gets the next index; the edges
/// stay. With `usize` indices the method has no limit at which it panics.
#[verifier::external_body]
pub(crate) fn add_node(g: &mut Graph<Node, Edge, Directed, usize>, weight: Node) -> (index: usize)
    ensures
        graph_nodes(*final(g)) == graph_nodes(*old(g)).push(weight),
        graph_edges(*final(g)) == graph_edges(*old(g)),
        index == graph_nodes(*old(g)).len(),
{
    g.add_node(weight).index()
}

/// `Graph::index` by a node index: the weight of that node. It panics for an index that is
/// no node.
#[verifier::external_body]
pub(crate) fn node_weight(g: &Graph<Node, Edge, Directed, usize>, index: usize) -> (weight: Node)
    requires
        index < graph_nodes(*g).len(),
    ensures
        weight == graph_nodes(*g)[index as int],
{
    g[NodeIndex::new(index)]
}

/// `Graph::index_mut` by a node index, assigned to: the weight of that node is replaced,
/// nothing else changes. It panics for an index that is no node.
#[verifier::external_body]
pub(crate) fn set_node_weight(
    g: &mut Graph<Node, Edge, Directed, usize>,
    index: usize,
    weight: Node,
)
    requires
        index < graph_nodes(*old(g)).len(),
    ensures
        graph_nodes(*final(g)) == graph_nodes(*old(g)).update(index as int, weight),
        graph_edges(*final(g)) == graph_edges(*old(g)),
{
    g[NodeIndex::new(index)] = weight;
}

/// `Graph::update_edge`: where an edge from `a` to `b` exists, the one that its search finds
/// first, which is the one added last, gets the new weight; otherwise an edge is added. The
/// nodes stay. It panics where `a` or `b` is no node.
#[verifier::external_body]
pub(crate) fn update_edge(
    g: &mut Graph<Node, Edge, Directed, usize>,
    a: usize,
    b: usize,
    weight: Edge,
)
    requires
        a < graph_nodes(*old(g)).len(),
        b < graph_nodes(*old(g)).len(),
    ensures
        graph_nodes(*final(g)) == graph_nodes(*old(g)),
        graph_edges(*final(g)) == put_edge(graph_edges(*old(g)), a, b, weight),
{
    g.update_edge(NodeIndex::new(a), NodeIndex::new(b), weight);
}

/// `Graph::edges_directed` with `Direction::Outgoing`: the edges that leave `a`, each as its
/// target and weight. A directed graph walks them from the one added last to the one added
/// first.
#[verifier::external_body]
pub(crate) fn outgoing(g: &Graph<Node, Edge, Directed, usize>, a: usize) -> (out: Vec<
    (usize, Edge),
>)
    requires
        a < graph_nodes(*g).len(),
    ensures
        out@ == outgoing_of(graph_edges(*g), a),
{
    g.edges_directed(NodeIndex::new(a), Direction::Outgoing).map(
        |e| (e.target().index(), *e.weight()),
    ).collect()
}

} // verus!
