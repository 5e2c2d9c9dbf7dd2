//! The wiring of an audio graph: node arities and port-to-port edges, held in
//! a petgraph `Graph`.
use petgraph::graph::{EdgeIndex, NodeIndex};
use petgraph::{Directed, Graph};
use vstd::prelude::*;

verus! {

/// What the graph knows of a node: how many samples it takes and how many
/// it produces per tick.
#[derive(Clone, Copy, Debug, PartialEq, Eq)]
pub struct NodeSpec {
    pub inputs: usize,
    pub outputs: usize,
}

/// An edge from output port `output` of node `from` to input port `input`
/// of node `to`.
#[derive(Clone, Copy, Debug, PartialEq, Eq)]
pub struct EdgeSpec {
    pub from: usize,
    pub output: usize,
    pub to: usize,
    pub input: usize,
}

/// The petgraph graph that holds the wiring: node weights are arities, edge
/// weights are `(output port, input port)` pairs.
pub type AudioGraph = Graph<NodeSpec, (usize, usize), Directed, u32>;

/// petgraph's `Graph`, opaque: its contents are read through the names and
/// wrappers below.
#[verifier::external_type_specification]
#[verifier::external_body]
#[verifier::reject_recursive_types(N)]
#[verifier::reject_recursive_types(E)]
#[verifier::reject_recursive_types(Ty)]
#[verifier::reject_recursive_types(Ix)]
pub struct ExGraph<N, E, Ty, Ix>(Graph<N, E, Ty, Ix>);

/// petgraph's marker for directed edges.
#[verifier::external_type_specification]
#[verifier::external_body]
pub struct ExDirected(Directed);

/// The nodes of a graph, in the order in which they were added (a node's
/// index is its position).
pub uninterp spec fn graph_nodes(g: AudioGraph) -> Seq<NodeSpec>;

/// The edges of a graph, in the order in which they were added (an edge's
/// index is its position).
pub uninterp spec fn graph_edges(g: AudioGraph) -> Seq<EdgeSpec>;

/// An edge whose ends name existing nodes and existing ports of them.
pub open spec fn edge_valid(nodes: Seq<NodeSpec>, e: EdgeSpec) -> bool {
    &&& e.from < nodes.len()
    &&& e.to < nodes.len()
    &&& e.output < nodes[e.from as int].outputs
    &&& e.input < nodes[e.to as int].inputs
}

/// Every edge is valid, and both index spaces fit petgraph's `u32` indices.
pub open spec fn topology_wf(nodes: Seq<NodeSpec>, edges: Seq<EdgeSpec>) -> bool {
    &&& nodes.len() <= u32::MAX
    &&& edges.len() <= u32::MAX
    &&& forall|j: int| 0 <= j < edges.len() ==> edge_valid(nodes, #[trigger] edges[j])
}

/// Relies on petgraph's `Graph::new`: a directed graph with no nodes and no
/// edges.
#[verifier::external_body]
pub(crate) fn graph_new() -> (g: AudioGraph)
    ensures
        graph_nodes(g) == Seq::<NodeSpec>::empty(),
        graph_edges(g) == Seq::<EdgeSpec>::empty(),
{
    Graph::new()
}

/// Relies on `Graph::add_node`: the node is appended and its index is the
/// old node count. It panics once the `u32` index space is used up.
#[verifier::external_body]
pub(crate) fn graph_add_node(g: &mut AudioGraph, node: NodeSpec) -> (r: usize)
    requires
        graph_nodes(*old(g)).len() < u32::MAX,
    ensures
        graph_nodes(*final(g)) == graph_nodes(*old(g)).push(node),
        graph_edges(*final(g)) == graph_edges(*old(g)),
        r == graph_nodes(*old(g)).len(),
{
    g.add_node(node).index()
}

/// Relies on `Graph::add_edge`: the edge is appended and its index is the old
/// edge count. It panics when an end is not a node, or once the `u32` index
/// space is used up.
#[verifier::external_body]
pub(crate) fn graph_add_edge(g: &mut AudioGraph, e: EdgeSpec) -> (r: usize)
    requires
        e.from < graph_nodes(*old(g)).len() <= u32::MAX,
        e.to < graph_nodes(*old(g)).len(),
        graph_edges(*old(g)).len() < u32::MAX,
    ensures
        graph_nodes(*final(g)) == graph_nodes(*old(g)),
        graph_edges(*final(g)) == graph_edges(*old(g)).push(e),
        r == graph_edges(*old(g)).len(),
{
    g.add_edge(NodeIndex::new(e.from), NodeIndex::new(e.to), (e.output, e.input)).index()
}

/// Relies on `Graph::node_count`.
#[verifier::external_body]
pub(crate) fn graph_node_count(g: &AudioGraph) -> (r: usize)
    ensures
        r == graph_nodes(*g).len(),
{
    g.node_count()
}

/// Relies on `Graph::edge_count`.
#[verifier::external_body]
pub(crate) fn graph_edge_count(g: &AudioGraph) -> (r: usize)
    ensures
        r == graph_edges(*g).len(),
{
    g.edge_count()
}

/// Relies on indexing a `Graph` by a node index: the weight of that node.
#[verifier::external_body]
pub(crate) fn graph_node(g: &AudioGraph, i: usize) -> (r: NodeSpec)
    requires
        i < graph_nodes(*g).len() <= u32::MAX,
    ensures
        r == graph_nodes(*g)[i as int],
{
    g[NodeIndex::new(i)]
}

/// Relies on `Graph::edge_endpoints`: the source and target of an edge that
/// exists.
#[verifier::external_body]
pub(crate) fn graph_edge_endpoints(g: &AudioGraph, j: usize) -> (r: (usize, usize))
    requires
        j < graph_edges(*g).len() <= u32::MAX,
    ensures
        r.0 == graph_edges(*g)[j as int].from,
        r.1 == graph_edges(*g)[j as int].to,
{
    match g.edge_endpoints(EdgeIndex::new(j)) {
        Some((a, b)) => (a.index(), b.index()),
        None => (0, 0),
    }
}

/// Relies on indexing a `Graph` by an edge index: the `(output port, input
/// port)` weight of that edge.
#[verifier::external_body]
pub(crate) fn graph_edge_ports(g: &AudioGraph, j: usize) -> (r: (usize, usize))
    requires
        j < graph_edges(*g).len() <= u32::MAX,
    ensures
        r.0 == graph_edges(*g)[j as int].output,
        r.1 == graph_edges(*g)[j as int].input,
{
    g[EdgeIndex::new(j)]
}

/// Reads edge `j` as a whole.
pub(crate) fn graph_edge(g: &AudioGraph, j: usize) -> (r: EdgeSpec)
    requires
        j < graph_edges(*g).len() <= u32::MAX,
    ensures
        r == graph_edges(*g)[j as int],
{
    let (from, to) = graph_edge_endpoints(g, j);
    let (output, input) = graph_edge_ports(g, j);
    EdgeSpec { from, output, to, input }
}

} // verus!
