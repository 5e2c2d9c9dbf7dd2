//! Audio graphs: a builder that wires nodes port to port, and the built graph
//! with its execution order and the routing of samples into each node.
use crate::schedule::{
    acyclic_upstream, assign_levels, key_lt, lemma_depth_above_preds, lemma_levels_unique,
    lemma_sorted_unique, mark_upstream, order_by_level, pred_depth, ranks_upstream, schedule_ok,
    upstream,
};
use crate::topology::{
    AudioGraph, EdgeSpec, NodeSpec, edge_valid, graph_add_edge, graph_add_node, graph_edge,
    graph_edge_count, graph_edges, graph_new, graph_node, graph_node_count, graph_nodes,
    topology_wf,
};
use vstd::prelude::*;

verus! {

/// Why a graph cannot be scheduled.
#[derive(Clone, Copy, Debug, PartialEq, Eq)]
pub enum GraphError {
    /// The nodes upstream of the sink hold a cycle.
    Cycle,
}

/// The edges into node `v`, in the order in which they were added.
pub open spec fn edges_into(edges: Seq<EdgeSpec>, v: int) -> Seq<EdgeSpec>
    decreases edges.len(),
{
    if edges.len() == 0 {
        Seq::empty()
    } else {
        let r = edges_into(edges.drop_last(), v);
        if edges.last().to == v {
            r.push(edges.last())
        } else {
            r
        }
    }
}

/// The sample that input port `k` receives from the edges `es`: what the
/// last of them into port `k` carries, or `zero` when none enters it.
pub open spec fn routed<T>(es: Seq<EdgeSpec>, cache: Seq<Vec<T>>, zero: T, k: int) -> T
    decreases es.len(),
{
    if es.len() == 0 {
        zero
    } else if es.last().input == k {
        cache[es.last().from as int]@[es.last().output as int]
    } else {
        routed(es.drop_last(), cache, zero, k)
    }
}

proof fn lemma_edges_into_members(edges: Seq<EdgeSpec>, v: int)
    ensures
        forall|i: int|
            0 <= i < edges_into(edges, v).len() ==> #[trigger] edges.contains(edges_into(edges, v)[i])
                && edges_into(edges, v)[i].to == v,
    decreases edges.len(),
{
    if edges.len() > 0 {
        let p = edges.drop_last();
        lemma_edges_into_members(p, v);
        assert forall|i: int| 0 <= i < edges_into(edges, v).len() implies #[trigger] edges.contains(
            edges_into(edges, v)[i],
        ) && edges_into(edges, v)[i].to == v by {
            if i < edges_into(p, v).len() {
                let x = edges_into(p, v)[i];
                assert(p.contains(x));
                let k = choose|k: int| 0 <= k < p.len() && p[k] == x;
                assert(edges[k] == x);
            } else {
                assert(edges[edges.len() - 1] == edges.last());
            }
        }
    }
}

/// Builds an audio graph node by node and edge by edge.
pub struct GraphBuilder {
    graph: AudioGraph,
    source: Option<usize>,
    sink: Option<usize>,
}

impl GraphBuilder {
    pub closed spec fn nodes(&self) -> Seq<NodeSpec> {
        graph_nodes(self.graph)
    }

    pub closed spec fn edges(&self) -> Seq<EdgeSpec> {
        graph_edges(self.graph)
    }

    pub closed spec fn source(&self) -> Option<usize> {
        self.source
    }

    pub closed spec fn sink(&self) -> Option<usize> {
        self.sink
    }

    pub open spec fn wf(&self) -> bool {
        topology_wf(self.nodes(), self.edges())
    }

    pub fn new() -> (r: GraphBuilder)
        ensures
            r.wf(),
            r.nodes() == Seq::<NodeSpec>::empty(),
            r.edges() == Seq::<EdgeSpec>::empty(),
            r.source() is None,
            r.sink() is None,
    {
        GraphBuilder { graph: graph_new(), sink: None, source: None }
    }

    /// Names the node whose outputs are the graph's outputs.
    pub fn set_out(self, sink: usize) -> (r: GraphBuilder)
        ensures
            r.nodes() == self.nodes(),
            r.edges() == self.edges(),
            r.source() == self.source(),
            r.sink() == Some(sink),
    {
        GraphBuilder { sink: Some(sink), ..self }
    }

    /// Names the node that receives the graph's inputs.
    pub fn set_in(self, source: usize) -> (r: GraphBuilder)
        ensures
            r.nodes() == self.nodes(),
            r.edges() == self.edges(),
            r.source() == Some(source),
            r.sink() == self.sink(),
    {
        GraphBuilder { source: Some(source), ..self }
    }

    /// Adds a node and returns its index.
    pub fn add_node(&mut self, node: NodeSpec) -> (r: usize)
        requires
            old(self).wf(),
            old(self).nodes().len() < u32::MAX,
        ensures
            final(self).wf(),
            final(self).nodes() == old(self).nodes().push(node),
            final(self).edges() == old(self).edges(),
            final(self).source() == old(self).source(),
            final(self).sink() == old(self).sink(),
            r == old(self).nodes().len(),
    {
        let r = graph_add_node(&mut self.graph, node);
        proof {
            let nodes = self.nodes();
            assert forall|j: int| 0 <= j < self.edges().len() implies edge_valid(
                nodes,
                #[trigger] self.edges()[j],
            ) by {
                assert(edge_valid(old(self).nodes(), old(self).edges()[j]));
            }
        }
        r
    }

    /// Adds a node and returns its index, as `add_node` does.
    pub fn add(&mut self, node: NodeSpec) -> (r: usize)
        requires
            old(self).wf(),
            old(self).nodes().len() < u32::MAX,
        ensures
            final(self).wf(),
            final(self).nodes() == old(self).nodes().push(node),
            final(self).edges() == old(self).edges(),
            final(self).source() == old(self).source(),
            final(self).sink() == old(self).sink(),
            r == old(self).nodes().len(),
    {
        self.add_node(node)
    }

    fn push_edge(&mut self, e: EdgeSpec) -> (r: usize)
        requires
            old(self).wf(),
            edge_valid(old(self).nodes(), e),
            old(self).edges().len() < u32::MAX,
        ensures
            final(self).wf(),
            final(self).nodes() == old(self).nodes(),
            final(self).edges() == old(self).edges().push(e),
            final(self).source() == old(self).source(),
            final(self).sink() == old(self).sink(),
            r == old(self).edges().len(),
    {
        let r = graph_add_edge(&mut self.graph, e);
        proof {
            let edges = self.edges();
            assert forall|j: int| 0 <= j < edges.len() implies edge_valid(
                self.nodes(),
                #[trigger] edges[j],
            ) by {
                if j < old(self).edges().len() {
                    assert(edges[j] == old(self).edges()[j]);
                }
            }
        }
        r
    }

    /// Connects output port `from.1` of node `from.0` to input port `to.1` of
    /// node `to.0`, and returns the edge's index.
    pub fn add_edge(&mut self, from: (usize, usize), to: (usize, usize)) -> (r: usize)
        requires
            old(self).wf(),
            edge_valid(old(self).nodes(), EdgeSpec { from: from.0, output: from.1, to: to.0, input: to.1 }),
            old(self).edges().len() < u32::MAX,
        ensures
            final(self).wf(),
            final(self).nodes() == old(self).nodes(),
            final(self).edges() == old(self).edges().push(
                EdgeSpec { from: from.0, output: from.1, to: to.0, input: to.1 },
            ),
            final(self).source() == old(self).source(),
            final(self).sink() == old(self).sink(),
            r == old(self).edges().len(),
    {
        self.push_edge(EdgeSpec { from: from.0, output: from.1, to: to.0, input: to.1 })
    }

    /// Adds a node with no inputs and one output (a constant) and feeds it to
    /// input port `input` of `node`; returns the new node's index.
    pub fn add_const(&mut self, node: usize, input: usize) -> (r: usize)
        requires
            old(self).wf(),
            node < old(self).nodes().len() < u32::MAX,
            input < old(self).nodes()[node as int].inputs,
            old(self).edges().len() < u32::MAX,
        ensures
            final(self).wf(),
            final(self).nodes() == old(self).nodes().push(NodeSpec { inputs: 0, outputs: 1 }),
            final(self).edges() == old(self).edges().push(
                EdgeSpec { from: r, output: 0, to: node, input },
            ),
            final(self).source() == old(self).source(),
            final(self).sink() == old(self).sink(),
            r == old(self).nodes().len(),
    {
        let constant = self.add_node(NodeSpec { inputs: 0, outputs: 1 });
        self.push_edge(EdgeSpec { from: constant, output: 0, to: node, input });
        constant
    }

    /// Connects every output port of `from` to the same-numbered input port
    /// of `to`; the two must have as many ports.
    pub fn connect(&mut self, from: usize, to: usize)
        requires
            old(self).wf(),
            from < old(self).nodes().len(),
            to < old(self).nodes().len(),
            old(self).nodes()[from as int].outputs == old(self).nodes()[to as int].inputs,
            old(self).edges().len() + old(self).nodes()[from as int].outputs <= u32::MAX,
        ensures
            final(self).wf(),
            final(self).nodes() == old(self).nodes(),
            final(self).edges() == old(self).edges() + Seq::new(
                old(self).nodes()[from as int].outputs as nat,
                |i: int| EdgeSpec { from, output: i as usize, to, input: i as usize },
            ),
            final(self).source() == old(self).source(),
            final(self).sink() == old(self).sink(),
    {
        let a_out = graph_node(&self.graph, from).outputs;
        let mut i: usize = 0;
        while i < a_out
            invariant
                self.wf(),
                i <= a_out,
                a_out == old(self).nodes()[from as int].outputs,
                from < old(self).nodes().len(),
                to < old(self).nodes().len(),
                a_out == old(self).nodes()[to as int].inputs,
                old(self).edges().len() + a_out <= u32::MAX,
                self.nodes() == old(self).nodes(),
                self.edges() == old(self).edges() + Seq::new(
                    i as nat,
                    |k: int| EdgeSpec { from, output: k as usize, to, input: k as usize },
                ),
                self.source() == old(self).source(),
                self.sink() == old(self).sink(),
            decreases a_out - i,
        {
            self.push_edge(EdgeSpec { from, output: i, to, input: i });
            assert(self.edges() =~= old(self).edges() + Seq::new(
                (i + 1) as nat,
                |k: int| EdgeSpec { from, output: k as usize, to, input: k as usize },
            ));
            i += 1;
        }
    }

    /// Connects output port `output` of `from` to input port `input` of `to`.
    pub fn edge(&mut self, from: usize, to: usize, output: usize, input: usize)
        requires
            old(self).wf(),
            edge_valid(old(self).nodes(), EdgeSpec { from, output, to, input }),
            old(self).edges().len() < u32::MAX,
        ensures
            final(self).wf(),
            final(self).nodes() == old(self).nodes(),
            final(self).edges() == old(self).edges().push(EdgeSpec { from, output, to, input }),
            final(self).source() == old(self).source(),
            final(self).sink() == old(self).sink(),
    {
        self.push_edge(EdgeSpec { from, output, to, input });
    }

    /// Connects output port `input` of `from` to input port 0 of `to`.
    pub fn to_0(&mut self, from: usize, to: usize, input: usize)
        requires
            old(self).wf(),
            edge_valid(old(self).nodes(), EdgeSpec { from, output: input, to, input: 0 }),
            old(self).edges().len() < u32::MAX,
        ensures
            final(self).wf(),
            final(self).nodes() == old(self).nodes(),
            final(self).edges() == old(self).edges().push(
                EdgeSpec { from, output: input, to, input: 0 },
            ),
            final(self).source() == old(self).source(),
            final(self).sink() == old(self).sink(),
    {
        self.push_edge(EdgeSpec { from, output: input, to, input: 0 });
    }

    /// Connects output port 0 of `from` to input port `output` of `to`.
    pub fn from_0(&mut self, from: usize, to: usize, output: usize)
        requires
            old(self).wf(),
            edge_valid(old(self).nodes(), EdgeSpec { from, output: 0, to, input: output }),
            old(self).edges().len() < u32::MAX,
        ensures
            final(self).wf(),
            final(self).nodes() == old(self).nodes(),
            final(self).edges() == old(self).edges().push(
                EdgeSpec { from, output: 0, to, input: output },
            ),
            final(self).source() == old(self).source(),
            final(self).sink() == old(self).sink(),
    {
        self.push_edge(EdgeSpec { from, output: 0, to, input: output });
    }

    /// Builds the graph; it fails when the nodes upstream of the sink hold a
    /// cycle.
    pub fn build(self) -> (r: Result<NodeGraph, GraphError>)
        requires
            self.wf(),
            self.source() matches Some(s) && s < self.nodes().len(),
            self.sink() matches Some(t) && t < self.nodes().len(),
        ensures
            r is Ok <==> acyclic_upstream(self.edges(), self.sink().unwrap() as int),
            r is Err ==> r == Err::<NodeGraph, GraphError>(GraphError::Cycle),
            r matches Ok(g) ==> {
                &&& g.wf()
                &&& g.nodes() == self.nodes()
                &&& g.edges() == self.edges()
                &&& g.source() == self.source().unwrap()
                &&& g.sink() == self.sink().unwrap()
            },
    {
        let source = self.source.unwrap();
        let sink = self.sink.unwrap();
        NodeGraph::from_graph(self.graph, source, sink)
    }
}

/// A built audio graph: its wiring, the order in which its nodes run, and
/// the weight that placed each node in that order.
pub struct NodeGraph {
    inputs: usize,
    outputs: usize,
    source: usize,
    sink: usize,
    graph: AudioGraph,
    execution_order: Vec<usize>,
    levels: Vec<usize>,
    inbound: Vec<Vec<EdgeSpec>>,
}

impl NodeGraph {
    pub closed spec fn nodes(&self) -> Seq<NodeSpec> {
        graph_nodes(self.graph)
    }

    pub closed spec fn edges(&self) -> Seq<EdgeSpec> {
        graph_edges(self.graph)
    }

    pub closed spec fn source(&self) -> usize {
        self.source
    }

    pub closed spec fn sink(&self) -> usize {
        self.sink
    }

    /// The order in which the nodes run.
    pub closed spec fn order(&self) -> Seq<usize> {
        self.execution_order@
    }

    /// Each node's weight: one more than its heaviest predecessor.
    pub closed spec fn levels(&self) -> Seq<usize> {
        self.levels@
    }

    pub closed spec fn spec_inputs(&self) -> usize {
        self.inputs
    }

    pub closed spec fn spec_outputs(&self) -> usize {
        self.outputs
    }

    /// Each node's list of incoming edges matches the wiring.
    pub closed spec fn routing_ok(&self) -> bool {
        &&& self.inbound@.len() == self.nodes().len()
        &&& forall|v: int|
            0 <= v < self.nodes().len() ==> (#[trigger] self.inbound@[v])@ == edges_into(
                self.edges(),
                v,
            )
    }

    pub open spec fn wf(&self) -> bool {
        &&& topology_wf(self.nodes(), self.edges())
        &&& self.source() < self.nodes().len()
        &&& self.sink() < self.nodes().len()
        &&& self.spec_inputs() == self.nodes()[self.source() as int].inputs
        &&& self.spec_outputs() == self.nodes()[self.sink() as int].outputs
        &&& schedule_ok(
            self.edges(),
            self.nodes().len(),
            self.sink() as int,
            self.order(),
            self.levels(),
        )
        &&& self.routing_ok()
    }

    fn compute_schedule(g: &AudioGraph, sink: usize) -> (r: Result<(Vec<usize>, Vec<usize>), GraphError>)
        requires
            topology_wf(graph_nodes(*g), graph_edges(*g)),
            sink < graph_nodes(*g).len(),
        ensures
            r is Ok <==> acyclic_upstream(graph_edges(*g), sink as int),
            r is Err ==> r == Err::<(Vec<usize>, Vec<usize>), GraphError>(GraphError::Cycle),
            r matches Ok((order, levels)) ==> schedule_ok(
                graph_edges(*g),
                graph_nodes(*g).len(),
                sink as int,
                order@,
                levels@,
            ),
    {
        let mark = mark_upstream(g, sink);
        match assign_levels(g, sink, &mark) {
            None => Err(GraphError::Cycle),
            Some(levels) => {
                let order = order_by_level(&mark, &levels);
                proof {
                    let edges = graph_edges(*g);
                    let n = graph_nodes(*g).len();
                    assert forall|v: int|
                        0 <= v < n && #[trigger] upstream(edges, sink as int).contains(v) implies levels@[v]
                        == pred_depth(edges, levels@, v, edges.len() as int) by {
                        assert(mark@[v]);
                    }
                    assert forall|i: int| 0 <= i < order@.len() implies #[trigger] order@[i] < n
                        && upstream(edges, sink as int).contains(order@[i] as int) by {
                        assert(mark@[order@[i] as int]);
                    }
                    assert forall|v: int| 0 <= v < n && upstream(edges, sink as int).contains(v) implies order@.contains(
                        v as usize,
                    ) by {
                        assert(mark@[v]);
                    }
                }
                Ok((order, levels))
            },
        }
    }

    fn inbound_of(g: &AudioGraph) -> (r: Vec<Vec<EdgeSpec>>)
        requires
            topology_wf(graph_nodes(*g), graph_edges(*g)),
        ensures
            r@.len() == graph_nodes(*g).len(),
            forall|v: int|
                0 <= v < r@.len() ==> (#[trigger] r@[v])@ == edges_into(graph_edges(*g), v),
    {
        let ghost edges = graph_edges(*g);
        let n = graph_node_count(g);
        let m = graph_edge_count(g);
        let mut r: Vec<Vec<EdgeSpec>> = Vec::new();
        let mut v: usize = 0;
        while v < n
            invariant
                topology_wf(graph_nodes(*g), edges),
                edges == graph_edges(*g),
                n == graph_nodes(*g).len(),
                m == edges.len(),
                v <= n,
                r@.len() == v,
                forall|w: int| 0 <= w < v ==> (#[trigger] r@[w])@ == edges_into(edges, w),
            decreases n - v,
        {
            let mut ins: Vec<EdgeSpec> = Vec::new();
            let mut j: usize = 0;
            while j < m
                invariant
                    topology_wf(graph_nodes(*g), edges),
                    edges == graph_edges(*g),
                    m == edges.len(),
                    j <= m,
                    ins@ == edges_into(edges.take(j as int), v as int),
                decreases m - j,
            {
                let e = graph_edge(g, j);
                assert(edges.take(j + 1).drop_last() =~= edges.take(j as int));
                if e.to == v {
                    ins.push(e);
                }
                j += 1;
            }
            assert(edges.take(m as int) =~= edges);
            r.push(ins);
            v += 1;
        }
        r
    }

    /// Builds the graph over `graph` and schedules it; it fails when the
    /// nodes upstream of `sink` hold a cycle.
    pub(crate) fn from_graph(graph: AudioGraph, source: usize, sink: usize) -> (r: Result<NodeGraph, GraphError>)
        requires
            topology_wf(graph_nodes(graph), graph_edges(graph)),
            source < graph_nodes(graph).len(),
            sink < graph_nodes(graph).len(),
        ensures
            r is Ok <==> acyclic_upstream(graph_edges(graph), sink as int),
            r is Err ==> r == Err::<NodeGraph, GraphError>(GraphError::Cycle),
            r matches Ok(g) ==> {
                &&& g.wf()
                &&& g.nodes() == graph_nodes(graph)
                &&& g.edges() == graph_edges(graph)
                &&& g.source() == source
                &&& g.sink() == sink
            },
    {
        let inputs = graph_node(&graph, source).inputs;
        let outputs = graph_node(&graph, sink).outputs;
        match Self::compute_schedule(&graph, sink) {
            Err(e) => Err(e),
            Ok((execution_order, levels)) => {
                let inbound = Self::inbound_of(&graph);
                Ok(NodeGraph { inputs, outputs, source, sink, graph, execution_order, levels, inbound })
            },
        }
    }

    /// Schedules the graph anew. The wiring has not changed, so neither do
    /// the order nor the weights of the upstream nodes.
    pub fn update_execution_order(&mut self) -> (r: Result<(), GraphError>)
        requires
            old(self).wf(),
        ensures
            r is Ok,
            final(self).wf(),
            final(self).nodes() == old(self).nodes(),
            final(self).edges() == old(self).edges(),
            final(self).source() == old(self).source(),
            final(self).sink() == old(self).sink(),
            final(self).spec_inputs() == old(self).spec_inputs(),
            final(self).spec_outputs() == old(self).spec_outputs(),
            final(self).order() == old(self).order(),
            forall|v: int|
                0 <= v < old(self).nodes().len() && #[trigger] upstream(old(self).edges(), old(self).sink() as int).contains(v)
                    ==> final(self).levels()[v] == old(self).levels()[v],
            schedule_ok(
                final(self).edges(),
                final(self).nodes().len(),
                final(self).sink() as int,
                final(self).order(),
                final(self).levels(),
            ),
    {
        proof {
            lemma_schedule_acyclic(self.edges(), self.nodes().len(), self.sink() as int, self.order(), self.levels());
        }
        match Self::compute_schedule(&self.graph, self.sink) {
            Err(e) => Err(e),
            Ok((order, levels)) => {
                proof {
                    let edges = self.edges();
                    let n = self.nodes().len();
                    let sink = self.sink() as int;
                    let l0 = self.levels();
                    assert forall|j: int| 0 <= j < edges.len() implies (#[trigger] edges[j]).from < n && edges[j].to < n by {
                        assert(edge_valid(self.nodes(), edges[j]));
                    }
                    lemma_levels_unique(edges, n, sink, l0, levels@);
                    assert forall|a: int, b: int| 0 <= a < b < order@.len() implies key_lt(
                        l0,
                        #[trigger] order@[a],
                        #[trigger] order@[b],
                    ) by {
                        assert(key_lt(levels@, order@[a], order@[b]));
                        assert(upstream(edges, sink).contains(order@[a] as int));
                        assert(upstream(edges, sink).contains(order@[b] as int));
                    }
                    assert forall|x: usize| self.order().contains(x) <==> order@.contains(x) by {
                        if self.order().contains(x) {
                            let i = choose|i: int| 0 <= i < self.order().len() && self.order()[i] == x;
                            assert(upstream(edges, sink).contains(self.order()[i] as int));
                        }
                        if order@.contains(x) {
                            let i = choose|i: int| 0 <= i < order@.len() && order@[i] == x;
                            assert(upstream(edges, sink).contains(order@[i] as int));
                        }
                    }
                    lemma_sorted_unique(l0, self.order(), order@);
                }
                self.execution_order = order;
                self.levels = levels;
                Ok(())
            },
        }
    }

    pub fn inputs(&self) -> (r: usize)
        ensures
            r == self.spec_inputs(),
    {
        self.inputs
    }

    pub fn outputs(&self) -> (r: usize)
        ensures
            r == self.spec_outputs(),
    {
        self.outputs
    }

    pub fn source_node(&self) -> (r: usize)
        ensures
            r == self.source(),
    {
        self.source
    }

    pub fn sink_node(&self) -> (r: usize)
        ensures
            r == self.sink(),
    {
        self.sink
    }

    pub fn node_count(&self) -> (r: usize)
        ensures
            r == self.nodes().len(),
    {
        graph_node_count(&self.graph)
    }

    pub fn node(&self, i: usize) -> (r: NodeSpec)
        requires
            self.wf(),
            i < self.nodes().len(),
        ensures
            r == self.nodes()[i as int],
    {
        graph_node(&self.graph, i)
    }

    /// The nodes in the order in which they run.
    pub fn execution_order(&self) -> (r: &Vec<usize>)
        ensures
            r@ == self.order(),
    {
        &self.execution_order
    }

    /// The input samples of `node` for this tick: the graph's own `input`
    /// for the source; for any other node, each input port takes what the
    /// last edge into it (in the order of adding) carries out of the
    /// outputs `cache` holds for the edge's source node, and an unconnected
    /// port takes `zero`.
    pub fn gather<T: Copy>(&self, node: usize, input: &Vec<T>, cache: &Vec<Vec<T>>, zero: T) -> (r: Vec<T>)
        requires
            self.wf(),
            node < self.nodes().len(),
            cache@.len() == self.nodes().len(),
            forall|j: int|
                0 <= j < self.edges().len() && (#[trigger] self.edges()[j]).to == node ==> cache@[self.edges()[j].from as int]@.len()
                    == self.nodes()[self.edges()[j].from as int].outputs,
        ensures
            node == self.source() ==> r@ == input@,
            node != self.source() ==> r@.len() == self.nodes()[node as int].inputs && forall|k: int|
                0 <= k < r@.len() ==> #[trigger] r@[k] == routed(edges_into(self.edges(), node as int), cache@, zero, k),
    {
        if node == self.source {
            let mut r: Vec<T> = Vec::new();
            let mut i: usize = 0;
            while i < input.len()
                invariant
                    i <= input@.len(),
                    r@ == input@.take(i as int),
                decreases input@.len() - i,
            {
                r.push(input[i]);
                assert(input@.take(i + 1) =~= input@.take(i as int).push(input@[i as int]));
                i += 1;
            }
            assert(input@.take(input@.len() as int) =~= input@);
            return r;
        }
        let n_in = graph_node(&self.graph, node).inputs;
        let ins = &self.inbound[node];
        let ghost es = ins@;
        proof {
            lemma_edges_into_members(self.edges(), node as int);
        }
        let mut buf: Vec<T> = Vec::new();
        let mut i: usize = 0;
        while i < n_in
            invariant
                i <= n_in,
                buf@.len() == i,
                forall|k: int| 0 <= k < i ==> buf@[k] == zero,
            decreases n_in - i,
        {
            buf.push(zero);
            i += 1;
        }
        let mut j: usize = 0;
        while j < ins.len()
            invariant
                self.wf(),
                node < self.nodes().len(),
                n_in == self.nodes()[node as int].inputs,
                es == ins@,
                es == edges_into(self.edges(), node as int),
                forall|x: int|
                    0 <= x < es.len() ==> #[trigger] self.edges().contains(es[x]) && es[x].to == node,
                cache@.len() == self.nodes().len(),
                forall|jj: int|
                    0 <= jj < self.edges().len() && (#[trigger] self.edges()[jj]).to == node ==> cache@[self.edges()[jj].from as int]@.len()
                        == self.nodes()[self.edges()[jj].from as int].outputs,
                j <= es.len(),
                buf@.len() == n_in,
                forall|k: int| 0 <= k < n_in ==> #[trigger] buf@[k] == routed(es.take(j as int), cache@, zero, k),
            decreases es.len() - j,
        {
            let e = ins[j];
            proof {
                assert(self.edges().contains(es[j as int]));
                let x = choose|x: int| 0 <= x < self.edges().len() && self.edges()[x] == e;
                assert(edge_valid(self.nodes(), self.edges()[x]));
                assert(es.take(j + 1).drop_last() =~= es.take(j as int));
            }
            let val = cache[e.from][e.output];
            buf.set(e.input, val);
            j += 1;
        }
        assert(es.take(es.len() as int) =~= es);
        buf
    }
}

/// A schedule weighs each upstream node above its predecessors, so the
/// upstream part of the graph has no cycle.
pub proof fn lemma_schedule_acyclic(
    edges: Seq<EdgeSpec>,
    n: nat,
    sink: int,
    order: Seq<usize>,
    levels: Seq<usize>,
)
    requires
        0 <= sink < n,
        forall|j: int| 0 <= j < edges.len() ==> (#[trigger] edges[j]).from < n && edges[j].to < n,
        schedule_ok(edges, n, sink, order, levels),
    ensures
        acyclic_upstream(edges, sink),
{
    let rank = |v: int| levels[v] as nat;
    assert forall|j: int|
        0 <= j < edges.len() && upstream(edges, sink).contains(#[trigger] edges[j].to as int) implies rank(
        edges[j].from as int,
    ) < rank(edges[j].to as int) by {
        let t = edges[j].to as int;
        assert(upstream(edges, sink).contains(t));
        lemma_depth_above_preds(edges, levels, t, edges.len() as int, j);
    }
    assert(ranks_upstream(edges, sink, rank));
}

/// Every node of a built graph runs strictly after each of its direct
/// predecessors: when the target of an edge is scheduled, so is its source,
/// and at an earlier position.
pub proof fn lemma_predecessors_run_first(g: &NodeGraph)
    requires
        g.wf(),
    ensures
        forall|j: int, q: int|
            0 <= j < g.edges().len() && 0 <= q < g.order().len() && #[trigger] g.order()[q]
                == #[trigger] g.edges()[j].to ==> g.order().contains(g.edges()[j].from),
        forall|j: int, p: int, q: int|
            0 <= j < g.edges().len() && 0 <= p < g.order().len() && 0 <= q < g.order().len()
                && #[trigger] g.order()[p] == g.edges()[j].from && #[trigger] g.order()[q]
                == #[trigger] g.edges()[j].to ==> p < q,
{
    let edges = g.edges();
    let order = g.order();
    let levels = g.levels();
    let sink = g.sink() as int;
    let n = g.nodes().len();
    assert forall|j: int| 0 <= j < edges.len() implies (#[trigger] edges[j]).from < n && edges[j].to < n by {
        assert(edge_valid(g.nodes(), edges[j]));
    }
    assert forall|j: int, q: int|
        0 <= j < edges.len() && 0 <= q < order.len() && #[trigger] order[q] == #[trigger] edges[j].to implies
            upstream(edges, sink).contains(edges[j].from as int) && levels[edges[j].from as int]
                < levels[edges[j].to as int] by {
        let t = edges[j].to as int;
        let u = edges[j].from as int;
        assert(upstream(edges, sink).contains(order[q] as int));
        assert forall|s: Set<int>| #[trigger] crate::schedule::pred_closed(edges, s) && s.contains(sink) implies s.contains(u) by {
            assert(s.contains(t));
        }
        assert(upstream(edges, sink).contains(u));
        assert(levels[t] == pred_depth(edges, levels, t, edges.len() as int));
        lemma_depth_above_preds(edges, levels, t, edges.len() as int, j);
    }
    assert forall|j: int, q: int|
        0 <= j < edges.len() && 0 <= q < order.len() && #[trigger] order[q] == #[trigger] edges[j].to implies
            order.contains(edges[j].from) by {
        let u = edges[j].from as int;
        assert(upstream(edges, sink).contains(u));
        assert(order.contains(u as usize));
    }
    assert forall|j: int, p: int, q: int|
        0 <= j < edges.len() && 0 <= p < order.len() && 0 <= q < order.len()
            && #[trigger] order[p] == edges[j].from && #[trigger] order[q] == #[trigger] edges[j].to implies p < q by {
        assert(levels[edges[j].from as int] < levels[edges[j].to as int]);
        if q < p {
            assert(key_lt(levels, order[q], order[p]));
        }
    }
}

} // verus!
