use soundmaker::graph::{GraphBuilder, GraphError, NodeGraph};
use soundmaker::topology::NodeSpec;

fn spec(inputs: usize, outputs: usize) -> NodeSpec {
    NodeSpec { inputs, outputs }
}

fn diamond() -> NodeGraph {
    let mut b = GraphBuilder::new();
    let src = b.add_node(spec(0, 1));
    let a = b.add_node(spec(1, 1));
    let c = b.add_node(spec(1, 1));
    let sink = b.add_node(spec(2, 1));
    b.add_edge((src, 0), (a, 0));
    b.add_edge((src, 0), (c, 0));
    b.add_edge((a, 0), (sink, 0));
    b.add_edge((c, 0), (sink, 1));
    b.set_in(src).set_out(sink).build().unwrap()
}

#[test]
fn diamond_runs_by_weight() {
    let g = diamond();
    assert_eq!(g.execution_order(), &vec![0, 1, 2, 3]);
    assert_eq!(g.inputs(), 0);
    assert_eq!(g.outputs(), 1);
}

#[test]
fn order_follows_edges_not_indices() {
    let mut b = GraphBuilder::new();
    let sink = b.add_node(spec(1, 1));
    let mid = b.add_node(spec(1, 1));
    let src = b.add_node(spec(0, 1));
    b.add_edge((src, 0), (mid, 0));
    b.add_edge((mid, 0), (sink, 0));
    let g = b.set_in(src).set_out(sink).build().unwrap();
    assert_eq!(g.execution_order(), &vec![2, 1, 0]);
}

#[test]
fn weight_is_longest_path() {
    // src -> x -> y -> sink and src -> sink: the sink waits for the long path.
    let mut b = GraphBuilder::new();
    let src = b.add_node(spec(0, 1));
    let x = b.add_node(spec(1, 1));
    let y = b.add_node(spec(1, 1));
    let sink = b.add_node(spec(2, 1));
    b.add_edge((src, 0), (sink, 1));
    b.add_edge((y, 0), (sink, 0));
    b.add_edge((x, 0), (y, 0));
    b.add_edge((src, 0), (x, 0));
    let g = b.set_in(src).set_out(sink).build().unwrap();
    assert_eq!(g.execution_order(), &vec![0, 1, 2, 3]);
}

#[test]
fn nodes_not_upstream_do_not_run() {
    let mut b = GraphBuilder::new();
    let src = b.add_node(spec(0, 1));
    let sink = b.add_node(spec(1, 1));
    let tail = b.add_node(spec(1, 1));
    let lone = b.add_node(spec(0, 1));
    b.add_edge((src, 0), (sink, 0));
    b.add_edge((sink, 0), (tail, 0));
    let _ = lone;
    let g = b.set_in(src).set_out(sink).build().unwrap();
    assert_eq!(g.execution_order(), &vec![0, 1]);
}

#[test]
fn cycle_upstream_is_refused() {
    let mut b = GraphBuilder::new();
    let a = b.add_node(spec(1, 1));
    let c = b.add_node(spec(1, 1));
    let sink = b.add_node(spec(1, 1));
    b.add_edge((a, 0), (c, 0));
    b.add_edge((c, 0), (a, 0));
    b.add_edge((c, 0), (sink, 0));
    let r = b.set_in(a).set_out(sink).build();
    assert!(matches!(r, Err(GraphError::Cycle)));
}

#[test]
fn self_loop_on_sink_is_refused() {
    let mut b = GraphBuilder::new();
    let sink = b.add_node(spec(1, 1));
    b.add_edge((sink, 0), (sink, 0));
    let r = b.set_in(sink).set_out(sink).build();
    assert!(matches!(r, Err(GraphError::Cycle)));
}

#[test]
fn cycle_downstream_is_ignored() {
    let mut b = GraphBuilder::new();
    let src = b.add_node(spec(0, 1));
    let sink = b.add_node(spec(1, 1));
    let p = b.add_node(spec(2, 1));
    let q = b.add_node(spec(1, 1));
    b.add_edge((src, 0), (sink, 0));
    b.add_edge((sink, 0), (p, 0));
    b.add_edge((p, 0), (q, 0));
    b.add_edge((q, 0), (p, 1));
    let g = b.set_in(src).set_out(sink).build().unwrap();
    assert_eq!(g.execution_order(), &vec![0, 1]);
}

#[test]
fn update_execution_order_is_stable() {
    let mut g = diamond();
    let before = g.execution_order().clone();
    assert!(g.update_execution_order().is_ok());
    assert_eq!(g.execution_order(), &before);
}

#[test]
fn gather_routes_ports_and_zero_fills() {
    let g = diamond();
    let cache: Vec<Vec<f64>> = vec![vec![0.5], vec![0.25], vec![-1.0], vec![0.0]];
    let r = g.gather(3, &vec![], &cache, 0.0);
    assert_eq!(r, vec![0.25, -1.0]);
    let src = g.gather(0, &vec![9.0], &cache, 0.0);
    assert_eq!(src, vec![9.0]);
}

#[test]
fn gather_last_edge_wins_and_open_port_is_zero() {
    let mut b = GraphBuilder::new();
    let a = b.add_node(spec(0, 2));
    let c = b.add_node(spec(0, 1));
    let sink = b.add_node(spec(3, 1));
    b.add_edge((a, 1), (sink, 0));
    b.add_edge((c, 0), (sink, 0));
    b.add_edge((a, 0), (sink, 2));
    let g = b.set_in(a).set_out(sink).build().unwrap();
    let cache: Vec<Vec<i32>> = vec![vec![10, 11], vec![20], vec![0]];
    assert_eq!(g.gather(sink, &vec![], &cache, -7), vec![20, -7, 10]);
}

#[test]
fn connect_and_helpers_wire_ports() {
    let mut b = GraphBuilder::new();
    let src = b.add(spec(0, 2));
    let pass = b.add_node(spec(2, 2));
    let sink = b.add_node(spec(3, 1));
    b.connect(src, pass);
    b.edge(pass, sink, 1, 0);
    b.to_0(pass, sink, 0);
    let k = b.add_const(sink, 2);
    b.from_0(k, sink, 1);
    let g = b.set_in(src).set_out(sink).build().unwrap();
    assert_eq!(g.node_count(), 4);
    assert_eq!(g.node(k), spec(0, 1));
    assert_eq!(g.execution_order(), &vec![0, 3, 1, 2]);
    let cache: Vec<Vec<f64>> = vec![vec![1.0, 2.0], vec![3.0, 4.0], vec![0.0], vec![5.0]];
    assert_eq!(g.gather(pass, &vec![], &cache, 0.0), vec![1.0, 2.0]);
    assert_eq!(g.gather(sink, &vec![], &cache, 0.0), vec![3.0, 5.0, 5.0]);
}
