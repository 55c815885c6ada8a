use eggmock::{
    send, transfer, ComputedNetworkWithBackwardEdges, Family, FlatNetwork, Gate, Id, MappedReceiver,
    Network, NetworkWithBackwardEdges, Node, NodeKind, Receiver, Signal, reachable_nodes,
};

fn sig(i: u32) -> Signal {
    Signal::new(Id(i), false)
}

fn maj_network() -> FlatNetwork {
    let mut b = FlatNetwork::new();
    let a = b.create_node(Node::input(0)).unwrap();
    let c = b.create_node(Node::input(1)).unwrap();
    let d = b.create_node(Node::input(2)).unwrap();
    let m = b.create_node(Node::gate(Gate::Maj, vec![a, c, d])).unwrap();
    b.done(&[m])
}

#[test]
fn shared_node_is_created_once() {
    // x = and(i0, i1); out0 = and(x, !x); out1 = x
    let mut b = FlatNetwork::new();
    let i0 = b.create_node(Node::input(0)).unwrap();
    let i1 = b.create_node(Node::input(1)).unwrap();
    let x = b.create_node(Node::gate(Gate::And, vec![i0, i1])).unwrap();
    let g = b.create_node(Node::gate(Gate::And, vec![x, x.invert()])).unwrap();
    let src = b.done(&[g, x]);
    let mut dst = FlatNetwork::new();
    let outs = transfer(&src, &mut dst).unwrap();
    assert_eq!(dst.len(), 4);
    assert_eq!(outs.len(), 2);
    assert_eq!(outs[1], sig(2));
    assert_eq!(dst.nodes[3], Node::gate(Gate::And, vec![sig(2), sig(2).invert()]));
}

#[test]
fn unreachable_nodes_are_not_created() {
    let mut b = FlatNetwork::new();
    let i0 = b.create_node(Node::input(0)).unwrap();
    let _unused = b.create_node(Node::input(7)).unwrap();
    let src = b.done(&[i0.invert()]);
    let out = send(&src, FlatNetwork::new()).unwrap();
    assert_eq!(out.len(), 1);
    assert_eq!(out.nodes[0], Node::input(0));
    assert_eq!(out.outputs, vec![sig(0).invert()]);
}

#[test]
fn shared_leaf_is_created_once() {
    let mut b = FlatNetwork::new();
    let i0 = b.create_node(Node::input(0)).unwrap();
    let g1 = b.create_node(Node::gate(Gate::And, vec![i0, i0])).unwrap();
    let g2 = b.create_node(Node::gate(Gate::Xor, vec![g1, i0])).unwrap();
    let src = b.done(&[g2, i0]);
    let out = send(&src, FlatNetwork::new()).unwrap();
    assert_eq!(out.len(), 3);
}

#[test]
fn empty_network_transfers_to_empty_network() {
    let src = FlatNetwork::new().done(&[]);
    let out = send(&src, FlatNetwork::new()).unwrap();
    assert_eq!(out.len(), 0);
    assert!(out.outputs.is_empty());
}

#[test]
fn round_trip_rebuilds_the_same_network() {
    let a = maj_network();
    let b = send(&a, FlatNetwork::new()).unwrap();
    let c = send(&b, FlatNetwork::new()).unwrap();
    assert_eq!(c.nodes, a.nodes);
    assert_eq!(c.outputs, a.outputs);
}

#[test]
fn round_trip_keeps_output_order_and_inversion() {
    let mut b = FlatNetwork::new();
    let i0 = b.create_node(Node::input(0)).unwrap();
    let i1 = b.create_node(Node::input(1)).unwrap();
    let f = b.create_node(Node::constant_false()).unwrap();
    let g = b.create_node(Node::gate(Gate::Or, vec![i1.invert(), f])).unwrap();
    let a = b.done(&[g.invert(), i0, f.invert()]);
    let b2 = send(&a, FlatNetwork::new()).unwrap();
    let c = send(&b2, FlatNetwork::new()).unwrap();
    assert_eq!(c.outputs.len(), 3);
    assert!(c.outputs[0].is_inverted());
    assert!(!c.outputs[1].is_inverted());
    assert!(c.outputs[2].is_inverted());
    let top = &c.nodes[c.outputs[0].node_id().0 as usize];
    assert_eq!(top.kind, NodeKind::Gate(Gate::Or));
    assert!(top.inputs[0].is_inverted());
    assert_eq!(c.nodes[top.inputs[0].node_id().0 as usize], Node::input(1));
    assert_eq!(c.nodes[top.inputs[1].node_id().0 as usize], Node::constant_false());
    assert_eq!(c.nodes[c.outputs[1].node_id().0 as usize], Node::input(0));
}

#[test]
fn constant_true_is_an_inverted_false() {
    let mut b = FlatNetwork::new();
    let f = b.create_node(Node::constant_false()).unwrap();
    let src = b.done(&[f.invert()]);
    let out = send(&src, FlatNetwork::new()).unwrap();
    assert_eq!(out.len(), 1);
    assert_eq!(out.nodes[0], Node::constant_false());
    assert_eq!(out.outputs, vec![sig(0).invert()]);
}

#[test]
fn deep_chain_transfers_without_recursion() {
    let n: u32 = 100_000;
    let mut b = FlatNetwork::new();
    let mut prev = b.create_node(Node::input(0)).unwrap();
    let other = b.create_node(Node::input(1)).unwrap();
    for _ in 0..n {
        prev = b.create_node(Node::gate(Gate::And, vec![prev.invert(), other])).unwrap();
    }
    let src = b.done(&[prev]);
    let out = send(&src, FlatNetwork::new()).unwrap();
    assert_eq!(out.len(), n as usize + 2);
    let nodes = reachable_nodes(&src);
    assert_eq!(nodes.len(), n as usize + 2);
}

#[test]
fn reachable_nodes_lists_each_node_once() {
    let src = maj_network();
    let nodes = reachable_nodes(&src);
    assert_eq!(nodes.len(), 4);
    let mut ids: Vec<u32> = nodes.iter().map(|(id, _)| id.0).collect();
    ids.sort();
    assert_eq!(ids, vec![0, 1, 2, 3]);
    for (id, node) in &nodes {
        assert_eq!(node, &src.node(*id));
    }
}

#[test]
fn fanout_lists_gate_once_for_repeated_input() {
    let mut b = FlatNetwork::new();
    let x = b.create_node(Node::input(0)).unwrap();
    let g = b.create_node(Node::gate(Gate::And, vec![x, x.invert()])).unwrap();
    let h = b.create_node(Node::gate(Gate::Xor, vec![g, x])).unwrap();
    let src = b.done(&[h]);
    let idx = ComputedNetworkWithBackwardEdges::new(&src);
    let mut users = idx.node_outputs(x.node_id());
    users.sort_by_key(|i| i.0);
    assert_eq!(users, vec![g.node_id(), h.node_id()]);
    assert_eq!(idx.node_outputs(g.node_id()), vec![h.node_id()]);
    assert!(idx.node_outputs(h.node_id()).is_empty());
    assert_eq!(idx.leafs(), vec![x.node_id()]);
}

#[test]
fn mapped_receiver_maps_the_result() {
    let src = maj_network();
    let count = send(&src, MappedReceiver::new(FlatNetwork::new(), |n: FlatNetwork| n.len())).unwrap();
    assert_eq!(count, 4);
}

#[test]
fn family_gate_tables() {
    assert_eq!(Family::Mig.gates(), vec![Gate::Maj]);
    assert_eq!(Family::Aig.gates(), vec![Gate::And]);
    assert_eq!(Family::Xag.gates(), vec![Gate::And, Gate::Xor]);
    assert_eq!(Family::Xmg.gates(), vec![Gate::Xor, Gate::Maj]);
    assert_eq!(Family::Aoig.gates().len(), 12);
    assert!(Family::Aoig.has_gate(Gate::Or16));
    assert!(!Family::Aig.has_gate(Gate::Maj));
    assert_eq!(Family::Mig.typename(), "mig");
    assert_eq!(Family::Xag.mockturtle_typename(), "xag_network");
    assert_eq!(Family::Aig.mockturtle_include(), "mockturtle/networks/aig.hpp");
}

#[test]
fn gate_descriptors() {
    assert_eq!(Gate::Maj.fanin(), 3);
    assert_eq!(Gate::And.fanin(), 2);
    assert_eq!(Gate::Or32.fanin(), 32);
    assert_eq!(Gate::And8.name(), "and8");
    assert_eq!(Gate::And.mockturtle_create(), "create_and");
    assert_eq!(Gate::Or4.mockturtle_create(), "create_nary_or4");
    assert_eq!(Gate::Xor.mockturtle_is(), "is_xor");
    assert_eq!(Gate::variants().len(), 14);
    assert_eq!(NodeKind::Gate(Gate::Maj).fanin(), 3);
    assert_eq!(NodeKind::Input(3).fanin(), 0);
}

#[test]
fn node_helpers() {
    let n = Node::gate(Gate::And, vec![sig(0), sig(1)]);
    assert!(!n.is_leaf());
    assert!(n.is_well_formed());
    assert_eq!(n.inputs(), &[sig(0), sig(1)]);
    assert_eq!(n.duplicate(), n);
    assert!(Node::input(2).is_leaf());
    let bad = Node { kind: NodeKind::Gate(Gate::Maj), inputs: vec![sig(0)] };
    assert!(!bad.is_well_formed());
}

#[test]
fn leaves_of_a_network() {
    let mut b = FlatNetwork::new();
    let f = b.create_node(Node::constant_false()).unwrap();
    let i = b.create_node(Node::input(0)).unwrap();
    let g = b.create_node(Node::gate(Gate::Or, vec![f.invert(), i])).unwrap();
    let src = b.done(&[g]);
    let idx = ComputedNetworkWithBackwardEdges::new(&src);
    let mut leaves = idx.leafs();
    leaves.sort_by_key(|i| i.0);
    assert_eq!(leaves, vec![f.node_id(), i.node_id()]);
    assert_eq!(idx.node_outputs(f.node_id()), vec![g.node_id()]);
}

#[test]
fn constant_creation_inverts_for_true() {
    let mut b = FlatNetwork::new();
    let t = eggmock::create_constant(&mut b, true).unwrap();
    let f = eggmock::create_constant(&mut b, false).unwrap();
    assert_eq!(t, sig(0).invert());
    assert_eq!(f, sig(1));
    assert_eq!(b.nodes, vec![Node::constant_false(), Node::constant_false()]);
}

#[test]
fn backward_edge_index_reads_as_its_network() {
    let src = maj_network();
    let idx = ComputedNetworkWithBackwardEdges::new(&src);
    let out = send(&idx, FlatNetwork::new()).unwrap();
    assert_eq!(out.nodes, src.nodes);
    assert_eq!(out.outputs, src.outputs);
}
