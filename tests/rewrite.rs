use eggmock::{
    Cost, rewrite_network, send, stream_terms, terms_to_network, text_to_op, AdaptedReceiver, EGraphReceiver,
    FlatNetwork, Gate, Id, Mig, MigRewriterCallback, MigRewriterFFI, MigVariant, Node, NodeKind, Op,
    Receiver, RewriteError, Rule, Signal, TermNode,
};

fn rule(name: &str, lhs: &str, rhs: &str) -> Rule {
    Rule { name: name.to_string(), lhs: lhs.to_string(), rhs: rhs.to_string() }
}

fn commute_rules() -> Vec<Rule> {
    vec![
        rule("commute_1", "(maj ?a ?b ?c)", "(maj ?b ?a ?c)"),
        rule("commute_2", "(maj ?a ?b ?c)", "(maj ?a ?c ?b)"),
    ]
}

fn term(nodes: &[(&str, &[u32])]) -> Vec<TermNode> {
    nodes.iter().map(|(op, ch)| TermNode { op: op.to_string(), children: ch.to_vec() }).collect()
}

fn sig(i: u32) -> Signal {
    Signal::new(Id(i), false)
}

fn maj_network() -> FlatNetwork {
    let mut b = FlatNetwork::new();
    let a = b.create_node(Node::input(0)).unwrap();
    let c = b.create_node(Node::input(1)).unwrap();
    let d = b.create_node(Node::input(2)).unwrap();
    let m = b.create_node(Node::gate(Gate::Maj, vec![a, c, d])).unwrap();
    b.done(&[m])
}

#[test]
fn majority_rewrite_keeps_the_network() {
    let src = maj_network();
    let out = rewrite_network(&src, &commute_rules(), Cost::Size, FlatNetwork::new()).unwrap();
    assert_eq!(out.len(), 4);
    assert_eq!(out.nodes[0], Node::input(0));
    assert_eq!(out.nodes[1], Node::input(1));
    assert_eq!(out.nodes[2], Node::input(2));
    assert_eq!(out.nodes[3], Node::gate(Gate::Maj, vec![sig(0), sig(1), sig(2)]));
    assert_eq!(out.outputs, vec![sig(3)]);
}

#[test]
fn rewrite_without_rules_keeps_inverted_outputs() {
    let mut b = FlatNetwork::new();
    let f = b.create_node(Node::constant_false()).unwrap();
    let i = b.create_node(Node::input(4)).unwrap();
    let g = b.create_node(Node::gate(Gate::And, vec![i.invert(), f.invert()])).unwrap();
    let src = b.done(&[g.invert(), f.invert()]);
    let out = rewrite_network(&src, &Vec::new(), Cost::Size, FlatNetwork::new()).unwrap();
    assert_eq!(out.outputs.len(), 2);
    assert!(out.outputs[0].is_inverted());
    assert!(out.outputs[1].is_inverted());
    assert_eq!(out.nodes[out.outputs[1].node_id().0 as usize], Node::constant_false());
    let top = &out.nodes[out.outputs[0].node_id().0 as usize];
    assert_eq!(top.kind, NodeKind::Gate(Gate::And));
    assert!(top.inputs[0].is_inverted() && top.inputs[1].is_inverted());
}

#[test]
fn double_negation_rule_removes_nots() {
    let mut b = FlatNetwork::new();
    let i = b.create_node(Node::input(0)).unwrap();
    let src = b.done(&[i.invert().invert()]);
    let rules = vec![rule("dneg", "(! (! ?a))", "?a")];
    let out = rewrite_network(&src, &rules, Cost::Size, FlatNetwork::new()).unwrap();
    assert_eq!(out.nodes, vec![Node::input(0)]);
    assert_eq!(out.outputs, vec![sig(0)]);
}

#[test]
fn invalid_rule_is_reported() {
    let src = maj_network();
    let rules = vec![rule("bad", "(maj ?a ?b ?c)", "(maj ?a ?b ?d)")];
    let r = rewrite_network(&src, &rules, Cost::Size, FlatNetwork::new());
    assert!(matches!(r, Err(RewriteError::InvalidRule)));
    let rules = vec![rule("bad", "(maj ?a", "?a")];
    assert!(matches!(rewrite_network(&src, &rules, Cost::Size, FlatNetwork::new()), Err(RewriteError::InvalidRule)));
}

#[test]
fn egraph_receiver_shares_equal_nodes() {
    let mut b = FlatNetwork::new();
    let i0 = b.create_node(Node::input(0)).unwrap();
    let i0b = b.create_node(Node::input(0)).unwrap();
    let g = b.create_node(Node::gate(Gate::And, vec![i0, i0b.invert()])).unwrap();
    let src = b.done(&[g, i0b]);
    let (_graph, roots) = send(&src, EGraphReceiver::new()).unwrap().unwrap();
    assert_eq!(roots.len(), 2);
    // both inputs named 0 land in the same e-class
    assert_eq!(roots[1], 0);
}

#[test]
fn terms_become_a_network() {
    let terms = vec![
        term(&[("0", &[]), ("1", &[]), ("maj", &[0, 1, 1]), ("!", &[2])]),
        term(&[("f", &[]), ("!", &[0])]),
    ];
    let net = terms_to_network(&terms).unwrap();
    assert_eq!(net.nodes.len(), 4);
    assert_eq!(net.nodes[0], Node::input(0));
    assert_eq!(net.nodes[1], Node::input(1));
    assert_eq!(net.nodes[2], Node::gate(Gate::Maj, vec![sig(0), sig(1), sig(1)]));
    assert_eq!(net.nodes[3], Node::constant_false());
    assert_eq!(net.outputs, vec![sig(2).invert(), sig(3).invert()]);
}

#[test]
fn malformed_terms_are_rejected() {
    let bad_op = vec![term(&[("nand", &[])])];
    assert!(matches!(terms_to_network(&bad_op), Err(RewriteError::MalformedTerm)));
    let forward = vec![term(&[("!", &[0])])];
    assert!(matches!(terms_to_network(&forward), Err(RewriteError::MalformedTerm)));
    let arity = vec![term(&[("0", &[]), ("and", &[0])])];
    assert!(matches!(terms_to_network(&arity), Err(RewriteError::MalformedTerm)));
    let empty: Vec<Vec<TermNode>> = vec![vec![]];
    assert!(matches!(terms_to_network(&empty), Err(RewriteError::MalformedTerm)));
}

#[test]
fn operator_texts_round_trip() {
    assert_eq!(text_to_op("!"), Some(Op::Not));
    assert_eq!(text_to_op("f"), Some(Op::Kind(NodeKind::False)));
    assert_eq!(text_to_op("maj"), Some(Op::Kind(NodeKind::Gate(Gate::Maj))));
    assert_eq!(text_to_op("or32"), Some(Op::Kind(NodeKind::Gate(Gate::Or32))));
    assert_eq!(text_to_op("17"), Some(Op::Kind(NodeKind::Input(17))));
    assert_eq!(text_to_op("+17"), Some(Op::Kind(NodeKind::Input(17))));
    assert_eq!(text_to_op("18446744073709551615"), Some(Op::Kind(NodeKind::Input(u64::MAX))));
    assert_eq!(text_to_op("18446744073709551616"), None);
    assert_eq!(text_to_op(""), None);
    assert_eq!(text_to_op("t"), None);
    assert_eq!(eggmock::op_to_text(Op::Kind(NodeKind::Input(305))), "305");
    assert_eq!(eggmock::op_to_text(Op::Kind(NodeKind::Gate(Gate::And16))), "and16");
    assert_eq!(eggmock::op_to_text(Op::Not), "!");
}

#[test]
fn callback_collects_nodes_in_order() {
    let mut cb = MigRewriterCallback::new();
    let a = cb.add_symbol(3);
    let t = cb.add_true([]);
    let f = cb.add_false([]);
    let n = cb.add_not([a]);
    let m = cb.add_maj([a, t, n]);
    cb.mark_roots(&[m, f]);
    assert_eq!((a, t, f, n, m), (0, 1, 2, 3, 4));
    assert_eq!(cb.nodes, vec![Mig::Symbol(3), Mig::True, Mig::False, Mig::Not(0), Mig::Maj(0, 1, 3)]);
    assert_eq!(cb.roots, vec![4, 2]);
}

#[test]
fn streamed_terms_are_numbered_after_existing_nodes() {
    let mut cb = MigRewriterCallback::new();
    cb.add_symbol(9);
    let terms = vec![term(&[("0", &[]), ("!", &[0])]), term(&[("f", &[]), ("1", &[]), ("maj", &[0, 1, 1])])];
    let roots = stream_terms(&terms, &mut cb).unwrap();
    assert_eq!(roots, vec![2, 5]);
    assert_eq!(
        cb.nodes,
        vec![Mig::Symbol(9), Mig::Symbol(0), Mig::Not(1), Mig::False, Mig::Symbol(1), Mig::Maj(3, 4, 4)]
    );
    let bad = vec![term(&[("and", &[])])];
    assert!(matches!(stream_terms(&bad, &mut cb), Err(RewriteError::MalformedTerm)));
}

#[test]
fn mig_session_rewrites_and_marks_roots() {
    let mut session = MigRewriterFFI::new(&commute_rules(), Cost::Size).unwrap();
    let a = session.add_symbol(0).unwrap();
    let b = session.add_symbol(1).unwrap();
    let c = session.add_symbol(2).unwrap();
    let m = session.add_maj(a, b, c).unwrap();
    let n = session.add_not(m).unwrap();
    assert_eq!(session.add_not(99), None);
    let mut cb = MigRewriterCallback::new();
    session.rewrite(&[n], &mut cb).unwrap();
    assert_eq!(cb.nodes.len(), 5);
    assert_eq!(cb.roots, vec![4]);
    let Mig::Not(inner) = cb.nodes[4] else { panic!("root is not a NOT") };
    let Mig::Maj(x, y, z) = cb.nodes[inner as usize] else { panic!("NOT is not over a MAJ") };
    let names: Vec<Mig> = [x, y, z].iter().map(|i| cb.nodes[*i as usize]).collect();
    assert_eq!(names, vec![Mig::Symbol(0), Mig::Symbol(1), Mig::Symbol(2)]);
    // the next session starts empty
    let mut cb2 = MigRewriterCallback::new();
    assert!(matches!(session.rewrite(&[0], &mut cb2), Err(RewriteError::UnknownNode)));
}

#[test]
fn mig_session_constants() {
    let mut session = MigRewriterFFI::new(&Vec::new(), Cost::Size).unwrap();
    let t = session.add_true().unwrap();
    let f = session.add_false().unwrap();
    let mut cb = MigRewriterCallback::new();
    session.rewrite(&[t, f], &mut cb).unwrap();
    assert_eq!(cb.nodes, vec![Mig::False, Mig::Not(0), Mig::False]);
    assert_eq!(cb.roots, vec![1, 2]);
}

#[test]
fn mig_variants_have_names_and_fanins() {
    let names: Vec<&str> = MigVariant::variants().iter().map(|v| v.name()).collect();
    assert_eq!(names, vec!["symbol", "true", "false", "not", "maj"]);
    let fanins: Vec<u8> = MigVariant::variants().iter().map(|v| v.fanin()).collect();
    assert_eq!(fanins, vec![0, 0, 0, 1, 3]);
}

#[test]
fn adapted_receiver_maps_gate_kinds() {
    let mut b = FlatNetwork::new();
    let x = b.create_node(Node::input(0)).unwrap();
    let y = b.create_node(Node::input(1)).unwrap();
    let g = b.create_node(Node::gate(Gate::And, vec![x, y.invert()])).unwrap();
    let src = b.done(&[g]);
    let adapter = |n: Node| match n.kind {
        NodeKind::Gate(Gate::And) => Node { kind: NodeKind::Gate(Gate::And2), inputs: n.inputs },
        _ => n,
    };
    let out = send(&src, AdaptedReceiver::new(FlatNetwork::new(), adapter)).unwrap();
    assert_eq!(out.nodes[2], Node::gate(Gate::And2, vec![sig(0), sig(1).invert()]));
    assert_eq!(out.outputs, vec![sig(2)]);
}

#[test]
fn deep_chain_rewrites_without_recursion() {
    let n: u32 = 2_000;
    let mut b = FlatNetwork::new();
    let other = b.create_node(Node::input(1)).unwrap();
    let mut prev = b.create_node(Node::input(0)).unwrap();
    for _ in 0..n {
        prev = b.create_node(Node::gate(Gate::And, vec![prev.invert(), other])).unwrap();
    }
    let src = b.done(&[prev]);
    let out = rewrite_network(&src, &Vec::new(), Cost::Size, FlatNetwork::new()).unwrap();
    assert_eq!(out.len(), n as usize + 2);
    assert_eq!(out.outputs.len(), 1);
}

#[test]
fn depth_cost_prefers_a_balanced_term() {
    // and(and(and(a, b), c), d) rewritten with associativity: the depth cost picks a tree of
    // depth three over the chain of depth four, the size cost keeps as many nodes.
    let mut b = FlatNetwork::new();
    let a = b.create_node(Node::input(0)).unwrap();
    let x = b.create_node(Node::input(1)).unwrap();
    let c = b.create_node(Node::input(2)).unwrap();
    let d = b.create_node(Node::input(3)).unwrap();
    let g1 = b.create_node(Node::gate(Gate::And, vec![a, x])).unwrap();
    let g2 = b.create_node(Node::gate(Gate::And, vec![g1, c])).unwrap();
    let g3 = b.create_node(Node::gate(Gate::And, vec![g2, d])).unwrap();
    let src = b.done(&[g3]);
    let rules = vec![
        rule("assoc", "(and (and ?a ?b) ?c)", "(and ?a (and ?b ?c))"),
        rule("assoc_back", "(and ?a (and ?b ?c))", "(and (and ?a ?b) ?c)"),
    ];
    let deep = rewrite_network(&src, &rules, Cost::Depth, FlatNetwork::new()).unwrap();
    let size = rewrite_network(&src, &rules, Cost::Size, FlatNetwork::new()).unwrap();
    fn depth(n: &FlatNetwork, s: Signal) -> usize {
        let node = &n.nodes[s.node_id().0 as usize];
        1 + node.inputs.iter().map(|c| depth(n, *c)).max().unwrap_or(0)
    }
    assert_eq!(depth(&deep, deep.outputs[0]), 3);
    assert_eq!(deep.len(), 7);
    assert_eq!(size.len(), 7);
}

#[test]
fn mig_session_hash_conses_equal_nodes() {
    let mut session = MigRewriterFFI::new(&Vec::new(), Cost::Size).unwrap();
    let a = session.add_symbol(0).unwrap();
    let b = session.add_symbol(1).unwrap();
    assert_eq!(session.add_symbol(0), Some(a));
    let m = session.add_maj(a, b, a).unwrap();
    assert_eq!(session.add_maj(a, b, a), Some(m));
    assert_ne!(session.add_maj(b, a, a), Some(m));
    let n = session.add_not(m).unwrap();
    assert_eq!(session.add_not(m), Some(n));
    assert_eq!(session.add_maj(a, b, 99), None);
}

#[test]
fn mig_session_rejects_invalid_rules() {
    let rules = vec![rule("bad", "(maj ?a ?b ?c)", "(maj ?a ?b ?d)")];
    assert!(matches!(MigRewriterFFI::new(&rules, Cost::Size), Err(RewriteError::InvalidRule)));
}

#[test]
fn egraph_receiver_adds_a_not_for_inverted_output() {
    let mut b = FlatNetwork::new();
    let f = b.create_node(Node::constant_false()).unwrap();
    let src = b.done(&[f.invert(), f]);
    let (_graph, roots) = send(&src, EGraphReceiver::new()).unwrap().unwrap();
    // class 0 is `f`, class 1 the `!` over it
    assert_eq!(roots, vec![1, 0]);
}
