use vstd::prelude::*;
use egg::{EGraph, Rewrite, SymbolLang};
use crate::signal::{Id, Signal, ID_LIMIT};
use crate::node::{Node, NodeView, MAX_FANIN};
use crate::transfer::{CapacityError, Receiver, issued_id};
use crate::text::{Op, op_text, op_to_text};

verus! {

/// egg's generic e-node of an operator symbol and child class ids.
#[verifier::external_type_specification]
#[verifier::external_body]
pub struct ExSymbolLang(SymbolLang);

/// egg's rewrite rule, carried opaquely.
#[verifier::external_type_specification]
#[verifier::external_body]
#[verifier::reject_recursive_types(L)]
#[verifier::reject_recursive_types(N)]
pub struct ExRewrite<L, N>(Rewrite<L, N>);

/// An egg e-graph over operator symbols, the structure that networks are rewritten in. It is
/// held opaquely: egg's `EGraph` bounds its parameters by egg's traits, which this library
/// cannot declare.
#[verifier::external_body]
pub struct Graph {
    inner: EGraph<SymbolLang, ()>,
}

/// The e-nodes that the e-graph stores, one per class id handed out, in the order the ids were
/// handed out: each as its operator text and child class ids.
pub uninterp spec fn egraph_nodes(g: Graph) -> Seq<(Seq<char>, Seq<u32>)>;

/// No two classes of the e-graph have been merged since it was created: every id is its own
/// class.
pub uninterp spec fn egraph_unmerged(g: Graph) -> bool;

/// The number of e-class ids that the e-graph has handed out; every id below it is valid.
pub open spec fn egraph_size(g: Graph) -> nat {
    egraph_nodes(g).len()
}

/// `after` are the nodes of an unmerged e-graph after adding `node` to one with nodes `before`,
/// which answered `r`: an equal node that is already stored gives its own id and nothing is
/// added; otherwise the node is appended under a new id.
pub open spec fn added(
    before: Seq<(Seq<char>, Seq<u32>)>,
    after: Seq<(Seq<char>, Seq<u32>)>,
    node: (Seq<char>, Seq<u32>),
    r: nat,
) -> bool {
    if before.contains(node) {
        after == before && r < before.len() && before[r as int] == node
    } else {
        after == before.push(node) && r == before.len()
    }
}

/// Relies on `EGraph::new`: the new e-graph stores no nodes and has merged nothing.
#[verifier::external_body]
pub(crate) fn egraph_new() -> (r: Graph)
    ensures
        egraph_nodes(r) == Seq::<(Seq<char>, Seq<u32>)>::empty(),
        egraph_unmerged(r),
{
    Graph { inner: EGraph::new(()) }
}

/// Relies on `EGraph::nodes`: one node is stored for each id handed out.
#[verifier::external_body]
pub(crate) fn egraph_len(g: &Graph) -> (r: usize)
    ensures
        r == egraph_size(*g),
{
    g.inner.nodes().len()
}

/// Relies on `EGraph::add`: adding a node whose children are valid ids returns a valid id and
/// stores the node under a new id at most. Where no classes were merged, an equal stored node
/// is found and its id returned (hash-consing), and nothing is merged by adding.
#[verifier::external_body]
pub(crate) fn egraph_add(g: &mut Graph, op: &str, children: &[u32]) -> (r: u32)
    requires
        egraph_size(*old(g)) < u32::MAX,
        forall|j: int| 0 <= j < children@.len() ==> (children@[j] as nat) < egraph_size(*old(g)),
    ensures
        (r as nat) < egraph_size(*final(g)),
        egraph_nodes(*final(g)) == egraph_nodes(*old(g)) || egraph_nodes(*final(g)) == egraph_nodes(
            *old(g),
        ).push((op@, children@)),
        egraph_unmerged(*old(g)) ==> egraph_unmerged(*final(g)) && added(
            egraph_nodes(*old(g)),
            egraph_nodes(*final(g)),
            (op@, children@),
            r as nat,
        ),
{
    let children = children.iter().map(|c| egg::Id::from(*c as usize)).collect();
    usize::from(g.inner.add(SymbolLang::new(op, children))) as u32
}

/// Both texts are egg patterns over operator symbols, and every variable of the right one
/// occurs in the left one.
pub uninterp spec fn rule_valid(lhs: Seq<char>, rhs: Seq<char>) -> bool;

/// Relies on egg's `Pattern` parsing (`FromStr`) of both texts and on `Rewrite::new`: a named
/// rule exactly where both texts parse and the right side binds no new variable.
#[verifier::external_body]
pub(crate) fn make_rewrite(name: &str, lhs: &str, rhs: &str) -> (r: Option<Rewrite<SymbolLang, ()>>)
    ensures
        r is Some <==> rule_valid(lhs@, rhs@),
{
    let l: egg::Pattern<SymbolLang> = lhs.parse().ok()?;
    let r: egg::Pattern<SymbolLang> = rhs.parse().ok()?;
    Rewrite::new(name, l, r).ok()
}

/// Relies on egg's `Runner` with its default limits: running the rules only adds to the
/// e-graph, so every id stays valid.
#[verifier::external_body]
pub(crate) fn saturate(g: Graph, rules: &Vec<Rewrite<SymbolLang, ()>>) -> (r: Graph)
    ensures
        egraph_size(r) >= egraph_size(g),
{
    Graph { inner: egg::Runner::default().with_egraph(g.inner).run(rules.iter()).egraph }
}

/// A nonempty term whose nodes' children all come before them.
pub open spec fn term_shaped(t: Seq<TermNode>) -> bool {
    &&& t.len() > 0
    &&& forall|q: int, j: int|
        0 <= q < t.len() && 0 <= j < t[q].children@.len() ==> (#[trigger] t[q].children@[j] as int) < q
}

/// Relies on egg's `Extractor` with the `AstSize` cost: a term with the fewest nodes in the
/// class of `root`, as a list of operator texts and child positions that ends with the root
/// (`build_recexpr` adds children first and the root last).
#[verifier::external_body]
pub(crate) fn extract_smallest(g: &Graph, root: u32) -> (r: Vec<TermNode>)
    requires
        (root as nat) < egraph_size(*g),
    ensures
        term_shaped(r@),
{
    let (_, expr) = egg::Extractor::new(&g.inner, egg::AstSize).find_best(egg::Id::from(root as usize));
    expr.as_ref()
        .iter()
        .map(|n| TermNode {
            op: n.op.to_string(),
            children: n.children.iter().map(|c| usize::from(*c) as u32).collect(),
        })
        .collect()
}

/// Relies on egg's `Extractor` with the `AstDepth` cost: a term of the least depth in the
/// class of `root`, as a list of operator texts and child positions that ends with the root
/// (`build_recexpr` adds children first and the root last).
#[verifier::external_body]
pub(crate) fn extract_shallowest(g: &Graph, root: u32) -> (r: Vec<TermNode>)
    requires
        (root as nat) < egraph_size(*g),
    ensures
        term_shaped(r@),
{
    let (_, expr) = egg::Extractor::new(&g.inner, egg::AstDepth).find_best(egg::Id::from(root as usize));
    expr.as_ref()
        .iter()
        .map(|n| TermNode {
            op: n.op.to_string(),
            children: n.children.iter().map(|c| usize::from(*c) as u32).collect(),
        })
        .collect()
}

/// What extraction minimises.
#[derive(Clone, Copy, Debug, PartialEq, Eq, Structural)]
pub enum Cost {
    /// The number of e-nodes of the term (inputs, constants, NOTs and gates).
    Size,
    /// The depth of the term.
    Depth,
}

/// Extracts the cheapest term of the class of `root` under the given cost.
pub(crate) fn extract_best(g: &Graph, root: u32, cost: Cost) -> (r: Vec<TermNode>)
    requires
        (root as nat) < egraph_size(*g),
    ensures
        term_shaped(r@),
{
    match cost {
        Cost::Size => extract_smallest(g, root),
        Cost::Depth => extract_shallowest(g, root),
    }
}

/// One node of an extracted term: its operator text and the positions of its children, which
/// come before it in the term.
pub struct TermNode {
    pub op: String,
    pub children: Vec<u32>,
}

/// The mathematical value of a term: operator text and child positions of each node.
pub open spec fn term_view(t: Seq<TermNode>) -> Seq<(Seq<char>, Seq<u32>)> {
    t.map_values(|n: TermNode| (n.op@, n.children@))
}

/// How many nodes an e-graph of the given size is sure to take: each takes at most one id for
/// itself and one per inverted input.
pub open spec fn graph_room(size: nat) -> nat {
    if size + (MAX_FANIN + 1) <= ID_LIMIT {
        ((ID_LIMIT - size) as nat) / ((MAX_FANIN + 1) as nat)
    } else {
        0
    }
}

/// `c` is the class that stands for the signal `s` among the e-nodes `nodes`: the class of its
/// node, or, for an inverted signal, the class of a `!` e-node over that class.
pub open spec fn class_for(nodes: Seq<(Seq<char>, Seq<u32>)>, s: Signal, c: u32) -> bool {
    if s.inverted() {
        (c as int) < nodes.len() && nodes[c as int] == ("!"@, seq![s.id().0])
    } else {
        c == s.id().0
    }
}

/// `e` is the e-node that stands for the network node `n`: its operator text, and for each
/// input the class that stands for the input signal.
pub open spec fn enode_for(
    nodes: Seq<(Seq<char>, Seq<u32>)>,
    n: NodeView,
    e: (Seq<char>, Seq<u32>),
) -> bool {
    &&& e.0 == op_text(Op::Kind(n.kind))
    &&& e.1.len() == n.inputs.len()
    &&& forall|j: int| 0 <= j < n.inputs.len() ==> class_for(nodes, n.inputs[j], #[trigger] e.1[j])
}

/// `before` is a prefix of `after`.
pub open spec fn grown(before: Seq<(Seq<char>, Seq<u32>)>, after: Seq<(Seq<char>, Seq<u32>)>) -> bool {
    before.len() <= after.len() && after.subrange(0, before.len() as int) == before
}

proof fn lemma_class_grow(
    before: Seq<(Seq<char>, Seq<u32>)>,
    after: Seq<(Seq<char>, Seq<u32>)>,
    s: Signal,
    c: u32,
)
    requires
        grown(before, after),
        class_for(before, s, c),
    ensures
        class_for(after, s, c),
{
    if s.inverted() {
        assert(after[c as int] == after.subrange(0, before.len() as int)[c as int]);
    }
}

proof fn lemma_enode_grow(
    before: Seq<(Seq<char>, Seq<u32>)>,
    after: Seq<(Seq<char>, Seq<u32>)>,
    n: NodeView,
    e: (Seq<char>, Seq<u32>),
)
    requires
        grown(before, after),
        enode_for(before, n, e),
    ensures
        enode_for(after, n, e),
{
    assert forall|j: int| 0 <= j < n.inputs.len() implies class_for(after, n.inputs[j], #[trigger] e.1[j]) by {
        lemma_class_grow(before, after, n.inputs[j], e.1[j]);
    }
}

proof fn lemma_added_grows(
    before: Seq<(Seq<char>, Seq<u32>)>,
    after: Seq<(Seq<char>, Seq<u32>)>,
    node: (Seq<char>, Seq<u32>),
    r: nat,
)
    requires
        added(before, after, node, r),
        before.no_duplicates(),
    ensures
        grown(before, after),
        after.no_duplicates(),
        after.len() <= before.len() + 1,
        r < after.len(),
        after[r as int] == node,
{
    if !before.contains(node) {
        assert(after.subrange(0, before.len() as int) =~= before);
        assert forall|a: int, b: int| 0 <= a < b < after.len() implies after[a] != after[b] by {
            if b == before.len() {
                assert(before.contains(before[a]));
            }
        }
    } else {
        assert(after.subrange(0, before.len() as int) =~= before);
    }
}

/// In an e-graph that stores each e-node once, one signal has one standing class.
proof fn lemma_class_unique(nodes: Seq<(Seq<char>, Seq<u32>)>, s: Signal, c1: u32, c2: u32)
    requires
        nodes.no_duplicates(),
        class_for(nodes, s, c1),
        class_for(nodes, s, c2),
    ensures
        c1 == c2,
{
}

/// Hash-consing: an e-graph receiver hands out the same signal for equal nodes.
pub proof fn lemma_equal_nodes_share(r: EGraphReceiver, k1: int, k2: int)
    requires
        r.inv(),
        0 <= k1 < r.issued@.len(),
        0 <= k2 < r.issued@.len(),
        r.received@[k1] == r.received@[k2],
    ensures
        r.issued@[k1] == r.issued@[k2],
{
    let nodes = egraph_nodes(r.graph);
    let n = r.received@[k1];
    let i1 = r.issued@[k1].id().0 as int;
    let i2 = r.issued@[k2].id().0 as int;
    assert(enode_for(nodes, n, nodes[i1]));
    assert(enode_for(nodes, n, nodes[i2]));
    assert(nodes[i1].1 =~= nodes[i2].1) by {
        assert forall|j: int| 0 <= j < n.inputs.len() implies nodes[i1].1[j] == nodes[i2].1[j] by {
            lemma_class_unique(nodes, n.inputs[j], nodes[i1].1[j], nodes[i2].1[j]);
        }
    }
    assert(nodes[i1] == nodes[i2]);
    assert(i1 == i2);
    r.issued@[k1].lemma_signal_of();
    r.issued@[k2].lemma_signal_of();
}

/// A receiver that adds the nodes it gets to an e-graph. An inverted input becomes a NOT
/// e-node (`!`) over the input's class.
pub struct EGraphReceiver {
    pub graph: Graph,
    pub received: Ghost<Seq<NodeView>>,
    pub issued: Ghost<Seq<Signal>>,
}

impl EGraphReceiver {
    /// A receiver with an empty e-graph.
    pub fn new() -> (r: EGraphReceiver)
        ensures
            r.inv(),
            r.received() == Seq::<NodeView>::empty(),
            r.issued() == Seq::<Signal>::empty(),
            egraph_size(r.graph) == 0,
    {
        EGraphReceiver { graph: egraph_new(), received: Ghost(Seq::empty()), issued: Ghost(Seq::empty()) }
    }

    /// Returns the class id that stands for `s`, adding a NOT e-node if `s` is inverted.
    fn class_of(&mut self, s: Signal) -> (r: u32)
        requires
            (s.id().0 as nat) < egraph_size(old(self).graph),
            egraph_size(old(self).graph) < ID_LIMIT,
            egraph_unmerged(old(self).graph),
            egraph_nodes(old(self).graph).no_duplicates(),
        ensures
            class_for(egraph_nodes(final(self).graph), s, r),
            (r as nat) < egraph_size(final(self).graph),
            grown(egraph_nodes(old(self).graph), egraph_nodes(final(self).graph)),
            egraph_size(final(self).graph) <= egraph_size(old(self).graph) + 1,
            egraph_unmerged(final(self).graph),
            egraph_nodes(final(self).graph).no_duplicates(),
            !s.inverted() ==> final(self).graph == old(self).graph,
            final(self).received == old(self).received,
            final(self).issued == old(self).issued,
    {
        let id = s.node_id().0;
        if s.is_inverted() {
            let children = [id];
            let text = op_to_text(Op::Not);
            let ghost before = egraph_nodes(self.graph);
            let r = egraph_add(&mut self.graph, text.as_str(), &children);
            proof {
                assert(children@ =~= seq![id]);
                lemma_added_grows(before, egraph_nodes(self.graph), (text@, children@), r as nat);
            }
            r
        } else {
            proof {
                let n = egraph_nodes(self.graph);
                assert(n.subrange(0, n.len() as int) =~= n);
            }
            id
        }
    }
}

impl Receiver for EGraphReceiver {
    type Output = Result<(Graph, Vec<u32>), CapacityError>;

    open spec fn inv(&self) -> bool {
        &&& egraph_size(self.graph) <= ID_LIMIT
        &&& egraph_unmerged(self.graph)
        &&& egraph_nodes(self.graph).no_duplicates()
        &&& self.received@.len() == self.issued@.len()
        &&& egraph_size(self.graph) <= (MAX_FANIN + 1) * self.received@.len()
        &&& forall|k: int|
            0 <= k < self.issued@.len() ==> {
                &&& !(#[trigger] self.issued@[k]).inverted()
                &&& self.issued@[k].id().0 < egraph_size(self.graph)
                &&& enode_for(
                    egraph_nodes(self.graph),
                    self.received@[k],
                    egraph_nodes(self.graph)[self.issued@[k].id().0 as int],
                )
            }
    }

    open spec fn received(&self) -> Seq<NodeView> {
        self.received@
    }

    open spec fn issued(&self) -> Seq<Signal> {
        self.issued@
    }

    open spec fn room(&self) -> nat {
        graph_room(egraph_size(self.graph))
    }

    open spec fn finished(&self, outputs: Seq<Signal>, r: Self::Output) -> bool {
        match r {
            Ok((g, roots)) => {
                &&& roots@.len() == outputs.len()
                &&& grown(egraph_nodes(self.graph), egraph_nodes(g))
                &&& egraph_size(g) <= egraph_size(self.graph) + outputs.len()
                &&& egraph_unmerged(g)
                &&& forall|i: int|
                    0 <= i < roots@.len() ==> (#[trigger] roots@[i] as nat) < egraph_size(g)
                &&& forall|i: int|
                    0 <= i < roots@.len() ==> class_for(egraph_nodes(g), outputs[i], #[trigger] roots@[i])
            },
            Err(_) => egraph_size(self.graph) + outputs.len() > ID_LIMIT,
        }
    }

    fn create_node(&mut self, node: Node) -> (r: Result<Signal, CapacityError>) {
        let size = egraph_len(&self.graph);
        if size > (ID_LIMIT as usize) - (MAX_FANIN + 1) {
            proof {
                assert(graph_room(egraph_size(self.graph)) == 0);
            }
            return Err(CapacityError);
        }
        let ghost size0 = egraph_size(self.graph);
        let ghost nodes0 = egraph_nodes(self.graph);
        proof {
            assert(node@.inputs.len() <= MAX_FANIN) by {
                assert(node@.kind.arity() <= 32);
            }
            assert(nodes0.subrange(0, nodes0.len() as int) =~= nodes0);
        }
        let mut children: Vec<u32> = Vec::new();
        let mut j: usize = 0;
        while j < node.inputs.len()
            invariant
                node@.wf(),
                node@.inputs.len() <= MAX_FANIN,
                j <= node.inputs@.len(),
                children@.len() == j,
                size0 + (MAX_FANIN + 1) <= ID_LIMIT,
                size0 == nodes0.len(),
                size0 <= egraph_size(self.graph) <= size0 + j,
                grown(nodes0, egraph_nodes(self.graph)),
                egraph_unmerged(self.graph),
                egraph_nodes(self.graph).no_duplicates(),
                forall|j2: int| 0 <= j2 < j ==> (children@[j2] as nat) < egraph_size(self.graph),
                forall|j2: int|
                    0 <= j2 < j ==> class_for(
                        egraph_nodes(self.graph),
                        node@.inputs[j2],
                        #[trigger] children@[j2],
                    ),
                forall|k: int|
                    0 <= k < self.issued@.len() ==> (#[trigger] self.issued@[k]).id().0 < size0,
                forall|j2: int|
                    0 <= j2 < node@.inputs.len() ==> issued_id(
                        self.issued@,
                        #[trigger] node@.inputs[j2].id(),
                    ),
                self.received == old(self).received,
                self.issued == old(self).issued,
            decreases node.inputs@.len() - j,
        {
            let s = node.inputs[j];
            proof {
                assert(issued_id(self.issued@, node@.inputs[j as int].id()));
                let k = choose|k: int|
                    0 <= k < self.issued@.len() && self.issued@[k].id() == node@.inputs[j as int].id();
                assert(self.issued@[k].id().0 < size0);
            }
            let ghost mid = egraph_nodes(self.graph);
            let c = self.class_of(s);
            children.push(c);
            proof {
                let now = egraph_nodes(self.graph);
                assert(now.subrange(0, nodes0.len() as int) =~= nodes0) by {
                    assert(now.subrange(0, mid.len() as int) == mid);
                    assert(mid.subrange(0, nodes0.len() as int) == nodes0);
                    assert(now.subrange(0, nodes0.len() as int) =~= now.subrange(0, mid.len() as int).subrange(0, nodes0.len() as int));
                }
                assert forall|j2: int| 0 <= j2 < j + 1 implies class_for(
                    now,
                    node@.inputs[j2],
                    #[trigger] children@[j2],
                ) by {
                    if j2 < j {
                        lemma_class_grow(mid, now, node@.inputs[j2], children@[j2]);
                    }
                }
            }
            j = j + 1;
        }
        let text = op_to_text(Op::Kind(node.kind));
        let ghost before = egraph_nodes(self.graph);
        let id = egraph_add(&mut self.graph, text.as_str(), children.as_slice());
        let s = Signal::new(Id(id), false);
        proof {
            let after = egraph_nodes(self.graph);
            lemma_added_grows(before, after, (text@, children@), id as nat);
            assert(after.subrange(0, nodes0.len() as int) =~= nodes0) by {
                assert(after.subrange(0, before.len() as int) == before);
                assert(before.subrange(0, nodes0.len() as int) == nodes0);
                assert(after.subrange(0, nodes0.len() as int) =~= after.subrange(0, before.len() as int).subrange(0, nodes0.len() as int));
            }
            assert(enode_for(after, node@, after[id as int])) by {
                assert forall|j2: int| 0 <= j2 < node@.inputs.len() implies class_for(
                    after,
                    node@.inputs[j2],
                    #[trigger] after[id as int].1[j2],
                ) by {
                    lemma_class_grow(before, after, node@.inputs[j2], children@[j2]);
                }
            }
            let old_received = self.received@;
            let old_issued = self.issued@;
            self.received@ = self.received@.push(node@);
            self.issued@ = self.issued@.push(s);
            assert forall|k: int|
                0 <= k < self.issued@.len() implies {
                    &&& !(#[trigger] self.issued@[k]).inverted()
                    &&& self.issued@[k].id().0 < egraph_size(self.graph)
                    &&& enode_for(
                        egraph_nodes(self.graph),
                        self.received@[k],
                        egraph_nodes(self.graph)[self.issued@[k].id().0 as int],
                    )
                } by {
                if k < old_issued.len() {
                    assert(self.issued@[k] == old_issued[k]);
                    assert(self.received@[k] == old_received[k]);
                    let i = old_issued[k].id().0 as int;
                    assert(enode_for(nodes0, old_received[k], nodes0[i]));
                    assert(after[i] == after.subrange(0, nodes0.len() as int)[i]);
                    lemma_enode_grow(nodes0, after, old_received[k], nodes0[i]);
                }
            }
            let size1 = egraph_size(self.graph);
            let l = ID_LIMIT as nat;
            let d = (MAX_FANIN + 1) as nat;
            assert(size1 <= size0 + d);
            assert(size1 <= d * self.received@.len()) by (nonlinear_arith)
                requires
                    size1 <= size0 + d,
                    size0 <= d * old_received.len(),
                    self.received@.len() == old_received.len() + 1,
            ;
            assert(graph_room(size1) + 1 >= graph_room(size0)) by {
                if size1 + d <= l {
                    assert(((l - size1) as nat) / d + 1 >= ((l - size0) as nat) / d)
                        by (nonlinear_arith)
                        requires
                            size1 <= size0 + d,
                            size0 <= size1,
                            size1 + d <= l,
                            d == 33,
                    ;
                } else {
                    assert(((l - size0) as nat) / d <= 1) by (nonlinear_arith)
                        requires
                            size1 <= size0 + d,
                            size1 + d > l,
                            size0 + d <= l,
                            d == 33,
                    ;
                }
            }
        }
        Ok(s)
    }

    fn done(self, outputs: &[Signal]) -> (r: Self::Output) {
        let mut this = self;
        let ghost nodes0 = egraph_nodes(self.graph);
        proof {
            assert(nodes0.subrange(0, nodes0.len() as int) =~= nodes0);
        }
        let mut roots: Vec<u32> = Vec::new();
        let mut i: usize = 0;
        while i < outputs.len()
            invariant
                i <= outputs@.len(),
                roots@.len() == i,
                nodes0 == egraph_nodes(self.graph),
                grown(nodes0, egraph_nodes(this.graph)),
                egraph_size(this.graph) <= egraph_size(self.graph) + i,
                egraph_size(this.graph) <= ID_LIMIT,
                egraph_unmerged(this.graph),
                egraph_nodes(this.graph).no_duplicates(),
                forall|i2: int|
                    0 <= i2 < i ==> (#[trigger] roots@[i2] as nat) < egraph_size(this.graph),
                forall|i2: int|
                    0 <= i2 < i ==> class_for(egraph_nodes(this.graph), outputs@[i2], #[trigger] roots@[i2]),
                forall|k: int|
                    0 <= k < this.issued@.len() ==> (#[trigger] this.issued@[k]).id().0
                        < egraph_size(self.graph),
                forall|i2: int|
                    0 <= i2 < outputs@.len() ==> issued_id(
                        this.issued@,
                        #[trigger] outputs@[i2].id(),
                    ),
            decreases outputs@.len() - i,
        {
            let s = outputs[i];
            proof {
                assert(issued_id(this.issued@, outputs@[i as int].id()));
                let k = choose|k: int|
                    0 <= k < this.issued@.len() && this.issued@[k].id() == outputs@[i as int].id();
                assert(this.issued@[k].id().0 < egraph_size(self.graph));
            }
            if egraph_len(&this.graph) >= ID_LIMIT as usize {
                return Err(CapacityError);
            }
            let ghost mid = egraph_nodes(this.graph);
            let c = this.class_of(s);
            roots.push(c);
            proof {
                let now = egraph_nodes(this.graph);
                assert(now.subrange(0, nodes0.len() as int) =~= nodes0) by {
                    assert(now.subrange(0, mid.len() as int) == mid);
                    assert(mid.subrange(0, nodes0.len() as int) == nodes0);
                    assert(now.subrange(0, nodes0.len() as int) =~= now.subrange(0, mid.len() as int).subrange(0, nodes0.len() as int));
                }
                assert forall|i2: int| 0 <= i2 < i + 1 implies class_for(
                    now,
                    outputs@[i2],
                    #[trigger] roots@[i2],
                ) by {
                    if i2 < i {
                        lemma_class_grow(mid, now, outputs@[i2], roots@[i2]);
                    }
                }
            }
            i = i + 1;
        }
        Ok((this.graph, roots))
    }
}

} // verus!
