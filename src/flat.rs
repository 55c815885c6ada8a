use vstd::prelude::*;
use crate::signal::{Id, Signal, signal_of, ID_LIMIT};
use crate::node::{Node, NodeView};
use crate::network::Network;
use crate::transfer::{CapacityError, Receiver};

verus! {

/// A logic network held in memory: a table of nodes, where the node at index `i` has id `i`,
/// and a list of output signals. It reads as a [`Network`] and is built as a [`Receiver`].
pub struct FlatNetwork {
    pub nodes: Vec<Node>,
    pub outputs: Vec<Signal>,
}

/// The mathematical value of a [`FlatNetwork`].
pub struct FlatView {
    pub nodes: Seq<NodeView>,
    pub outputs: Seq<Signal>,
}

impl View for FlatNetwork {
    type V = FlatView;

    open spec fn view(&self) -> FlatView {
        FlatView { nodes: self.nodes@.map_values(|n: Node| n@), outputs: self.outputs@ }
    }
}

/// The signal handed out for the node at index `k`.
pub open spec fn index_signal(k: int) -> Signal {
    signal_of(Id(k as u32), false)
}

/// Copies a slice of signals into a vector.
fn copy_signals(s: &[Signal]) -> (r: Vec<Signal>)
    ensures
        r@ == s@,
{
    let mut r: Vec<Signal> = Vec::new();
    let mut i: usize = 0;
    while i < s.len()
        invariant
            i <= s@.len(),
            r@ == s@.subrange(0, i as int),
        decreases s@.len() - i,
    {
        r.push(s[i]);
        i = i + 1;
        assert(r@ =~= s@.subrange(0, i as int));
    }
    assert(r@ =~= s@);
    r
}

impl FlatNetwork {
    /// An empty network, ready to receive nodes.
    pub fn new() -> (r: FlatNetwork)
        ensures
            r@.nodes == Seq::<NodeView>::empty(),
            r@.outputs == Seq::<Signal>::empty(),
            r.inv(),
    {
        let r = FlatNetwork { nodes: Vec::new(), outputs: Vec::new() };
        assert(r@.nodes =~= Seq::<NodeView>::empty());
        r
    }

    /// The number of nodes in the table.
    pub fn len(&self) -> (r: usize)
        ensures
            r == self@.nodes.len(),
    {
        self.nodes.len()
    }
}

impl Network for FlatNetwork {
    open spec fn spec_outputs(&self) -> Seq<Signal> {
        self.outputs@
    }

    open spec fn contains(&self, id: Id) -> bool {
        id.0 < self.nodes@.len()
    }

    open spec fn spec_node(&self, id: Id) -> NodeView {
        self.nodes@[id.0 as int]@
    }

    fn outputs(&self) -> (r: Vec<Signal>) {
        copy_signals(self.outputs.as_slice())
    }

    fn node(&self, id: Id) -> (r: Node) {
        self.nodes[id.0 as usize].duplicate()
    }
}

impl Receiver for FlatNetwork {
    type Output = FlatNetwork;

    open spec fn inv(&self) -> bool {
        self.nodes@.len() <= ID_LIMIT
    }

    open spec fn received(&self) -> Seq<NodeView> {
        self@.nodes
    }

    open spec fn issued(&self) -> Seq<Signal> {
        Seq::new(self.nodes@.len(), |k: int| index_signal(k))
    }

    open spec fn room(&self) -> nat {
        (ID_LIMIT - self.nodes@.len()) as nat
    }

    open spec fn finished(&self, outputs: Seq<Signal>, r: FlatNetwork) -> bool {
        r@ == (FlatView { nodes: self@.nodes, outputs })
    }

    fn create_node(&mut self, node: Node) -> (r: Result<Signal, CapacityError>) {
        if self.nodes.len() >= ID_LIMIT as usize {
            return Err(CapacityError);
        }
        let id = Id(self.nodes.len() as u32);
        let ghost before = *self;
        self.nodes.push(node);
        proof {
            assert(self@.nodes =~= before@.nodes.push(node@));
            assert(self.issued() =~= before.issued().push(index_signal(id.0 as int)));
        }
        Ok(Signal::new(id, false))
    }

    fn done(self, outputs: &[Signal]) -> (r: FlatNetwork) {
        FlatNetwork { nodes: self.nodes, outputs: copy_signals(outputs) }
    }
}

} // verus!
