use vstd::prelude::*;
use crate::signal::Signal;
use crate::node::{Node, NodeView};
use crate::transfer::{CapacityError, Receiver};

verus! {

/// The adapter accepts every well-formed node and only changes a node's kind, keeping its
/// inputs and their number.
pub open spec fn adapts_kinds<F: Fn(Node) -> Node>(adapter: F) -> bool {
    &&& forall|n: Node| n@.wf() ==> #[trigger] adapter.requires((n,))
    &&& forall|n: Node, m: Node|
        #[trigger] adapter.ensures((n,), m) ==> m@.wf() && m@.inputs == n@.inputs
}

/// A receiver that passes every node through `adapter` before handing it on to `to`, e.g. to
/// map the gates of one network family to those of another.
pub struct AdaptedReceiver<R, F> {
    pub to: R,
    pub adapter: F,
    pub received: Ghost<Seq<NodeView>>,
}

impl<R: Receiver, F: Fn(Node) -> Node> AdaptedReceiver<R, F> {
    /// Wraps `to` so that it gets every node through `adapter`.
    pub fn new(to: R, adapter: F) -> (r: Self)
        requires
            to.inv(),
            adapts_kinds(adapter),
        ensures
            r.inv(),
            r.to == to,
            r.received() == Seq::<NodeView>::empty(),
    {
        AdaptedReceiver { to, adapter, received: Ghost(Seq::empty()) }
    }
}

impl<R: Receiver, F: Fn(Node) -> Node> Receiver for AdaptedReceiver<R, F> {
    type Output = R::Output;

    open spec fn inv(&self) -> bool {
        self.to.inv() && adapts_kinds(self.adapter)
    }

    open spec fn received(&self) -> Seq<NodeView> {
        self.received@
    }

    open spec fn issued(&self) -> Seq<Signal> {
        self.to.issued()
    }

    open spec fn room(&self) -> nat {
        self.to.room()
    }

    open spec fn finished(&self, outputs: Seq<Signal>, r: R::Output) -> bool {
        self.to.finished(outputs, r)
    }

    fn create_node(&mut self, node: Node) -> (r: Result<Signal, CapacityError>) {
        let ghost n = node@;
        let adapted = (self.adapter)(node);
        let r = self.to.create_node(adapted);
        if r.is_ok() {
            proof {
                self.received@ = self.received@.push(n);
            }
        }
        r
    }

    fn done(self, outputs: &[Signal]) -> (r: R::Output) {
        self.to.done(outputs)
    }
}

/// A receiver whose result is passed through `map` once it is done.
pub struct MappedReceiver<R, F> {
    pub inner: R,
    pub map: F,
}

impl<R: Receiver, T, F: FnOnce(R::Output) -> T> MappedReceiver<R, F> {
    /// Wraps `inner` so that its result goes through `map`.
    pub fn new(inner: R, map: F) -> (r: Self)
        requires
            inner.inv(),
            forall|o: R::Output| #[trigger] map.requires((o,)),
        ensures
            r.inv(),
            r.inner == inner,
    {
        MappedReceiver { inner, map }
    }
}

impl<R: Receiver, T, F: FnOnce(R::Output) -> T> Receiver for MappedReceiver<R, F> {
    type Output = T;

    open spec fn inv(&self) -> bool {
        self.inner.inv() && forall|o: R::Output| #[trigger] self.map.requires((o,))
    }

    open spec fn received(&self) -> Seq<NodeView> {
        self.inner.received()
    }

    open spec fn issued(&self) -> Seq<Signal> {
        self.inner.issued()
    }

    open spec fn room(&self) -> nat {
        self.inner.room()
    }

    open spec fn finished(&self, outputs: Seq<Signal>, r: T) -> bool {
        exists|o: R::Output| self.inner.finished(outputs, o) && #[trigger] self.map.ensures((o,), r)
    }

    fn create_node(&mut self, node: Node) -> (r: Result<Signal, CapacityError>) {
        self.inner.create_node(node)
    }

    fn done(self, outputs: &[Signal]) -> (r: T) {
        let MappedReceiver { inner, map } = self;
        let o = inner.done(outputs);
        map(o)
    }
}

} // verus!
