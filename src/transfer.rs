use vstd::prelude::*;
use rustc_hash::FxHashMap;
use crate::signal::{Id, Signal, replaced};
use crate::node::{Node, NodeKind, NodeView};
use crate::network::{
    Network, closed, acyclic, ranked, reachable, reachable_set, output_closed, lemma_output_reachable,
    lemma_input_reachable, lemma_reachable_finite, rank_weight, lemma_rank_weight,
    lemma_rank_weight_positive,
};
use crate::fxmap::{fx_get, fx_insert};

verus! {

/// A receiver ran out of room for nodes whose ids it can hand out.
#[derive(Clone, Copy, Debug, PartialEq, Eq, Structural)]
pub struct CapacityError;

/// A sink for the nodes of a logic network, which produces some result from them.
pub trait Receiver: Sized {
    type Output;

    /// The receiver's invariant.
    spec fn inv(&self) -> bool;

    /// The nodes accepted so far, in order.
    spec fn received(&self) -> Seq<NodeView>;

    /// The signal handed back for each accepted node, in order.
    spec fn issued(&self) -> Seq<Signal>;

    /// How many more nodes the receiver is sure to accept.
    spec fn room(&self) -> nat;

    /// What `done` returns for the given outputs.
    spec fn finished(&self, outputs: Seq<Signal>, r: Self::Output) -> bool;

    /// Creates the given node, whose inputs reference signals handed out earlier. Returns the
    /// signal that stands for the node from now on.
    fn create_node(&mut self, node: Node) -> (r: Result<Signal, CapacityError>)
        requires
            old(self).inv(),
            node@.wf(),
            forall|j: int|
                0 <= j < node@.inputs.len() ==> issued_id(
                    old(self).issued(),
                    #[trigger] node@.inputs[j].id(),
                ),
        ensures
            final(self).inv(),
            match r {
                Ok(s) => {
                    &&& final(self).received() == old(self).received().push(node@)
                    &&& final(self).issued() == old(self).issued().push(s)
                    &&& final(self).room() + 1 >= old(self).room()
                },
                Err(_) => {
                    &&& final(self).received() == old(self).received()
                    &&& final(self).issued() == old(self).issued()
                    &&& old(self).room() == 0
                },
            },
    ;

    /// Creates the result from the nodes received so far, with the given output signals.
    fn done(self, outputs: &[Signal]) -> (r: Self::Output)
        requires
            self.inv(),
            forall|i: int| 0 <= i < outputs@.len() ==> issued_id(self.issued(), #[trigger] outputs@[i].id()),
        ensures
            self.finished(outputs@, r),
    ;
}

/// Some signal of `issued` references the node `id`.
pub open spec fn issued_id(issued: Seq<Signal>, id: Id) -> bool {
    exists|k: int| 0 <= k < issued.len() && issued[k].id() == id
}

/// The signal `s` with its node replaced by the signal that `m` holds for it.
pub open spec fn map_signal(m: Map<u32, Signal>, s: Signal) -> Signal {
    replaced(s, m[s.id().0])
}

/// The node with each input mapped by `m`.
pub open spec fn map_node(node: NodeView, m: Map<u32, Signal>) -> NodeView {
    NodeView { kind: node.kind, inputs: node.inputs.map_values(|s: Signal| map_signal(m, s)) }
}

/// The outputs of `n` mapped by `m`.
pub open spec fn map_outputs<N: Network>(n: &N, m: Map<u32, Signal>) -> Seq<Signal> {
    n.spec_outputs().map_values(|s: Signal| map_signal(m, s))
}

/// A record of a transfer in progress: `order` lists the source ids whose nodes were created,
/// in creation order, `created` and `issued` what the receiver got and handed back for them, and
/// `m` maps each listed id to its issued signal. Each node is created once, after all of its
/// inputs, with its inputs mapped by `m`.
pub open spec fn transfer_log<N: Network>(
    n: &N,
    order: Seq<Id>,
    created: Seq<NodeView>,
    issued: Seq<Signal>,
    m: Map<u32, Signal>,
) -> bool {
    &&& order.len() == created.len()
    &&& order.len() == issued.len()
    &&& order.no_duplicates()
    &&& forall|k: int| 0 <= k < order.len() ==> n.contains(#[trigger] order[k])
    &&& forall|k: int| 0 <= k < order.len() ==> reachable(n, #[trigger] order[k])
    &&& forall|k: int|
        0 <= k < order.len() ==> m.contains_key((#[trigger] order[k]).0) && m[order[k].0]
            == issued[k]
    &&& forall|key: u32|
        #[trigger] m.contains_key(key) ==> exists|k: int| 0 <= k < order.len() && order[k].0 == key
    &&& forall|k: int|
        0 <= k < order.len() ==> #[trigger] created[k] == map_node(n.spec_node(order[k]), m)
    &&& forall|k: int, j: int|
        0 <= k < order.len() && 0 <= j < n.spec_node(order[k]).inputs.len() ==> listed_before(
            order,
            k,
            (#[trigger] n.spec_node(order[k]).inputs[j]).id(),
        )
}

/// `id` stands in `order` before position `k`.
pub open spec fn listed_before(order: Seq<Id>, k: int, id: Id) -> bool {
    exists|k2: int| 0 <= k2 < k && order[k2] == id
}

/// A completed transfer: the record covers the nodes of all outputs, and `outputs` are the
/// source's outputs mapped by `m`.
pub open spec fn transferred<N: Network>(
    n: &N,
    order: Seq<Id>,
    created: Seq<NodeView>,
    issued: Seq<Signal>,
    m: Map<u32, Signal>,
    outputs: Seq<Signal>,
) -> bool {
    &&& transfer_log(n, order, created, issued, m)
    &&& forall|i: int|
        0 <= i < n.spec_outputs().len() ==> m.contains_key((#[trigger] n.spec_outputs()[i]).id().0)
    &&& outputs == map_outputs(n, m)
}

/// `after` is `before` with the nodes of a completed transfer from `n` received, and `outputs`
/// are the transfer's mapped outputs.
pub open spec fn transfer_done<N: Network, R: Receiver>(
    n: &N,
    before: R,
    after: R,
    outputs: Seq<Signal>,
) -> bool {
    exists|order: Seq<Id>, created: Seq<NodeView>, issued: Seq<Signal>, m: Map<u32, Signal>|
        #![trigger transferred(n, order, created, issued, m, outputs)]
        {
            &&& transferred(n, order, created, issued, m, outputs)
            &&& after.received() == before.received() + created
            &&& after.issued() == before.issued() + issued
        }
}

proof fn lemma_map_node_grow(node: NodeView, m: Map<u32, Signal>, key: u32, s: Signal)
    requires
        !m.contains_key(key),
        forall|j: int| 0 <= j < node.inputs.len() ==> m.contains_key(#[trigger] node.inputs[j].id().0),
    ensures
        map_node(node, m.insert(key, s)) == map_node(node, m),
{
    assert(map_node(node, m.insert(key, s)).inputs =~= map_node(node, m).inputs) by {
        assert forall|j: int| 0 <= j < node.inputs.len() implies map_node(
            node,
            m.insert(key, s),
        ).inputs[j] == map_node(node, m).inputs[j] by {
            assert(m.contains_key(node.inputs[j].id().0));
        }
    }
}

/// Recording the creation of a new node keeps the record valid.
proof fn lemma_log_push<N: Network>(
    n: &N,
    order: Seq<Id>,
    created: Seq<NodeView>,
    issued: Seq<Signal>,
    m: Map<u32, Signal>,
    id: Id,
    s: Signal,
)
    requires
        transfer_log(n, order, created, issued, m),
        n.contains(id),
        reachable(n, id),
        !m.contains_key(id.0),
        forall|j: int|
            0 <= j < n.spec_node(id).inputs.len() ==> m.contains_key(
                (#[trigger] n.spec_node(id).inputs[j]).id().0,
            ),
    ensures
        transfer_log(
            n,
            order.push(id),
            created.push(map_node(n.spec_node(id), m)),
            issued.push(s),
            m.insert(id.0, s),
        ),
{
    let order2 = order.push(id);
    let created2 = created.push(map_node(n.spec_node(id), m));
    let issued2 = issued.push(s);
    let m2 = m.insert(id.0, s);
    assert forall|k: int| 0 <= k < order.len() implies order[k] != id by {
        assert(m.contains_key(order[k].0));
    }
    assert(order2.no_duplicates());
    assert forall|k: int| 0 <= k < order2.len() implies #[trigger] created2[k] == map_node(
        n.spec_node(order2[k]),
        m2,
    ) by {
        let node = n.spec_node(order2[k]);
        if k < order.len() {
            assert(created2[k] == created[k]);
            assert forall|j: int| 0 <= j < node.inputs.len() implies m.contains_key(
                #[trigger] node.inputs[j].id().0,
            ) by {
                let c = node.inputs[j];
                assert(listed_before(order, k, c.id()));
                let k2 = choose|k2: int| 0 <= k2 < k && order[k2] == c.id();
                assert(m.contains_key(order[k2].0));
            }
        }
        lemma_map_node_grow(node, m, id.0, s);
    }
    assert forall|key: u32| #[trigger] m2.contains_key(key) implies exists|k: int|
        0 <= k < order2.len() && order2[k].0 == key by {
        if key == id.0 {
            assert(order2[order.len() as int].0 == key);
        } else {
            let k = choose|k: int| 0 <= k < order.len() && order[k].0 == key;
            assert(order2[k].0 == key);
        }
    }
    assert forall|k: int, j: int|
        0 <= k < order2.len() && 0 <= j < n.spec_node(order2[k]).inputs.len() implies listed_before(
        order2,
        k,
        (#[trigger] n.spec_node(order2[k]).inputs[j]).id(),
    ) by {
        if k < order.len() {
            assert(order2[k] == order[k]);
            let c = n.spec_node(order[k]).inputs[j];
            assert(listed_before(order, k, c.id()));
            let k2 = choose|k2: int| 0 <= k2 < k && order[k2] == c.id();
            assert(order2[k2] == order[k2]);
        } else {
            assert(order2[k] == id);
            let c = n.spec_node(id).inputs[j];
            let key = c.id().0;
            assert(m.contains_key(key));
            let k2 = choose|k2: int| 0 <= k2 < order.len() && order[k2].0 == key;
            assert(order2[k2] == order[k2]);
            assert(order[k2] == c.id());
        }
    }
    assert forall|k: int| 0 <= k < order2.len() implies m2.contains_key((#[trigger] order2[k]).0)
        && m2[order2[k].0] == issued2[k] by {
        if k < order.len() {
            assert(order[k] != id);
        }
    }
    assert forall|k: int| 0 <= k < order2.len() implies n.contains(#[trigger] order2[k]) && reachable(n, order2[k]) by {
        if k < order.len() {
            assert(order2[k] == order[k]);
        }
    }
    assert(order2.len() == created2.len());
    assert(order2.len() == issued2.len());
    assert(forall|k: int| 0 <= k < order2.len() ==> n.contains(#[trigger] order2[k]));
    assert(forall|k: int| 0 <= k < order2.len() ==> reachable(n, #[trigger] order2[k]));
    assert(forall|k: int|
        0 <= k < order2.len() ==> #[trigger] created2[k] == map_node(n.spec_node(order2[k]), m2));
}

/// The work left in the frames below the top of the traversal stack: a frame's inputs that are
/// not yet handled, weighted by the rank of its node.
spec fn path_measure(path: Seq<(Id, Node, usize)>, rank: spec_fn(Id) -> nat) -> int
    decreases path.len(),
{
    if path.len() == 0 {
        0
    } else {
        let f = path.last();
        path_measure(path.drop_last(), rank) + (f.1@.inputs.len() - f.2) * rank_weight(rank(f.0))
    }
}

proof fn lemma_path_measure_nonneg(path: Seq<(Id, Node, usize)>, rank: spec_fn(Id) -> nat)
    requires
        forall|p: int| 0 <= p < path.len() ==> (#[trigger] path[p]).2 <= path[p].1@.inputs.len(),
    ensures
        path_measure(path, rank) >= 0,
    decreases path.len(),
{
    if path.len() > 0 {
        let f = path.last();
        assert(path.drop_last().len() == path.len() - 1);
        assert forall|p: int| 0 <= p < path.drop_last().len() implies (
        #[trigger] path.drop_last()[p]).2 <= path.drop_last()[p].1@.inputs.len() by {
            assert(path.drop_last()[p] == path[p]);
        }
        lemma_path_measure_nonneg(path.drop_last(), rank);
        assert(f == path[path.len() - 1]);
        let a = f.1@.inputs.len() - f.2;
        let b = rank_weight(rank(f.0));
        assert(a * b >= 0) by (nonlinear_arith)
            requires
                a >= 0,
                b >= 0,
        ;
    }
}

/// A frame of the traversal: the node stored under its id, reachable, with its first `f.2`
/// inputs already created.
spec fn frame_ok<N: Network>(n: &N, f: (Id, Node, usize), m: Map<u32, Signal>) -> bool {
    &&& n.contains(f.0)
    &&& f.1@ == n.spec_node(f.0)
    &&& reachable(n, f.0)
    &&& forall|j: int| 0 <= j < f.2 ==> m.contains_key((#[trigger] f.1@.inputs[j]).id().0)
}

/// The stack below the current node `cur`: each frame waits for the input that the next frame
/// (or `cur`) stands for, is not created yet, and ranks strictly above all that follows it.
spec fn path_ok<N: Network>(
    n: &N,
    path: Seq<(Id, Node, usize)>,
    m: Map<u32, Signal>,
    rank: spec_fn(Id) -> nat,
    cur: Id,
) -> bool {
    &&& forall|p: int|
        #![trigger path[p]]
        0 <= p < path.len() ==> {
            &&& frame_ok(n, path[p], m)
            &&& path[p].2 < path[p].1@.inputs.len()
            &&& !m.contains_key(path[p].0.0)
            &&& rank(path[p].0) > rank(cur)
        }
    &&& forall|p: int, q: int|
        #![trigger path[p], path[q]]
        0 <= p < q < path.len() ==> rank(path[p].0) > rank(path[q].0)
    &&& forall|p: int|
        #![trigger path[p + 1]]
        0 <= p < path.len() - 1 ==> path[p + 1].0 == path[p].1@.inputs[path[p].2 as int].id()
    &&& path.len() > 0 ==> cur == path.last().1@.inputs[path.last().2 as int].id()
}

/// Creating one more node is possible only while fewer nodes than are reachable were created.
proof fn lemma_count_bound<N: Network>(n: &N, order: Seq<Id>, id: Id)
    requires
        order.no_duplicates(),
        forall|k: int| 0 <= k < order.len() ==> reachable(n, #[trigger] order[k]),
        reachable(n, id),
        !order.contains(id),
    ensures
        order.len() < reachable_set(n).len(),
{
    lemma_reachable_finite(n);
    order.unique_seq_to_set();
    let s = order.to_set().insert(id);
    assert(s.subset_of(reachable_set(n)));
    vstd::set_lib::lemma_len_subset(s, reachable_set(n));
}

/// Returns the node with each input replaced through `memo`.
fn map_inputs(node: &Node, memo: &FxHashMap<u32, Signal>) -> (r: Node)
    requires
        forall|j: int|
            0 <= j < node.inputs@.len() ==> memo@.contains_key((#[trigger] node.inputs@[j]).id().0),
    ensures
        r@ == map_node(node@, memo@),
        forall|j: int|
            0 <= j < r@.inputs.len() ==> #[trigger] r@.inputs[j].id() == memo@[node.inputs@[j].id().0].id(),
{
    let mut inputs: Vec<Signal> = Vec::new();
    let mut j: usize = 0;
    while j < node.inputs.len()
        invariant
            j <= node.inputs@.len(),
            inputs@.len() == j,
            forall|j2: int| 0 <= j2 < j ==> inputs@[j2] == map_signal(memo@, node.inputs@[j2]),
            forall|j2: int|
                0 <= j2 < node.inputs@.len() ==> memo@.contains_key(
                    (#[trigger] node.inputs@[j2]).id().0,
                ),
        decreases node.inputs@.len() - j,
    {
        let c = node.inputs[j];
        let d = *fx_get(memo, c.node_id().0).unwrap();
        inputs.push(c.replace_id(d));
        j = j + 1;
    }
    let r = Node { kind: node.kind, inputs };
    assert(r@.inputs =~= map_node(node@, memo@).inputs);
    r
}

/// Streams every node reachable from the outputs of `src` into `recv`, each exactly once and
/// after all of its inputs, with ids replaced by the signals that `recv` hands back. Returns
/// the mapped outputs. The traversal keeps its own stack, so deep networks need no
/// recursion.
pub fn transfer<N: Network, R: Receiver>(src: &N, recv: &mut R) -> (r: Result<
    Vec<Signal>,
    CapacityError,
>)
    requires
        closed(src),
        acyclic(src),
        old(recv).inv(),
    ensures
        final(recv).inv(),
        r is Ok ==> transfer_done(src, *old(recv), *final(recv), r->Ok_0@),
        r is Err ==> old(recv).room() < reachable_set(src).len(),
{
    let ghost rank = choose|rank: spec_fn(Id) -> nat| ranked(src, rank);
    let ghost mut order: Seq<Id> = Seq::empty();
    let ghost mut created: Seq<NodeView> = Seq::empty();
    let ghost mut issued: Seq<Signal> = Seq::empty();
    let ghost room0 = recv.room();
    let mut memo: FxHashMap<u32, Signal> = FxHashMap::default();
    let outputs = src.outputs();
    proof {
        lemma_reachable_finite(src);
        assert(recv.received() =~= old(recv).received() + created);
        assert(recv.issued() =~= old(recv).issued() + issued);
    }
    let mut i: usize = 0;
    while i < outputs.len()
        invariant
            closed(src),
            ranked(src, rank),
            recv.inv(),
            outputs@ == src.spec_outputs(),
            i <= outputs@.len(),
            transfer_log(src, order, created, issued, memo@),
            recv.received() == old(recv).received() + created,
            recv.issued() == old(recv).issued() + issued,
            recv.room() + order.len() >= room0,
            room0 == old(recv).room(),
            forall|i2: int| 0 <= i2 < i ==> memo@.contains_key((#[trigger] outputs@[i2]).id().0),
        decreases outputs@.len() - i,
    {
        let mut node_id = outputs[i].node_id();
        proof {
            lemma_output_reachable(src, i as int);
        }
        let mut node = src.node(node_id);
        let mut known: usize = 0;
        let mut path: Vec<(Id, Node, usize)> = Vec::new();
        loop
            invariant_except_break
                src.contains(node_id),
                node@ == src.spec_node(node_id),
                reachable(src, node_id),
                known <= node@.inputs.len(),
                forall|j: int|
                    0 <= j < known ==> memo@.contains_key((#[trigger] node@.inputs[j]).id().0),
                path_ok(src, path@, memo@, rank, node_id),
                path@.len() == 0 ==> node_id == outputs@[i as int].id(),
                path@.len() > 0 ==> path@[0].0 == outputs@[i as int].id(),
            invariant
                closed(src),
                ranked(src, rank),
                recv.inv(),
                outputs@ == src.spec_outputs(),
                i < outputs@.len(),
                transfer_log(src, order, created, issued, memo@),
                recv.received() == old(recv).received() + created,
                recv.issued() == old(recv).issued() + issued,
                recv.room() + order.len() >= room0,
                room0 == old(recv).room(),
                forall|i2: int|
                    0 <= i2 < i ==> memo@.contains_key((#[trigger] outputs@[i2]).id().0),
            ensures
                memo@.contains_key(outputs@[i as int].id().0),
            decreases path_measure(path@, rank) + (node@.inputs.len() - known + 1) * rank_weight(
                rank(node_id),
            ),
        {
            let ghost old_total = path_measure(path@, rank) + (node@.inputs.len() - known + 1)
                * rank_weight(rank(node_id));
            proof {
                assert forall|p: int| 0 <= p < path@.len() implies (#[trigger] path@[p]).2
                    <= path@[p].1@.inputs.len() by {
                    assert(path@[p].2 < path@[p].1@.inputs.len());
                }
                lemma_path_measure_nonneg(path@, rank);
                lemma_rank_weight_positive(rank(node_id));
                let a = node@.inputs.len() - known + 1;
                let b = rank_weight(rank(node_id));
                assert(a * b >= 0) by (nonlinear_arith)
                    requires
                        a >= 0,
                        b >= 0,
                ;
            }
            let done_here: bool;
            if fx_get(&memo, node_id.0).is_some() {
                done_here = true;
            } else if known == node.inputs.len() {
                let dest = map_inputs(&node, &memo);
                let ghost old_memo = memo@;
                proof {
                    assert forall|j: int| 0 <= j < dest@.inputs.len() implies issued_id(
                        recv.issued(),
                        #[trigger] dest@.inputs[j].id(),
                    ) by {
                        let key = node@.inputs[j].id().0;
                        assert(memo@.contains_key(key));
                        let k = choose|k: int| 0 <= k < order.len() && order[k].0 == key;
                        assert(memo@[order[k].0] == issued[k]);
                        assert(recv.issued()[old(recv).issued().len() + k] == issued[k]);
                    }
                }
                match recv.create_node(dest) {
                    Ok(s) => {
                        proof {
                            lemma_log_push(src, order, created, issued, memo@, node_id, s);
                            order = order.push(node_id);
                            created = created.push(map_node(src.spec_node(node_id), old_memo));
                            issued = issued.push(s);
                            assert(recv.received() =~= old(recv).received() + created);
                            assert(recv.issued() =~= old(recv).issued() + issued);
                        }
                        fx_insert(&mut memo, node_id.0, s);
                        proof {
                            assert forall|p: int| 0 <= p < path@.len() implies frame_ok(
                                src,
                                #[trigger] path@[p],
                                memo@,
                            ) && !memo@.contains_key(path@[p].0.0) by {
                                assert(path@[p].0 != node_id);
                                let f = path@[p];
                                assert(frame_ok(src, f, old_memo));
                                assert forall|j: int| 0 <= j < f.2 implies memo@.contains_key(
                                    (#[trigger] f.1@.inputs[j]).id().0,
                                ) by {
                                    assert(old_memo.contains_key(f.1@.inputs[j].id().0));
                                }
                            }
                            assert forall|i2: int| 0 <= i2 < i implies memo@.contains_key(
                                (#[trigger] outputs@[i2]).id().0,
                            ) by {
                                assert(old_memo.contains_key(outputs@[i2].id().0));
                            }
                        }
                    },
                    Err(e) => {
                        proof {
                            assert(!order.contains(node_id)) by {
                                if order.contains(node_id) {
                                    let k = choose|k: int| 0 <= k < order.len() && order[k] == node_id;
                                    assert(memo@.contains_key(order[k].0));
                                }
                            }
                            lemma_count_bound(src, order, node_id);
                        }
                        return Err(e);
                    },
                }
                done_here = true;
            } else {
                done_here = false;
            }
            if done_here {
                if path.len() == 0 {
                    break;
                }
                let ghost old_path = path@;
                let ghost old_id = node_id;
                let ghost old_measure = (node@.inputs.len() - known + 1) * rank_weight(rank(node_id));
                proof {
                    lemma_rank_weight_positive(rank(node_id));
                    assert(old_measure >= 1) by (nonlinear_arith)
                        requires
                            old_measure == (node@.inputs.len() - known + 1) * rank_weight(rank(node_id)),
                            node@.inputs.len() - known + 1 >= 1,
                            rank_weight(rank(node_id)) >= 1,
                    ;
                }
                let (pid, pnode, pknown) = path.pop().unwrap();
                proof {
                    assert(path@ =~= old_path.drop_last());
                    assert(old_path.last() == (pid, pnode, pknown));
                    assert(path_measure(old_path, rank) == path_measure(path@, rank) + (
                    pnode@.inputs.len() - pknown) * rank_weight(rank(pid)));
                    let last = old_path.len() - 1;
                    assert(frame_ok(src, old_path[last], memo@));
                    assert forall|j: int| 0 <= j < pknown + 1 implies memo@.contains_key(
                        (#[trigger] pnode@.inputs[j]).id().0,
                    ) by {
                        if j < pknown {
                        } else {
                            assert(pnode@.inputs[j].id() == old_id);
                        }
                    }
                    assert forall|p: int| #![trigger path@[p]] 0 <= p < path@.len() implies rank(
                        path@[p].0,
                    ) > rank(pid) by {
                        assert(old_path[p] == path@[p]);
                        assert(old_path[last] == (pid, pnode, pknown));
                    }
                    if path@.len() > 0 {
                        assert(old_path[last - 1 + 1].0 == old_path[last - 1].1@.inputs[old_path[last
                            - 1].2 as int].id());
                    } else {
                        assert(old_path[0] == (pid, pnode, pknown));
                    }
                }
                node_id = pid;
                node = pnode;
                known = pknown + 1;
                proof {
                    let lp = node@.inputs.len();
                    assert((lp - known + 1) * rank_weight(rank(node_id)) == (lp - pknown) * rank_weight(
                        rank(pid),
                    ));
                    assert(path_measure(path@, rank) + (node@.inputs.len() - known + 1) * rank_weight(
                        rank(node_id),
                    ) < old_total);
                }
            } else {
                let child = node.inputs[known].node_id();
                proof {
                    lemma_input_reachable(src, node_id, known as int);
                    assert(rank(child) < rank(node_id));
                    lemma_rank_weight(rank(child), rank(node_id));
                    let lc = src.spec_node(child).inputs.len();
                    assert(src.spec_node(child).wf());
                    assert(lc <= 32);
                    let wc = rank_weight(rank(child));
                    let w = rank_weight(rank(node_id));
                    assert((lc + 1) * wc < w) by (nonlinear_arith)
                        requires
                            lc <= 32,
                            wc >= 1,
                            64 * wc <= w,
                    ;
                }
                let ghost old_path = path@;
                let ghost old_id = node_id;
                let ghost old_known = known;
                path.push((node_id, node, known));
                proof {
                    assert(path@.drop_last() =~= old_path);
                    let last = path@.len() - 1;
                    let lnode = src.spec_node(old_id).inputs.len();
                    let w = rank_weight(rank(old_id));
                    assert(path_measure(path@, rank) == path_measure(old_path, rank) + (lnode
                        - old_known) * w);
                    assert((lnode - old_known + 1) * w == (lnode - old_known) * w + w)
                        by (nonlinear_arith);
                    assert(path@[last] == (old_id, path@[last].1, old_known));
                    assert forall|p: int, q: int|
                        #![trigger path@[p], path@[q]]
                        0 <= p < q < path@.len() implies rank(path@[p].0) > rank(path@[q].0) by {
                        if q == last {
                            assert(old_path[p] == path@[p]);
                        } else {
                            assert(old_path[p] == path@[p]);
                            assert(old_path[q] == path@[q]);
                        }
                    }
                    assert forall|p: int|
                        #![trigger path@[p + 1]]
                        0 <= p < path@.len() - 1 implies path@[p + 1].0 == path@[p].1@.inputs[path@[p].2 as int].id() by {
                        assert(old_path[p] == path@[p]);
                        if p + 1 < last {
                            assert(old_path[p + 1] == path@[p + 1]);
                        }
                    }
                    assert forall|p: int| #![trigger path@[p]] 0 <= p < path@.len() implies {
                        &&& frame_ok(src, path@[p], memo@)
                        &&& path@[p].2 < path@[p].1@.inputs.len()
                        &&& !memo@.contains_key(path@[p].0.0)
                        &&& rank(path@[p].0) > rank(child)
                    } by {
                        if p < last {
                            assert(old_path[p] == path@[p]);
                        }
                    }
                    if old_path.len() > 0 {
                        assert(path@[0] == old_path[0]);
                    }
                }
                node = src.node(child);
                node_id = child;
                known = 0;
                proof {
                    let lc = node@.inputs.len();
                    assert((lc - known + 1) * rank_weight(rank(node_id)) == (lc + 1) * rank_weight(
                        rank(child),
                    ));
                    assert(path_measure(path@, rank) + (node@.inputs.len() - known + 1) * rank_weight(
                        rank(node_id),
                    ) < old_total);
                }
            }
        }
        i = i + 1;
    }
    let mut outs: Vec<Signal> = Vec::new();
    let mut i: usize = 0;
    while i < outputs.len()
        invariant
            outputs@ == src.spec_outputs(),
            i <= outputs@.len(),
            outs@.len() == i,
            forall|i2: int| 0 <= i2 < i ==> outs@[i2] == map_signal(memo@, outputs@[i2]),
            forall|i2: int|
                0 <= i2 < outputs@.len() ==> memo@.contains_key((#[trigger] outputs@[i2]).id().0),
            transfer_log(src, order, created, issued, memo@),
            recv.inv(),
            recv.received() == old(recv).received() + created,
            recv.issued() == old(recv).issued() + issued,
        decreases outputs@.len() - i,
    {
        let o = outputs[i];
        let d = *fx_get(&memo, o.node_id().0).unwrap();
        outs.push(o.replace_id(d));
        i = i + 1;
    }
    proof {
        assert(outs@ =~= map_outputs(src, memo@));
        assert(transferred(src, order, created, issued, memo@, outs@));
        assert(recv.received() == old(recv).received() + created);
        assert(recv.issued() == old(recv).issued() + issued);
        assert(transfer_done(src, *old(recv), *recv, outs@));
    }
    Ok(outs)
}

/// Sends the network `src` to `recv`: transfers its reachable nodes and then finishes the
/// receiver with the mapped outputs.
pub fn send<N: Network, R: Receiver>(src: &N, recv: R) -> (r: Result<R::Output, CapacityError>)
    requires
        closed(src),
        acyclic(src),
        recv.inv(),
    ensures
        r is Ok ==> exists|after: R, outputs: Seq<Signal>|
            #![trigger transfer_done(src, recv, after, outputs)]
            transfer_done(src, recv, after, outputs) && after.inv() && after.finished(
                outputs,
                r->Ok_0,
            ),
        r is Err ==> recv.room() < reachable_set(src).len(),
{
    let ghost before = recv;
    let mut recv = recv;
    match transfer(src, &mut recv) {
        Ok(outputs) => {
            let ghost after = recv;
            proof {
                lemma_outputs_issued(src, before, after, outputs@);
            }
            let out = recv.done(outputs.as_slice());
            proof {
                assert(transfer_done(src, before, after, outputs@));
            }
            Ok(out)
        },
        Err(e) => Err(e),
    }
}

/// The outputs of a completed transfer reference nodes that the receiver handed out.
pub proof fn lemma_outputs_issued<N: Network, R: Receiver>(
    n: &N,
    before: R,
    after: R,
    outputs: Seq<Signal>,
)
    requires
        transfer_done(n, before, after, outputs),
    ensures
        forall|i: int| 0 <= i < outputs.len() ==> issued_id(after.issued(), #[trigger] outputs[i].id()),
{
    let (order, created, issued, m) = choose|
        order: Seq<Id>,
        created: Seq<NodeView>,
        issued: Seq<Signal>,
        m: Map<u32, Signal>,
    |
        {
            &&& transferred(n, order, created, issued, m, outputs)
            &&& after.received() == before.received() + created
            &&& after.issued() == before.issued() + issued
        };
    assert forall|i: int| 0 <= i < outputs.len() implies issued_id(
        after.issued(),
        #[trigger] outputs[i].id(),
    ) by {
        let key = n.spec_outputs()[i].id().0;
        assert(m.contains_key(key));
        let k = choose|k: int| 0 <= k < order.len() && order[k].0 == key;
        assert(m[order[k].0] == issued[k]);
        assert(outputs[i] == map_signal(m, n.spec_outputs()[i]));
        assert(after.issued()[before.issued().len() + k] == issued[k]);
    }
}

/// Structural sharing: a completed transfer creates the nodes of exactly the ids reachable from
/// the outputs, each of them once.
pub proof fn lemma_structural_sharing<N: Network>(
    n: &N,
    order: Seq<Id>,
    created: Seq<NodeView>,
    issued: Seq<Signal>,
    m: Map<u32, Signal>,
    outputs: Seq<Signal>,
)
    requires
        transferred(n, order, created, issued, m, outputs),
    ensures
        order.no_duplicates(),
        order.to_set() == reachable_set(n),
        created.len() == reachable_set(n).len(),
{
    let t = order.to_set();
    assert forall|i: int| 0 <= i < n.spec_outputs().len() implies t.contains(
        #[trigger] n.spec_outputs()[i].id(),
    ) by {
        let key = n.spec_outputs()[i].id().0;
        assert(m.contains_key(key));
        let k = choose|k: int| 0 <= k < order.len() && order[k].0 == key;
        assert(order[k] == n.spec_outputs()[i].id());
    }
    assert forall|id: Id, j: int|
        t.contains(id) && 0 <= j < n.spec_node(id).inputs.len() implies t.contains(
        #[trigger] n.spec_node(id).inputs[j].id(),
    ) by {
        let k = choose|k: int| 0 <= k < order.len() && order[k] == id;
        assert(listed_before(order, k, n.spec_node(order[k]).inputs[j].id()));
    }
    assert(output_closed(n, t));
    assert(t =~= reachable_set(n)) by {
        assert forall|id: Id| t.contains(id) implies reachable(n, id) by {
            let k = choose|k: int| 0 <= k < order.len() && order[k] == id;
        }
    }
    order.unique_seq_to_set();
}

/// Structural sharing, counted on the receiver: a transfer makes exactly as many `create_node`
/// calls as there are distinct nodes reachable from the source's outputs.
pub proof fn lemma_create_count<N: Network, R: Receiver>(
    n: &N,
    before: R,
    after: R,
    outputs: Seq<Signal>,
)
    requires
        transfer_done(n, before, after, outputs),
    ensures
        after.received().len() == before.received().len() + reachable_set(n).len(),
        after.issued().len() == before.issued().len() + reachable_set(n).len(),
{
    let (order, created, issued, m) = choose|
        order: Seq<Id>,
        created: Seq<NodeView>,
        issued: Seq<Signal>,
        m: Map<u32, Signal>,
    |
        {
            &&& transferred(n, order, created, issued, m, outputs)
            &&& after.received() == before.received() + created
            &&& after.issued() == before.issued() + issued
        };
    lemma_structural_sharing(n, order, created, issued, m, outputs);
}

/// Creates the constant `value` in `recv`: the constant-false node, with the returned signal
/// inverted for `true`. No NOT node is created for the constant true.
pub fn create_constant<R: Receiver>(recv: &mut R, value: bool) -> (r: Result<Signal, CapacityError>)
    requires
        old(recv).inv(),
    ensures
        final(recv).inv(),
        match r {
            Ok(s) => {
                &&& final(recv).received() == old(recv).received().push(
                    NodeView { kind: NodeKind::False, inputs: Seq::empty() },
                )
                &&& final(recv).issued().len() == old(recv).issued().len() + 1
                &&& s.id() == final(recv).issued().last().id()
                &&& s.inverted() == (final(recv).issued().last().inverted() != value)
            },
            Err(_) => {
                &&& final(recv).received() == old(recv).received()
                &&& old(recv).room() == 0
            },
        },
{
    let node = Node::constant_false();
    match recv.create_node(node) {
        Ok(s) => Ok(s.maybe_invert(value)),
        Err(e) => Err(e),
    }
}

} // verus!
