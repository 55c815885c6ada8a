use vstd::prelude::*;
use rustc_hash::FxHashMap;
use crate::signal::{Id, Signal};
use crate::node::{Node, NodeView};
use crate::network::{Network, closed, acyclic, reachable, reachable_nodes};
use crate::fxmap::{fx_get, fx_insert, fx_remove};

verus! {

/// A network that also knows, for each node, the nodes that consume its output.
pub trait NetworkWithBackwardEdges: Network {
    /// The consumers of the node `id`.
    spec fn consumers_of(&self, id: Id) -> Seq<Id>;

    /// The nodes without inputs.
    spec fn leaf_seq(&self) -> Seq<Id>;

    /// Returns the ids of the nodes that have `id` among their inputs.
    fn node_outputs(&self, id: Id) -> (r: Vec<Id>)
        ensures
            r@ == self.consumers_of(id),
    ;

    /// Returns the ids of the nodes that have no inputs.
    fn leafs(&self) -> (r: Vec<Id>)
        ensures
            r@ == self.leaf_seq(),
    ;
}

/// `s` lists, each once, the reachable nodes of `n` that have `id` among their inputs.
pub open spec fn consumer_list<N: Network>(n: &N, id: Id, s: Seq<Id>) -> bool {
    &&& s.no_duplicates()
    &&& forall|x: Id| s.contains(x) <==> (reachable(n, x) && n.spec_node(x).has_child(id))
}

/// `s` lists, each once, the reachable nodes of `n` that have no inputs.
pub open spec fn leaf_list<N: Network>(n: &N, s: Seq<Id>) -> bool {
    &&& s.no_duplicates()
    &&& forall|x: Id| s.contains(x) <==> (reachable(n, x) && n.spec_node(x).inputs.len() == 0)
}

/// The backward edges of a network, computed by one pass over its reachable nodes.
pub struct ComputedNetworkWithBackwardEdges<'a, N> {
    pub network: &'a N,
    pub backward: FxHashMap<u32, Vec<Id>>,
    pub leafs: Vec<Id>,
}

/// Whether `x` consumes `id` among the first `k` listed nodes, or is node `k` and has `id`
/// among its first `i` inputs.
spec fn seen_consumer(nodes: Seq<(Id, Node)>, k: int, i: int, id: Id, x: Id) -> bool {
    ||| exists|k2: int| 0 <= k2 < k && nodes[k2].0 == x && (#[trigger] nodes[k2].1@).has_child(id)
    ||| (k < nodes.len() && x == nodes[k].0 && exists|j: int|
        0 <= j < i && (#[trigger] nodes[k].1@.inputs[j]).id() == id)
}

/// The list stored under `id`, empty where there is none.
pub open spec fn list_of(m: Map<u32, Vec<Id>>, id: Id) -> Seq<Id> {
    if m.contains_key(id.0) {
        m[id.0]@
    } else {
        Seq::empty()
    }
}

impl<'a, N: Network> ComputedNetworkWithBackwardEdges<'a, N> {
    /// Computes the consumers of every reachable node of `network`, and its leaves. A node that
    /// feeds several inputs of one gate is listed once among that gate's consumers.
    pub fn new(network: &'a N) -> (r: Self)
        requires
            closed(network),
            acyclic(network),
        ensures
            r.network == network,
            forall|id: Id| consumer_list(network, id, #[trigger] r.consumers_of(id)),
            leaf_list(network, r.leaf_seq()),
    {
        let nodes = reachable_nodes(network);
        let mut backward: FxHashMap<u32, Vec<Id>> = FxHashMap::default();
        let mut leafs: Vec<Id> = Vec::new();
        let mut k: usize = 0;
        while k < nodes.len()
            invariant
                k <= nodes@.len(),
                forall|k1: int, k2: int|
                    #![trigger nodes@[k1], nodes@[k2]]
                    0 <= k1 < k2 < nodes@.len() ==> nodes@[k1].0 != nodes@[k2].0,
                forall|id: Id|
                    #![trigger list_of(backward@, id)]
                    list_of(backward@, id).no_duplicates() && forall|x: Id|
                        list_of(backward@, id).contains(x) <==> seen_consumer(
                            nodes@,
                            k as int,
                            0,
                            id,
                            x,
                        ),
                leafs@.no_duplicates(),
                forall|x: Id|
                    leafs@.contains(x) <==> exists|k2: int|
                        0 <= k2 < k && nodes@[k2].0 == x && (#[trigger] nodes@[k2].1@).inputs.len()
                            == 0,
            decreases nodes@.len() - k,
        {
            let out_id = nodes[k].0;
            let inputs = nodes[k].1.inputs();
            let mut i: usize = 0;
            while i < inputs.len()
                invariant
                    k < nodes@.len(),
                    out_id == nodes@[k as int].0,
                    inputs@ == nodes@[k as int].1@.inputs,
                    i <= inputs@.len(),
                    forall|k1: int, k2: int|
                        #![trigger nodes@[k1], nodes@[k2]]
                        0 <= k1 < k2 < nodes@.len() ==> nodes@[k1].0 != nodes@[k2].0,
                    forall|id: Id|
                        #![trigger list_of(backward@, id)]
                        list_of(backward@, id).no_duplicates() && forall|x: Id|
                            list_of(backward@, id).contains(x) <==> seen_consumer(
                                nodes@,
                                k as int,
                                i as int,
                                id,
                                x,
                            ),
                decreases inputs@.len() - i,
            {
                let input_id = inputs[i].node_id();
                let mut dup = false;
                let mut j: usize = 0;
                while j < i
                    invariant
                        j <= i,
                        i < inputs@.len(),
                        input_id == inputs@[i as int].id(),
                        dup == exists|j2: int| 0 <= j2 < j && (#[trigger] inputs@[j2]).id() == input_id,
                    decreases i - j,
                {
                    if inputs[j].node_id() == input_id {
                        dup = true;
                    }
                    j = j + 1;
                }
                let ghost old_backward = backward@;
                if !dup {
                    let mut list = match fx_remove(&mut backward, input_id.0) {
                        Some(l) => l,
                        None => Vec::new(),
                    };
                    proof {
                        assert(list@ == list_of(old_backward, input_id));
                        assert(!list@.contains(out_id)) by {
                            if list@.contains(out_id) {
                                assert(seen_consumer(nodes@, k as int, i as int, input_id, out_id));
                                if exists|k2: int|
                                    0 <= k2 < k && nodes@[k2].0 == out_id && (
                                    #[trigger] nodes@[k2].1@).has_child(input_id) {
                                    let k2 = choose|k2: int|
                                        0 <= k2 < k && nodes@[k2].0 == out_id && (
                                        #[trigger] nodes@[k2].1@).has_child(input_id);
                                    assert(nodes@[k2].0 != nodes@[k as int].0);
                                }
                            }
                        }
                    }
                    list.push(out_id);
                    fx_insert(&mut backward, input_id.0, list);
                }
                proof {
                    assert forall|id: Id|
                        #![trigger list_of(backward@, id)]
                        list_of(backward@, id).no_duplicates() && forall|x: Id|
                            list_of(backward@, id).contains(x) <==> seen_consumer(
                                nodes@,
                                k as int,
                                i + 1,
                                id,
                                x,
                            ) by {
                        let old_list = list_of(old_backward, id);
                        assert(old_list.no_duplicates());
                        if id == input_id && !dup {
                            assert(list_of(backward@, id) == old_list.push(out_id));
                            assert(!old_list.contains(out_id));
                            assert(old_list.push(out_id).no_duplicates()) by {
                                assert forall|a: int, b: int|
                                    0 <= a < b < old_list.len() + 1 implies old_list.push(
                                    out_id,
                                )[a] != old_list.push(out_id)[b] by {
                                    if b == old_list.len() {
                                        assert(old_list.contains(old_list[a]));
                                    }
                                }
                            }
                        } else {
                            if id != input_id {
                                assert(id.0 != input_id.0);
                            }
                            assert(list_of(backward@, id) == old_list);
                        }
                        assert forall|x: Id|
                            list_of(backward@, id).contains(x) <==> seen_consumer(
                                nodes@,
                                k as int,
                                i + 1,
                                id,
                                x,
                            ) by {
                            assert(old_list.contains(x) <==> seen_consumer(
                                nodes@,
                                k as int,
                                i as int,
                                id,
                                x,
                            ));
                            let fresh = x == out_id && inputs@[i as int].id() == id;
                            if fresh {
                                assert(nodes@[k as int].1@.inputs[i as int].id() == id);
                                assert(seen_consumer(nodes@, k as int, i + 1, id, x));
                            }
                            if seen_consumer(nodes@, k as int, i + 1, id, x) && !seen_consumer(
                                nodes@,
                                k as int,
                                i as int,
                                id,
                                x,
                            ) {
                                let j2 = choose|j2: int|
                                    0 <= j2 < i + 1 && (
                                    #[trigger] nodes@[k as int].1@.inputs[j2]).id() == id;
                                assert(j2 == i);
                                assert(fresh);
                            }
                            if seen_consumer(nodes@, k as int, i as int, id, x) {
                                if exists|k2: int|
                                    0 <= k2 < k && nodes@[k2].0 == x && (
                                    #[trigger] nodes@[k2].1@).has_child(id) {
                                } else {
                                    let j2 = choose|j2: int|
                                        0 <= j2 < i && (
                                        #[trigger] nodes@[k as int].1@.inputs[j2]).id() == id;
                                    assert(nodes@[k as int].1@.inputs[j2] == inputs@[j2]);
                                }
                            }
                            if fresh && id == input_id && dup {
                                let j2 = choose|j2: int|
                                    0 <= j2 < i && (#[trigger] inputs@[j2]).id() == input_id;
                                assert(nodes@[k as int].1@.inputs[j2].id() == id);
                                assert(seen_consumer(nodes@, k as int, i as int, id, x));
                            }
                            if id == input_id && !dup {
                                assert(list_of(backward@, id).contains(x) <==> (old_list.contains(x)
                                    || x == out_id)) by {
                                    if x == out_id {
                                        assert(old_list.push(out_id)[old_list.len() as int] == x);
                                    }
                                    if old_list.push(out_id).contains(x) && x != out_id {
                                        let a = choose|a: int|
                                            0 <= a < old_list.len() + 1 && old_list.push(out_id)[a] == x;
                                        assert(old_list[a] == x);
                                    }
                                    if old_list.contains(x) {
                                        let a = choose|a: int| 0 <= a < old_list.len() && old_list[a] == x;
                                        assert(old_list.push(out_id)[a] == x);
                                    }
                                }
                            }
                        }
                    }
                }
                i = i + 1;
            }
            let ghost old_leafs = leafs@;
            if inputs.len() == 0 {
                proof {
                    assert(!leafs@.contains(out_id)) by {
                        if leafs@.contains(out_id) {
                            let k2 = choose|k2: int|
                                0 <= k2 < k && nodes@[k2].0 == out_id && (
                                #[trigger] nodes@[k2].1@).inputs.len() == 0;
                            assert(nodes@[k2].0 != nodes@[k as int].0);
                        }
                    }
                }
                leafs.push(out_id);
            }
            proof {
                assert forall|x: Id|
                    leafs@.contains(x) <==> exists|k2: int|
                        0 <= k2 < k + 1 && nodes@[k2].0 == x && (#[trigger] nodes@[k2].1@).inputs.len()
                            == 0 by {
                    if inputs@.len() == 0 {
                        assert(leafs@ == old_leafs.push(out_id));
                        if x == out_id {
                            assert(leafs@[leafs@.len() - 1] == x);
                            assert(nodes@[k as int].1@.inputs.len() == 0);
                        }
                        if leafs@.contains(x) && x != out_id {
                            let a = choose|a: int| 0 <= a < leafs@.len() && leafs@[a] == x;
                            assert(old_leafs[a] == x);
                        }
                        if old_leafs.contains(x) {
                            let a = choose|a: int| 0 <= a < old_leafs.len() && old_leafs[a] == x;
                            assert(leafs@[a] == x);
                        }
                    } else {
                        assert(leafs@ == old_leafs);
                    }
                    if exists|k2: int|
                        0 <= k2 < k + 1 && nodes@[k2].0 == x && (#[trigger] nodes@[k2].1@).inputs.len()
                            == 0 {
                        let k2 = choose|k2: int|
                            0 <= k2 < k + 1 && nodes@[k2].0 == x && (
                            #[trigger] nodes@[k2].1@).inputs.len() == 0;
                        if k2 == k {
                            assert(inputs@.len() == 0);
                        }
                    }
                }
                assert forall|id: Id|
                    #![trigger list_of(backward@, id)]
                    list_of(backward@, id).no_duplicates() && forall|x: Id|
                        list_of(backward@, id).contains(x) <==> seen_consumer(
                            nodes@,
                            k + 1,
                            0,
                            id,
                            x,
                        ) by {
                    assert forall|x: Id|
                        list_of(backward@, id).contains(x) <==> seen_consumer(
                            nodes@,
                            k + 1,
                            0,
                            id,
                            x,
                        ) by {
                        assert(list_of(backward@, id).contains(x) <==> seen_consumer(
                            nodes@,
                            k as int,
                            inputs@.len() as int,
                            id,
                            x,
                        ));
                        if seen_consumer(nodes@, k as int, inputs@.len() as int, id, x) {
                            if x == nodes@[k as int].0 && exists|j: int|
                                0 <= j < inputs@.len() && (
                                #[trigger] nodes@[k as int].1@.inputs[j]).id() == id {
                                assert(nodes@[k as int].1@.has_child(id));
                            }
                        }
                        if seen_consumer(nodes@, k + 1, 0, id, x) {
                            let k2 = choose|k2: int|
                                0 <= k2 < k + 1 && nodes@[k2].0 == x && (
                                #[trigger] nodes@[k2].1@).has_child(id);
                            if k2 == k {
                                let j = choose|j: int|
                                    0 <= j < nodes@[k2].1@.inputs.len()
                                        && #[trigger] nodes@[k2].1@.inputs[j].id() == id;
                                assert(nodes@[k as int].1@.inputs[j].id() == id);
                            }
                        }
                    }
                }
            }
            k = k + 1;
        }
        let r = ComputedNetworkWithBackwardEdges { network, backward, leafs };
        proof {
            assert forall|id: Id| consumer_list(network, id, #[trigger] r.consumers_of(id)) by {
                assert(r.consumers_of(id) == list_of(r.backward@, id));
                assert forall|x: Id| r.consumers_of(id).contains(x) <==> (reachable(network, x)
                    && network.spec_node(x).has_child(id)) by {
                    if reachable(network, x) && network.spec_node(x).has_child(id) {
                        let k2 = choose|k2: int| 0 <= k2 < nodes@.len() && nodes@[k2].0 == x;
                        assert(nodes@[k2].1@ == network.spec_node(x));
                        assert(seen_consumer(nodes@, nodes@.len() as int, 0, id, x));
                    }
                    if seen_consumer(nodes@, nodes@.len() as int, 0, id, x) {
                        let k2 = choose|k2: int|
                            0 <= k2 < nodes@.len() && nodes@[k2].0 == x && (
                            #[trigger] nodes@[k2].1@).has_child(id);
                        assert(nodes@[k2].1@ == network.spec_node(nodes@[k2].0));
                    }
                }
            }
            assert forall|x: Id| r.leaf_seq().contains(x) <==> (reachable(network, x)
                && network.spec_node(x).inputs.len() == 0) by {
                if reachable(network, x) && network.spec_node(x).inputs.len() == 0 {
                    let k2 = choose|k2: int| 0 <= k2 < nodes@.len() && nodes@[k2].0 == x;
                    assert(nodes@[k2].1@ == network.spec_node(x));
                }
                if r.leaf_seq().contains(x) {
                    let k2 = choose|k2: int|
                        0 <= k2 < nodes@.len() && nodes@[k2].0 == x && (
                        #[trigger] nodes@[k2].1@).inputs.len() == 0;
                    assert(nodes@[k2].1@ == network.spec_node(nodes@[k2].0));
                }
            }
        }
        r
    }
}

impl<'a, N: Network> Network for ComputedNetworkWithBackwardEdges<'a, N> {
    open spec fn spec_outputs(&self) -> Seq<Signal> {
        self.network.spec_outputs()
    }

    open spec fn contains(&self, id: Id) -> bool {
        self.network.contains(id)
    }

    open spec fn spec_node(&self, id: Id) -> NodeView {
        self.network.spec_node(id)
    }

    fn outputs(&self) -> (r: Vec<Signal>) {
        self.network.outputs()
    }

    fn node(&self, id: Id) -> (r: Node) {
        self.network.node(id)
    }
}

impl<'a, N: Network> NetworkWithBackwardEdges for ComputedNetworkWithBackwardEdges<'a, N> {
    open spec fn consumers_of(&self, id: Id) -> Seq<Id> {
        list_of(self.backward@, id)
    }

    open spec fn leaf_seq(&self) -> Seq<Id> {
        self.leafs@
    }

    fn node_outputs(&self, id: Id) -> (r: Vec<Id>) {
        match fx_get(&self.backward, id.0) {
            Some(list) => copy_ids(list.as_slice()),
            None => Vec::new(),
        }
    }

    fn leafs(&self) -> (r: Vec<Id>) {
        copy_ids(self.leafs.as_slice())
    }
}

/// Copies a slice of ids into a vector.
fn copy_ids(s: &[Id]) -> (r: Vec<Id>)
    ensures
        r@ == s@,
{
    let mut r: Vec<Id> = Vec::new();
    let mut i: usize = 0;
    while i < s.len()
        invariant
            i <= s@.len(),
            r@ == s@.subrange(0, i as int),
        decreases s@.len() - i,
    {
        r.push(s[i]);
        i = i + 1;
        assert(r@ =~= s@.subrange(0, i as int));
    }
    assert(r@ =~= s@);
    r
}

} // verus!
