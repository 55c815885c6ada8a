use vstd::prelude::*;
use crate::signal::{Id, Signal, replaced};
use crate::node::NodeView;
use crate::network::{
    Network, reachable, reachable_set, output_closed, lemma_output_reachable, lemma_input_reachable,
};
use crate::transfer::{transferred, map_node, map_signal, map_outputs, lemma_structural_sharing};
use crate::flat::{FlatNetwork, FlatView, index_signal};

verus! {

/// `b` is what a transfer of `a` into an empty [`FlatNetwork`] builds: the created nodes in
/// order, numbered from zero, and the mapped outputs.
pub open spec fn rebuilt<N: Network>(a: &N, b: FlatView) -> bool {
    exists|order: Seq<Id>, created: Seq<NodeView>, issued: Seq<Signal>, m: Map<u32, Signal>|
        #![trigger transferred(a, order, created, issued, m, b.outputs)]
        {
            &&& transferred(a, order, created, issued, m, b.outputs)
            &&& b.nodes == created
            &&& issued == Seq::new(created.len(), |k: int| index_signal(k))
        }
}

/// `phi` maps the reachable nodes of `a` one to one onto the nodes of `c`, uninverted, so that
/// each node of `c` is the image of its preimage with inputs mapped by `phi`, and the outputs
/// of `c` are those of `a` mapped by `phi`: the two are the same graph up to renaming.
pub open spec fn isomorphic_via<N: Network>(a: &N, c: FlatView, phi: Map<u32, Signal>) -> bool {
    &&& forall|x: Id|
        #[trigger] reachable(a, x) ==> {
            &&& phi.contains_key(x.0)
            &&& !phi[x.0].inverted()
            &&& phi[x.0].id().0 < c.nodes.len()
            &&& c.nodes[phi[x.0].id().0 as int] == map_node(a.spec_node(x), phi)
        }
    &&& forall|x: Id, y: Id|
        reachable(a, x) && reachable(a, y) && x != y ==> #[trigger] phi[x.0].id() != #[trigger] phi[y.0].id()
    &&& forall|k: int| 0 <= k < c.nodes.len() ==> #[trigger] image_of(a, phi, k)
    &&& c.outputs == map_outputs(a, phi)
}

/// Node `k` is the image of a reachable node.
pub open spec fn image_of<N: Network>(a: &N, phi: Map<u32, Signal>, k: int) -> bool {
    exists|x: Id| reachable(a, x) && phi[x.0].id().0 == k
}

/// `a` and `c` are the same graph up to renaming of node ids.
pub open spec fn isomorphic<N: Network>(a: &N, c: FlatView) -> bool {
    exists|phi: Map<u32, Signal>| isomorphic_via(a, c, phi)
}

/// Rebuilding a network in memory gives an isomorphic network.
pub proof fn lemma_rebuilt_isomorphic<N: Network>(a: &N, b: FlatView)
    requires
        rebuilt(a, b),
    ensures
        isomorphic(a, b),
{
    let (order, created, issued, m) = choose|
        order: Seq<Id>,
        created: Seq<NodeView>,
        issued: Seq<Signal>,
        m: Map<u32, Signal>,
    |
        #![trigger transferred(a, order, created, issued, m, b.outputs)]
        {
            &&& transferred(a, order, created, issued, m, b.outputs)
            &&& b.nodes == created
            &&& issued == Seq::new(created.len(), |k: int| index_signal(k))
        };
    lemma_structural_sharing(a, order, created, issued, m, b.outputs);
    crate::network::lemma_reachable_finite(a);
    assert forall|k: int| 0 <= k < order.len() implies (#[trigger] index_signal(k)).id().0 == k
        && !index_signal(k).inverted() by {
        order.unique_seq_to_set();
    }
    assert forall|x: Id| #[trigger] reachable(a, x) implies {
        &&& m.contains_key(x.0)
        &&& !m[x.0].inverted()
        &&& m[x.0].id().0 < b.nodes.len()
        &&& b.nodes[m[x.0].id().0 as int] == map_node(a.spec_node(x), m)
    } by {
        assert(reachable_set(a).contains(x));
        let k = choose|k: int| 0 <= k < order.len() && order[k] == x;
        assert(m[order[k].0] == issued[k]);
        assert(issued[k] == index_signal(k));
        assert(created[k] == map_node(a.spec_node(order[k]), m));
    }
    assert forall|x: Id, y: Id|
        reachable(a, x) && reachable(a, y) && x != y implies #[trigger] m[x.0].id() != #[trigger] m[y.0].id() by {
        assert(reachable_set(a).contains(x));
        assert(reachable_set(a).contains(y));
        let kx = choose|k: int| 0 <= k < order.len() && order[k] == x;
        let ky = choose|k: int| 0 <= k < order.len() && order[k] == y;
        assert(m[order[kx].0] == issued[kx]);
        assert(m[order[ky].0] == issued[ky]);
    }
    assert forall|k: int| 0 <= k < b.nodes.len() implies #[trigger] image_of(a, m, k) by {
        assert(order.to_set().contains(order[k]));
        assert(reachable(a, order[k]));
        assert(m[order[k].0] == issued[k]);
    }
    assert(isomorphic_via(a, b, m));
}

/// Mapping a signal through an uninverted signal and then through a second map is mapping it
/// through the composed map.
proof fn lemma_map_signal_compose(s: Signal, u: Signal, v: Signal)
    requires
        !u.inverted(),
    ensures
        replaced(replaced(s, u), v) == replaced(s, v),
{
    u.lemma_signal_of();
}

/// Every node that a rebuilt network holds is reachable in it.
proof fn lemma_rebuilt_all_reachable<N: Network>(a: &N, b: &FlatNetwork, phi: Map<u32, Signal>)
    requires
        isomorphic_via(a, b@, phi),
    ensures
        forall|x: Id| #[trigger] reachable(a, x) ==> reachable(b, phi[x.0].id()),
{
    assert forall|x: Id| #[trigger] reachable(a, x) implies reachable(b, phi[x.0].id()) by {
        assert forall|t: Set<Id>| #[trigger] output_closed(b, t) implies t.contains(phi[x.0].id()) by {
            let pre = Set::new(|y: Id| reachable(a, y) && t.contains(phi[y.0].id()));
            assert forall|i: int| 0 <= i < a.spec_outputs().len() implies pre.contains(
                #[trigger] a.spec_outputs()[i].id(),
            ) by {
                lemma_output_reachable(a, i);
                assert(b@.outputs[i] == map_signal(phi, a.spec_outputs()[i]));
                assert(b.spec_outputs()[i] == b@.outputs[i]);
                assert(t.contains(b.spec_outputs()[i].id()));
            }
            assert forall|y: Id, j: int|
                pre.contains(y) && 0 <= j < a.spec_node(y).inputs.len() implies pre.contains(
                #[trigger] a.spec_node(y).inputs[j].id(),
            ) by {
                let yb = phi[y.0].id();
                lemma_input_reachable(a, y, j);
                assert(b.spec_node(yb) == b@.nodes[yb.0 as int]);
                assert(b.spec_node(yb).inputs[j] == map_signal(phi, a.spec_node(y).inputs[j]));
                assert(t.contains(b.spec_node(yb).inputs[j].id()));
            }
            assert(output_closed(a, pre));
        }
    }
}

/// The map that follows `phi_ab` and then `phi_bc`.
pub open spec fn compose(phi_ab: Map<u32, Signal>, phi_bc: Map<u32, Signal>) -> Map<u32, Signal> {
    Map::new(|key: u32| phi_ab.contains_key(key), |key: u32| phi_bc[phi_ab[key].id().0])
}

proof fn lemma_compose_signal<N: Network>(
    a: &N,
    phi_ab: Map<u32, Signal>,
    phi_bc: Map<u32, Signal>,
    s: Signal,
)
    requires
        phi_ab.contains_key(s.id().0),
        !phi_ab[s.id().0].inverted(),
    ensures
        map_signal(phi_bc, map_signal(phi_ab, s)) == map_signal(compose(phi_ab, phi_bc), s),
{
    let u = phi_ab[s.id().0];
    lemma_map_signal_compose(s, u, phi_bc[u.id().0]);
    u.lemma_signal_of();
}

proof fn lemma_compose_nodes<N: Network>(
    a: &N,
    b: &FlatNetwork,
    c: FlatView,
    phi_ab: Map<u32, Signal>,
    phi_bc: Map<u32, Signal>,
)
    requires
        isomorphic_via(a, b@, phi_ab),
        isomorphic_via(b, c, phi_bc),
        forall|x: Id| #[trigger] reachable(a, x) ==> reachable(b, phi_ab[x.0].id()),
    ensures
        forall|x: Id|
            #[trigger] reachable(a, x) ==> {
                &&& compose(phi_ab, phi_bc).contains_key(x.0)
                &&& !compose(phi_ab, phi_bc)[x.0].inverted()
                &&& compose(phi_ab, phi_bc)[x.0].id().0 < c.nodes.len()
                &&& c.nodes[compose(phi_ab, phi_bc)[x.0].id().0 as int] == map_node(
                    a.spec_node(x),
                    compose(phi_ab, phi_bc),
                )
            },
{
    let psi = compose(phi_ab, phi_bc);
    assert forall|x: Id| #[trigger] reachable(a, x) implies {
        &&& psi.contains_key(x.0)
        &&& !psi[x.0].inverted()
        &&& psi[x.0].id().0 < c.nodes.len()
        &&& c.nodes[psi[x.0].id().0 as int] == map_node(a.spec_node(x), psi)
    } by {
        let y = phi_ab[x.0].id();
        assert(reachable(b, y));
        assert(b.spec_node(y) == b@.nodes[y.0 as int]);
        let node = a.spec_node(x);
        assert(map_node(map_node(node, phi_ab), phi_bc).inputs =~= map_node(node, psi).inputs) by {
            assert forall|j: int| 0 <= j < node.inputs.len() implies map_node(
                map_node(node, phi_ab),
                phi_bc,
            ).inputs[j] == map_node(node, psi).inputs[j] by {
                lemma_input_reachable(a, x, j);
                let z = node.inputs[j].id();
                assert(reachable(a, z));
                lemma_compose_signal(a, phi_ab, phi_bc, node.inputs[j]);
            }
        }
    }
}

proof fn lemma_compose_onto<N: Network>(
    a: &N,
    b: &FlatNetwork,
    c: FlatView,
    phi_ab: Map<u32, Signal>,
    phi_bc: Map<u32, Signal>,
)
    requires
        isomorphic_via(a, b@, phi_ab),
        isomorphic_via(b, c, phi_bc),
        forall|y: Id| #[trigger] reachable(b, y) ==> b.contains(y),
    ensures
        forall|k: int| 0 <= k < c.nodes.len() ==> #[trigger] image_of(a, compose(phi_ab, phi_bc), k),
{
    let psi = compose(phi_ab, phi_bc);
    assert forall|k: int| 0 <= k < c.nodes.len() implies #[trigger] image_of(a, psi, k) by {
        assert(image_of(b, phi_bc, k));
        let y = choose|y: Id| reachable(b, y) && phi_bc[y.0].id().0 == k;
        assert(b.contains(y));
        assert(image_of(a, phi_ab, y.0 as int));
        let x = choose|x: Id| reachable(a, x) && phi_ab[x.0].id().0 == y.0 as int;
        assert(phi_ab[x.0].id() == y);
        assert(psi[x.0] == phi_bc[y.0]);
    }
}

/// Round trip: transferring `a` into an in-memory network `b` and `b` into another in-memory
/// network `c` gives a network `c` that is the same graph as `a` up to renaming of node ids:
/// the same node kinds, the same connections with the same inversions, the same outputs in the
/// same order.
pub proof fn lemma_round_trip<N: Network>(a: &N, b: &FlatNetwork, c: FlatView)
    requires
        rebuilt(a, b@),
        rebuilt(b, c),
    ensures
        isomorphic(a, c),
{
    lemma_rebuilt_isomorphic(a, b@);
    lemma_rebuilt_isomorphic(b, c);
    let phi_ab = choose|phi: Map<u32, Signal>| isomorphic_via(a, b@, phi);
    let phi_bc = choose|phi: Map<u32, Signal>| isomorphic_via(b, c, phi);
    let psi = compose(phi_ab, phi_bc);
    lemma_rebuilt_all_reachable(a, b, phi_ab);
    lemma_rebuilt_contains(b, c);
    lemma_compose_nodes(a, b, c, phi_ab, phi_bc);
    lemma_compose_onto(a, b, c, phi_ab, phi_bc);
    assert forall|x: Id, y: Id|
        reachable(a, x) && reachable(a, y) && x != y implies #[trigger] psi[x.0].id()
        != #[trigger] psi[y.0].id() by {
        assert(phi_ab[x.0].id() != phi_ab[y.0].id());
        assert(reachable(b, phi_ab[x.0].id()));
        assert(reachable(b, phi_ab[y.0].id()));
    }
    assert(c.outputs =~= map_outputs(a, psi)) by {
        assert forall|i: int| 0 <= i < a.spec_outputs().len() implies c.outputs[i] == map_outputs(
            a,
            psi,
        )[i] by {
            lemma_output_reachable(a, i);
            let s = a.spec_outputs()[i];
            assert(reachable(a, s.id()));
            assert(b.spec_outputs()[i] == b@.outputs[i]);
            assert(b@.outputs[i] == map_signal(phi_ab, s));
            lemma_compose_signal(a, phi_ab, phi_bc, s);
        }
    }
    assert(isomorphic_via(a, c, psi));
}

/// The reachable nodes of a network that was rebuilt from are stored in it.
proof fn lemma_rebuilt_contains(b: &FlatNetwork, c: FlatView)
    requires
        rebuilt(b, c),
    ensures
        forall|y: Id| #[trigger] reachable(b, y) ==> b.contains(y),
{
    let (order, created, issued, m) = choose|
        order: Seq<Id>,
        created: Seq<NodeView>,
        issued: Seq<Signal>,
        m: Map<u32, Signal>,
    |
        #![trigger transferred(b, order, created, issued, m, c.outputs)]
        {
            &&& transferred(b, order, created, issued, m, c.outputs)
            &&& c.nodes == created
            &&& issued == Seq::new(created.len(), |k: int| index_signal(k))
        };
    lemma_structural_sharing(b, order, created, issued, m, c.outputs);
    assert forall|y: Id| #[trigger] reachable(b, y) implies b.contains(y) by {
        assert(reachable_set(b).contains(y));
        let k = choose|k: int| 0 <= k < order.len() && order[k] == y;
    }
}

/// What `send` promises for an empty in-memory receiver is a rebuild.
pub proof fn lemma_send_rebuilds<N: Network>(
    a: &N,
    before: FlatNetwork,
    after: FlatNetwork,
    outputs: Seq<Signal>,
    b: FlatNetwork,
)
    requires
        before@.nodes.len() == 0,
        crate::transfer::transfer_done(a, before, after, outputs),
        crate::transfer::Receiver::finished(&after, outputs, b),
    ensures
        rebuilt(a, b@),
{
    let (order, created, issued, m) = choose|
        order: Seq<Id>,
        created: Seq<NodeView>,
        issued: Seq<Signal>,
        m: Map<u32, Signal>,
    |
        {
            &&& transferred(a, order, created, issued, m, outputs)
            &&& crate::transfer::Receiver::received(&after) == crate::transfer::Receiver::received(&before) + created
            &&& crate::transfer::Receiver::issued(&after) == crate::transfer::Receiver::issued(&before) + issued
        };
    assert(before@.nodes =~= Seq::<NodeView>::empty());
    assert(crate::transfer::Receiver::issued(&before) =~= Seq::<Signal>::empty());
    assert(after@.nodes =~= created);
    assert(issued =~= Seq::new(created.len(), |k: int| index_signal(k)));
    assert(b@.outputs == outputs);
}

} // verus!
