use vstd::prelude::*;
use vstd::set_lib::{set_int_range, lemma_int_range, lemma_len_subset};
use crate::signal::{Id, Signal, ID_LIMIT};
use crate::node::{Node, NodeView};
use crate::fxmap::fx_set_insert;
use rustc_hash::FxHashSet;

verus! {

/// A logic network that can be read: its output signals and the node stored under each id.
pub trait Network {
    /// The output signals, in order.
    spec fn spec_outputs(&self) -> Seq<Signal>;

    /// Whether a node is stored under `id`.
    spec fn contains(&self, id: Id) -> bool;

    /// The node stored under `id`.
    spec fn spec_node(&self, id: Id) -> NodeView;

    /// Returns the output signals of the network.
    fn outputs(&self) -> (r: Vec<Signal>)
        ensures
            r@ == self.spec_outputs(),
    ;

    /// Returns the node with the given id.
    fn node(&self, id: Id) -> (r: Node)
        requires
            self.contains(id),
        ensures
            r@ == self.spec_node(id),
    ;
}

/// Every output and every input of a stored node references a stored node, and every stored
/// node has as many inputs as its kind asks for.
pub open spec fn closed<N: Network>(n: &N) -> bool {
    &&& forall|i: int|
        0 <= i < n.spec_outputs().len() ==> n.contains(#[trigger] n.spec_outputs()[i].id())
    &&& forall|id: Id| #[trigger] n.contains(id) ==> n.spec_node(id).wf()
    &&& forall|id: Id, j: int|
        n.contains(id) && 0 <= j < n.spec_node(id).inputs.len() ==> n.contains(
            #[trigger] n.spec_node(id).inputs[j].id(),
        )
}

/// `rank` strictly decreases from every stored node to each of its inputs.
pub open spec fn ranked<N: Network>(n: &N, rank: spec_fn(Id) -> nat) -> bool {
    forall|id: Id, j: int|
        n.contains(id) && 0 <= j < n.spec_node(id).inputs.len() ==> rank(
            #[trigger] n.spec_node(id).inputs[j].id(),
        ) < rank(id)
}

/// The network has no cycle: some rank strictly decreases along every edge.
pub open spec fn acyclic<N: Network>(n: &N) -> bool {
    exists|rank: spec_fn(Id) -> nat| ranked(n, rank)
}

/// `t` holds the node of every output and, with each of its ids, the nodes of that node's inputs.
pub open spec fn output_closed<N: Network>(n: &N, t: Set<Id>) -> bool {
    &&& forall|i: int|
        0 <= i < n.spec_outputs().len() ==> t.contains(#[trigger] n.spec_outputs()[i].id())
    &&& forall|id: Id, j: int|
        t.contains(id) && 0 <= j < n.spec_node(id).inputs.len() ==> t.contains(
            #[trigger] n.spec_node(id).inputs[j].id(),
        )
}

/// The node `id` can be reached from an output by following inputs: it lies in every set that
/// holds the outputs' nodes and is closed under taking inputs.
pub open spec fn reachable<N: Network>(n: &N, id: Id) -> bool {
    forall|t: Set<Id>| #[trigger] output_closed(n, t) ==> t.contains(id)
}

/// The ids of all nodes reachable from the outputs.
pub open spec fn reachable_set<N: Network>(n: &N) -> Set<Id> {
    Set::new(|id: Id| reachable(n, id))
}

/// The node of an output is reachable.
pub proof fn lemma_output_reachable<N: Network>(n: &N, i: int)
    requires
        0 <= i < n.spec_outputs().len(),
    ensures
        reachable(n, n.spec_outputs()[i].id()),
{
    assert forall|t: Set<Id>| #[trigger] output_closed(n, t) implies t.contains(
        n.spec_outputs()[i].id(),
    ) by {}
}

/// The node of an input of a reachable node is reachable.
pub proof fn lemma_input_reachable<N: Network>(n: &N, id: Id, j: int)
    requires
        reachable(n, id),
        0 <= j < n.spec_node(id).inputs.len(),
    ensures
        reachable(n, n.spec_node(id).inputs[j].id()),
{
    assert forall|t: Set<Id>| #[trigger] output_closed(n, t) implies t.contains(
        n.spec_node(id).inputs[j].id(),
    ) by {
        assert(t.contains(id));
    }
}

/// Only finitely many nodes are reachable: all of them have ids that fit in a signal.
pub proof fn lemma_reachable_finite<N: Network>(n: &N)
    ensures
        reachable_set(n).finite(),
        reachable_set(n).len() <= ID_LIMIT,
        forall|id: Id| #[trigger] reachable(n, id) ==> id.fits(),
{
    let fit = Set::new(|id: Id| id.fits());
    let f = |i: int| Id(i as u32);
    lemma_int_range(0, ID_LIMIT as int);
    set_int_range(0, ID_LIMIT as int).lemma_map_finite(f);
    assert(fit =~= set_int_range(0, ID_LIMIT as int).map(f)) by {
        assert forall|id: Id| fit.contains(id) implies set_int_range(
            0,
            ID_LIMIT as int,
        ).map(f).contains(id) by {
            assert(set_int_range(0, ID_LIMIT as int).contains(id.0 as int));
            assert(f(id.0 as int) == id);
        }
    }
    assert(output_closed(n, fit));
    assert(reachable_set(n).subset_of(fit));
    vstd::set_lib::lemma_map_size_bound(set_int_range(0, ID_LIMIT as int), fit, f);
    lemma_len_subset(reachable_set(n), fit);
    assert forall|id: Id| #[trigger] reachable(n, id) implies id.fits() by {
        assert(reachable_set(n).contains(id));
    }
}

/// Grows by a factor larger than any fan-in for each step of rank.
pub open spec fn rank_weight(r: nat) -> nat
    decreases r,
{
    if r == 0 {
        1
    } else {
        64 * rank_weight((r - 1) as nat)
    }
}

/// A weight never drops below one.
pub proof fn lemma_rank_weight_positive(a: nat)
    ensures
        1 <= rank_weight(a),
    decreases a,
{
    if a > 0 {
        lemma_rank_weight_positive((a - 1) as nat);
    }
}

/// One step of rank multiplies a weight by at least 64.
pub proof fn lemma_rank_weight(a: nat, b: nat)
    requires
        a < b,
    ensures
        1 <= rank_weight(a),
        64 * rank_weight(a) <= rank_weight(b),
    decreases b,
{
    lemma_rank_weight_positive(a);
    if a + 1 < b {
        lemma_rank_weight(a, (b - 1) as nat);
    }
}

/// The sum of the weights of the ranks of the ids on a stack.
spec fn stack_measure(stack: Seq<Id>, rank: spec_fn(Id) -> nat) -> nat
    decreases stack.len(),
{
    if stack.len() == 0 {
        0
    } else {
        stack_measure(stack.drop_last(), rank) + rank_weight(rank(stack.last()))
    }
}

/// Returns every node reachable from the outputs of `n`, each once, paired with its id.
/// The walk keeps its own stack, so deep networks need no recursion.
pub fn reachable_nodes<N: Network>(n: &N) -> (r: Vec<(Id, Node)>)
    requires
        closed(n),
        acyclic(n),
    ensures
        forall|k1: int, k2: int|
            #![trigger r@[k1], r@[k2]]
            0 <= k1 < k2 < r@.len() ==> r@[k1].0 != r@[k2].0,
        forall|k: int|
            #![trigger r@[k]]
            0 <= k < r@.len() ==> {
                &&& n.contains(r@[k].0)
                &&& reachable(n, r@[k].0)
                &&& r@[k].1@ == n.spec_node(r@[k].0)
            },
        forall|id: Id| reachable(n, id) ==> exists|k: int| 0 <= k < r@.len() && r@[k].0 == id,
{
    let ghost rank = choose|rank: spec_fn(Id) -> nat| ranked(n, rank);
    let mut visited: FxHashSet<u32> = FxHashSet::default();
    let mut remaining: Vec<Id> = Vec::new();
    let mut result: Vec<(Id, Node)> = Vec::new();
    let outputs = n.outputs();
    let mut i: usize = 0;
    while i < outputs.len()
        invariant
            closed(n),
            outputs@ == n.spec_outputs(),
            i <= outputs@.len(),
            remaining@.len() == i,
            forall|i2: int| 0 <= i2 < i ==> remaining@[i2] == (#[trigger] outputs@[i2]).id(),
        decreases outputs@.len() - i,
    {
        remaining.push(outputs[i].node_id());
        i = i + 1;
    }
    proof {
        assert forall|s: int| 0 <= s < remaining@.len() implies n.contains(#[trigger] remaining@[s])
            && reachable(n, remaining@[s]) by {
            assert(remaining@[s] == outputs@[s].id());
            lemma_output_reachable(n, s);
        }
        assert forall|i2: int| 0 <= i2 < outputs@.len() implies visited@.contains(
            (#[trigger] outputs@[i2]).id().0,
        ) || remaining@.contains(outputs@[i2].id()) by {
            assert(remaining@[i2] == outputs@[i2].id());
        }
    }
    while remaining.len() > 0
        invariant
            closed(n),
            ranked(n, rank),
            outputs@ == n.spec_outputs(),
            forall|s: int|
                0 <= s < remaining@.len() ==> n.contains(#[trigger] remaining@[s]) && reachable(
                    n,
                    remaining@[s],
                ),
            forall|key: u32|
                #[trigger] visited@.contains(key) <==> exists|k: int|
                    0 <= k < result@.len() && result@[k].0.0 == key,
            forall|k1: int, k2: int|
                #![trigger result@[k1], result@[k2]]
                0 <= k1 < k2 < result@.len() ==> result@[k1].0 != result@[k2].0,
            forall|k: int|
                #![trigger result@[k]]
                0 <= k < result@.len() ==> {
                    &&& n.contains(result@[k].0)
                    &&& reachable(n, result@[k].0)
                    &&& result@[k].1@ == n.spec_node(result@[k].0)
                },
            forall|k: int, j: int|
                0 <= k < result@.len() && 0 <= j < n.spec_node(result@[k].0).inputs.len() ==> {
                    let c = (#[trigger] n.spec_node(result@[k].0).inputs[j]).id();
                    visited@.contains(c.0) || remaining@.contains(c)
                },
            forall|i2: int|
                0 <= i2 < outputs@.len() ==> visited@.contains((#[trigger] outputs@[i2]).id().0)
                    || remaining@.contains(outputs@[i2].id()),
        decreases stack_measure(remaining@, rank),
    {
        let ghost old_remaining = remaining@;
        let ghost old_visited = visited@;
        let ghost old_result = result@;
        let id = remaining.pop().unwrap();
        proof {
            assert(remaining@ =~= old_remaining.drop_last());
            assert(old_remaining.last() == id);
            assert(n.contains(old_remaining[old_remaining.len() - 1]));
        }
        if fx_set_insert(&mut visited, id.0) {
            let node = n.node(id);
            let ghost base = stack_measure(remaining@, rank);
            let ghost w = rank_weight(rank(id));
            let mut j: usize = 0;
            while j < node.inputs.len()
                invariant
                    closed(n),
                    ranked(n, rank),
                    n.contains(id),
                    reachable(n, id),
                    node@ == n.spec_node(id),
                    j <= node.inputs@.len(),
                    w == rank_weight(rank(id)),
                    old_remaining.len() >= 1,
                    remaining@.len() == old_remaining.len() - 1 + j,
                    forall|s: int|
                        0 <= s < old_remaining.len() - 1 ==> remaining@[s] == old_remaining[s],
                    forall|j2: int|
                        0 <= j2 < j ==> remaining@[old_remaining.len() - 1 + j2]
                            == (#[trigger] node@.inputs[j2]).id(),
                    forall|s: int|
                        0 <= s < remaining@.len() ==> n.contains(#[trigger] remaining@[s])
                            && reachable(n, remaining@[s]),
                    64 * (stack_measure(remaining@, rank) - base) <= j * w,
                    stack_measure(remaining@, rank) >= base,
                decreases node.inputs@.len() - j,
            {
                let c = node.inputs[j].node_id();
                proof {
                    lemma_input_reachable(n, id, j as int);
                    lemma_rank_weight(rank(c), rank(id));
                }
                let ghost before = remaining@;
                remaining.push(c);
                proof {
                    assert(remaining@.drop_last() =~= before);
                    assert(stack_measure(remaining@, rank) == stack_measure(before, rank)
                        + rank_weight(rank(c)));
                    assert(c == node@.inputs[j as int].id());
                    let d0 = stack_measure(before, rank) - base;
                    let wc = rank_weight(rank(c));
                    assert(64 * (d0 + wc) <= (j + 1) * w) by (nonlinear_arith)
                        requires
                            64 * d0 <= j * w,
                            64 * wc <= w,
                    ;
                }
                j = j + 1;
            }
            proof {
                assert(node@.inputs.len() <= 32) by {
                    assert(n.spec_node(id).wf());
                }
                lemma_rank_weight_positive(rank(id));
                assert(stack_measure(old_remaining, rank) == base + w);
                let d = stack_measure(remaining@, rank) - base;
                let l = node@.inputs.len();
                assert(d < w) by (nonlinear_arith)
                    requires
                        64 * d <= l * w,
                        l <= 32,
                        w >= 1,
                ;
            }
            let ghost k_new = result@.len();
            result.push((id, node));
            proof {
                assert forall|key: u32| #[trigger] visited@.contains(key) <==> exists|k: int|
                    0 <= k < result@.len() && result@[k].0.0 == key by {
                    if visited@.contains(key) && key != id.0 {
                        assert(old_visited.contains(key));
                        let k = choose|k: int| 0 <= k < old_result.len() && old_result[k].0.0 == key;
                        assert(result@[k] == old_result[k]);
                    }
                    if key == id.0 {
                        assert(result@[k_new as int].0.0 == key);
                    }
                    if exists|k: int| 0 <= k < result@.len() && result@[k].0.0 == key {
                        let k = choose|k: int| 0 <= k < result@.len() && result@[k].0.0 == key;
                        if k < k_new {
                            assert(result@[k] == old_result[k]);
                        }
                    }
                }
                assert forall|k1: int, k2: int|
                    #![trigger result@[k1], result@[k2]]
                    0 <= k1 < k2 < result@.len() implies result@[k1].0 != result@[k2].0 by {
                    assert(result@[k1] == old_result[k1]);
                    if k2 < k_new {
                        assert(result@[k2] == old_result[k2]);
                    } else {
                        assert(old_visited.contains(old_result[k1].0.0));
                    }
                }
                assert forall|k: int|
                    #![trigger result@[k]]
                    0 <= k < result@.len() implies {
                        &&& n.contains(result@[k].0)
                        &&& reachable(n, result@[k].0)
                        &&& result@[k].1@ == n.spec_node(result@[k].0)
                    } by {
                    if k < k_new {
                        assert(result@[k] == old_result[k]);
                    }
                }
                assert forall|k: int, j: int|
                    0 <= k < result@.len() && 0 <= j < n.spec_node(result@[k].0).inputs.len() implies {
                        let c = (#[trigger] n.spec_node(result@[k].0).inputs[j]).id();
                        visited@.contains(c.0) || remaining@.contains(c)
                    } by {
                    let c = n.spec_node(result@[k].0).inputs[j].id();
                    if k < k_new {
                        assert(result@[k] == old_result[k]);
                        if !old_visited.contains(c.0) {
                            assert(old_remaining.contains(c));
                            let s = choose|s: int| 0 <= s < old_remaining.len() && old_remaining[s] == c;
                            if s < old_remaining.len() - 1 {
                                assert(remaining@[s] == c);
                            }
                        }
                    } else {
                        assert(remaining@[old_remaining.len() - 1 + j] == c);
                    }
                }
                assert forall|i2: int| 0 <= i2 < outputs@.len() implies visited@.contains(
                    (#[trigger] outputs@[i2]).id().0,
                ) || remaining@.contains(outputs@[i2].id()) by {
                    let c = outputs@[i2].id();
                    if !old_visited.contains(c.0) && c != id {
                        let s = choose|s: int| 0 <= s < old_remaining.len() && old_remaining[s] == c;
                        assert(remaining@[s] == c);
                    }
                }
            }
        } else {
            proof {
                assert(stack_measure(old_remaining, rank) == stack_measure(remaining@, rank)
                    + rank_weight(rank(id)));
                lemma_rank_weight_positive(rank(id));
                assert forall|k: int, j: int|
                    0 <= k < result@.len() && 0 <= j < n.spec_node(result@[k].0).inputs.len() implies {
                        let c = (#[trigger] n.spec_node(result@[k].0).inputs[j]).id();
                        visited@.contains(c.0) || remaining@.contains(c)
                    } by {
                    let c = n.spec_node(result@[k].0).inputs[j].id();
                    if !visited@.contains(c.0) {
                        let s = choose|s: int| 0 <= s < old_remaining.len() && old_remaining[s] == c;
                        assert(remaining@[s] == c);
                    }
                }
                assert forall|i2: int| 0 <= i2 < outputs@.len() implies visited@.contains(
                    (#[trigger] outputs@[i2]).id().0,
                ) || remaining@.contains(outputs@[i2].id()) by {
                    let c = outputs@[i2].id();
                    if !visited@.contains(c.0) {
                        let s = choose|s: int| 0 <= s < old_remaining.len() && old_remaining[s] == c;
                        assert(remaining@[s] == c);
                    }
                }
            }
        }
    }
    proof {
        let t = Set::new(|id: Id| visited@.contains(id.0));
        assert forall|i2: int| 0 <= i2 < n.spec_outputs().len() implies t.contains(
            #[trigger] n.spec_outputs()[i2].id(),
        ) by {
            assert(outputs@[i2] == n.spec_outputs()[i2]);
        }
        assert forall|id: Id, j: int|
            t.contains(id) && 0 <= j < n.spec_node(id).inputs.len() implies t.contains(
            #[trigger] n.spec_node(id).inputs[j].id(),
        ) by {
            let k = choose|k: int| 0 <= k < result@.len() && result@[k].0.0 == id.0;
            assert(result@[k].0 == id);
        }
        assert(output_closed(n, t));
        assert forall|id: Id| reachable(n, id) implies exists|k: int|
            0 <= k < result@.len() && result@[k].0 == id by {
            assert(t.contains(id));
            let k = choose|k: int| 0 <= k < result@.len() && result@[k].0.0 == id.0;
            assert(result@[k].0 == id);
        }
    }
    result
}

} // verus!
