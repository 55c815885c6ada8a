use vstd::prelude::*;
use egg::{Rewrite, SymbolLang};
use crate::signal::{Id, Signal, inverted_signal, ID_LIMIT};
use crate::node::{Node, NodeView, MAX_FANIN};
use crate::network::{Network, closed, acyclic, ranked, reachable_set};
use crate::transfer::{Receiver, send, transfer_done};
use crate::flat::{FlatNetwork, FlatView, index_signal};
use crate::text::{Op, text_op, op_arity, text_to_op};
use crate::egraph::{
    Cost, EGraphReceiver, TermNode, egraph_size, term_view, make_rewrite, rule_valid, saturate,
    extract_best,
};

verus! {

/// Why a rewrite did not produce a network.
#[derive(Clone, Copy, Debug, PartialEq, Eq, Structural)]
pub enum RewriteError {
    /// A network ran out of node ids.
    Capacity,
    /// A rule's patterns do not parse, or its right side uses a variable that its left side
    /// does not bind.
    InvalidRule,
    /// An extracted term is not a list of known operators over earlier positions.
    MalformedTerm,
    /// An id does not name a class of the e-graph.
    UnknownNode,
    /// The e-graph that the network is first transferred into ran out of class ids.
    GraphFull,
}

/// A rewrite rule in egg's pattern syntax, e.g. `(maj ?a ?b ?c)` => `(maj ?b ?a ?c)`.
pub struct Rule {
    pub name: String,
    pub lhs: String,
    pub rhs: String,
}

/// Every node of the term has a known operator with the right number of children, all at
/// earlier positions, and the term is not empty.
pub open spec fn term_ok(t: Seq<(Seq<char>, Seq<u32>)>) -> bool {
    &&& t.len() > 0
    &&& forall|q: int|
        0 <= q < t.len() ==> {
            &&& (#[trigger] text_op(t[q].0)) is Some
            &&& t[q].1.len() == op_arity(text_op(t[q].0)->0)
            &&& forall|j: int| 0 <= j < t[q].1.len() ==> (t[q].1[j] as int) < q
        }
}

/// The number of nodes of a term that are not NOTs.
pub open spec fn term_count(t: Seq<(Seq<char>, Seq<u32>)>) -> nat
    decreases t.len(),
{
    if t.len() == 0 {
        0
    } else {
        term_count(t.drop_last()) + if text_op(t.last().0) == Some(Op::Not) {
            0nat
        } else {
            1nat
        }
    }
}

/// The number of nodes of all terms that are not NOTs.
pub open spec fn terms_count(ts: Seq<Seq<(Seq<char>, Seq<u32>)>>) -> nat
    decreases ts.len(),
{
    if ts.len() == 0 {
        0
    } else {
        terms_count(ts.drop_last()) + term_count(ts.last())
    }
}

/// The signal `sigs[q]` stands for position `q` of the term `t` in the network `net`: a NOT
/// inverts the signal of its child, and any other operator is a node of `net` of that kind whose
/// inputs are the signals of its children.
pub open spec fn term_position_decoded(
    t: Seq<(Seq<char>, Seq<u32>)>,
    net: FlatView,
    sigs: Seq<Signal>,
    q: int,
) -> bool {
    match text_op(t[q].0) {
        Some(Op::Not) => sigs[q] == inverted_signal(sigs[t[q].1[0] as int]),
        Some(Op::Kind(k)) => {
            &&& !sigs[q].inverted()
            &&& sigs[q].id().0 < net.nodes.len()
            &&& net.nodes[sigs[q].id().0 as int] == NodeView {
                kind: k,
                inputs: t[q].1.map_values(|c: u32| sigs[c as int]),
            }
        },
        None => false,
    }
}

/// `net` realises the terms: the signals `sigs[i]` stand for the positions of term `i`, the
/// last of them is output `i`, and each node of `net` stands for some position of some term.
pub open spec fn terms_decoded(
    ts: Seq<Seq<(Seq<char>, Seq<u32>)>>,
    net: FlatView,
    sigs: Seq<Seq<Signal>>,
) -> bool {
    &&& sigs.len() == ts.len()
    &&& net.outputs.len() == ts.len()
    &&& forall|i: int|
        0 <= i < ts.len() ==> {
            &&& (#[trigger] sigs[i]).len() == ts[i].len()
            &&& net.outputs[i] == sigs[i].last()
            &&& forall|q: int| 0 <= q < ts[i].len() ==> term_position_decoded(ts[i], net, sigs[i], q)
        }
    &&& forall|k: int| 0 <= k < net.nodes.len() ==> #[trigger] stands_for_node(ts, sigs, k)
}

/// Node `k` is what some position of some term, other than a NOT, stands for.
pub open spec fn stands_for_node(
    ts: Seq<Seq<(Seq<char>, Seq<u32>)>>,
    sigs: Seq<Seq<Signal>>,
    k: int,
) -> bool {
    exists|i: int, q: int|
        0 <= i < ts.len() && i < sigs.len() && 0 <= q < ts[i].len() && text_op(ts[i][q].0) != Some(
            Op::Not,
        ) && (#[trigger] sigs[i][q]).id().0 == k
}

/// Node `k` is what one of the first `bound` positions of the term `t`, other than a NOT,
/// stands for.
pub open spec fn position_for(t: Seq<(Seq<char>, Seq<u32>)>, sigs: Seq<Signal>, bound: int, k: int) -> bool {
    exists|q2: int|
        0 <= q2 < bound && text_op(t[q2].0) != Some(Op::Not) && (#[trigger] sigs[q2]).id().0 == k
}

/// Every node of the network has the right number of inputs, all at smaller ids.
pub open spec fn topologically_ordered(net: FlatView) -> bool {
    forall|k: int|
        0 <= k < net.nodes.len() ==> {
            &&& (#[trigger] net.nodes[k]).wf()
            &&& forall|j: int| 0 <= j < net.nodes[k].inputs.len() ==> net.nodes[k].inputs[j].id().0 < k
        }
}

/// A network whose inputs always point to smaller ids, and whose outputs point into its table,
/// can be sent.
pub proof fn lemma_ordered_network(net: &FlatNetwork)
    requires
        topologically_ordered(net@),
        forall|i: int|
            0 <= i < net.outputs@.len() ==> (#[trigger] net.outputs@[i]).id().0 < net.nodes@.len(),
    ensures
        closed(net),
        acyclic(net),
{
    assert forall|id: Id| #[trigger] net.contains(id) implies net.spec_node(id).wf() by {
        assert(net@.nodes[id.0 as int] == net.nodes@[id.0 as int]@);
    }
    assert forall|id: Id, j: int|
        net.contains(id) && 0 <= j < net.spec_node(id).inputs.len() implies net.contains(
        #[trigger] net.spec_node(id).inputs[j].id(),
    ) by {
        assert(net@.nodes[id.0 as int] == net.nodes@[id.0 as int]@);
    }
    let rank = |id: Id| id.0 as nat;
    assert forall|id: Id, j: int|
        net.contains(id) && 0 <= j < net.spec_node(id).inputs.len() implies rank(
        #[trigger] net.spec_node(id).inputs[j].id(),
    ) < rank(id) by {
        assert(net@.nodes[id.0 as int] == net.nodes@[id.0 as int]@);
    }
    assert(ranked(net, rank));
}

/// `net` is a network whose inputs point to smaller ids and whose outputs point into its
/// table, and which realises the terms `ts`.
pub open spec fn network_of_terms(ts: Seq<Seq<(Seq<char>, Seq<u32>)>>, net: FlatView) -> bool {
    &&& topologically_ordered(net)
    &&& forall|i: int| 0 <= i < net.outputs.len() ==> (#[trigger] net.outputs[i]).id().0 < net.nodes.len()
    &&& exists|sigs: Seq<Seq<Signal>>| terms_decoded(ts, net, sigs)
}

/// A decoded position stays decoded when signals are appended and nodes are added.
proof fn lemma_position_stable(
    t: Seq<(Seq<char>, Seq<u32>)>,
    net: FlatView,
    net2: FlatView,
    sigs: Seq<Signal>,
    sigs2: Seq<Signal>,
    q: int,
)
    requires
        0 <= q < sigs.len() <= sigs2.len(),
        sigs == sigs2.subrange(0, sigs.len() as int),
        net.nodes.len() <= net2.nodes.len(),
        net.nodes == net2.nodes.subrange(0, net.nodes.len() as int),
        term_position_decoded(t, net, sigs, q),
        text_op(t[q].0) is Some,
        t[q].1.len() == op_arity(text_op(t[q].0)->0),
        forall|j: int| 0 <= j < t[q].1.len() ==> (t[q].1[j] as int) < q,
    ensures
        term_position_decoded(t, net2, sigs2, q),
{
    assert(sigs2[q] == sigs[q]);
    match text_op(t[q].0) {
        Some(Op::Not) => {
            assert(sigs2[t[q].1[0] as int] == sigs[t[q].1[0] as int]);
        },
        Some(Op::Kind(k)) => {
            assert(net2.nodes[sigs[q].id().0 as int] == net.nodes[sigs[q].id().0 as int]);
            assert(t[q].1.map_values(|c: u32| sigs2[c as int]) =~= t[q].1.map_values(
                |c: u32| sigs[c as int],
            ));
        },
        None => {},
    }
}

/// The mathematical value of a list of terms.
pub open spec fn terms_view(ts: Seq<Vec<TermNode>>) -> Seq<Seq<(Seq<char>, Seq<u32>)>> {
    ts.map_values(|t: Vec<TermNode>| term_view(t@))
}

proof fn lemma_term_count_step(t: Seq<(Seq<char>, Seq<u32>)>, q: int)
    requires
        0 <= q < t.len(),
    ensures
        term_count(t.subrange(0, q + 1)) == term_count(t.subrange(0, q)) + if text_op(t[q].0)
            == Some(Op::Not) {
            0nat
        } else {
            1nat
        },
{
    assert(t.subrange(0, q + 1).drop_last() =~= t.subrange(0, q));
}

proof fn lemma_term_count_prefix(t: Seq<(Seq<char>, Seq<u32>)>, q: int)
    requires
        0 <= q <= t.len(),
    ensures
        term_count(t.subrange(0, q)) <= term_count(t),
    decreases t.len() - q,
{
    if q < t.len() {
        lemma_term_count_step(t, q);
        lemma_term_count_prefix(t, q + 1);
    } else {
        assert(t.subrange(0, q) =~= t);
    }
}

proof fn lemma_terms_count_step(ts: Seq<Seq<(Seq<char>, Seq<u32>)>>, i: int)
    requires
        0 <= i < ts.len(),
    ensures
        terms_count(ts.subrange(0, i + 1)) == terms_count(ts.subrange(0, i)) + term_count(ts[i]),
{
    assert(ts.subrange(0, i + 1).drop_last() =~= ts.subrange(0, i));
}

proof fn lemma_terms_count_prefix(ts: Seq<Seq<(Seq<char>, Seq<u32>)>>, i: int)
    requires
        0 <= i <= ts.len(),
    ensures
        terms_count(ts.subrange(0, i)) <= terms_count(ts),
    decreases ts.len() - i,
{
    if i < ts.len() {
        lemma_terms_count_step(ts, i);
        lemma_terms_count_prefix(ts, i + 1);
    } else {
        assert(ts.subrange(0, i) =~= ts);
    }
}

/// Builds the network that the extracted terms describe: each term becomes the nodes of its
/// non-NOT positions, a NOT inverts the signal of its child, and the last position of term `i`
/// becomes output `i`.
pub fn terms_to_network(terms: &Vec<Vec<TermNode>>) -> (r: Result<FlatNetwork, RewriteError>)
    ensures
        r is Ok ==> network_of_terms(terms_view(terms@), r->Ok_0@),
        r == Err::<FlatNetwork, RewriteError>(RewriteError::MalformedTerm) ==> exists|i: int|
            0 <= i < terms@.len() && !term_ok(#[trigger] terms_view(terms@)[i]),
        r == Err::<FlatNetwork, RewriteError>(RewriteError::Capacity) ==> terms_count(
            terms_view(terms@),
        ) > ID_LIMIT,
        r is Err ==> r == Err::<FlatNetwork, RewriteError>(RewriteError::MalformedTerm) || r == Err::<
            FlatNetwork,
            RewriteError,
        >(RewriteError::Capacity),
{
    let ghost ts = terms_view(terms@);
    let ghost mut all_sigs: Seq<Seq<Signal>> = Seq::empty();
    let mut net = FlatNetwork::new();
    let mut outputs: Vec<Signal> = Vec::new();
    let mut i: usize = 0;
    while i < terms.len()
        invariant
            ts == terms_view(terms@),
            i <= terms@.len(),
            net.inv(),
            net@.nodes.len() == terms_count(ts.subrange(0, i as int)),
            topologically_ordered(net@),
            all_sigs.len() == i,
            outputs@.len() == i,
            forall|i2: int|
                0 <= i2 < i ==> {
                    &&& (#[trigger] all_sigs[i2]).len() == ts[i2].len()
                    &&& ts[i2].len() > 0
                    &&& outputs@[i2] == all_sigs[i2].last()
                    &&& outputs@[i2].id().0 < net@.nodes.len()
                    &&& forall|q: int|
                        0 <= q < ts[i2].len() ==> term_position_decoded(
                            ts[i2],
                            net@,
                            all_sigs[i2],
                            q,
                        )
                },
            forall|k: int| 0 <= k < net@.nodes.len() ==> #[trigger] stands_for_node(ts, all_sigs, k),
        decreases terms@.len() - i,
    {
        let t = &terms[i];
        let ghost tv = ts[i as int];
        proof {
            assert(tv == term_view(t@));
        }
        if t.len() == 0 {
            proof {
                assert(!term_ok(ts[i as int]));
            }
            return Err(RewriteError::MalformedTerm);
        }
        let ghost base = net@.nodes.len();
        let ghost net0 = net@;
        let mut sigs: Vec<Signal> = Vec::new();
        let mut q: usize = 0;
        while q < t.len()
            invariant
                ts == terms_view(terms@),
                i < terms@.len(),
                tv == ts[i as int],
                tv == term_view(t@),
                tv.len() > 0,
                q <= tv.len(),
                net.inv(),
                net@.nodes.len() == terms_count(ts.subrange(0, i as int)) + term_count(
                    tv.subrange(0, q as int),
                ),
                base == terms_count(ts.subrange(0, i as int)),
                net0.nodes == net@.nodes.subrange(0, base as int),
                base <= net@.nodes.len(),
                topologically_ordered(net@),
                sigs@.len() == q,
                forall|q2: int| 0 <= q2 < q ==> (#[trigger] sigs@[q2]).id().0 < net@.nodes.len(),
                forall|q2: int| 0 <= q2 < q ==> term_position_decoded(tv, net@, sigs@, q2),
                forall|q2: int|
                    0 <= q2 < q ==> {
                        &&& (#[trigger] text_op(tv[q2].0)) is Some
                        &&& tv[q2].1.len() == op_arity(text_op(tv[q2].0)->0)
                        &&& forall|j: int| 0 <= j < tv[q2].1.len() ==> (tv[q2].1[j] as int) < q2
                    },
                forall|k: int|
                    base <= k < net@.nodes.len() ==> #[trigger] position_for(tv, sigs@, q as int, k),
            decreases tv.len() - q,
        {
            let entry = &t[q];
            proof {
                assert(tv[q as int] == (entry.op@, entry.children@));
                lemma_term_count_step(tv, q as int);
            }
            let op = match text_to_op(entry.op.as_str()) {
                Some(op) => op,
                None => {
                    proof {
                        assert(!term_ok(ts[i as int])) by {
                            assert(text_op(tv[q as int].0) is None);
                        }
                    }
                    return Err(RewriteError::MalformedTerm);
                },
            };
            let arity: usize = match op {
                Op::Not => 1,
                Op::Kind(k) => k.fanin(),
            };
            proof {
                assert(text_op(tv[q as int].0) == Some(op));
                assert(arity == op_arity(op));
            }
            if entry.children.len() != arity {
                proof {
                    assert(!term_ok(ts[i as int])) by {
                        assert(text_op(tv[q as int].0) is Some);
                    }
                }
                return Err(RewriteError::MalformedTerm);
            }
            let mut j: usize = 0;
            while j < entry.children.len()
                invariant
                    j <= entry.children@.len(),
                    forall|j2: int| 0 <= j2 < j ==> (entry.children@[j2] as int) < q,
                    ts == terms_view(terms@),
                    i < terms@.len(),
                    tv == ts[i as int],
                    q < tv.len(),
                    tv[q as int] == (entry.op@, entry.children@),
                    text_op(tv[q as int].0) == Some(op),
                    entry.children@.len() == op_arity(op),
                decreases entry.children@.len() - j,
            {
                if entry.children[j] as usize >= q {
                    proof {
                        assert(!term_ok(ts[i as int])) by {
                            assert(text_op(tv[q as int].0) is Some);
                            assert(tv[q as int].1[j as int] == entry.children@[j as int]);
                        }
                    }
                    return Err(RewriteError::MalformedTerm);
                }
                j = j + 1;
            }
            let ghost net1 = net@;
            match op {
                Op::Not => {
                    let s = sigs[entry.children[0] as usize].invert();
                    let ghost old_sigs = sigs@;
                    sigs.push(s);
                    proof {
                        assert(old_sigs =~= sigs@.subrange(0, q as int));
                        assert(net@.nodes =~= net@.nodes.subrange(0, net@.nodes.len() as int));
                        assert forall|q2: int| 0 <= q2 < q + 1 implies term_position_decoded(
                            tv,
                            net@,
                            sigs@,
                            q2,
                        ) by {
                            if q2 < q {
                                lemma_position_stable(tv, net@, net@, old_sigs, sigs@, q2);
                            }
                        }
                    }
                },
                Op::Kind(k) => {
                    let mut inputs: Vec<Signal> = Vec::new();
                    let mut j: usize = 0;
                    while j < entry.children.len()
                        invariant
                            j <= entry.children@.len(),
                            inputs@.len() == j,
                            sigs@.len() == q,
                            forall|j2: int| 0 <= j2 < entry.children@.len() ==> (entry.children@[j2] as int) < q,
                            forall|j2: int|
                                0 <= j2 < j ==> inputs@[j2] == sigs@[entry.children@[j2] as int],
                        decreases entry.children@.len() - j,
                    {
                        inputs.push(sigs[entry.children[j] as usize]);
                        j = j + 1;
                    }
                    let node = Node { kind: k, inputs };
                    proof {
                        assert(node@.inputs =~= tv[q as int].1.map_values(|c: u32| sigs@[c as int]));
                        assert forall|j2: int| 0 <= j2 < node@.inputs.len() implies crate::transfer::issued_id(
                            net.issued(),
                            #[trigger] node@.inputs[j2].id(),
                        ) by {
                            let c = entry.children@[j2] as int;
                            let id = sigs@[c].id();
                            assert(net.issued()[id.0 as int] == index_signal(id.0 as int));
                        }
                    }
                    let s = match net.create_node(node) {
                        Ok(s) => s,
                        Err(_) => {
                            proof {
                                lemma_term_count_prefix(tv, q + 1);
                                lemma_terms_count_step(ts, i as int);
                                lemma_terms_count_prefix(ts, i + 1);
                            }
                            return Err(RewriteError::Capacity);
                        },
                    };
                    let ghost old_sigs = sigs@;
                    proof {
                        assert(net.received().len() == net1.nodes.len() + 1);
                        assert(net.issued().len() == net1.nodes.len() + 1);
                        assert(net.issued()[net1.nodes.len() as int] == s);
                        assert(s == index_signal(net1.nodes.len() as int));
                        assert(s.id().0 == net1.nodes.len());
                        assert(!s.inverted());
                    }
                    sigs.push(s);
                    proof {
                        assert(net@.nodes =~= net1.nodes.push(node@));
                        assert(old_sigs =~= sigs@.subrange(0, q as int));
                        assert(net1.nodes =~= net@.nodes.subrange(0, net1.nodes.len() as int));
                        assert forall|q2: int| 0 <= q2 < q + 1 implies term_position_decoded(
                            tv,
                            net@,
                            sigs@,
                            q2,
                        ) by {
                            if q2 < q {
                                lemma_position_stable(tv, net1, net@, old_sigs, sigs@, q2);
                            } else {
                                assert(tv[q as int].1.map_values(|c: u32| sigs@[c as int])
                                    =~= tv[q as int].1.map_values(|c: u32| old_sigs[c as int]));
                                assert(node@.inputs =~= tv[q as int].1.map_values(|c: u32| sigs@[c as int]));
                            }
                        }
                        assert forall|kk: int| 0 <= kk < net@.nodes.len() implies {
                            &&& (#[trigger] net@.nodes[kk]).wf()
                            &&& forall|j2: int|
                                0 <= j2 < net@.nodes[kk].inputs.len() ==> net@.nodes[kk].inputs[j2].id().0 < kk
                        } by {
                            if kk < net1.nodes.len() {
                                assert(net@.nodes[kk] == net1.nodes[kk]);
                            }
                        }
                    }
                },
            }
            proof {
                assert(net@.nodes.len() == net1.nodes.len() || (net@.nodes.len() == net1.nodes.len()
                    + 1 && sigs@[q as int].id().0 == net1.nodes.len() && text_op(tv[q as int].0)
                    != Some(Op::Not)));
                assert(net0.nodes =~= net@.nodes.subrange(0, base as int));
                assert forall|k2: int|
                    base <= k2 < net@.nodes.len() implies #[trigger] position_for(
                    tv,
                    sigs@,
                    q + 1,
                    k2,
                ) by {
                    if k2 < net1.nodes.len() {
                        assert(position_for(tv, sigs@.drop_last(), q as int, k2));
                        let q2 = choose|q2: int|
                            0 <= q2 < q && text_op(tv[q2].0) != Some(Op::Not) && (
                            #[trigger] sigs@.drop_last()[q2]).id().0 == k2;
                        assert(sigs@[q2] == sigs@.drop_last()[q2]);
                    } else {
                        assert(sigs@[q as int].id().0 == k2);
                    }
                }
            }
            q = q + 1;
        }
        let out = sigs[sigs.len() - 1];
        outputs.push(out);
        proof {
            lemma_terms_count_step(ts, i as int);
            assert(tv.subrange(0, tv.len() as int) =~= tv);
            let old_all = all_sigs;
            all_sigs = all_sigs.push(sigs@);
            assert forall|i2: int| 0 <= i2 < i + 1 implies {
                &&& (#[trigger] all_sigs[i2]).len() == ts[i2].len()
                &&& ts[i2].len() > 0
                &&& outputs@[i2] == all_sigs[i2].last()
                &&& outputs@[i2].id().0 < net@.nodes.len()
                &&& forall|q: int|
                    0 <= q < ts[i2].len() ==> term_position_decoded(ts[i2], net@, all_sigs[i2], q)
            } by {
                if i2 == i {
                    assert(all_sigs[i2] == sigs@);
                    assert(outputs@[i2] == sigs@[sigs@.len() - 1]);
                    assert(sigs@[sigs@.len() - 1].id().0 < net@.nodes.len());
                }
                if i2 < i {
                    assert(old_all[i2].len() == ts[i2].len());
                    assert(outputs@[i2] == old_all[i2].last());
                    assert(all_sigs[i2] == old_all[i2]);
                    assert forall|q: int| 0 <= q < ts[i2].len() implies term_position_decoded(
                        ts[i2],
                        net@,
                        all_sigs[i2],
                        q,
                    ) by {
                        assert(term_position_decoded(ts[i2], net0, old_all[i2], q));
                        match text_op(ts[i2][q].0) {
                            Some(Op::Kind(k2)) => {
                                assert(net@.nodes[old_all[i2][q].id().0 as int] == net0.nodes[old_all[i2][q].id().0 as int]);
                            },
                            _ => {},
                        }
                    }
                }
            }
            assert forall|k: int| 0 <= k < net@.nodes.len() implies #[trigger] stands_for_node(
                ts,
                all_sigs,
                k,
            ) by {
                if k < base {
                    assert(stands_for_node(ts, old_all, k));
                    let (i2, q2) = choose|i2: int, q2: int|
                        0 <= i2 < ts.len() && i2 < old_all.len() && 0 <= q2 < ts[i2].len()
                            && text_op(ts[i2][q2].0) != Some(Op::Not) && (
                        #[trigger] old_all[i2][q2]).id().0 == k;
                    assert(all_sigs[i2] == old_all[i2]);
                    assert(all_sigs[i2][q2] == old_all[i2][q2]);
                } else {
                    assert(position_for(tv, sigs@, tv.len() as int, k));
                    let q2 = choose|q2: int|
                        0 <= q2 < tv.len() && text_op(tv[q2].0) != Some(Op::Not) && (
                        #[trigger] sigs@[q2]).id().0 == k;
                    assert(all_sigs[i as int][q2] == sigs@[q2]);
                }
            }
        }
        i = i + 1;
    }
    let result = FlatNetwork { nodes: net.nodes, outputs };
    proof {
        assert(result@.nodes == net@.nodes);
        assert(topologically_ordered(result@));
        assert forall|i2: int| 0 <= i2 < result@.outputs.len() implies (
        #[trigger] result@.outputs[i2]).id().0 < result@.nodes.len() by {
            assert(result@.outputs[i2] == outputs@[i2]);
            assert(all_sigs[i2].len() == ts[i2].len());
        }
        assert(terms_decoded(ts, result@, all_sigs)) by {
            assert forall|i2: int| 0 <= i2 < ts.len() implies {
                &&& (#[trigger] all_sigs[i2]).len() == ts[i2].len()
                &&& result@.outputs[i2] == all_sigs[i2].last()
                &&& forall|q: int|
                    0 <= q < ts[i2].len() ==> term_position_decoded(ts[i2], result@, all_sigs[i2], q)
            } by {
                assert forall|q: int| 0 <= q < ts[i2].len() implies term_position_decoded(
                    ts[i2],
                    result@,
                    all_sigs[i2],
                    q,
                ) by {
                    assert(term_position_decoded(ts[i2], net@, all_sigs[i2], q));
                }
            }
        }
    }
    proof {
        assert(network_of_terms(ts, result@));
    }
    Ok(result)
}

/// Every rule's pattern texts are valid.
pub open spec fn rules_valid(rules: Seq<Rule>) -> bool {
    forall|i: int| 0 <= i < rules.len() ==> rule_valid((#[trigger] rules[i]).lhs@, rules[i].rhs@)
}

/// Builds egg rewrite rules from their pattern texts; fails exactly where a rule is invalid.
pub fn make_rules(rules: &Vec<Rule>) -> (r: Result<Vec<Rewrite<SymbolLang, ()>>, RewriteError>)
    ensures
        r is Ok <==> rules_valid(rules@),
        r is Ok ==> r->Ok_0@.len() == rules@.len(),
        r is Err ==> r == Err::<Vec<Rewrite<SymbolLang, ()>>, RewriteError>(RewriteError::InvalidRule),
{
    let mut out: Vec<Rewrite<SymbolLang, ()>> = Vec::new();
    let mut i: usize = 0;
    while i < rules.len()
        invariant
            i <= rules@.len(),
            out@.len() == i,
            forall|i2: int| 0 <= i2 < i ==> rule_valid((#[trigger] rules@[i2]).lhs@, rules@[i2].rhs@),
        decreases rules@.len() - i,
    {
        let rule = &rules[i];
        match make_rewrite(rule.name.as_str(), rule.lhs.as_str(), rule.rhs.as_str()) {
            Some(rw) => out.push(rw),
            None => {
                return Err(RewriteError::InvalidRule);
            },
        }
        i = i + 1;
    }
    Ok(out)
}

/// Rewrites the network `src` with the given rules and sends the result to `sink`: the network
/// is transferred into a fresh e-graph, the rules are run on it, the cheapest term under `cost`
/// of each output's class is extracted, and the network those terms describe, with output `i`
/// realising the term of output `i` of `src`, is transferred to `sink`.
pub fn rewrite_network<N: Network, R: Receiver>(
    src: &N,
    rules: &Vec<Rule>,
    cost: Cost,
    sink: R,
) -> (r: Result<R::Output, RewriteError>)
    requires
        closed(src),
        acyclic(src),
        sink.inv(),
    ensures
        r == Err::<R::Output, RewriteError>(RewriteError::InvalidRule) <==> !rules_valid(rules@),
        r == Err::<R::Output, RewriteError>(RewriteError::GraphFull) ==> (MAX_FANIN + 1)
            * reachable_set(src).len() + src.spec_outputs().len() > ID_LIMIT,
        r is Err ==> r == Err::<R::Output, RewriteError>(RewriteError::InvalidRule) || r == Err::<
            R::Output,
            RewriteError,
        >(RewriteError::GraphFull) || r == Err::<R::Output, RewriteError>(
            RewriteError::MalformedTerm,
        ) || r == Err::<R::Output, RewriteError>(RewriteError::Capacity),
        r is Ok ==> exists|
            ts: Seq<Seq<(Seq<char>, Seq<u32>)>>,
            net: FlatNetwork,
            after: R,
            outs: Seq<Signal>,
        |
            #![trigger transfer_done(&net, sink, after, outs), network_of_terms(ts, net@)]
            {
                &&& ts.len() == src.spec_outputs().len()
                &&& network_of_terms(ts, net@)
                &&& closed(&net)
                &&& acyclic(&net)
                &&& transfer_done(&net, sink, after, outs)
                &&& after.finished(outs, r->Ok_0)
            },
{
    let rewrites = match make_rules(rules) {
        Ok(rw) => rw,
        Err(e) => {
            return Err(e);
        },
    };
    let recv = EGraphReceiver::new();
    let sent = send(src, recv);
    proof {
        crate::network::lemma_reachable_finite(src);
    }
    let (graph, roots) = match sent {
        Ok(Ok(x)) => x,
        _ => {
            proof {
                let n = reachable_set(src).len();
                let l = ID_LIMIT as nat;
                let d = (MAX_FANIN + 1) as nat;
                if sent is Err {
                    assert(recv.room() == l / d);
                    if d * n + src.spec_outputs().len() <= l {
                        assert(n <= l / d) by (nonlinear_arith)
                            requires
                                d * n <= l,
                                d == 33,
                        ;
                    }
                } else {
                    let (after, outs) = choose|after: EGraphReceiver, outs: Seq<Signal>|
                        #![trigger transfer_done(src, recv, after, outs)]
                        transfer_done(src, recv, after, outs) && after.inv() && after.finished(
                            outs,
                            sent->Ok_0,
                        );
                    crate::transfer::lemma_create_count(src, recv, after, outs);
                    lemma_outputs_len(src, recv, after, outs);
                    assert(egraph_size(after.graph) <= d * n);
                }
            }
            return Err(RewriteError::GraphFull);
        },
    };
    proof {
        let (after, outs) = choose|after: EGraphReceiver, outs: Seq<Signal>|
            #![trigger transfer_done(src, recv, after, outs)]
            transfer_done(src, recv, after, outs) && after.inv() && after.finished(outs, sent->Ok_0);
        lemma_outputs_len(src, recv, after, outs);
        assert(roots@.len() == src.spec_outputs().len());
    }
    let graph = saturate(graph, &rewrites);
    let mut terms: Vec<Vec<TermNode>> = Vec::new();
    let mut i: usize = 0;
    while i < roots.len()
        invariant
            i <= roots@.len(),
            terms@.len() == i,
            forall|i2: int| 0 <= i2 < roots@.len() ==> (#[trigger] roots@[i2] as nat) < egraph_size(graph),
        decreases roots@.len() - i,
    {
        terms.push(extract_best(&graph, roots[i], cost));
        i = i + 1;
    }
    let net = match terms_to_network(&terms) {
        Ok(net) => net,
        Err(e) => {
            return Err(e);
        },
    };
    proof {
        assert(network_of_terms(terms_view(terms@), net@));
        lemma_ordered_network(&net);
    }
    match send(&net, sink) {
        Ok(out) => {
            proof {
                let (after, outs) = choose|after: R, outs: Seq<Signal>|
                    #![trigger transfer_done(&net, sink, after, outs)]
                    transfer_done(&net, sink, after, outs) && after.inv() && after.finished(outs, out);
                assert(transfer_done(&net, sink, after, outs));
                assert(network_of_terms(terms_view(terms@), net@));
            }
            Ok(out)
        },
        Err(_) => Err(RewriteError::Capacity),
    }
}

/// A completed transfer has one mapped output per output of the source.
proof fn lemma_outputs_len<N: Network, R: Receiver>(n: &N, before: R, after: R, outputs: Seq<Signal>)
    requires
        transfer_done(n, before, after, outputs),
    ensures
        outputs.len() == n.spec_outputs().len(),
{
    let (order, created, issued, m) = choose|
        order: Seq<Id>,
        created: Seq<NodeView>,
        issued: Seq<Signal>,
        m: Map<u32, Signal>,
    |
        {
            &&& crate::transfer::transferred(n, order, created, issued, m, outputs)
            &&& after.received() == before.received() + created
            &&& after.issued() == before.issued() + issued
        };
}

} // verus!
