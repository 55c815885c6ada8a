use vstd::prelude::*;
use egg::{Rewrite, SymbolLang};
use crate::node::{Gate, NodeKind};
use crate::text::{Op, decimal, op_text, text_op, op_to_text, text_to_op};
use crate::egraph::{
    Cost, Graph, TermNode, added, egraph_new, egraph_len, egraph_add, egraph_nodes, egraph_size,
    egraph_unmerged, saturate, extract_best, term_view,
};
use crate::rewrite::{Rule, RewriteError, make_rules, rules_valid, terms_view};

verus! {

/// A node of a majority-inverter graph as a rewrite result is handed back: a primary input by
/// name, a constant, or a NOT or MAJ over the ids of earlier nodes.
#[derive(Clone, Copy, Debug, PartialEq, Eq, Hash)]
pub enum Mig {
    Symbol(u64),
    True,
    False,
    Not(u64),
    Maj(u64, u64, u64),
}

/// The node kinds of [`Mig`], as a table of names and fan-ins.
#[derive(Clone, Copy, Debug, PartialEq, Eq, Hash, Structural)]
pub enum MigVariant {
    Symbol,
    True,
    False,
    Not,
    Maj,
}

impl MigVariant {
    /// The number of children of a node of this kind.
    pub open spec fn arity(self) -> nat {
        match self {
            MigVariant::Symbol | MigVariant::True | MigVariant::False => 0,
            MigVariant::Not => 1,
            MigVariant::Maj => 3,
        }
    }

    /// All kinds, in declaration order.
    pub fn variants() -> (r: Vec<MigVariant>)
        ensures
            r@ == seq![
                MigVariant::Symbol,
                MigVariant::True,
                MigVariant::False,
                MigVariant::Not,
                MigVariant::Maj,
            ],
    {
        let r = vec![
            MigVariant::Symbol,
            MigVariant::True,
            MigVariant::False,
            MigVariant::Not,
            MigVariant::Maj,
        ];
        assert(r@ =~= seq![
            MigVariant::Symbol,
            MigVariant::True,
            MigVariant::False,
            MigVariant::Not,
            MigVariant::Maj,
        ]);
        r
    }

    /// The snake_case name of the kind.
    pub open spec fn spec_name(self) -> Seq<char> {
        match self {
            MigVariant::Symbol => "symbol"@,
            MigVariant::True => "true"@,
            MigVariant::False => "false"@,
            MigVariant::Not => "not"@,
            MigVariant::Maj => "maj"@,
        }
    }

    /// The snake_case name of the kind.
    pub fn name(&self) -> (r: &'static str)
        ensures
            r@ == self.spec_name(),
    {
        match self {
            MigVariant::Symbol => "symbol",
            MigVariant::True => "true",
            MigVariant::False => "false",
            MigVariant::Not => "not",
            MigVariant::Maj => "maj",
        }
    }

    /// The number of children of a node of this kind.
    pub fn fanin(&self) -> (r: u8)
        ensures
            r == self.arity(),
    {
        match self {
            MigVariant::Symbol => 0,
            MigVariant::True => 0,
            MigVariant::False => 0,
            MigVariant::Not => 1,
            MigVariant::Maj => 3,
        }
    }
}

/// Collects a rewritten majority-inverter graph: each `add_*` call appends one node and returns
/// its id, its index in `nodes`; `mark_roots` records the output ids.
pub struct MigRewriterCallback {
    pub nodes: Vec<Mig>,
    pub roots: Vec<u64>,
}

impl MigRewriterCallback {
    /// A callback that holds no nodes yet.
    pub fn new() -> (r: MigRewriterCallback)
        ensures
            r.nodes@ == Seq::<Mig>::empty(),
            r.roots@ == Seq::<u64>::empty(),
    {
        MigRewriterCallback { nodes: Vec::new(), roots: Vec::new() }
    }

    fn push(&mut self, node: Mig) -> (r: u64)
        ensures
            final(self).nodes@ == old(self).nodes@.push(node),
            final(self).roots@ == old(self).roots@,
            r == old(self).nodes@.len(),
    {
        let id = self.nodes.len() as u64;
        self.nodes.push(node);
        id
    }

    /// Appends a primary input.
    pub fn add_symbol(&mut self, name: u64) -> (r: u64)
        ensures
            final(self).nodes@ == old(self).nodes@.push(Mig::Symbol(name)),
            final(self).roots@ == old(self).roots@,
            r == old(self).nodes@.len(),
    {
        self.push(Mig::Symbol(name))
    }

    /// Appends the constant true.
    pub fn add_true(&mut self, children: [u64; 0]) -> (r: u64)
        ensures
            final(self).nodes@ == old(self).nodes@.push(Mig::True),
            final(self).roots@ == old(self).roots@,
            r == old(self).nodes@.len(),
    {
        self.push(Mig::True)
    }

    /// Appends the constant false.
    pub fn add_false(&mut self, children: [u64; 0]) -> (r: u64)
        ensures
            final(self).nodes@ == old(self).nodes@.push(Mig::False),
            final(self).roots@ == old(self).roots@,
            r == old(self).nodes@.len(),
    {
        self.push(Mig::False)
    }

    /// Appends a NOT over an earlier node.
    pub fn add_not(&mut self, children: [u64; 1]) -> (r: u64)
        requires
            children@[0] < old(self).nodes@.len(),
        ensures
            final(self).nodes@ == old(self).nodes@.push(Mig::Not(children@[0])),
            final(self).roots@ == old(self).roots@,
            r == old(self).nodes@.len(),
    {
        self.push(Mig::Not(children[0]))
    }

    /// Appends a MAJ over three earlier nodes.
    pub fn add_maj(&mut self, children: [u64; 3]) -> (r: u64)
        requires
            children@[0] < old(self).nodes@.len(),
            children@[1] < old(self).nodes@.len(),
            children@[2] < old(self).nodes@.len(),
        ensures
            final(self).nodes@ == old(self).nodes@.push(
                Mig::Maj(children@[0], children@[1], children@[2]),
            ),
            final(self).roots@ == old(self).roots@,
            r == old(self).nodes@.len(),
    {
        self.push(Mig::Maj(children[0], children[1], children[2]))
    }

    /// Records the ids of the outputs, in order.
    pub fn mark_roots(&mut self, roots: &[u64])
        ensures
            final(self).nodes@ == old(self).nodes@,
            final(self).roots@ == roots@,
    {
        let mut r: Vec<u64> = Vec::new();
        let mut i: usize = 0;
        while i < roots.len()
            invariant
                i <= roots@.len(),
                r@ == roots@.subrange(0, i as int),
            decreases roots@.len() - i,
        {
            r.push(roots[i]);
            i = i + 1;
            assert(r@ =~= roots@.subrange(0, i as int));
        }
        assert(r@ =~= roots@);
        self.roots = r;
    }
}

/// The MIG node that a term position stands for, where the term's nodes are numbered from
/// `base` on; `None` for an operator that a MIG does not have.
pub open spec fn mig_of(op: Op, children: Seq<u32>, base: nat) -> Option<Mig> {
    match op {
        Op::Not => Some(Mig::Not((base + children[0]) as u64)),
        Op::Kind(NodeKind::False) => Some(Mig::False),
        Op::Kind(NodeKind::Input(i)) => Some(Mig::Symbol(i)),
        Op::Kind(NodeKind::Gate(Gate::Maj)) => Some(
            Mig::Maj(
                (base + children[0]) as u64,
                (base + children[1]) as u64,
                (base + children[2]) as u64,
            ),
        ),
        _ => None,
    }
}

/// Every position of the term has a MIG operator with the right number of children, all at
/// earlier positions, and the term is not empty.
pub open spec fn mig_term_ok(t: Seq<(Seq<char>, Seq<u32>)>) -> bool {
    &&& t.len() > 0
    &&& forall|q: int|
        0 <= q < t.len() ==> {
            &&& (#[trigger] text_op(t[q].0)) is Some
            &&& mig_of(text_op(t[q].0)->0, t[q].1, 0) is Some
            &&& t[q].1.len() == crate::text::op_arity(text_op(t[q].0)->0)
            &&& forall|j: int| 0 <= j < t[q].1.len() ==> (t[q].1[j] as int) < q
        }
}

/// The MIG nodes of a term whose nodes are numbered from `base` on, one per position.
pub open spec fn term_migs(t: Seq<(Seq<char>, Seq<u32>)>, base: nat) -> Seq<Mig> {
    Seq::new(t.len(), |q: int| mig_of(text_op(t[q].0)->0, t[q].1, base)->0)
}

/// The total number of positions of the terms.
pub open spec fn terms_len(ts: Seq<Seq<(Seq<char>, Seq<u32>)>>) -> nat
    decreases ts.len(),
{
    if ts.len() == 0 {
        0
    } else {
        terms_len(ts.drop_last()) + ts.last().len()
    }
}

/// The MIG nodes of the terms one after the other, numbered from `base` on.
pub open spec fn terms_migs(ts: Seq<Seq<(Seq<char>, Seq<u32>)>>, base: nat) -> Seq<Mig>
    decreases ts.len(),
{
    if ts.len() == 0 {
        Seq::empty()
    } else {
        terms_migs(ts.drop_last(), base) + term_migs(ts.last(), base + terms_len(ts.drop_last()))
    }
}

/// The id of the last node of term `i`: its root.
pub open spec fn term_root(ts: Seq<Seq<(Seq<char>, Seq<u32>)>>, base: nat, i: int) -> nat {
    (base + terms_len(ts.subrange(0, i + 1)) - 1) as nat
}

/// Hands each extracted term to the callback, node by node, with child positions turned into
/// callback ids. Returns the callback id of each term's root.
pub fn stream_terms(terms: &Vec<Vec<TermNode>>, callback: &mut MigRewriterCallback) -> (r: Result<
    Vec<u64>,
    RewriteError,
>)
    ensures
        r is Ok ==> {
            &&& final(callback).nodes@ == old(callback).nodes@ + terms_migs(
                terms_view(terms@),
                old(callback).nodes@.len(),
            )
            &&& r->Ok_0@.len() == terms@.len()
            &&& forall|i: int|
                0 <= i < terms@.len() ==> #[trigger] r->Ok_0@[i] == term_root(
                    terms_view(terms@),
                    old(callback).nodes@.len(),
                    i,
                )
        },
        r is Ok ==> forall|i: int| 0 <= i < terms@.len() ==> mig_term_ok(#[trigger] terms_view(terms@)[i]),
        r is Err ==> r == Err::<Vec<u64>, RewriteError>(RewriteError::MalformedTerm) && exists|i: int|
            0 <= i < terms@.len() && !mig_term_ok(#[trigger] terms_view(terms@)[i]),
        final(callback).roots@ == old(callback).roots@,
{
    let ghost ts = terms_view(terms@);
    let ghost base0 = callback.nodes@.len();
    let mut roots: Vec<u64> = Vec::new();
    let mut i: usize = 0;
    while i < terms.len()
        invariant
            ts == terms_view(terms@),
            i <= terms@.len(),
            base0 == old(callback).nodes@.len(),
            callback.nodes@ == old(callback).nodes@ + terms_migs(ts.subrange(0, i as int), base0),
            callback.roots@ == old(callback).roots@,
            roots@.len() == i,
            forall|i2: int| 0 <= i2 < i ==> #[trigger] roots@[i2] == term_root(ts, base0, i2),
            forall|i2: int| 0 <= i2 < i ==> mig_term_ok(#[trigger] ts[i2]),
        decreases terms@.len() - i,
    {
        let t = &terms[i];
        let ghost tv = ts[i as int];
        let ghost prefix = ts.subrange(0, i as int);
        proof {
            assert(tv == term_view(t@));
            assert(ts.subrange(0, i + 1).drop_last() =~= prefix);
        }
        if t.len() == 0 {
            proof {
                assert(!mig_term_ok(ts[i as int]));
            }
            return Err(RewriteError::MalformedTerm);
        }
        let base = callback.nodes.len();
        proof {
            assert(base == base0 + terms_len(prefix)) by {
                lemma_terms_migs_len(prefix, base0);
            }
        }
        let mut q: usize = 0;
        while q < t.len()
            invariant
                ts == terms_view(terms@),
                i < terms@.len(),
                tv == ts[i as int],
                tv == term_view(t@),
                q <= tv.len(),
                base == base0 + terms_len(prefix),
                prefix == ts.subrange(0, i as int),
                callback.nodes@ == old(callback).nodes@ + terms_migs(prefix, base0) + term_migs(
                    tv,
                    base as nat,
                ).subrange(0, q as int),
                callback.nodes@.len() == base + q,
                callback.roots@ == old(callback).roots@,
                forall|q2: int|
                    0 <= q2 < q ==> {
                        &&& (#[trigger] text_op(tv[q2].0)) is Some
                        &&& mig_of(text_op(tv[q2].0)->0, tv[q2].1, 0) is Some
                        &&& tv[q2].1.len() == crate::text::op_arity(text_op(tv[q2].0)->0)
                        &&& forall|j: int| 0 <= j < tv[q2].1.len() ==> (tv[q2].1[j] as int) < q2
                    },
            decreases tv.len() - q,
        {
            let entry = &t[q];
            proof {
                assert(tv[q as int] == (entry.op@, entry.children@));
            }
            let ghost before = callback.nodes@;
            let op = match text_to_op(entry.op.as_str()) {
                Some(op) => op,
                None => {
                    proof {
                        assert(!mig_term_ok(ts[i as int])) by {
                            assert(text_op(tv[q as int].0) is None);
                        }
                    }
                    return Err(RewriteError::MalformedTerm);
                },
            };
            let arity: usize = match op {
                Op::Not => 1,
                Op::Kind(k) => k.fanin(),
            };
            let mut ok = entry.children.len() == arity;
            let mut j: usize = 0;
            while ok && j < entry.children.len()
                invariant
                    j <= entry.children@.len(),
                    ok ==> forall|j2: int| 0 <= j2 < j ==> (entry.children@[j2] as int) < q,
                    ok ==> entry.children@.len() == arity,
                    !ok ==> (entry.children@.len() != arity || exists|j2: int|
                        0 <= j2 < j && j2 < entry.children@.len() && !((entry.children@[j2] as int) < q)),
                decreases entry.children@.len() - j,
            {
                if entry.children[j] as usize >= q {
                    ok = false;
                }
                j = j + 1;
            }
            let mig_ok = match op {
                Op::Not => true,
                Op::Kind(NodeKind::False) => true,
                Op::Kind(NodeKind::Input(_)) => true,
                Op::Kind(NodeKind::Gate(Gate::Maj)) => true,
                _ => false,
            };
            if !ok || !mig_ok {
                proof {
                    assert(text_op(tv[q as int].0) == Some(op));
                    assert(!mig_term_ok(ts[i as int])) by {
                        if !ok && entry.children@.len() == arity {
                            let j2 = choose|j2: int|
                                0 <= j2 < j && j2 < entry.children@.len() && !((
                                entry.children@[j2] as int) < q);
                            assert(tv[q as int].1[j2] == entry.children@[j2]);
                        }
                    }
                }
                return Err(RewriteError::MalformedTerm);
            }
            proof {
                assert(forall|j2: int| 0 <= j2 < entry.children@.len() ==> (entry.children@[j2] as int) < q);
            }
            let cur = callback.nodes.len();
            match op {
                Op::Not => {
                    let c = (base + entry.children[0] as usize) as u64;
                    callback.add_not([c]);
                },
                Op::Kind(NodeKind::False) => {
                    callback.add_false([]);
                },
                Op::Kind(NodeKind::Input(n)) => {
                    callback.add_symbol(n);
                },
                _ => {
                    let c0 = (base + entry.children[0] as usize) as u64;
                    let c1 = (base + entry.children[1] as usize) as u64;
                    let c2 = (base + entry.children[2] as usize) as u64;
                    callback.add_maj([c0, c1, c2]);
                },
            }
            proof {
                let m = mig_of(op, tv[q as int].1, base as nat)->0;
                assert(callback.nodes@ == before.push(m));
                assert(term_migs(tv, base as nat).subrange(0, q + 1) =~= term_migs(
                    tv,
                    base as nat,
                ).subrange(0, q as int).push(m));
                assert(callback.nodes@ =~= old(callback).nodes@ + terms_migs(prefix, base0)
                    + term_migs(tv, base as nat).subrange(0, q + 1));
            }
            q = q + 1;
        }
        proof {
            assert(mig_term_ok(tv));
        }
        let root = (callback.nodes.len() - 1) as u64;
        roots.push(root);
        proof {
            assert(term_migs(tv, base as nat).subrange(0, tv.len() as int) =~= term_migs(tv, base as nat));
            assert(ts.subrange(0, i + 1).last() == tv);
            assert(terms_migs(ts.subrange(0, i + 1), base0) == terms_migs(prefix, base0) + term_migs(
                tv,
                base0 + terms_len(prefix),
            ));
            assert(callback.nodes@ =~= old(callback).nodes@ + terms_migs(ts.subrange(0, i + 1), base0));
            assert(terms_len(ts.subrange(0, i + 1)) == terms_len(prefix) + tv.len());
            assert(roots@[i as int] == term_root(ts, base0, i as int));
        }
        i = i + 1;
    }
    proof {
        assert(ts.subrange(0, terms@.len() as int) =~= ts);
    }
    Ok(roots)
}

/// The MIG nodes of the terms number as many as their positions.
proof fn lemma_terms_migs_len(ts: Seq<Seq<(Seq<char>, Seq<u32>)>>, base: nat)
    ensures
        terms_migs(ts, base).len() == terms_len(ts),
    decreases ts.len(),
{
    if ts.len() > 0 {
        lemma_terms_migs_len(ts.drop_last(), base);
    }
}

/// A rewriting session for a majority-inverter graph: nodes are added one by one to an e-graph,
/// and `rewrite` runs the rules on it, extracts the cheapest term of each root, and hands the
/// result to a callback. Each `rewrite` starts the next session with an empty e-graph.
pub struct MigRewriterFFI {
    graph: Graph,
    rules: Vec<Rewrite<SymbolLang, ()>>,
    cost: Cost,
}

impl MigRewriterFFI {
    /// The number of class ids that the session's e-graph has handed out.
    pub closed spec fn size(&self) -> nat {
        egraph_size(self.graph)
    }

    /// The e-nodes of the session's e-graph, one per class id.
    pub closed spec fn nodes(&self) -> Seq<(Seq<char>, Seq<u32>)> {
        egraph_nodes(self.graph)
    }

    /// The session's e-graph has merged no classes and stores each e-node once.
    pub closed spec fn unmerged(&self) -> bool {
        egraph_unmerged(self.graph) && egraph_nodes(self.graph).no_duplicates()
    }

    /// The size is the number of stored e-nodes.
    pub proof fn lemma_size(&self)
        ensures
            self.size() == self.nodes().len(),
    {
    }

    /// A session with an empty e-graph, the given rules, and the cost that extraction
    /// minimises; fails exactly where a rule is invalid.
    pub fn new(rules: &Vec<Rule>, cost: Cost) -> (r: Result<MigRewriterFFI, RewriteError>)
        ensures
            r is Ok <==> rules_valid(rules@),
            r is Ok ==> r->Ok_0.nodes() == Seq::<(Seq<char>, Seq<u32>)>::empty() && r->Ok_0.unmerged(),
            r is Err ==> r == Err::<MigRewriterFFI, RewriteError>(RewriteError::InvalidRule),
    {
        let rules = match make_rules(rules) {
            Ok(rw) => rw,
            Err(e) => {
                return Err(e);
            },
        };
        Ok(MigRewriterFFI { graph: egraph_new(), rules, cost })
    }

    fn add_op(&mut self, op: Op, children: &[u32]) -> (r: Option<u64>)
        ensures
            r is Some ==> (r->0 as nat) < final(self).size() && old(self).size() <= final(self).size()
                <= old(self).size() + 1,
            r is None ==> final(self).nodes() == old(self).nodes() && final(self).unmerged()
                == old(self).unmerged(),
            r is None <==> (old(self).size() + 1 >= u32::MAX || exists|j: int|
                0 <= j < children@.len() && children@[j] as nat >= old(self).size()),
            old(self).unmerged() ==> final(self).unmerged() && (r is Some ==> added(
                old(self).nodes(),
                final(self).nodes(),
                (op_text(op), children@),
                r->0 as nat,
            )),
    {
        let size = egraph_len(&self.graph);
        if size >= (u32::MAX - 1) as usize {
            return None;
        }
        let mut j: usize = 0;
        while j < children.len()
            invariant
                j <= children@.len(),
                size == egraph_size(self.graph),
                forall|j2: int| 0 <= j2 < j ==> (children@[j2] as nat) < size,
            decreases children@.len() - j,
        {
            if children[j] as usize >= size {
                return None;
            }
            j = j + 1;
        }
        let text = op_to_text(op);
        let ghost before = egraph_nodes(self.graph);
        let id = egraph_add(&mut self.graph, text.as_str(), children);
        proof {
            if egraph_unmerged(old(self).graph) && before.no_duplicates() {
                assert(added(before, egraph_nodes(self.graph), (text@, children@), id as nat));
                if !before.contains((text@, children@)) {
                    assert forall|a: int, b: int|
                        0 <= a < b < egraph_nodes(self.graph).len() implies egraph_nodes(
                        self.graph,
                    )[a] != egraph_nodes(self.graph)[b] by {
                        if b == before.len() {
                            assert(before.contains(before[a]));
                        }
                    }
                }
            }
        }
        Some(id as u64)
    }

    /// Adds a primary input; `None` where the e-graph is out of ids.
    pub fn add_symbol(&mut self, name: u64) -> (r: Option<u64>)
        ensures
            r is Some ==> (r->0 as nat) < final(self).size(),
            r is None <==> old(self).size() + 1 >= u32::MAX,
            r is None ==> final(self).nodes() == old(self).nodes(),
            old(self).unmerged() ==> final(self).unmerged() && (r is Some ==> added(
                old(self).nodes(),
                final(self).nodes(),
                (decimal(name as nat), Seq::<u32>::empty()),
                r->0 as nat,
            )),
    {
        let children: [u32; 0] = [];
        proof {
            assert(children@ =~= Seq::<u32>::empty());
        }
        self.add_op(Op::Kind(NodeKind::Input(name)), &children)
    }

    /// Adds the constant false; `None` where the e-graph is out of ids.
    pub fn add_false(&mut self) -> (r: Option<u64>)
        ensures
            r is Some ==> (r->0 as nat) < final(self).size(),
            old(self).size() <= final(self).size() <= old(self).size() + 1,
            r is None <==> old(self).size() + 1 >= u32::MAX,
            r is None ==> final(self).nodes() == old(self).nodes(),
            old(self).unmerged() ==> final(self).unmerged() && (r is Some ==> added(
                old(self).nodes(),
                final(self).nodes(),
                ("f"@, Seq::<u32>::empty()),
                r->0 as nat,
            )),
    {
        let children: [u32; 0] = [];
        proof {
            assert(children@ =~= Seq::<u32>::empty());
        }
        self.add_op(Op::Kind(NodeKind::False), &children)
    }

    /// Adds the constant true, a NOT over the constant false; `None` where the e-graph is out
    /// of ids.
    pub fn add_true(&mut self) -> (r: Option<u64>)
        ensures
            r is Some ==> (r->0 as nat) < final(self).size(),
            old(self).size() + 2 < u32::MAX ==> r is Some,
            old(self).unmerged() ==> final(self).unmerged() && (r is Some ==> exists|f: u32|
                #![trigger final(self).nodes()[f as int]]
                (f as int) < final(self).nodes().len() && final(self).nodes()[f as int] == (
                    "f"@,
                    Seq::<u32>::empty(),
                ) && final(self).nodes()[r->0 as int] == ("!"@, seq![f])),
    {
        let f = match self.add_false() {
            Some(f) => f,
            None => {
                return None;
            },
        };
        proof {
            assert(f < u32::MAX);
        }
        let ghost mid = self.nodes();
        let children = [f as u32];
        proof {
            assert(children@ =~= seq![f as u32]);
        }
        let r = self.add_op(Op::Not, &children);
        proof {
            if old(self).unmerged() && r is Some {
                let fin = self.nodes();
                assert(mid[f as int] == ("f"@, Seq::<u32>::empty()));
                if !mid.contains((op_text(Op::Not), children@)) {
                    assert(fin[f as int] == mid[f as int]);
                }
                assert(fin[f as int] == ("f"@, Seq::<u32>::empty()));
            }
        }
        r
    }

    /// Adds a NOT over the class `id1`; `None` where `id1` is no class or the e-graph is out of
    /// ids.
    pub fn add_not(&mut self, id1: u64) -> (r: Option<u64>)
        ensures
            r is Some ==> (r->0 as nat) < final(self).size(),
            r is None <==> (old(self).size() + 1 >= u32::MAX || id1 >= old(self).size()),
            r is None ==> final(self).nodes() == old(self).nodes(),
            old(self).unmerged() ==> final(self).unmerged() && (r is Some ==> added(
                old(self).nodes(),
                final(self).nodes(),
                ("!"@, seq![id1 as u32]),
                r->0 as nat,
            )),
    {
        if id1 > u32::MAX as u64 {
            return None;
        }
        let children = [id1 as u32];
        proof {
            assert(children@ =~= seq![id1 as u32]);
        }
        self.add_op(Op::Not, &children)
    }

    /// Adds a MAJ over three classes, in argument order; `None` where one of them is no class
    /// or the e-graph is out of ids.
    pub fn add_maj(&mut self, id1: u64, id2: u64, id3: u64) -> (r: Option<u64>)
        ensures
            r is Some ==> (r->0 as nat) < final(self).size(),
            r is None <==> (old(self).size() + 1 >= u32::MAX || id1 >= old(self).size() || id2
                >= old(self).size() || id3 >= old(self).size()),
            r is None ==> final(self).nodes() == old(self).nodes(),
            old(self).unmerged() ==> final(self).unmerged() && (r is Some ==> added(
                old(self).nodes(),
                final(self).nodes(),
                ("maj"@, seq![id1 as u32, id2 as u32, id3 as u32]),
                r->0 as nat,
            )),
    {
        if id1 > u32::MAX as u64 || id2 > u32::MAX as u64 || id3 > u32::MAX as u64 {
            return None;
        }
        let children = [id1 as u32, id2 as u32, id3 as u32];
        proof {
            assert(children@ =~= seq![id1 as u32, id2 as u32, id3 as u32]);
        }
        let r = self.add_op(Op::Kind(NodeKind::Gate(Gate::Maj)), &children);
        r
    }

    /// Runs the rules on the e-graph, extracts the cheapest term of each root, hands the terms
    /// to `callback` node by node, and marks the roots of the terms in the order of `roots`.
    /// The session then starts over with an empty e-graph.
    pub fn rewrite(&mut self, roots: &[u64], callback: &mut MigRewriterCallback) -> (r: Result<
        (),
        RewriteError,
    >)
        ensures
            r is Ok ==> exists|ts: Seq<Seq<(Seq<char>, Seq<u32>)>>|
                #![trigger terms_migs(ts, old(callback).nodes@.len())]
                {
                    &&& ts.len() == roots@.len()
                    &&& final(callback).nodes@ == old(callback).nodes@ + terms_migs(
                        ts,
                        old(callback).nodes@.len(),
                    )
                    &&& final(callback).roots@.len() == roots@.len()
                    &&& forall|i: int|
                        0 <= i < roots@.len() ==> #[trigger] final(callback).roots@[i] == term_root(
                            ts,
                            old(callback).nodes@.len(),
                            i,
                        )
                },
            r == Err::<(), RewriteError>(RewriteError::UnknownNode) <==> exists|i: int|
                0 <= i < roots@.len() && #[trigger] roots@[i] >= old(self).size(),
            r is Err ==> r == Err::<(), RewriteError>(RewriteError::UnknownNode) || r == Err::<
                (),
                RewriteError,
            >(RewriteError::MalformedTerm),
            r != Err::<(), RewriteError>(RewriteError::UnknownNode) ==> final(self).nodes()
                == Seq::<(Seq<char>, Seq<u32>)>::empty() && final(self).unmerged(),
            r is Err ==> final(callback).roots@ == old(callback).roots@,
    {
        let size = egraph_len(&self.graph);
        let mut i: usize = 0;
        while i < roots.len()
            invariant
                i <= roots@.len(),
                size == egraph_size(self.graph),
                size == old(self).size(),
                forall|i2: int| 0 <= i2 < i ==> (#[trigger] roots@[i2] as nat) < size,
            decreases roots@.len() - i,
        {
            if roots[i] >= size as u64 {
                return Err(RewriteError::UnknownNode);
            }
            i = i + 1;
        }
        let mut graph = egraph_new();
        std::mem::swap(&mut graph, &mut self.graph);
        let graph = saturate(graph, &self.rules);
        let mut terms: Vec<Vec<TermNode>> = Vec::new();
        let mut i: usize = 0;
        while i < roots.len()
            invariant
                i <= roots@.len(),
                terms@.len() == i,
                forall|i2: int| 0 <= i2 < roots@.len() ==> (#[trigger] roots@[i2] as nat) < egraph_size(graph),
            decreases roots@.len() - i,
        {
            terms.push(extract_best(&graph, roots[i] as u32, self.cost));
            i = i + 1;
        }
        let ids = match stream_terms(&terms, callback) {
            Ok(ids) => ids,
            Err(e) => {
                return Err(e);
            },
        };
        callback.mark_roots(ids.as_slice());
        proof {
            assert(terms_view(terms@).len() == roots@.len());
        }
        Ok(())
    }
}

} // verus!
