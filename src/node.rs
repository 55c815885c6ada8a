use vstd::prelude::*;
use crate::signal::{Id, Signal};

verus! {

/// Gate kinds of all supported logic network families. NOT gates are not among them: an
/// inversion is stored in the [`Signal`] that references a node.
#[derive(Clone, Copy, Debug, Hash, PartialEq, Eq, Structural)]
pub enum Gate {
    And,
    Or,
    Xor,
    Maj,
    And2,
    And4,
    And8,
    And16,
    And32,
    Or2,
    Or4,
    Or8,
    Or16,
    Or32,
}

/// The largest fan-in of any gate kind.
pub const MAX_FANIN: usize = 32;

impl Gate {
    /// The number of inputs of a gate of this kind.
    pub open spec fn arity(self) -> nat {
        match self {
            Gate::And | Gate::Or | Gate::Xor | Gate::And2 | Gate::Or2 => 2,
            Gate::Maj => 3,
            Gate::And4 | Gate::Or4 => 4,
            Gate::And8 | Gate::Or8 => 8,
            Gate::And16 | Gate::Or16 => 16,
            Gate::And32 | Gate::Or32 => 32,
        }
    }

    /// Snake_case name of this gate kind, also its operator in rewrite patterns.
    pub open spec fn spec_name(self) -> Seq<char> {
        match self {
            Gate::And => "and"@,
            Gate::Or => "or"@,
            Gate::Xor => "xor"@,
            Gate::Maj => "maj"@,
            Gate::And2 => "and2"@,
            Gate::And4 => "and4"@,
            Gate::And8 => "and8"@,
            Gate::And16 => "and16"@,
            Gate::And32 => "and32"@,
            Gate::Or2 => "or2"@,
            Gate::Or4 => "or4"@,
            Gate::Or8 => "or8"@,
            Gate::Or16 => "or16"@,
            Gate::Or32 => "or32"@,
        }
    }

    /// All gate kinds, in declaration order.
    pub open spec fn all() -> Seq<Gate> {
        seq![
            Gate::And,
            Gate::Or,
            Gate::Xor,
            Gate::Maj,
            Gate::And2,
            Gate::And4,
            Gate::And8,
            Gate::And16,
            Gate::And32,
            Gate::Or2,
            Gate::Or4,
            Gate::Or8,
            Gate::Or16,
            Gate::Or32,
        ]
    }

    pub fn fanin(&self) -> (r: u8)
        ensures
            r == self.arity(),
            r <= MAX_FANIN,
    {
        match self {
            Gate::And | Gate::Or | Gate::Xor | Gate::And2 | Gate::Or2 => 2,
            Gate::Maj => 3,
            Gate::And4 | Gate::Or4 => 4,
            Gate::And8 | Gate::Or8 => 8,
            Gate::And16 | Gate::Or16 => 16,
            Gate::And32 | Gate::Or32 => 32,
        }
    }

    pub fn name(&self) -> (r: &'static str)
        ensures
            r@ == self.spec_name(),
    {
        match self {
            Gate::And => "and",
            Gate::Or => "or",
            Gate::Xor => "xor",
            Gate::Maj => "maj",
            Gate::And2 => "and2",
            Gate::And4 => "and4",
            Gate::And8 => "and8",
            Gate::And16 => "and16",
            Gate::And32 => "and32",
            Gate::Or2 => "or2",
            Gate::Or4 => "or4",
            Gate::Or8 => "or8",
            Gate::Or16 => "or16",
            Gate::Or32 => "or32",
        }
    }

    /// The name of the mockturtle method that creates a gate of this kind.
    pub fn mockturtle_create(&self) -> &'static str {
        match self {
            Gate::And => "create_and",
            Gate::Or => "create_or",
            Gate::Xor => "create_xor",
            Gate::Maj => "create_maj",
            Gate::And2 => "create_nary_and2",
            Gate::And4 => "create_nary_and4",
            Gate::And8 => "create_nary_and8",
            Gate::And16 => "create_nary_and16",
            Gate::And32 => "create_nary_and32",
            Gate::Or2 => "create_nary_or2",
            Gate::Or4 => "create_nary_or4",
            Gate::Or8 => "create_nary_or8",
            Gate::Or16 => "create_nary_or16",
            Gate::Or32 => "create_nary_or32",
        }
    }

    /// The name of the mockturtle method that tells whether a node is a gate of this kind.
    pub fn mockturtle_is(&self) -> &'static str {
        match self {
            Gate::And => "is_and",
            Gate::Or => "is_or",
            Gate::Xor => "is_xor",
            Gate::Maj => "is_maj",
            Gate::And2 => "is_naryand2",
            Gate::And4 => "is_naryand4",
            Gate::And8 => "is_naryand8",
            Gate::And16 => "is_naryand16",
            Gate::And32 => "is_naryand32",
            Gate::Or2 => "is_naryor2",
            Gate::Or4 => "is_naryor4",
            Gate::Or8 => "is_naryor8",
            Gate::Or16 => "is_naryor16",
            Gate::Or32 => "is_naryor32",
        }
    }

    /// All gate kinds, in declaration order.
    pub fn variants() -> (r: Vec<Gate>)
        ensures
            r@ == Gate::all(),
    {
        let r = vec![
            Gate::And,
            Gate::Or,
            Gate::Xor,
            Gate::Maj,
            Gate::And2,
            Gate::And4,
            Gate::And8,
            Gate::And16,
            Gate::And32,
            Gate::Or2,
            Gate::Or4,
            Gate::Or8,
            Gate::Or16,
            Gate::Or32,
        ];
        assert(r@ =~= Gate::all());
        r
    }
}

/// A family of logic networks, described by which gate kinds its networks may hold.
#[derive(Clone, Copy, Debug, Hash, PartialEq, Eq, Structural)]
pub enum Family {
    /// And-inverter graphs.
    Aig,
    /// Majority-inverter graphs.
    Mig,
    /// And-or-inverter graphs with n-ary gates.
    Aoig,
    /// Xor-and graphs.
    Xag,
    /// Xor-majority graphs.
    Xmg,
}

impl Family {
    /// Gate kinds of this family.
    pub open spec fn gate_seq(self) -> Seq<Gate> {
        match self {
            Family::Aig => seq![Gate::And],
            Family::Mig => seq![Gate::Maj],
            Family::Aoig => seq![
                Gate::And,
                Gate::Or,
                Gate::And2,
                Gate::And4,
                Gate::And8,
                Gate::And16,
                Gate::And32,
                Gate::Or2,
                Gate::Or4,
                Gate::Or8,
                Gate::Or16,
                Gate::Or32,
            ],
            Family::Xag => seq![Gate::And, Gate::Xor],
            Family::Xmg => seq![Gate::Xor, Gate::Maj],
        }
    }

    /// Gate kinds of this family, in the order in which the family declares them.
    pub fn gates(&self) -> (r: Vec<Gate>)
        ensures
            r@ == self.gate_seq(),
    {
        let r = match self {
            Family::Aig => vec![Gate::And],
            Family::Mig => vec![Gate::Maj],
            Family::Aoig => vec![
                Gate::And,
                Gate::Or,
                Gate::And2,
                Gate::And4,
                Gate::And8,
                Gate::And16,
                Gate::And32,
                Gate::Or2,
                Gate::Or4,
                Gate::Or8,
                Gate::Or16,
                Gate::Or32,
            ],
            Family::Xag => vec![Gate::And, Gate::Xor],
            Family::Xmg => vec![Gate::Xor, Gate::Maj],
        };
        assert(r@ =~= self.gate_seq());
        r
    }

    /// Whether a gate kind belongs to the family.
    pub fn has_gate(&self, gate: Gate) -> (r: bool)
        ensures
            r == self.gate_seq().contains(gate),
    {
        let gates = self.gates();
        let mut i: usize = 0;
        while i < gates.len()
            invariant
                gates@ == self.gate_seq(),
                i <= gates.len(),
                forall|j: int| 0 <= j < i ==> gates@[j] != gate,
            decreases gates.len() - i,
        {
            if gates[i] == gate {
                return true;
            }
            i = i + 1;
        }
        false
    }

    /// The snake_case name of the family (e.g. `"aig"`).
    pub open spec fn spec_typename(self) -> Seq<char> {
        match self {
            Family::Aig => "aig"@,
            Family::Mig => "mig"@,
            Family::Aoig => "aoig"@,
            Family::Xag => "xag"@,
            Family::Xmg => "xmg"@,
        }
    }

    /// The snake_case name of the family (e.g. `"aig"`).
    pub fn typename(&self) -> (r: &'static str)
        ensures
            r@ == self.spec_typename(),
    {
        match self {
            Family::Aig => "aig",
            Family::Mig => "mig",
            Family::Aoig => "aoig",
            Family::Xag => "xag",
            Family::Xmg => "xmg",
        }
    }

    /// The name of the equivalent network type in mockturtle (e.g. `"aig_network"`).
    pub fn mockturtle_typename(&self) -> &'static str {
        match self {
            Family::Aig => "aig_network",
            Family::Mig => "mig_network",
            Family::Aoig => "aoig_network",
            Family::Xag => "xag_network",
            Family::Xmg => "xmg_network",
        }
    }

    /// The mockturtle header that declares the network type.
    pub fn mockturtle_include(&self) -> &'static str {
        match self {
            Family::Aig => "mockturtle/networks/aig.hpp",
            Family::Mig => "mockturtle/networks/mig.hpp",
            Family::Aoig => "mockturtle/networks/aoig.hpp",
            Family::Xag => "mockturtle/networks/xag.hpp",
            Family::Xmg => "mockturtle/networks/xmg.hpp",
        }
    }
}

/// What a node is: a primary input (by its index), the constant false, or a gate.
#[derive(Clone, Copy, Debug, Hash, PartialEq, Eq, Structural)]
pub enum NodeKind {
    Input(u64),
    False,
    Gate(Gate),
}

impl NodeKind {
    /// The number of inputs of a node of this kind.
    pub open spec fn arity(self) -> nat {
        match self {
            NodeKind::Input(_) => 0,
            NodeKind::False => 0,
            NodeKind::Gate(g) => g.arity(),
        }
    }

    pub fn fanin(&self) -> (r: usize)
        ensures
            r == self.arity(),
            r <= MAX_FANIN,
    {
        match self {
            NodeKind::Input(_) => 0,
            NodeKind::False => 0,
            NodeKind::Gate(g) => g.fanin() as usize,
        }
    }
}

/// A node of a logic network: its kind and its ordered input signals.
#[derive(Clone, Debug, Hash, PartialEq, Eq)]
pub struct Node {
    pub kind: NodeKind,
    pub inputs: Vec<Signal>,
}

/// The mathematical value of a [`Node`].
pub struct NodeView {
    pub kind: NodeKind,
    pub inputs: Seq<Signal>,
}

impl NodeView {
    /// The number of inputs matches the node's kind.
    pub open spec fn wf(self) -> bool {
        self.inputs.len() == self.kind.arity()
    }

    /// Whether `id` is the node of one of the inputs.
    pub open spec fn has_child(self, id: Id) -> bool {
        exists|j: int| 0 <= j < self.inputs.len() && #[trigger] self.inputs[j].id() == id
    }
}

impl View for Node {
    type V = NodeView;

    open spec fn view(&self) -> NodeView {
        NodeView { kind: self.kind, inputs: self.inputs@ }
    }
}

impl Node {
    /// The primary input with the given index.
    pub fn input(index: u64) -> (r: Node)
        ensures
            r@ == (NodeView { kind: NodeKind::Input(index), inputs: Seq::empty() }),
            r@.wf(),
    {
        let r = Node { kind: NodeKind::Input(index), inputs: Vec::new() };
        assert(r@.inputs =~= Seq::empty());
        r
    }

    /// The constant-false node; the constant true is an inverted signal to it.
    pub fn constant_false() -> (r: Node)
        ensures
            r@ == (NodeView { kind: NodeKind::False, inputs: Seq::empty() }),
            r@.wf(),
    {
        let r = Node { kind: NodeKind::False, inputs: Vec::new() };
        assert(r@.inputs =~= Seq::empty());
        r
    }

    /// A gate of the given kind over the given inputs.
    pub fn gate(gate: Gate, inputs: Vec<Signal>) -> (r: Node)
        requires
            inputs@.len() == gate.arity(),
        ensures
            r@ == (NodeView { kind: NodeKind::Gate(gate), inputs: inputs@ }),
            r@.wf(),
    {
        Node { kind: NodeKind::Gate(gate), inputs }
    }

    /// The input signals of this node; empty for primary inputs and constants.
    pub fn inputs(&self) -> (r: &[Signal])
        ensures
            r@ == self.inputs@,
    {
        self.inputs.as_slice()
    }

    /// Whether the node has no inputs.
    pub fn is_leaf(&self) -> (r: bool)
        ensures
            r == (self.inputs@.len() == 0),
    {
        self.inputs.len() == 0
    }

    /// A copy of the node.
    pub fn duplicate(&self) -> (r: Node)
        ensures
            r@ == self@,
    {
        let mut inputs: Vec<Signal> = Vec::new();
        let mut j: usize = 0;
        while j < self.inputs.len()
            invariant
                j <= self.inputs@.len(),
                inputs@ == self.inputs@.subrange(0, j as int),
            decreases self.inputs@.len() - j,
        {
            inputs.push(self.inputs[j]);
            j = j + 1;
            assert(inputs@ =~= self.inputs@.subrange(0, j as int));
        }
        assert(inputs@ =~= self.inputs@);
        Node { kind: self.kind, inputs }
    }

    /// Whether the node's number of inputs matches its kind.
    pub fn is_well_formed(&self) -> (r: bool)
        ensures
            r == self@.wf(),
    {
        self.inputs.len() == self.kind.fanin()
    }
}

} // verus!
