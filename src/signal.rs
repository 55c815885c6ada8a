use vstd::prelude::*;

verus! {

/// The bit of a [`Signal`] that marks it as inverted.
pub const NOT_MASK: u32 = 0x8000_0000;

/// Node ids must stay below this bound so that they never reach the inversion bit.
pub const ID_LIMIT: u32 = 0x8000_0000;

/// References a node in a network.
#[derive(Clone, Copy, Debug, Hash, PartialEq, Eq, Structural)]
pub struct Id(pub u32);

/// References a node by its id, together with a flag that says whether the signal from this node
/// is inverted. The flag is stored in the most significant bit.
#[derive(Clone, Copy, Debug, Hash, PartialEq, Eq, Structural)]
pub struct Signal(pub u32);

impl Id {
    /// The id as a number.
    pub open spec fn index(self) -> nat {
        self.0 as nat
    }

    /// Whether the id can be packed into a signal.
    pub open spec fn fits(self) -> bool {
        self.0 < ID_LIMIT
    }
}

impl From<u32> for Id {
    fn from(id: u32) -> (r: Id)
        ensures
            r.0 == id,
    {
        Id(id)
    }
}

impl vstd::std_specs::convert::FromSpecImpl<u32> for Id {
    open spec fn obeys_from_spec() -> bool {
        true
    }

    open spec fn from_spec(v: u32) -> Id {
        Id(v)
    }
}

impl From<Id> for u32 {
    fn from(id: Id) -> (r: u32)
        ensures
            r == id.0,
    {
        id.0
    }
}

impl vstd::std_specs::convert::FromSpecImpl<Id> for u32 {
    open spec fn obeys_from_spec() -> bool {
        true
    }

    open spec fn from_spec(v: Id) -> u32 {
        v.0
    }
}

/// The signal that references `id`, inverted iff `inverted`.
pub open spec fn signal_of(id: Id, inverted: bool) -> Signal
    recommends
        id.fits(),
{
    if inverted {
        Signal((id.0 + NOT_MASK) as u32)
    } else {
        Signal(id.0)
    }
}

/// The signal to the same node with the opposite inversion flag.
pub open spec fn inverted_signal(s: Signal) -> Signal {
    signal_of(s.id(), !s.inverted())
}

/// Composition of a signal with the signal that its node is replaced by: the node of `by`,
/// inverted iff exactly one of the two is inverted.
pub open spec fn replaced(s: Signal, by: Signal) -> Signal {
    signal_of(by.id(), s.inverted() != by.inverted())
}

proof fn lemma_bits(x: u32)
    ensures
        x & !NOT_MASK == x % 0x8000_0000,
        (x & NOT_MASK != 0) == (x >= 0x8000_0000),
        (x ^ NOT_MASK) % 0x8000_0000 == x % 0x8000_0000,
        ((x ^ NOT_MASK) >= 0x8000_0000) == (x < 0x8000_0000),
        x ^ 0 == x,
        x < 0x8000_0000 ==> x ^ NOT_MASK == x + 0x8000_0000,
        x >= 0x8000_0000 ==> x ^ NOT_MASK == x - 0x8000_0000,
{
    assert(x & !0x8000_0000u32 == x % 0x8000_0000) by (bit_vector);
    assert((x & 0x8000_0000u32 != 0) == (x >= 0x8000_0000)) by (bit_vector);
    assert((x ^ 0x8000_0000u32) % 0x8000_0000 == x % 0x8000_0000) by (bit_vector);
    assert(((x ^ 0x8000_0000u32) >= 0x8000_0000) == (x < 0x8000_0000)) by (bit_vector);
    assert(x ^ 0 == x) by (bit_vector);
    assert(x < 0x8000_0000 ==> x ^ 0x8000_0000u32 == x + 0x8000_0000) by (bit_vector);
    assert(x >= 0x8000_0000 ==> x ^ 0x8000_0000u32 == x - 0x8000_0000) by (bit_vector);
}

impl Signal {
    /// The id of the referenced node.
    pub open spec fn id(self) -> Id {
        Id((self.0 % 0x8000_0000) as u32)
    }

    /// Whether the signal is inverted.
    pub open spec fn inverted(self) -> bool {
        self.0 >= 0x8000_0000
    }

    /// Every signal is the one built from its own id and flag.
    pub proof fn lemma_signal_of(self)
        ensures
            self.id().fits(),
            signal_of(self.id(), self.inverted()) == self,
    {
    }

    pub fn new(id: Id, inverted: bool) -> (r: Signal)
        requires
            id.fits(),
        ensures
            r == signal_of(id, inverted),
            r.id() == id,
            r.inverted() == inverted,
    {
        Signal(id.0).maybe_invert(inverted)
    }

    pub fn is_inverted(&self) -> (r: bool)
        ensures
            r == self.inverted(),
    {
        proof {
            lemma_bits(self.0);
        }
        self.0 & NOT_MASK != 0
    }

    pub fn maybe_invert(&self, invert: bool) -> (r: Signal)
        ensures
            r.id() == self.id(),
            r.inverted() == (self.inverted() != invert),
            r == signal_of(self.id(), self.inverted() != invert),
    {
        proof {
            lemma_bits(self.0);
        }
        let mask: u32 = if invert {
            NOT_MASK
        } else {
            0
        };
        Signal(self.0 ^ mask)
    }

    pub fn invert(&self) -> (r: Signal)
        ensures
            r.id() == self.id(),
            r.inverted() == !self.inverted(),
            r == inverted_signal(*self),
    {
        self.maybe_invert(true)
    }

    pub fn node_id(&self) -> (r: Id)
        ensures
            r == self.id(),
            r.fits(),
    {
        proof {
            lemma_bits(self.0);
        }
        Id(self.0 & !NOT_MASK)
    }

    /// Replaces the id of this signal with the given signal. That is, the id of the returned
    /// signal is the id of `signal`, and the returned signal is inverted iff exactly one of the
    /// two signals is inverted.
    pub fn replace_id(&self, signal: Signal) -> (r: Signal)
        ensures
            r == replaced(*self, signal),
            r.id() == signal.id(),
            r.inverted() == (self.inverted() != signal.inverted()),
    {
        let inverted = self.is_inverted() != signal.is_inverted();
        Signal::new(signal.node_id(), inverted)
    }

    /// Performs [`Self::replace_id`] with the signal that `map` gives for this signal's id.
    pub fn map_id<F: FnOnce(Id) -> Signal>(&self, map: F) -> (r: Signal)
        requires
            map.requires((self.id(),)),
        ensures
            exists|s: Signal| map.ensures((self.id(),), s) && r == replaced(*self, s),
    {
        let s = map(self.node_id());
        self.replace_id(s)
    }
}

/// Inverting twice gives back the signal.
pub proof fn lemma_double_inversion(s: Signal)
    ensures
        inverted_signal(inverted_signal(s)) == s,
{
}

/// The replacement's inversion flag is the exclusive or of the two flags, and its node is the
/// replacing signal's node.
pub proof fn lemma_replace_inversion(s: Signal, t: Signal)
    ensures
        replaced(s, t).inverted() == (s.inverted() != t.inverted()),
        replaced(s, t).id() == t.id(),
{
}

} // verus!
