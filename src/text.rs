use vstd::prelude::*;
use vstd::string::StringExecFns;
use crate::node::{Gate, NodeKind};

verus! {

/// The decimal digit for a value below ten.
pub open spec fn digit_char(d: nat) -> char {
    if d == 0 {
        '0'
    } else if d == 1 {
        '1'
    } else if d == 2 {
        '2'
    } else if d == 3 {
        '3'
    } else if d == 4 {
        '4'
    } else if d == 5 {
        '5'
    } else if d == 6 {
        '6'
    } else if d == 7 {
        '7'
    } else if d == 8 {
        '8'
    } else {
        '9'
    }
}

/// The value of a decimal digit character, if it is one.
pub open spec fn digit_value(c: char) -> Option<nat> {
    if '0' <= c && c <= '9' {
        Some((c as nat - '0' as nat) as nat)
    } else {
        None
    }
}

/// The decimal text of `n`, without leading zeros.
pub open spec fn decimal(n: nat) -> Seq<char>
    decreases n,
{
    if n < 10 {
        seq![digit_char(n)]
    } else {
        decimal(n / 10).push(digit_char(n % 10))
    }
}

/// The value of a nonempty string of decimal digits.
pub open spec fn digits_value(s: Seq<char>) -> Option<nat>
    decreases s.len(),
{
    if s.len() == 0 {
        None
    } else {
        match digit_value(s.last()) {
            None => None,
            Some(d) => if s.len() == 1 {
                Some(d)
            } else {
                match digits_value(s.drop_last()) {
                    None => None,
                    Some(v) => Some(v * 10 + d),
                }
            },
        }
    }
}

/// What parsing `s` as a `u64` gives: an optional `+` followed by at least one decimal digit,
/// with a value that fits.
pub open spec fn parsed_u64(s: Seq<char>) -> Option<u64> {
    let digits = if s.len() > 0 && s[0] == '+' {
        s.drop_first()
    } else {
        s
    };
    match digits_value(digits) {
        Some(v) => if v <= u64::MAX {
            Some(v as u64)
        } else {
            None
        },
        None => None,
    }
}

/// Relies on `u64`'s `Display` through `ToString`: decimal digits without sign or leading
/// zeros.
#[verifier::external_body]
pub(crate) fn u64_text(n: u64) -> (r: String)
    ensures
        r@ == decimal(n as nat),
{
    n.to_string()
}

/// Relies on `u64`'s `FromStr`: an optional `+`, then decimal digits whose value fits.
#[verifier::external_body]
pub(crate) fn parse_u64(s: &str) -> (r: Option<u64>)
    ensures
        r == parsed_u64(s@),
{
    s.parse::<u64>().ok()
}

/// The operator of a node in the term language of rewrite rules: a NOT over one child, or a
/// node kind.
#[derive(Clone, Copy, Debug, PartialEq, Eq, Structural)]
pub enum Op {
    Not,
    Kind(NodeKind),
}

/// The text of an operator: `!` for NOT, `f` for the constant false, a gate's name for a
/// gate, and the decimal index for a primary input.
pub open spec fn op_text(op: Op) -> Seq<char> {
    match op {
        Op::Not => "!"@,
        Op::Kind(NodeKind::False) => "f"@,
        Op::Kind(NodeKind::Gate(g)) => g.spec_name(),
        Op::Kind(NodeKind::Input(i)) => decimal(i as nat),
    }
}

/// The operator that a text stands for, if any.
pub open spec fn text_op(s: Seq<char>) -> Option<Op> {
    if s == "!"@ {
        Some(Op::Not)
    } else if s == "f"@ {
        Some(Op::Kind(NodeKind::False))
    } else if exists|g: Gate| #[trigger] g.spec_name() == s {
        Some(Op::Kind(NodeKind::Gate(choose|g: Gate| #[trigger] g.spec_name() == s)))
    } else {
        match parsed_u64(s) {
            Some(i) => Some(Op::Kind(NodeKind::Input(i))),
            None => None,
        }
    }
}

/// The number of children of an operator.
pub open spec fn op_arity(op: Op) -> nat {
    match op {
        Op::Not => 1,
        Op::Kind(k) => k.arity(),
    }
}

/// Every gate kind is listed in [`Gate::all`].
proof fn lemma_gate_listed(g: Gate)
    ensures
        Gate::all().contains(g),
{
    let all = Gate::all();
    match g {
        Gate::And => assert(all[0] == g),
        Gate::Or => assert(all[1] == g),
        Gate::Xor => assert(all[2] == g),
        Gate::Maj => assert(all[3] == g),
        Gate::And2 => assert(all[4] == g),
        Gate::And4 => assert(all[5] == g),
        Gate::And8 => assert(all[6] == g),
        Gate::And16 => assert(all[7] == g),
        Gate::And32 => assert(all[8] == g),
        Gate::Or2 => assert(all[9] == g),
        Gate::Or4 => assert(all[10] == g),
        Gate::Or8 => assert(all[11] == g),
        Gate::Or16 => assert(all[12] == g),
        Gate::Or32 => assert(all[13] == g),
    }
}

/// Returns the text of an operator.
pub fn op_to_text(op: Op) -> (r: String)
    ensures
        r@ == op_text(op),
{
    match op {
        Op::Not => "!".to_owned(),
        Op::Kind(NodeKind::False) => "f".to_owned(),
        Op::Kind(NodeKind::Gate(g)) => g.name().to_owned(),
        Op::Kind(NodeKind::Input(i)) => u64_text(i),
    }
}

/// Reads the operator that a text stands for.
pub fn text_to_op(s: &str) -> (r: Option<Op>)
    ensures
        r == text_op(s@),
{
    let owned = s.to_owned();
    if owned == "!".to_owned() {
        return Some(Op::Not);
    }
    if owned == "f".to_owned() {
        return Some(Op::Kind(NodeKind::False));
    }
    let gates = Gate::variants();
    let mut i: usize = 0;
    while i < gates.len()
        invariant
            gates@ == Gate::all(),
            i <= gates@.len(),
            owned@ == s@,
            s@ != "!"@,
            s@ != "f"@,
            forall|j: int| 0 <= j < i ==> (#[trigger] gates@[j]).spec_name() != s@,
        decreases gates@.len() - i,
    {
        let g = gates[i];
        if owned == g.name().to_owned() {
            proof {
                assert(exists|g2: Gate| #[trigger] g2.spec_name() == s@);
                let c = choose|g2: Gate| #[trigger] g2.spec_name() == s@;
                assert(c == g) by {
                    reveal_strlit("and");
                    reveal_strlit("or");
                    reveal_strlit("xor");
                    reveal_strlit("maj");
                    reveal_strlit("and2");
                    reveal_strlit("and4");
                    reveal_strlit("and8");
                    reveal_strlit("and16");
                    reveal_strlit("and32");
                    reveal_strlit("or2");
                    reveal_strlit("or4");
                    reveal_strlit("or8");
                    reveal_strlit("or16");
                    reveal_strlit("or32");
                }
            }
            return Some(Op::Kind(NodeKind::Gate(g)));
        }
        i = i + 1;
    }
    proof {
        assert forall|g: Gate| #[trigger] g.spec_name() != s@ by {
            lemma_gate_listed(g);
            let j = choose|j: int| 0 <= j < Gate::all().len() && Gate::all()[j] == g;
            assert(gates@[j] == g);
        }
    }
    match parse_u64(s) {
        Some(n) => Some(Op::Kind(NodeKind::Input(n))),
        None => None,
    }
}

/// The C++ parameter list `<prefix>1, <prefix>2, ...` of a function over `n` values, e.g.
/// `signal input1, signal input2` for the prefix `signal input`.
pub open spec fn parameter_list(prefix: Seq<char>, n: nat) -> Seq<char>
    decreases n,
{
    if n == 0 {
        Seq::empty()
    } else if n == 1 {
        prefix + decimal(1)
    } else {
        parameter_list(prefix, (n - 1) as nat) + ", "@ + prefix + decimal(n)
    }
}

/// Returns the C++ parameter list `<prefix>1, ..., <prefix>n`.
pub fn parameters(prefix: &str, n: u8) -> (r: String)
    ensures
        r@ == parameter_list(prefix@, n as nat),
{
    let mut res = String::new();
    let mut i: u8 = 1;
    while i <= n
        invariant
            1 <= i,
            i as nat <= n as nat + 1,
            res@ == parameter_list(prefix@, (i - 1) as nat),
        decreases n as nat + 1 - i as nat,
    {
        if i != 1 {
            res.append(", ");
        }
        res.append(prefix);
        let t = u64_text(i as u64);
        res.append(t.as_str());
        proof {
            if i == 1 {
                assert(res@ =~= parameter_list(prefix@, 1));
            } else {
                assert(res@ =~= parameter_list(prefix@, i as nat));
            }
        }
        if i == n {
            return res;
        }
        i = i + 1;
    }
    res
}

/// The parameters `signal input1, ...` of the C++ function that creates a gate of this kind.
pub fn signal_parameters(gate: Gate) -> (r: String)
    ensures
        r@ == parameter_list("signal input"@, gate.arity()),
{
    parameters("signal input", gate.fanin())
}

/// The parameters `uint64_t id1, ...` of the C++ function that adds a gate of this kind by
/// e-class ids.
pub fn id_parameters(gate: Gate) -> (r: String)
    ensures
        r@ == parameter_list("uint64_t id"@, gate.arity()),
{
    parameters("uint64_t id", gate.fanin())
}

} // verus!
