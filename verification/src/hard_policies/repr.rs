//! # Representation of LTL expressions
//!
//! Every expression is written as a string: constants as `true` and `false`, propositional
//! variables as `x` followed by their index with at least two digits, boolean operators between
//! their operands in parentheses, and temporal operators by their letter.
use vstd::prelude::*;
use crate::hard_policies::ltl::{LTLBoolean, LTLExpr, LTLModal};

verus! {

broadcast use vstd::std_specs::vec::axiom_vec_index_decreases;

/// The character of the decimal digit `d`.
pub open spec fn digit_char(d: nat) -> char {
    if d == 0 {
        '0'
    } else if d == 1 {
        '1'
    } else if d == 2 {
        '2'
    } else if d == 3 {
        '3'
    } else if d == 4 {
        '4'
    } else if d == 5 {
        '5'
    } else if d == 6 {
        '6'
    } else if d == 7 {
        '7'
    } else if d == 8 {
        '8'
    } else {
        '9'
    }
}

/// The decimal digits of `n`, without leading zeros.
pub open spec fn decimal(n: nat) -> Seq<char>
    decreases n,
{
    if n < 10 {
        seq![digit_char(n)]
    } else {
        decimal(n / 10) + seq![digit_char(n % 10)]
    }
}

/// The name of the propositional variable `i`: `x`, then its index with at least two digits.
pub open spec fn var_name(i: nat) -> Seq<char> {
    if i < 10 {
        seq!['x', '0', digit_char(i)]
    } else {
        seq!['x'] + decimal(i)
    }
}

/// Appends the decimal digits of `n` to `s`.
pub(crate) fn append_decimal(s: &mut String, n: usize)
    ensures
        final(s)@ == old(s)@ + decimal(n as nat),
    decreases n,
{
    if n >= 10 {
        append_decimal(s, n / 10);
    }
    let d = n % 10;
    let c = if d == 0 {
        "0"
    } else if d == 1 {
        "1"
    } else if d == 2 {
        "2"
    } else if d == 3 {
        "3"
    } else if d == 4 {
        "4"
    } else if d == 5 {
        "5"
    } else if d == 6 {
        "6"
    } else if d == 7 {
        "7"
    } else if d == 8 {
        "8"
    } else {
        "9"
    };
    proof {
        reveal_strlit("0");
        reveal_strlit("1");
        reveal_strlit("2");
        reveal_strlit("3");
        reveal_strlit("4");
        reveal_strlit("5");
        reveal_strlit("6");
        reveal_strlit("7");
        reveal_strlit("8");
        reveal_strlit("9");
        assert(c@ =~= seq![digit_char(d as nat)]);
    }
    s.append(c);
}

/// Appends the decimal digits of `n` to `s`.
pub(crate) fn append_u32(s: &mut String, n: u32)
    ensures
        final(s)@ == old(s)@ + decimal(n as nat),
{
    append_decimal(s, n as usize);
}

/// The name of the propositional variable `i`.
pub fn var_repr(i: usize) -> (r: String)
    ensures
        r@ == var_name(i as nat),
{
    let mut s = String::from_str("x");
    proof {
        reveal_strlit("x");
    }
    if i < 10 {
        s.append("0");
        proof {
            reveal_strlit("0");
        }
    }
    append_decimal(&mut s, i);
    proof {
        if i < 10 {
            assert(s@ =~= var_name(i as nat));
        } else {
            assert(s@ =~= var_name(i as nat));
        }
    }
    s
}

/// The representations of the first `k` expressions of `s`, separated by `sep`.
pub open spec fn joined(s: Seq<Box<LTLExpr>>, sep: Seq<char>, k: nat) -> Seq<char>
    decreases s, k,
{
    if k == 0 || k > s.len() {
        Seq::empty()
    } else if k == 1 {
        s[0].repr_spec()
    } else {
        joined(s, sep, (k - 1) as nat) + sep + s[k - 1].repr_spec()
    }
}

impl LTLExpr {
    /// The representation of the expression.
    pub open spec fn repr_spec(self) -> Seq<char>
        decreases self, 0nat,
    {
        match self {
            LTLExpr::Bool(b) => if b {
                seq!['t', 'r', 'u', 'e']
            } else {
                seq!['f', 'a', 'l', 's', 'e']
            },
            LTLExpr::Var(i) => var_name(i as nat),
            LTLExpr::Boolean(b) => b.repr_spec(),
            LTLExpr::Modal(m) => m.repr_spec(),
        }
    }
}

impl LTLBoolean {
    /// The representation of the operator.
    pub open spec fn repr_spec(self) -> Seq<char>
        decreases self, 0nat,
    {
        match self {
            LTLBoolean::Not(a) => seq!['!'] + a.repr_spec(),
            LTLBoolean::Or(v) => seq!['('] + joined(v@, seq![' ', '|', '|', ' '], v@.len()) + seq![')'],
            LTLBoolean::And(v) => seq!['('] + joined(v@, seq![' ', '&', '&', ' '], v@.len()) + seq![')'],
            LTLBoolean::Xor(a, b) => seq!['('] + a.repr_spec() + seq![' ', '^', '^', ' '] + b.repr_spec()
                + seq![')'],
            LTLBoolean::Implies(a, b) => seq!['('] + a.repr_spec() + seq![' ', '=', '>', ' ']
                + b.repr_spec() + seq![')'],
            LTLBoolean::Iff(a, b) => seq!['('] + a.repr_spec() + seq![' ', '<', '=', '>', ' ']
                + b.repr_spec() + seq![')'],
        }
    }
}

impl LTLModal {
    /// The representation of the operator.
    pub open spec fn repr_spec(self) -> Seq<char>
        decreases self, 0nat,
    {
        match self {
            LTLModal::Now(a) => a.repr_spec(),
            LTLModal::Next(a) => seq!['(', 'N', ' '] + a.repr_spec() + seq![')'],
            LTLModal::Finally(a) => seq!['(', 'F', ' '] + a.repr_spec() + seq![')'],
            LTLModal::Globally(a) => seq!['(', 'G', ' '] + a.repr_spec() + seq![')'],
            LTLModal::Until(a, b) => seq!['('] + a.repr_spec() + seq![' ', 'U', ' '] + b.repr_spec()
                + seq![')'],
            LTLModal::Release(a, b) => seq!['('] + a.repr_spec() + seq![' ', 'R', ' '] + b.repr_spec()
                + seq![')'],
            LTLModal::WeakUntil(a, b) => seq!['('] + a.repr_spec() + seq![' ', 'W', ' '] + b.repr_spec()
                + seq![')'],
            LTLModal::StrongRelease(a, b) => seq!['('] + a.repr_spec() + seq![' ', 'M', ' ']
                + b.repr_spec() + seq![')'],
        }
    }
}

/// The string of two operand strings between parentheses, separated by `sep`.
fn binary(ra: String, sep: &str, rb: String) -> (r: String)
    ensures
        r@ == seq!['('] + ra@ + sep@ + rb@ + seq![')'],
{
    let mut s = String::from_str("(");
    s.append(ra.as_str());
    s.append(sep);
    s.append(rb.as_str());
    s.append(")");
    proof {
        reveal_strlit("(");
        reveal_strlit(")");
        assert(s@ =~= seq!['('] + ra@ + sep@ + rb@ + seq![')']);
    }
    s
}

/// The string of an operand string after a prefix, followed by `)` if `close`.
fn unary(prefix: &str, ra: String, close: bool) -> (r: String)
    ensures
        r@ == prefix@ + ra@ + if close { seq![')'] } else { Seq::empty() },
{
    let mut s = String::from_str(prefix);
    s.append(ra.as_str());
    if close {
        s.append(")");
    }
    proof {
        reveal_strlit(")");
        assert(s@ =~= prefix@ + ra@ + if close { seq![')'] } else { Seq::<char>::empty() });
    }
    s
}

/// The strings of the operands between parentheses, separated by `sep`.
fn list(v: &Vec<Box<LTLExpr>>, sep: &str) -> (r: String)
    ensures
        r@ == seq!['('] + joined(v@, sep@, v@.len()) + seq![')'],
    decreases v, 0nat,
{
    let mut s = String::from_str("(");
    proof {
        reveal_strlit("(");
        assert(s@ =~= seq!['('] + joined(v@, sep@, 0));
    }
    let mut k: usize = 0;
    while k < v.len()
        invariant
            k <= v@.len(),
            s@ == seq!['('] + joined(v@, sep@, k as nat),
        decreases v@.len() - k,
    {
        proof {
            assert(decreases_to!(v => v@[k as int]));
        }
        if k > 0 {
            s.append(sep);
        }
        let e = v[k].repr();
        s.append(e.as_str());
        proof {
            if k == 0 {
                assert(s@ =~= seq!['('] + joined(v@, sep@, 1));
            } else {
                assert(s@ =~= seq!['('] + joined(v@, sep@, (k + 1) as nat));
            }
        }
        k += 1;
    }
    s.append(")");
    proof {
        reveal_strlit("(");
        reveal_strlit(")");
    }
    s
}

impl LTLExpr {
    /// Represent the expression as a string
    pub fn repr(&self) -> (r: String)
        ensures
            r@ == self.repr_spec(),
        decreases self, 1nat,
    {
        match self {
            LTLExpr::Bool(b) => {
                proof {
                    reveal_strlit("true");
                    reveal_strlit("false");
                }
                if *b {
                    String::from_str("true")
                } else {
                    String::from_str("false")
                }
            },
            LTLExpr::Var(i) => var_repr(*i),
            LTLExpr::Boolean(b) => b.repr(),
            LTLExpr::Modal(m) => m.repr(),
        }
    }
}

impl LTLBoolean {
    /// Represent the operator as a string
    pub fn repr(&self) -> (r: String)
        ensures
            r@ == self.repr_spec(),
        decreases self, 1nat,
    {
        proof {
            reveal_strlit("!");
            reveal_strlit(" || ");
            reveal_strlit(" && ");
            reveal_strlit(" ^^ ");
            reveal_strlit(" => ");
            reveal_strlit(" <=> ");
        }
        match self {
            LTLBoolean::Not(a) => {
                let r = unary("!", a.repr(), false);
                assert(r@ =~= self.repr_spec());
                r
            },
            LTLBoolean::Or(v) => {
                proof {
                    assert(decreases_to!(self => self->Or_0));
                    assert(" || "@ =~= seq![' ', '|', '|', ' ']);
                }
                list(v, " || ")
            },
            LTLBoolean::And(v) => {
                proof {
                    assert(decreases_to!(self => self->And_0));
                    assert(" && "@ =~= seq![' ', '&', '&', ' ']);
                }
                list(v, " && ")
            },
            LTLBoolean::Xor(a, b) => binary(a.repr(), " ^^ ", b.repr()),
            LTLBoolean::Implies(a, b) => binary(a.repr(), " => ", b.repr()),
            LTLBoolean::Iff(a, b) => binary(a.repr(), " <=> ", b.repr()),
        }
    }
}

impl LTLModal {
    /// Represent the operator as a string
    pub fn repr(&self) -> (r: String)
        ensures
            r@ == self.repr_spec(),
        decreases self, 1nat,
    {
        proof {
            reveal_strlit("(N ");
            reveal_strlit("(F ");
            reveal_strlit("(G ");
            reveal_strlit(" U ");
            reveal_strlit(" R ");
            reveal_strlit(" W ");
            reveal_strlit(" M ");
        }
        match self {
            LTLModal::Now(a) => a.repr(),
            LTLModal::Next(a) => unary("(N ", a.repr(), true),
            LTLModal::Finally(a) => unary("(F ", a.repr(), true),
            LTLModal::Globally(a) => unary("(G ", a.repr(), true),
            LTLModal::Until(a, b) => binary(a.repr(), " U ", b.repr()),
            LTLModal::Release(a, b) => binary(a.repr(), " R ", b.repr()),
            LTLModal::WeakUntil(a, b) => binary(a.repr(), " W ", b.repr()),
            LTLModal::StrongRelease(a, b) => binary(a.repr(), " M ", b.repr()),
        }
    }
}

} // verus!
