//! # Results of partial evaluation
//!
//! The three truth values of an expression evaluated on a history that may still be extended,
//! with the boolean operators on them.
use vstd::prelude::*;

verus! {

/// Result of evaluating an expression on a history that is not yet complete.
#[derive(Debug, Clone, Copy, PartialEq, Eq, Structural)]
pub enum LTLResult {
    /// The expression holds, however the history is extended.
    T,
    /// The expression is violated, however the history is extended.
    F,
    /// The result depends on how the history continues.
    U,
}

impl LTLResult {
    /// Returns true if self is `LTLResult::T`
    pub fn is_true(&self) -> (r: bool)
        ensures
            r == (*self == LTLResult::T),
    {
        match self {
            LTLResult::T => true,
            _ => false,
        }
    }

    /// Returns true if self is `LTLResult::F`
    pub fn is_false(&self) -> (r: bool)
        ensures
            r == (*self == LTLResult::F),
    {
        match self {
            LTLResult::F => true,
            _ => false,
        }
    }

    /// Returns true if self is `LTLResult::U`
    pub fn is_undef(&self) -> (r: bool)
        ensures
            r == (*self == LTLResult::U),
    {
        match self {
            LTLResult::U => true,
            _ => false,
        }
    }
}

/// Lifts a boolean into a definite result.
pub open spec fn res_of(b: bool) -> LTLResult {
    if b {
        LTLResult::T
    } else {
        LTLResult::F
    }
}

/// Three-valued conjunction: undefined wins over everything.
pub open spec fn res_and(a: LTLResult, b: LTLResult) -> LTLResult {
    match (a, b) {
        (LTLResult::U, _) => LTLResult::U,
        (_, LTLResult::U) => LTLResult::U,
        (LTLResult::T, LTLResult::T) => LTLResult::T,
        _ => LTLResult::F,
    }
}

/// Three-valued disjunction: true wins over undefined, undefined over false.
pub open spec fn res_or(a: LTLResult, b: LTLResult) -> LTLResult {
    match (a, b) {
        (LTLResult::T, _) => LTLResult::T,
        (_, LTLResult::T) => LTLResult::T,
        (LTLResult::U, _) => LTLResult::U,
        (_, LTLResult::U) => LTLResult::U,
        _ => LTLResult::F,
    }
}

/// Three-valued exclusive or: undefined if any operand is undefined.
pub open spec fn res_xor(a: LTLResult, b: LTLResult) -> LTLResult {
    match (a, b) {
        (LTLResult::U, _) => LTLResult::U,
        (_, LTLResult::U) => LTLResult::U,
        (LTLResult::F, LTLResult::F) => LTLResult::F,
        (LTLResult::T, LTLResult::T) => LTLResult::F,
        _ => LTLResult::T,
    }
}

/// Three-valued negation.
pub open spec fn res_not(a: LTLResult) -> LTLResult {
    match a {
        LTLResult::U => LTLResult::U,
        LTLResult::T => LTLResult::F,
        LTLResult::F => LTLResult::T,
    }
}

impl From<bool> for LTLResult {
    fn from(x: bool) -> (r: Self) {
        if x {
            LTLResult::T
        } else {
            LTLResult::F
        }
    }
}

impl vstd::std_specs::convert::FromSpecImpl<bool> for LTLResult {
    open spec fn obeys_from_spec() -> bool {
        true
    }

    open spec fn from_spec(x: bool) -> Self {
        res_of(x)
    }
}

impl From<Option<bool>> for LTLResult {
    fn from(x: Option<bool>) -> (r: Self) {
        match x {
            Some(b) => if b {
                LTLResult::T
            } else {
                LTLResult::F
            },
            None => LTLResult::U,
        }
    }
}

impl vstd::std_specs::convert::FromSpecImpl<Option<bool>> for LTLResult {
    open spec fn obeys_from_spec() -> bool {
        true
    }

    open spec fn from_spec(x: Option<bool>) -> Self {
        match x {
            Some(b) => res_of(b),
            None => LTLResult::U,
        }
    }
}

impl std::ops::BitAnd for LTLResult {
    type Output = Self;

    fn bitand(self, rhs: Self) -> (r: Self::Output) {
        match (self, rhs) {
            (LTLResult::U, _) => LTLResult::U,
            (_, LTLResult::U) => LTLResult::U,
            (LTLResult::T, LTLResult::T) => LTLResult::T,
            _ => LTLResult::F,
        }
    }
}

impl vstd::std_specs::ops::BitAndSpecImpl for LTLResult {
    open spec fn obeys_bitand_spec() -> bool {
        true
    }

    open spec fn bitand_req(self, rhs: Self) -> bool {
        true
    }

    open spec fn bitand_spec(self, rhs: Self) -> Self {
        res_and(self, rhs)
    }
}

impl std::ops::BitOr for LTLResult {
    type Output = Self;

    fn bitor(self, rhs: Self) -> (r: Self::Output) {
        match (self, rhs) {
            (LTLResult::T, _) => LTLResult::T,
            (_, LTLResult::T) => LTLResult::T,
            (LTLResult::U, _) => LTLResult::U,
            (_, LTLResult::U) => LTLResult::U,
            _ => LTLResult::F,
        }
    }
}

impl vstd::std_specs::ops::BitOrSpecImpl for LTLResult {
    open spec fn obeys_bitor_spec() -> bool {
        true
    }

    open spec fn bitor_req(self, rhs: Self) -> bool {
        true
    }

    open spec fn bitor_spec(self, rhs: Self) -> Self {
        res_or(self, rhs)
    }
}

impl std::ops::BitXor for LTLResult {
    type Output = Self;

    fn bitxor(self, rhs: Self) -> (r: Self::Output) {
        match (self, rhs) {
            (LTLResult::U, _) => LTLResult::U,
            (_, LTLResult::U) => LTLResult::U,
            (LTLResult::F, LTLResult::F) => LTLResult::F,
            (LTLResult::F, LTLResult::T) => LTLResult::T,
            (LTLResult::T, LTLResult::F) => LTLResult::T,
            (LTLResult::T, LTLResult::T) => LTLResult::F,
        }
    }
}

impl vstd::std_specs::ops::BitXorSpecImpl for LTLResult {
    open spec fn obeys_bitxor_spec() -> bool {
        true
    }

    open spec fn bitxor_req(self, rhs: Self) -> bool {
        true
    }

    open spec fn bitxor_spec(self, rhs: Self) -> Self {
        res_xor(self, rhs)
    }
}

impl std::ops::Not for LTLResult {
    type Output = Self;

    fn not(self) -> (r: Self::Output) {
        match self {
            LTLResult::U => LTLResult::U,
            LTLResult::T => LTLResult::F,
            LTLResult::F => LTLResult::T,
        }
    }
}

impl vstd::std_specs::ops::NotSpecImpl for LTLResult {
    open spec fn obeys_not_spec() -> bool {
        true
    }

    open spec fn not_req(self) -> bool {
        true
    }

    open spec fn not_spec(self) -> Self {
        res_not(self)
    }
}

} // verus!
