//! The meaning of an oracle literal as a condition on an integer variable.

use vstd::prelude::*;

verus! {

#[derive(Clone, Copy, Debug, PartialEq, Eq, Hash, Structural)]
/// The meaning of a literal in the context of an integer variable `x`.
pub enum LitMeaning {
    /// Literal representing the condition `x = i`.
    Eq(i64),
    /// Literal representing the condition `x != i`.
    NotEq(i64),
    /// Literal representing the condition `x >= i`.
    GreaterEq(i64),
    /// Literal representing the condition `x < i`.
    Less(i64),
}

/// Whether the condition described by the meaning `m` holds of the value `x`.
pub open spec fn lit_holds(m: LitMeaning, x: int) -> bool {
    match m {
        LitMeaning::Eq(i) => x == i,
        LitMeaning::NotEq(i) => x != i,
        LitMeaning::GreaterEq(i) => x >= i,
        LitMeaning::Less(i) => x < i,
    }
}

/// The meaning of the negation of a literal with meaning `m`.
pub open spec fn negate_spec(m: LitMeaning) -> LitMeaning {
    match m {
        LitMeaning::Eq(i) => LitMeaning::NotEq(i),
        LitMeaning::NotEq(i) => LitMeaning::Eq(i),
        LitMeaning::GreaterEq(i) => LitMeaning::Less(i),
        LitMeaning::Less(i) => LitMeaning::GreaterEq(i),
    }
}

impl LitMeaning {
    /// The meaning of the negated literal: negation swaps `Eq` with `NotEq`
    /// and `GreaterEq` with `Less`.
    pub fn negate(&self) -> (r: LitMeaning)
        ensures
            r == negate_spec(*self),
            forall|x: int| lit_holds(r, x) <==> !lit_holds(*self, x),
    {
        match self {
            LitMeaning::Eq(i) => LitMeaning::NotEq(*i),
            LitMeaning::NotEq(i) => LitMeaning::Eq(*i),
            LitMeaning::GreaterEq(i) => LitMeaning::Less(*i),
            LitMeaning::Less(i) => LitMeaning::GreaterEq(*i),
        }
    }
}

} // verus!
