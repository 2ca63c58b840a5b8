//! Solution values and the non-zero integer scalar used by linear views.

use vstd::prelude::*;

verus! {

/// A non-zero 64-bit integer value, used where a zero scale or divisor would
/// be meaningless.
#[derive(Clone, Copy, Debug, PartialEq, Eq, Hash, Structural)]
pub struct NonZeroIntVal {
    /// The wrapped value; the constructor refuses zero.
    val: i64,
}

impl NonZeroIntVal {
    /// The wrapped value.
    pub closed spec fn get_spec(self) -> int {
        self.val as int
    }

    /// Whether the wrapped value is non-zero. Values built by [`Self::new`]
    /// always satisfy this.
    pub open spec fn wf(self) -> bool {
        self.get_spec() != 0
    }

    /// Wrap a value, refusing zero.
    pub fn new(val: i64) -> (r: Option<NonZeroIntVal>)
        ensures
            r is Some <==> val != 0,
            r is Some ==> r->Some_0.get_spec() == val && r->Some_0.wf(),
    {
        if val == 0 {
            None
        } else {
            Some(NonZeroIntVal { val })
        }
    }

    /// Return the wrapped value.
    pub fn get(&self) -> (r: i64)
        ensures
            r as int == self.get_spec(),
    {
        self.val
    }
}

#[derive(Debug, Clone, PartialEq, Eq, Hash, Structural)]
/// The general representation of a solution value in the solver.
pub enum Value {
    /// A Boolean value.
    Bool(bool),
    /// An integer value.
    Int(i64),
}

impl Value {
    /// If the `Value` is a Boolean, represent it as `bool`. Returns `None`
    /// otherwise.
    pub fn as_bool(&self) -> (r: Option<bool>)
        ensures
            r == match *self {
                Value::Bool(b) => Some(b),
                Value::Int(_) => None::<bool>,
            },
    {
        match self {
            Value::Bool(b) => Some(*b),
            _ => None,
        }
    }

    /// If the `Value` is an integer, represent it as an `i64`. Returns `None`
    /// otherwise.
    pub fn as_int(&self) -> (r: Option<i64>)
        ensures
            r == match *self {
                Value::Int(i) => Some(i),
                Value::Bool(_) => None::<i64>,
            },
    {
        match self {
            Value::Int(i) => Some(*i),
            _ => None,
        }
    }
}

} // verus!
