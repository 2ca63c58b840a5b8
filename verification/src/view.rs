//! References to Boolean and integer values in the solver that can be
//! inspected as part of a solution, and are used internally by branchers and
//! propagators.

use vstd::prelude::*;

use crate::transform::LinearTransform;

verus! {

/// Whether `l` is a usable literal: non-zero, and negatable without
/// overflow.
pub open spec fn is_lit(l: int) -> bool {
    l != 0 && i32::MIN < l <= i32::MAX
}

#[derive(Copy, Clone, Debug, PartialEq, Eq, Hash, Structural)]
/// The internal representation of a [`BoolView`].
pub enum BoolViewInner {
    /// A Boolean literal of the oracle: its variable number, negative when
    /// the literal is negated.
    Lit(i32),
    /// A constant Boolean value.
    Const(bool),
}

#[derive(Copy, Clone, Debug, PartialEq, Eq, Hash, Structural)]
/// A reference to a Boolean type value in the solver that can be inspected
/// as part of a solution.
pub struct BoolView(pub BoolViewInner);

#[derive(Copy, Clone, Debug, PartialEq, Eq, Hash, Structural)]
/// The internal representation of an [`IntView`].
pub enum IntViewInner {
    /// A reference to an integer variable in the engine's state.
    VarRef(usize),
    /// A constant integer value.
    Const(i64),
    /// A linear view of an integer variable.
    Linear {
        /// The linear transformation applied to the value of the variable.
        transformer: LinearTransform,
        /// The referenced integer variable.
        var: usize,
    },
    /// A linear view of a Boolean literal, treated as the integer `0` or
    /// `1`.
    Bool {
        /// The linear transformation applied to the value of the literal.
        transformer: LinearTransform,
        /// The Boolean literal treated as an integer.
        lit: i32,
    },
}

#[derive(Copy, Clone, Debug, PartialEq, Eq, Hash, Structural)]
/// A reference to an integer type value in the solver that can be inspected
/// as part of a solution.
pub struct IntView(pub IntViewInner);

#[derive(Copy, Clone, Debug, PartialEq, Eq, Hash, Structural)]
/// A reference to a value in the solver that can be inspected as part of a
/// solution.
pub enum View {
    /// A Boolean type value.
    Bool(BoolView),
    /// An integer type value.
    Int(IntView),
}

impl BoolView {
    /// Whether the view holds a usable literal or a constant.
    pub open spec fn wf(self) -> bool {
        match self.0 {
            BoolViewInner::Lit(l) => is_lit(l as int),
            BoolViewInner::Const(_) => true,
        }
    }

    /// A view of a constant Boolean value.
    pub fn of_bool(b: bool) -> (r: BoolView)
        ensures
            r == BoolView(BoolViewInner::Const(b)),
    {
        BoolView(BoolViewInner::Const(b))
    }

    /// A view of an oracle literal.
    pub fn of_lit(l: i32) -> (r: BoolView)
        requires
            is_lit(l as int),
        ensures
            r == BoolView(BoolViewInner::Lit(l)),
            r.wf(),
    {
        BoolView(BoolViewInner::Lit(l))
    }

    /// The negation of the view: the negated literal, or the negated
    /// constant.
    pub fn negate(&self) -> (r: BoolView)
        requires
            self.wf(),
        ensures
            r.wf(),
            r == match self.0 {
                BoolViewInner::Lit(l) => BoolView(BoolViewInner::Lit((-(l as int)) as i32)),
                BoolViewInner::Const(b) => BoolView(BoolViewInner::Const(!b)),
            },
    {
        match self.0 {
            BoolViewInner::Lit(l) => BoolView(BoolViewInner::Lit(-l)),
            BoolViewInner::Const(b) => BoolView(BoolViewInner::Const(!b)),
        }
    }

    /// Return an integer that identifies the literal of the view, if there
    /// is one.
    pub fn reverse_map_info(&self) -> (r: Option<i32>)
        ensures
            r == match self.0 {
                BoolViewInner::Lit(l) => Some(l),
                BoolViewInner::Const(_) => None::<i32>,
            },
    {
        match self.0 {
            BoolViewInner::Lit(l) => Some(l),
            BoolViewInner::Const(_) => None,
        }
    }
}

impl IntView {
    /// A view of a constant integer value.
    pub fn of_const(v: i64) -> (r: IntView)
        ensures
            r == IntView(IntViewInner::Const(v)),
    {
        IntView(IntViewInner::Const(v))
    }

    /// Returns an integer that identifies the integer decision variable the
    /// view is built on, if any, and whether the view transforms the value
    /// of that variable.
    pub fn int_reverse_map_info(&self) -> (r: (Option<usize>, bool))
        ensures
            r == match self.0 {
                IntViewInner::VarRef(v) => (Some(v), false),
                IntViewInner::Const(_) => (None::<usize>, true),
                IntViewInner::Linear { transformer, var } => (Some(var), true),
                IntViewInner::Bool { .. } => (None::<usize>, true),
            },
    {
        match self.0 {
            IntViewInner::VarRef(v) => (Some(v), false),
            IntViewInner::Bool { .. } => (None, true),
            IntViewInner::Linear { transformer: _, var } => (Some(var), true),
            IntViewInner::Const(_) => (None, true),
        }
    }
}

/// The literal payloads of a sequence of Boolean views, in order, with the
/// constant views dropped.
pub open spec fn lit_payloads(vs: Seq<BoolView>) -> Seq<i32>
    decreases vs.len(),
{
    if vs.len() == 0 {
        Seq::empty()
    } else {
        match vs[0].0 {
            BoolViewInner::Lit(l) => seq![l] + lit_payloads(vs.drop_first()),
            BoolViewInner::Const(_) => lit_payloads(vs.drop_first()),
        }
    }
}

/// Whether some view in the sequence is the constant `b`.
pub open spec fn has_const(vs: Seq<BoolView>, b: bool) -> bool {
    exists|i: int| 0 <= i < vs.len() && #[trigger] vs[i] == BoolView(BoolViewInner::Const(b))
}

/// Extending the views by one extends the payloads by that view's literal,
/// if it has one.
pub proof fn lemma_lit_payloads_take_step(vs: Seq<BoolView>, i: int)
    requires
        0 <= i < vs.len(),
    ensures
        lit_payloads(vs.take(i + 1)) =~= match vs[i].0 {
            BoolViewInner::Lit(l) => lit_payloads(vs.take(i)).push(l),
            BoolViewInner::Const(_) => lit_payloads(vs.take(i)),
        },
    decreases i,
{
    if i == 0 {
        assert(vs.take(1)[0] == vs[0]);
        assert(vs.take(1).drop_first() =~= vs.take(0));
        assert(vs.take(0).len() == 0);
    } else {
        lemma_lit_payloads_take_step(vs.drop_first(), i - 1);
        assert(vs.take(i + 1)[0] == vs[0]);
        assert(vs.take(i)[0] == vs[0]);
        assert(vs.take(i + 1).drop_first() =~= vs.drop_first().take(i));
        assert(vs.take(i).drop_first() =~= vs.drop_first().take(i - 1));
        assert(vs.drop_first()[i - 1] == vs[i]);
    }
}

} // verus!
