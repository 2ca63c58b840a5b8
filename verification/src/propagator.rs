//! Propagators, the reasons they give for their inferences, and the
//! conflicts they report.

use vstd::prelude::*;

use crate::opt_field::OptField;
use crate::view::{is_lit, BoolView, BoolViewInner, IntView};

verus! {

#[derive(Debug, Clone, Copy, PartialEq, Eq, Hash, Structural)]
/// A note that the mentioned propagator will compute the reason for a
/// change when requested, from the attached data.
pub struct LazyReason(pub usize, pub u64);

#[derive(Clone)]
/// A conjunction of literals that implies a change of state.
pub enum Reason {
    /// A promise that the given propagator will compute the cause of the
    /// change when given the attached data.
    Lazy(usize, u64),
    /// A conjunction of literals forming the cause of the change.
    Eager(Vec<i32>),
    /// A single literal that is the cause of the change.
    Simple(i32),
}

#[derive(Clone)]
/// The error type returned when a variable would be assigned two
/// inconsistent values: the subject literal that could not be propagated
/// (or `None` for a root conflict) and the reason of the change.
pub struct Conflict {
    /// The literal that could not be propagated.
    pub subject: Option<i32>,
    /// The reason why the subject had to hold.
    pub reason: Reason,
}

impl Reason {
    /// Whether every literal of the reason is usable, and a lazy reason
    /// refers to one of the `n_props` propagators.
    pub open spec fn wf(self, n_props: int) -> bool {
        match self {
            Reason::Lazy(p, _) => p < n_props,
            Reason::Eager(lits) => forall|i: int|
                0 <= i < lits@.len() ==> is_lit(#[trigger] lits@[i] as int),
            Reason::Simple(l) => is_lit(l as int),
        }
    }

    /// Collect a conjunction of Boolean views into a reason: constant-true
    /// views are dropped; a constant-false view collapses the whole reason,
    /// which is reported as `Err(false)`; an empty conjunction is the
    /// trivial reason `Err(true)`; a single literal becomes a
    /// [`Reason::Simple`] and several literals a [`Reason::Eager`], in
    /// input order.
    pub fn from_views(views: &Vec<BoolView>) -> (r: Result<Reason, bool>)
        ensures
            r is Err && r->Err_0 == false <==> crate::view::has_const(views@, false),
            !crate::view::has_const(views@, false) ==> match r {
                Err(b) => b == true && crate::view::lit_payloads(views@).len() == 0,
                Ok(reason) => match reason {
                    Reason::Simple(l) => crate::view::lit_payloads(views@) =~= seq![l],
                    Reason::Eager(lits) => lits@ =~= crate::view::lit_payloads(views@)
                        && lits@.len() >= 2,
                    Reason::Lazy(_, _) => false,
                },
            },
    {
        let n = views.len();
        let mut lits: Vec<i32> = Vec::new();
        let mut i: usize = 0;
        while i < n
            invariant
                n == views@.len(),
                0 <= i <= n,
                lits@ =~= crate::view::lit_payloads(views@.take(i as int)),
                forall|j: int|
                    0 <= j < i ==> (#[trigger] views@[j]) != BoolView(
                        BoolViewInner::Const(false),
                    ),
            decreases n - i,
        {
            proof {
                crate::view::lemma_lit_payloads_take_step(views@, i as int);
            }
            match views[i].0 {
                BoolViewInner::Lit(l) => lits.push(l),
                BoolViewInner::Const(false) => {
                    proof {
                        assert(views@[i as int] == BoolView(BoolViewInner::Const(false)));
                    }
                    return Err(false);
                },
                BoolViewInner::Const(true) => (),
            }
            i = i + 1;
        }
        proof {
            assert(views@.take(n as int) =~= views@);
        }
        if lits.len() == 0 {
            Err(true)
        } else if lits.len() == 1 {
            Ok(Reason::Simple(lits[0]))
        } else {
            Ok(Reason::Eager(lits))
        }
    }
}

#[derive(Clone)]
/// Bounds-consistent propagator for a linear sum constrained from above:
/// it enforces `sum(vars) <= max`, where each summand is an integer view.
///
/// `R` is `1` when the constraint is reified by a literal that implies it,
/// and `0` otherwise.
pub struct IntLinearLessEqBoundsImpl<const R: usize> {
    /// The views being summed.
    pub vars: Vec<IntView>,
    /// The maximum value the sum may take.
    pub max: i64,
    /// The reification literal, if any.
    pub reification: OptField<R, i32>,
}

/// The non-reified linear less-than-or-equal propagator.
pub type IntLinearLessEqBounds = IntLinearLessEqBoundsImpl<0>;

/// The reified linear less-than-or-equal propagator.
pub type IntLinearLessEqImpBounds = IntLinearLessEqBoundsImpl<1>;

#[derive(Clone)]
/// Value-consistent propagator for a linear sum constrained to differ from
/// a value: it enforces `sum(vars) != violation`.
///
/// `R` is `1` when the constraint is reified by a literal that implies it,
/// and `0` otherwise.
pub struct IntLinearNotEqValueImpl<const R: usize> {
    /// The views being summed.
    pub vars: Vec<IntView>,
    /// The value the sum must not take.
    pub violation: i64,
    /// The reification literal, if any.
    pub reification: OptField<R, i32>,
}

/// The non-reified linear not-equal propagator.
pub type IntLinearNotEqValue = IntLinearNotEqValueImpl<0>;

/// The reified linear not-equal propagator.
pub type IntLinearNotEqImpValue = IntLinearNotEqValueImpl<1>;

/// The sum of a sequence of values.
pub open spec fn seq_sum(s: Seq<i64>) -> int
    decreases s.len(),
{
    if s.len() == 0 {
        0
    } else {
        s[0] + seq_sum(s.drop_first())
    }
}

/// Splitting off the last element of a non-empty sequence splits the sum.
pub proof fn lemma_seq_sum_last(s: Seq<i64>)
    requires
        s.len() > 0,
    ensures
        seq_sum(s) == seq_sum(s.drop_last()) + s.last(),
    decreases s.len(),
{
    if s.len() == 1 {
        assert(s.drop_last().len() == 0);
        assert(s.drop_first().len() == 0);
        assert(seq_sum(s) == s[0] + seq_sum(s.drop_first()));
    } else {
        lemma_seq_sum_last(s.drop_first());
        assert(s.drop_first().drop_last() =~= s.drop_last().drop_first());
        assert(s.drop_last()[0] == s[0]);
        assert(s.drop_first().last() == s.last());
        assert(seq_sum(s) == s[0] + seq_sum(s.drop_first()));
        assert(seq_sum(s.drop_last()) == s.drop_last()[0] + seq_sum(s.drop_last().drop_first()));
    }
}

/// The sum respects pointwise ordering.
pub proof fn lemma_seq_sum_mono(a: Seq<i64>, b: Seq<i64>)
    requires
        a.len() == b.len(),
        forall|i: int| 0 <= i < a.len() ==> a[i] <= b[i],
    ensures
        seq_sum(a) <= seq_sum(b),
    decreases a.len(),
{
    if a.len() > 0 {
        assert(a.drop_first().len() == b.drop_first().len());
        assert forall|i: int| 0 <= i < a.drop_first().len() implies a.drop_first()[i]
            <= b.drop_first()[i] by {
            assert(a.drop_first()[i] == a[i + 1]);
            assert(b.drop_first()[i] == b[i + 1]);
        }
        lemma_seq_sum_mono(a.drop_first(), b.drop_first());
    }
}

/// The bound propagation rule for a linear sum below a maximum: with the
/// lower bounds `lbs` of the summands and the slack
/// `max - sum(lbs)`, every summand `i` is bounded above by
/// `lbs[i] + slack` in any solution. Returns the new upper bounds, or
/// `None` when the slack is negative (the constraint is violated by the
/// lower bounds alone).
pub fn lin_le_bounds_step(lbs: &Vec<i64>, max: i64) -> (r: Option<Vec<i64>>)
    requires
        forall|i: int| 0 <= i < lbs@.len() ==> -0x100_0000_0000 < #[trigger] lbs@[i]
            < 0x100_0000_0000,
        lbs@.len() < 0x1000,
        -0x4000_0000_0000_0000 < max < 0x4000_0000_0000_0000,
    ensures
        r is Some <==> seq_sum(lbs@) <= max,
        r is Some ==> r->Some_0@.len() == lbs@.len() && forall|i: int|
            0 <= i < lbs@.len() ==> #[trigger] r->Some_0@[i] == lbs@[i] + (max - seq_sum(lbs@)),
{
    let n = lbs.len();
    let mut sum: i64 = 0;
    let mut i: usize = 0;
    while i < n
        invariant
            n == lbs@.len(),
            0 <= i <= n,
            forall|j: int| 0 <= j < lbs@.len() ==> -0x100_0000_0000 < #[trigger] lbs@[j]
                < 0x100_0000_0000,
            lbs@.len() < 0x1000,
            sum == seq_sum(lbs@.take(i as int)),
            -0x100_0000_0000 * (i as int) <= sum <= 0x100_0000_0000 * (i as int),
        decreases n - i,
    {
        proof {
            lemma_seq_sum_last(lbs@.take(i as int + 1));
            assert(lbs@.take(i as int + 1).drop_last() =~= lbs@.take(i as int));
            assert(lbs@.take(i as int + 1).last() == lbs@[i as int]);
            assert(0x100_0000_0000 * (i as int) + 0x100_0000_0000
                == 0x100_0000_0000 * (i as int + 1)) by (nonlinear_arith);
        }
        sum = sum + lbs[i];
        i = i + 1;
    }
    proof {
        assert(lbs@.take(n as int) =~= lbs@);
        assert(0x100_0000_0000 * (n as int) < 0x100_0000_0000 * 0x1000)
            by (nonlinear_arith)
            requires
                n < 0x1000,
        ;
    }
    if sum > max {
        return None;
    }
    let slack = max - sum;
    let mut out: Vec<i64> = Vec::new();
    let mut k: usize = 0;
    while k < n
        invariant
            n == lbs@.len(),
            0 <= k <= n,
            out@.len() == k,
            forall|j: int| 0 <= j < lbs@.len() ==> -0x100_0000_0000 < #[trigger] lbs@[j]
                < 0x100_0000_0000,
            0 <= slack,
            slack == max - seq_sum(lbs@),
            slack <= 0x4000_0000_0000_0000 + 0x100_0000_0000 * 0x1000,
            forall|j: int| 0 <= j < k ==> #[trigger] out@[j] == lbs@[j] + slack,
        decreases n - k,
    {
        out.push(lbs[k] + slack);
        k = k + 1;
    }
    Some(out)
}

/// The propagation rule of [`lin_le_bounds_step`] is sound: in any solution
/// where every summand is at least its lower bound and the sum is at most
/// `max`, each summand is at most its lower bound plus the slack.
pub proof fn lemma_lin_le_step_sound(lbs: Seq<i64>, xs: Seq<i64>, max: int, i: int)
    requires
        lbs.len() == xs.len(),
        forall|j: int| 0 <= j < xs.len() ==> lbs[j] <= #[trigger] xs[j],
        seq_sum(xs) <= max,
        0 <= i < xs.len(),
    ensures
        xs[i] <= lbs[i] + (max - seq_sum(lbs)),
{
    let ys = xs.update(i, lbs[i]);
    assert forall|j: int| 0 <= j < lbs.len() implies lbs[j] <= #[trigger] ys[j] by {}
    lemma_seq_sum_mono(lbs, ys);
    lemma_sum_update(xs, i, lbs[i]);
}

/// Updating one element changes the sum by the difference of that element.
pub proof fn lemma_sum_update(s: Seq<i64>, i: int, v: i64)
    requires
        0 <= i < s.len(),
    ensures
        seq_sum(s.update(i, v)) == seq_sum(s) - s[i] + v,
    decreases s.len(),
{
    if i == 0 {
        assert(s.update(0, v).drop_first() =~= s.drop_first());
        assert(s.update(0, v)[0] == v);
    } else {
        lemma_sum_update(s.drop_first(), i - 1, v);
        assert(s.update(i, v).drop_first() =~= s.drop_first().update(i - 1, v));
        assert(s.update(i, v)[0] == s[0]);
        assert(s.drop_first()[i - 1] == s[i]);
    }
}

#[derive(Clone, Copy, Debug, PartialEq, Eq, Structural)]
/// The outcome of one run of the not-equal value propagation rule.
pub enum LinNeStep {
    /// More than one summand is unfixed: nothing can be inferred.
    TooEarly,
    /// All summands are fixed and their sum equals the forbidden value.
    Violated,
    /// Exactly one summand is unfixed: it must not take the returned value.
    Forbid(usize, i64),
    /// All summands are fixed and the constraint is satisfied.
    Satisfied,
}

/// The value propagation rule for a linear sum that must not equal
/// `violation`: once all summands but one are fixed, the remaining summand
/// must differ from `violation` minus the sum of the fixed values.
pub fn lin_ne_value_step(vals: &Vec<Option<i64>>, violation: i64) -> (r: LinNeStep)
    requires
        forall|i: int| 0 <= i < vals@.len() ==> (#[trigger] vals@[i]) is Some
            ==> -0x100_0000_0000 < vals@[i]->Some_0 < 0x100_0000_0000,
        vals@.len() < 0x1000,
        -0x4000_0000_0000_0000 < violation < 0x4000_0000_0000_0000,
    ensures
        match r {
            LinNeStep::TooEarly => exists|i: int, j: int|
                0 <= i < j < vals@.len() && (#[trigger] vals@[i]) is None && (
                #[trigger] vals@[j]) is None,
            LinNeStep::Violated => (forall|i: int|
                0 <= i < vals@.len() ==> (#[trigger] vals@[i]) is Some) && seq_sum(
                vals@.map_values(|o: Option<i64>| o.unwrap_or(0)),
            ) == violation,
            LinNeStep::Satisfied => (forall|i: int|
                0 <= i < vals@.len() ==> (#[trigger] vals@[i]) is Some) && seq_sum(
                vals@.map_values(|o: Option<i64>| o.unwrap_or(0)),
            ) != violation,
            LinNeStep::Forbid(i, v) => i < vals@.len() && vals@[i as int] is None && (forall|
                j: int,
            |
                0 <= j < vals@.len() && j != i ==> (#[trigger] vals@[j]) is Some) && v == violation
                - seq_sum(vals@.map_values(|o: Option<i64>| o.unwrap_or(0))),
        },
{
    let ghost flat = vals@.map_values(|o: Option<i64>| o.unwrap_or(0));
    let n = vals.len();
    let mut sum: i64 = 0;
    let mut unfixed: Option<usize> = None;
    let mut i: usize = 0;
    while i < n
        invariant
            n == vals@.len(),
            0 <= i <= n,
            flat == vals@.map_values(|o: Option<i64>| o.unwrap_or(0)),
            forall|j: int| 0 <= j < vals@.len() ==> (#[trigger] vals@[j]) is Some
                ==> -0x100_0000_0000 < vals@[j]->Some_0 < 0x100_0000_0000,
            vals@.len() < 0x1000,
            sum == seq_sum(flat.take(i as int)),
            -0x100_0000_0000 * (i as int) <= sum <= 0x100_0000_0000 * (i as int),
            match unfixed {
                Some(u) => u < i && vals@[u as int] is None && forall|j: int|
                    0 <= j < i && j != u ==> (#[trigger] vals@[j]) is Some,
                None => forall|j: int| 0 <= j < i ==> (#[trigger] vals@[j]) is Some,
            },
        decreases n - i,
    {
        proof {
            lemma_seq_sum_last(flat.take(i as int + 1));
            assert(flat.take(i as int + 1).drop_last() =~= flat.take(i as int));
            assert(flat.take(i as int + 1).last() == flat[i as int]);
            assert(0x100_0000_0000 * (i as int) + 0x100_0000_0000
                == 0x100_0000_0000 * (i as int + 1)) by (nonlinear_arith);
        }
        match vals[i] {
            Some(v) => {
                sum = sum + v;
            },
            None => {
                match unfixed {
                    Some(u) => {
                        proof {
                            assert(vals@[u as int] is None && vals@[i as int] is None);
                        }
                        return LinNeStep::TooEarly;
                    },
                    None => {
                        unfixed = Some(i);
                    },
                }
            },
        }
        i = i + 1;
    }
    proof {
        assert(flat.take(n as int) =~= flat);
        assert(0x100_0000_0000 * (n as int) < 0x100_0000_0000 * 0x1000)
            by (nonlinear_arith)
            requires
                n < 0x1000,
        ;
    }
    match unfixed {
        Some(u) => LinNeStep::Forbid(u, violation - sum),
        None => {
            if sum == violation {
                LinNeStep::Violated
            } else {
                LinNeStep::Satisfied
            }
        },
    }
}

#[derive(Clone)]
/// The propagator implementations available to the engine.
pub enum PropagatorImpl {
    /// `sum(vars) <= max`.
    LinLe(IntLinearLessEqBoundsImpl<0>),
    /// `r -> sum(vars) <= max`.
    LinLeReif(IntLinearLessEqBoundsImpl<1>),
    /// `sum(vars) != violation`.
    LinNe(IntLinearNotEqValueImpl<0>),
    /// `r -> sum(vars) != violation`.
    LinNeReif(IntLinearNotEqValueImpl<1>),
}

} // verus!
