//! The search driver's decision logic: how a solving loop reacts to the
//! oracle's verdicts when enumerating or optimizing.

use vstd::prelude::*;

use crate::meaning::LitMeaning;
use crate::view::{BoolView, BoolViewInner};

verus! {

#[derive(Debug, Clone, Copy, PartialEq, Eq, Structural)]
/// Result of a solving attempt.
pub enum SolveResult {
    /// The solver has found a solution.
    Satisfied,
    /// The solver has proven that the problem is unsatisfiable.
    Unsatisfiable,
    /// The solver has proven that no more (or no better) solutions exist.
    Complete,
    /// The solver was interrupted before a result could be reached.
    Unknown,
}

#[derive(Debug, Clone, Copy, PartialEq, Eq, Structural)]
/// The objective direction of an optimization search.
pub enum Goal {
    /// Maximize the value of the objective.
    Maximize,
    /// Minimize the value of the objective.
    Minimize,
}

#[derive(Debug, Clone, Copy, PartialEq, Eq, Structural)]
/// The next step of a branch-and-bound search after one oracle verdict.
pub enum BnbStep {
    /// Stop with the given final result and the best objective value found.
    Done(SolveResult, Option<i64>),
    /// Solve again under an assumption with the given meaning on the
    /// objective.
    Tighten(LitMeaning),
}

/// The decision rule of an assumption-driven one-sided optimization search:
/// after a satisfying solution with objective `obj`, the next attempt
/// assumes a strictly better objective (`< obj` when minimizing,
/// `>= obj + 1` when maximizing); an unsatisfiable attempt completes the
/// search when a solution was found earlier, and proves unsatisfiability
/// otherwise; an interrupted attempt reports the best solution so far.
pub fn bnb_step(goal: Goal, best: Option<i64>, status: SolveResult, bound: i64) -> (r: BnbStep)
    requires
        status is Satisfied ==> best is Some,
        best is Some ==> i64::MIN < best->Some_0 < i64::MAX,
    ensures
        match status {
            SolveResult::Satisfied => if best->Some_0 == bound {
                r == BnbStep::Done(SolveResult::Complete, best)
            } else {
                r == BnbStep::Tighten(
                    match goal {
                        Goal::Minimize => LitMeaning::Less(best->Some_0),
                        Goal::Maximize => LitMeaning::GreaterEq((best->Some_0 + 1) as i64),
                    },
                )
            },
            SolveResult::Unsatisfiable => r == BnbStep::Done(
                if best is None {
                    SolveResult::Unsatisfiable
                } else {
                    SolveResult::Complete
                },
                best,
            ),
            SolveResult::Unknown => r == BnbStep::Done(
                if best is None {
                    SolveResult::Unknown
                } else {
                    SolveResult::Satisfied
                },
                best,
            ),
            SolveResult::Complete => true,
        },
{
    match status {
        SolveResult::Satisfied => {
            let obj = match best {
                Some(o) => o,
                None => 0,
            };
            if obj == bound {
                BnbStep::Done(SolveResult::Complete, best)
            } else {
                match goal {
                    Goal::Minimize => BnbStep::Tighten(LitMeaning::Less(obj)),
                    Goal::Maximize => BnbStep::Tighten(LitMeaning::GreaterEq(obj + 1)),
                }
            }
        },
        SolveResult::Unsatisfiable => {
            match best {
                None => BnbStep::Done(SolveResult::Unsatisfiable, best),
                Some(_) => BnbStep::Done(SolveResult::Complete, best),
            }
        },
        SolveResult::Unknown | SolveResult::Complete => {
            match best {
                None => BnbStep::Done(SolveResult::Unknown, best),
                Some(_) => BnbStep::Done(SolveResult::Satisfied, best),
            }
        },
    }
}

/// The decision rule of a solution-enumeration search: a satisfying
/// verdict continues the enumeration (after a blocking clause is added),
/// an unsatisfiable verdict completes it (or proves unsatisfiability when
/// no solution was found), and an interruption ends it with what is known.
pub fn all_solutions_step(num_sol: u64, status: SolveResult) -> (r: Option<SolveResult>)
    ensures
        match status {
            SolveResult::Satisfied => r is None,
            SolveResult::Unsatisfiable => r == Some(
                if num_sol == 0 {
                    SolveResult::Unsatisfiable
                } else {
                    SolveResult::Complete
                },
            ),
            SolveResult::Unknown => r == Some(
                if num_sol == 0 {
                    SolveResult::Unknown
                } else {
                    SolveResult::Satisfied
                },
            ),
            SolveResult::Complete => r == Some(SolveResult::Complete),
        },
{
    match status {
        SolveResult::Satisfied => None,
        SolveResult::Unsatisfiable => {
            if num_sol == 0 {
                Some(SolveResult::Unsatisfiable)
            } else {
                Some(SolveResult::Complete)
            }
        },
        SolveResult::Unknown => {
            if num_sol == 0 {
                Some(SolveResult::Unknown)
            } else {
                Some(SolveResult::Satisfied)
            }
        },
        SolveResult::Complete => Some(SolveResult::Complete),
    }
}

/// Translate assumption views for the oracle: constant-true assumptions
/// are dropped, and a constant-false assumption makes the whole solve
/// trivially unsatisfiable (`None`). On success the result holds exactly
/// the literal payloads of the assumptions, in order.
pub fn filter_assumptions(assumptions: &Vec<BoolView>) -> (r: Option<Vec<i32>>)
    ensures
        r is None <==> crate::view::has_const(assumptions@, false),
        r is Some ==> r->Some_0@ =~= crate::view::lit_payloads(assumptions@),
{
    let n = assumptions.len();
    let mut out: Vec<i32> = Vec::new();
    let mut i: usize = 0;
    while i < n
        invariant
            n == assumptions@.len(),
            0 <= i <= n,
            out@ =~= crate::view::lit_payloads(assumptions@.take(i as int)),
            forall|j: int|
                0 <= j < i ==> (#[trigger] assumptions@[j]) != BoolView(
                    BoolViewInner::Const(false),
                ),
        decreases n - i,
    {
        proof {
            crate::view::lemma_lit_payloads_take_step(assumptions@, i as int);
        }
        match assumptions[i].0 {
            BoolViewInner::Lit(l) => out.push(l),
            BoolViewInner::Const(true) => (),
            BoolViewInner::Const(false) => {
                proof {
                    assert(assumptions@[i as int] == BoolView(BoolViewInner::Const(false)));
                }
                return None;
            },
        }
        i = i + 1;
    }
    proof {
        assert(assumptions@.take(n as int) =~= assumptions@);
    }
    Some(out)
}

} // verus!
