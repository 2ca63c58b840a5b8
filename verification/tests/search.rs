//! Tests of the search-step decision logic and the configuration types.

use huub::config::InitConfig;
use huub::meaning::LitMeaning;
use huub::search::{all_solutions_step, bnb_step, filter_assumptions, BnbStep, Goal, SolveResult};
use huub::value::Value;
use huub::view::{BoolView, BoolViewInner};

#[test]
fn bnb_tightens_towards_the_goal() {
    // After finding objective 7 while minimizing, the next attempt assumes
    // an objective below 7.
    let step = bnb_step(Goal::Minimize, Some(7), SolveResult::Satisfied, 0);
    assert_eq!(step, BnbStep::Tighten(LitMeaning::Less(7)));
    let step = bnb_step(Goal::Maximize, Some(7), SolveResult::Satisfied, 100);
    assert_eq!(step, BnbStep::Tighten(LitMeaning::GreaterEq(8)));
    // Reaching the global bound completes the search.
    let step = bnb_step(Goal::Minimize, Some(3), SolveResult::Satisfied, 3);
    assert_eq!(step, BnbStep::Done(SolveResult::Complete, Some(3)));
    // Unsatisfiable after a solution: the last solution is optimal.
    let step = bnb_step(Goal::Minimize, Some(3), SolveResult::Unsatisfiable, 0);
    assert_eq!(step, BnbStep::Done(SolveResult::Complete, Some(3)));
    let step = bnb_step(Goal::Minimize, None, SolveResult::Unsatisfiable, 0);
    assert_eq!(step, BnbStep::Done(SolveResult::Unsatisfiable, None));
}

#[test]
fn all_solutions_completes_on_unsat() {
    assert_eq!(all_solutions_step(0, SolveResult::Satisfied), None);
    assert_eq!(
        all_solutions_step(3, SolveResult::Unsatisfiable),
        Some(SolveResult::Complete)
    );
    assert_eq!(
        all_solutions_step(0, SolveResult::Unsatisfiable),
        Some(SolveResult::Unsatisfiable)
    );
    assert_eq!(all_solutions_step(2, SolveResult::Unknown), Some(SolveResult::Satisfied));
}

#[test]
fn assumptions_filter_constants() {
    let out = filter_assumptions(&vec![
        BoolView(BoolViewInner::Lit(3)),
        BoolView(BoolViewInner::Const(true)),
        BoolView(BoolViewInner::Lit(-4)),
    ]);
    assert_eq!(out, Some(vec![3, -4]));
    let out = filter_assumptions(&vec![
        BoolView(BoolViewInner::Lit(3)),
        BoolView(BoolViewInner::Const(false)),
    ]);
    assert_eq!(out, None);
}

#[test]
fn config_builders_round_trip() {
    let c = InitConfig::default()
        .with_int_eager_limit(17)
        .with_restart(true)
        .with_vivification(true);
    assert_eq!(c.int_eager_limit(), 17);
    assert!(c.restart());
    assert!(c.vivification());
    assert_eq!(InitConfig::default().int_eager_limit(), 255);
}

#[test]
fn value_accessors() {
    assert_eq!(Value::Bool(true).as_bool(), Some(true));
    assert_eq!(Value::Bool(true).as_int(), None);
    assert_eq!(Value::Int(9).as_int(), Some(9));
    assert_eq!(Value::Int(9).as_bool(), None);
}
