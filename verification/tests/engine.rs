//! Tests of the engine's oracle protocol: assignments, events, levels and
//! backtracking.

use huub::activation::IntPropCond;
use huub::domain::IntSetVal;
use huub::engine::State;
use huub::int_var::EncodingType;
use huub::meaning::LitMeaning;
use huub::queue::PriorityLevel;
use huub::view::IntViewInner;

fn var_index(v: huub::view::IntView) -> usize {
    match v.0 {
        IntViewInner::VarRef(iv) => iv,
        _ => panic!("expected a variable reference"),
    }
}

#[test]
fn assignments_update_bounds_and_backtrack_restores() {
    let mut state = State::new();
    let a = state.new_int_var(
        IntSetVal::from_range(1, 4),
        EncodingType::Eager,
        EncodingType::Lazy,
    );
    let a = var_index(a);
    assert_eq!(state.int_vars[a].get_bounds(&state.trail), (1, 4));
    state.notify_new_decision_level();
    // Order variable 2 encodes x < 3: assigning it tightens the upper
    // bound; its negation would raise the lower bound.
    state.notify_assignments(&vec![2]);
    assert_eq!(state.int_vars[a].get_bounds(&state.trail), (1, 2));
    state.notify_new_decision_level();
    state.notify_assignments(&vec![-1]);
    assert_eq!(state.int_vars[a].get_bounds(&state.trail), (2, 2));
    state.notify_backtrack(1, false);
    assert_eq!(state.int_vars[a].get_bounds(&state.trail), (1, 2));
    state.notify_backtrack(0, false);
    assert_eq!(state.int_vars[a].get_bounds(&state.trail), (1, 4));
}

#[test]
fn stale_notifications_are_ignored() {
    let mut state = State::new();
    let a = state.new_int_var(
        IntSetVal::from_range(1, 4),
        EncodingType::Eager,
        EncodingType::Lazy,
    );
    let a = var_index(a);
    state.notify_new_decision_level();
    state.notify_assignments(&vec![1]);
    assert_eq!(state.int_vars[a].get_bounds(&state.trail), (1, 1));
    // A weaker bound arriving later changes nothing.
    state.notify_assignments(&vec![2]);
    assert_eq!(state.int_vars[a].get_bounds(&state.trail), (1, 1));
}

#[test]
fn lazy_var_bounds_through_created_literal() {
    let mut state = State::new();
    let a = state.new_int_var(
        IntSetVal::from_range(1, 100),
        EncodingType::Lazy,
        EncodingType::Lazy,
    );
    let a = var_index(a);
    let bv = state.get_intref_lit(a, huub::meaning::LitMeaning::Less(50));
    let lit = bv.reverse_map_info().unwrap();
    state.notify_new_decision_level();
    state.notify_assignments(&vec![lit]);
    assert_eq!(state.int_vars[a].get_bounds(&state.trail), (1, 49));
    state.notify_assignments(&vec![-lit]);
    // The variable was already assigned; the repeated (now contradictory)
    // notification is skipped.
    assert_eq!(state.int_vars[a].get_bounds(&state.trail), (1, 49));
    state.notify_backtrack(0, true);
    assert_eq!(state.int_vars[a].get_bounds(&state.trail), (1, 100));
}

#[test]
fn statistics_track_restarts_and_depth() {
    let mut state = State::new();
    state.notify_new_decision_level();
    state.notify_new_decision_level();
    assert_eq!(state.statistics.peak_depth(), 2);
    state.notify_backtrack(0, true);
    assert_eq!(state.statistics.restarts(), 1);
    assert_eq!(state.statistics.conflicts(), 1);
}

#[test]
fn subscriptions_enqueue_on_events() {
    let mut state = State::new();
    let a = state.new_int_var(
        IntSetVal::from_range(1, 4),
        EncodingType::Eager,
        EncodingType::Lazy,
    );
    let a = var_index(a);
    let p = state.add_propagator(
        PriorityLevel::Low,
        &vec![(a, IntPropCond::UpperBound)],
        &vec![],
        false,
    );
    state.notify_new_decision_level();
    // An upper-bound event wakes the subscriber exactly once.
    state.notify_assignments(&vec![2, 1]);
    assert_eq!(state.propagator_queue.pop(), Some(p));
    assert_eq!(state.propagator_queue.pop(), None);
    // A lower-bound event does not wake an upper-bound subscriber.
    state.notify_backtrack(0, false);
    state.notify_new_decision_level();
    state.notify_assignments(&vec![-1]);
    assert_eq!(state.propagator_queue.pop(), None);
}

#[test]
fn lazy_equality_literal_brackets_value() {
    let mut state = State::new();
    let a = state.new_int_var(
        IntSetVal::from_range(1, 10),
        EncodingType::Lazy,
        EncodingType::Lazy,
    );
    let a = var_index(a);
    let e = state.get_intref_lit(a, LitMeaning::Eq(5));
    let e = e.reverse_map_info().unwrap();
    // Creating the equality literal also created the two order literals
    // around the value and their defining clauses.
    let l5 = state.int_vars[a]
        .get_bool_lit(LitMeaning::Less(5))
        .unwrap()
        .reverse_map_info()
        .unwrap();
    let l6 = state.int_vars[a]
        .get_bool_lit(LitMeaning::Less(6))
        .unwrap()
        .reverse_map_info()
        .unwrap();
    assert!(state.clauses.contains(&vec![-e, -l5]));
    assert!(state.clauses.contains(&vec![-e, l6]));
    assert!(state.clauses.contains(&vec![e, l5, -l6]));
}
