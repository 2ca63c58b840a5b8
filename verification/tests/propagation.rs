//! Tests of the propagation rules of the linear constraints, on the
//! fixtures of the end-to-end scenarios.

use huub::propagator::{lin_le_bounds_step, lin_ne_value_step, LinNeStep};

#[test]
fn linear_le_bounds_on_small_sum() {
    // 2a + b + c <= 6 with a, b, c in {1, 2}: the summands 2a, b and c
    // have lower bounds 2, 1 and 1.
    let ubs = lin_le_bounds_step(&vec![2, 1, 1], 6).unwrap();
    // Slack is 2, so 2a <= 4 (a <= 2), b <= 3 and c <= 3.
    assert_eq!(ubs, vec![4, 3, 3]);
    // With a = 2 fixed, the bounds of b and c tighten to 1.
    let ubs = lin_le_bounds_step(&vec![4, 1, 1], 6).unwrap();
    assert_eq!(ubs, vec![4, 1, 1]);
    // Lower bounds that already exceed the maximum are a conflict.
    assert_eq!(lin_le_bounds_step(&vec![4, 2, 2], 6), None);
}

#[test]
fn linear_le_enumerates_small_sum_solutions() {
    // The five solutions of 2a + b + c <= 6 over {1,2}^3.
    let mut found: Vec<(i64, i64, i64)> = Vec::new();
    for a in 1..=2i64 {
        for b in 1..=2i64 {
            for c in 1..=2i64 {
                if lin_le_bounds_step(&vec![2 * a, b, c], 6).is_some() {
                    found.push((a, b, c));
                }
            }
        }
    }
    assert_eq!(found, vec![(1, 1, 1), (1, 1, 2), (1, 2, 1), (1, 2, 2), (2, 1, 1)]);
}

#[test]
fn linear_ne_forbids_last_value() {
    // 2a + b + c != 6 with a = 2 and b = 1 fixed: c must not be 1.
    let step = lin_ne_value_step(&vec![Some(4), Some(1), None], 6);
    assert_eq!(step, LinNeStep::Forbid(2, 1));
    // Nothing can be inferred while two summands are unfixed.
    let step = lin_ne_value_step(&vec![Some(4), None, None], 6);
    assert_eq!(step, LinNeStep::TooEarly);
    // A full assignment summing to the violation is rejected.
    let step = lin_ne_value_step(&vec![Some(4), Some(1), Some(1)], 6);
    assert_eq!(step, LinNeStep::Violated);
    let step = lin_ne_value_step(&vec![Some(2), Some(1), Some(1)], 6);
    assert_eq!(step, LinNeStep::Satisfied);
}

#[test]
fn linear_ne_enumerates_disequality_solutions() {
    // The assignments of {1,2}^3 whose sum 2a + b + c equals 6, namely
    // (1,2,2) and (2,1,1), are rejected; the other six satisfy the
    // disequality.
    let mut sat: Vec<(i64, i64, i64)> = Vec::new();
    for a in 1..=2i64 {
        for b in 1..=2i64 {
            for c in 1..=2i64 {
                match lin_ne_value_step(&vec![Some(2 * a), Some(b), Some(c)], 6) {
                    LinNeStep::Satisfied => sat.push((a, b, c)),
                    LinNeStep::Violated => assert!((a, b, c) == (1, 2, 2) || (a, b, c) == (2, 1, 1)),
                    _ => panic!("all summands are fixed"),
                }
            }
        }
    }
    assert_eq!(
        sat,
        vec![(1, 1, 1), (1, 1, 2), (1, 2, 1), (2, 1, 2), (2, 2, 1), (2, 2, 2)]
    );
}
