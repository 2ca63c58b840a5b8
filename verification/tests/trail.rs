//! Tests for the trail: recording, undoing and restoring events.

use huub::trail::{Trail, TrailEvent};

#[test]
fn test_trail_event() {
    let mut trail = Trail::new();
    trail.grow_to_boolvar(10);
    let values: Vec<i64> = vec![
        0,
        1,
        -1,
        i64::MAX,
        i64::MIN,
        4084,
        -9967,
        9076,
        -4312,
        1718,
    ];
    let mut int_events: Vec<(huub::trail::TrailedInt, i64)> = Vec::new();
    for v in &values {
        let t = trail.track_int(*v);
        int_events.push((t, *v));
    }
    trail.notify_new_decision_level();
    for (k, (t, v)) in int_events.iter().enumerate() {
        let lit: i32 = (k as i32) + 1;
        trail.push_trail(TrailEvent::SatAssignment(lit));
        let _ = trail.assign_lit(if k % 2 == 0 { lit } else { -lit });
        // Overwrite the tracked value so that an undo record is created.
        let _ = trail.set_trailed_int(*t, v.wrapping_add(1));
    }
    for (k, (t, v)) in int_events.iter().enumerate().rev() {
        let lit: i32 = (k as i32) + 1;
        let e = trail.undo::<true>().unwrap();
        assert_eq!(e, TrailEvent::IntAssignment(*t, *v));
        let e = trail.undo::<true>().unwrap();
        assert_eq!(e, TrailEvent::SatAssignment(lit));
        // The sat assignment events recorded by `assign_lit` interleave.
        let e = trail.undo::<true>().unwrap();
        assert_eq!(e, TrailEvent::SatAssignment(lit));
    }
}

#[test]
fn backtrack_restores_tracked_ints() {
    let mut trail = Trail::new();
    let a = trail.track_int(5);
    let b = trail.track_int(-7);
    trail.notify_new_decision_level();
    let old_a = trail.set_trailed_int(a, 100);
    assert_eq!(old_a, 5);
    let old_b = trail.set_trailed_int(b, 200);
    assert_eq!(old_b, -7);
    assert_eq!(trail.get_trailed_int(a), 100);
    assert_eq!(trail.get_trailed_int(b), 200);
    trail.notify_backtrack(0);
    assert_eq!(trail.get_trailed_int(a), 5);
    assert_eq!(trail.get_trailed_int(b), -7);
    assert_eq!(trail.decision_level(), 0);
}

#[test]
fn redo_after_goto_restores_assignments() {
    let mut trail = Trail::new();
    trail.grow_to_boolvar(3);
    trail.notify_new_decision_level();
    let _ = trail.assign_lit(1);
    let _ = trail.assign_lit(-2);
    let _ = trail.assign_lit(3);
    assert_eq!(trail.get_sat_value(1), Some(true));
    assert_eq!(trail.get_sat_value(2), Some(false));
    // Rewind to the moment literal 1 was assigned, then move forward again.
    trail.goto_assign_lit(1);
    assert_eq!(trail.get_sat_value(1), None);
    assert_eq!(trail.get_sat_value(3), None);
    while trail.redo().is_some() {}
    assert_eq!(trail.get_sat_value(2), Some(false));
    assert_eq!(trail.get_sat_value(3), Some(true));
}
