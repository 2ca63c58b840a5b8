//! Tests for linear transformations of values and literal meanings.

use huub::meaning::LitMeaning;
use huub::transform::LinearTransform;
use huub::value::NonZeroIntVal;

fn lt(scale: i64, offset: i64) -> LinearTransform {
    LinearTransform { scale: NonZeroIntVal::new(scale).unwrap(), offset }
}

#[test]
fn transform_applies_scale_and_offset() {
    let t = lt(3, -2);
    assert_eq!(t.transform(0), -2);
    assert_eq!(t.transform(5), 13);
    assert!(!t.is_identity());
    assert!(LinearTransform::offset(0).is_identity());
    assert!(t.positive_scale());
    assert!(!lt(-1, 0).positive_scale());
}

#[test]
fn rev_transform_rounds_towards_zero() {
    let t = lt(3, 0);
    assert_eq!(t.rev_transform(9), 3);
    assert!(t.rev_remains_integer(9));
    assert!(!t.rev_remains_integer(10));
}

#[test]
fn transform_lit_round_trip_greater_eq() {
    // The round trip law for inequality meanings, on a positive and on a
    // negative scale.
    for (s, o) in [(2i64, 5i64), (-3, 7), (1, 0), (-1, -4)] {
        let t = lt(s, o);
        for v in [-3i64, 0, 1, 8] {
            let m = LitMeaning::GreaterEq(v);
            assert_eq!(t.rev_transform_lit(t.transform_lit(m)), Ok(m));
            let m = LitMeaning::Less(v);
            assert_eq!(t.rev_transform_lit(t.transform_lit(m)), Ok(m));
        }
    }
}

#[test]
fn rev_transform_lit_eq_off_lattice() {
    let t = lt(2, 0);
    assert_eq!(t.rev_transform_lit(LitMeaning::Eq(3)), Err(false));
    assert_eq!(t.rev_transform_lit(LitMeaning::NotEq(3)), Err(true));
    assert_eq!(t.rev_transform_lit(LitMeaning::Eq(6)), Ok(LitMeaning::Eq(3)));
    assert_eq!(t.rev_transform_lit(LitMeaning::NotEq(6)), Ok(LitMeaning::NotEq(3)));
}

#[test]
fn rev_transform_lit_rounds_correctly() {
    // x >= 5 on the view 2x means x >= ceil(5/2) = 3 on the variable.
    let t = lt(2, 0);
    assert_eq!(t.rev_transform_lit(LitMeaning::GreaterEq(5)), Ok(LitMeaning::GreaterEq(3)));
    assert_eq!(t.rev_transform_lit(LitMeaning::Less(5)), Ok(LitMeaning::Less(3)));
    // On a negated view the direction flips.
    let t = lt(-1, 0);
    assert_eq!(t.rev_transform_lit(LitMeaning::GreaterEq(5)), Ok(LitMeaning::Less(-4)));
}

#[test]
fn negate_meaning_swaps_duals() {
    assert_eq!(LitMeaning::Eq(3).negate(), LitMeaning::NotEq(3));
    assert_eq!(LitMeaning::NotEq(3).negate(), LitMeaning::Eq(3));
    assert_eq!(LitMeaning::GreaterEq(3).negate(), LitMeaning::Less(3));
    assert_eq!(LitMeaning::Less(3).negate(), LitMeaning::GreaterEq(3));
}

#[test]
fn rev_transform_int_set_maps_ranges() {
    // The view 2x + 1 over the transformed ranges [3, 9] and [15, 15]:
    // original values with 3 <= 2x+1 <= 9 are 1..=4; none maps into
    // [15, 15] evenly except x = 7.
    let t = lt(2, 1);
    let mask = huub::domain::IntSetVal::from_ranges(vec![(3, 9), (15, 15)]).unwrap();
    let out = t.rev_transform_int_set(&mask);
    assert_eq!(out, vec![(1, 4), (7, 7)]);
    // On a negated view the per-range orientation is restored.
    let t = lt(-1, 0);
    let mask = huub::domain::IntSetVal::from_ranges(vec![(2, 5)]).unwrap();
    assert_eq!(t.rev_transform_int_set(&mask), vec![(-5, -2)]);
}
