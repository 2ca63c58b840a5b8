//! Tests for the numeric helper functions.

use huub::helpers::{div_ceil, div_floor, pow};

#[test]
fn test_div_ceil() {
    assert_eq!(div_ceil(8, 3), 3);
    assert_eq!(div_ceil(-8, -3), 3);
    assert_eq!(div_ceil(8, -3), -2);
    assert_eq!(div_ceil(-8, 3), -2);
}

#[test]
fn test_div_floor() {
    assert_eq!(div_floor(8, 3), 2);
    assert_eq!(div_floor(-8, -3), 2);
    assert_eq!(div_floor(8, -3), -3);
    assert_eq!(div_floor(-8, 3), -3);
}

#[test]
fn test_pow_small() {
    assert_eq!(pow(2, 10), Some(1024));
    assert_eq!(pow(3, 0), Some(1));
    assert_eq!(pow(7, 1), Some(7));
    assert_eq!(pow(-2, 3), Some(-8));
}

#[test]
fn test_pow_negative_exponent() {
    assert_eq!(pow(0, -1), None);
    assert_eq!(pow(1, -5), Some(1));
    assert_eq!(pow(-1, -4), Some(1));
    assert_eq!(pow(-1, -3), Some(-1));
    assert_eq!(pow(5, -2), Some(0));
}
