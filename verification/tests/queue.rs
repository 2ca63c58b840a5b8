//! Tests for the propagator priority queue and its priority levels.

use huub::queue::PriorityLevel::{High, Highest, Immediate, Low, Lowest, Medium};
use huub::queue::{PriorityLevel, PriorityQueue};

#[test]
fn priority_order() {
    assert!(Immediate > Highest);
    assert!(Highest > High);
    assert!(High > Medium);
    assert!(Medium > Low);
    assert!(Low > Lowest);
}

#[test]
fn queue_pops_highest_priority_first() {
    let mut q: PriorityQueue<usize> = PriorityQueue::new();
    q.insert(PriorityLevel::Low, 1);
    q.insert(PriorityLevel::Immediate, 2);
    q.insert(PriorityLevel::Medium, 3);
    assert_eq!(q.pop(), Some(2));
    assert_eq!(q.pop(), Some(3));
    assert_eq!(q.pop(), Some(1));
    assert_eq!(q.pop(), None);
}

#[test]
fn queue_is_fifo_within_a_level() {
    let mut q: PriorityQueue<usize> = PriorityQueue::new();
    q.insert(PriorityLevel::Highest, 10);
    q.insert(PriorityLevel::Highest, 11);
    q.insert(PriorityLevel::Highest, 12);
    assert_eq!(q.pop(), Some(10));
    assert_eq!(q.pop(), Some(11));
    assert_eq!(q.pop(), Some(12));
    assert_eq!(q.pop(), None);
}
