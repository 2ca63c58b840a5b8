//! The priority queue used by the engine to schedule propagators.

use std::collections::VecDeque;
use vstd::prelude::*;

verus! {

#[derive(Copy, Clone, Debug, PartialEq, Eq, PartialOrd, Ord, Hash)]
/// The priority levels at which propagators can be scheduled.
pub enum PriorityLevel {
    /// The lowest priority level, all other priority levels are more
    /// important.
    Lowest,
    /// A low level of priority, all but one priority level are more
    /// important.
    Low,
    /// A medium level of priority, as many priority levels are more as less
    /// important than this one.
    Medium,
    /// A high level of priority, all but one normal priority level are less
    /// important.
    High,
    /// The highest normal priority level.
    Highest,
    /// An extraordinarily high level of priority, generally used to ensure
    /// that something will happen next.
    Immediate,
}

/// The rank of a priority level: a higher rank is served first.
pub open spec fn level_rank(p: PriorityLevel) -> int {
    match p {
        PriorityLevel::Lowest => 0,
        PriorityLevel::Low => 1,
        PriorityLevel::Medium => 2,
        PriorityLevel::High => 3,
        PriorityLevel::Highest => 4,
        PriorityLevel::Immediate => 5,
    }
}

#[derive(Debug, Clone)]
/// A priority queue with six strict priority levels, serving each level in
/// first-in first-out order.
pub struct PriorityQueue<E> {
    /// Queue for [`PriorityLevel::Lowest`].
    pub q0: VecDeque<E>,
    /// Queue for [`PriorityLevel::Low`].
    pub q1: VecDeque<E>,
    /// Queue for [`PriorityLevel::Medium`].
    pub q2: VecDeque<E>,
    /// Queue for [`PriorityLevel::High`].
    pub q3: VecDeque<E>,
    /// Queue for [`PriorityLevel::Highest`].
    pub q4: VecDeque<E>,
    /// Queue for [`PriorityLevel::Immediate`].
    pub q5: VecDeque<E>,
}

impl<E> PriorityQueue<E> {
    /// The pending elements of the level with rank `i`, oldest first.
    pub open spec fn level(self, i: int) -> Seq<E> {
        if i == 0 {
            self.q0@
        } else if i == 1 {
            self.q1@
        } else if i == 2 {
            self.q2@
        } else if i == 3 {
            self.q3@
        } else if i == 4 {
            self.q4@
        } else {
            self.q5@
        }
    }

    /// The number of pending elements over all levels.
    pub open spec fn total_len(self) -> int {
        self.level(0).len() + self.level(1).len() + self.level(2).len() + self.level(3).len()
            + self.level(4).len() + self.level(5).len() as int
    }

    /// Create an empty queue.
    pub fn new() -> (r: Self)
        ensures
            forall|i: int| 0 <= i < 6 ==> #[trigger] r.level(i) =~= Seq::<E>::empty(),
    {
        PriorityQueue {
            q0: VecDeque::new(),
            q1: VecDeque::new(),
            q2: VecDeque::new(),
            q3: VecDeque::new(),
            q4: VecDeque::new(),
            q5: VecDeque::new(),
        }
    }

    /// Inserts an element into the queue at the end of the given priority
    /// level.
    pub fn insert(&mut self, priority: PriorityLevel, elem: E)
        ensures
            final(self).level(level_rank(priority)) =~= old(self).level(level_rank(priority)).push(
                elem,
            ),
            forall|i: int|
                0 <= i < 6 && i != level_rank(priority) ==> #[trigger] final(self).level(i) =~= old(
                    self,
                ).level(i),
    {
        match priority {
            PriorityLevel::Lowest => self.q0.push_back(elem),
            PriorityLevel::Low => self.q1.push_back(elem),
            PriorityLevel::Medium => self.q2.push_back(elem),
            PriorityLevel::High => self.q3.push_back(elem),
            PriorityLevel::Highest => self.q4.push_back(elem),
            PriorityLevel::Immediate => self.q5.push_back(elem),
        }
    }

    /// Pops the next element: the oldest element of the highest priority
    /// level that has any pending element, or `None` if the queue is empty.
    pub fn pop(&mut self) -> (r: Option<E>)
        ensures
            old(self).total_len() == 0 ==> r is None && *final(self) == *old(self),
            old(self).total_len() > 0 ==> ({
                let h = choose|h: int|
                    0 <= h < 6 && #[trigger] old(self).level(h).len() > 0 && forall|j: int|
                        h < j < 6 ==> #[trigger] old(self).level(j).len() == 0;
                &&& r == Some(old(self).level(h)[0])
                &&& final(self).level(h) =~= old(self).level(h).drop_first()
                &&& forall|i: int|
                    0 <= i < 6 && i != h ==> #[trigger] final(self).level(i) =~= old(self).level(i)
            }),
    {
        if self.q5.len() > 0 {
            self.pop_witness(5)
        } else if self.q4.len() > 0 {
            self.pop_witness(4)
        } else if self.q3.len() > 0 {
            self.pop_witness(3)
        } else if self.q2.len() > 0 {
            self.pop_witness(2)
        } else if self.q1.len() > 0 {
            self.pop_witness(1)
        } else if self.q0.len() > 0 {
            self.pop_witness(0)
        } else {
            None
        }
    }

    /// Pop the front of the level with rank `h`, which the caller has found
    /// to be the highest level with a pending element.
    fn pop_witness(&mut self, h: usize) -> (r: Option<E>)
        requires
            h < 6,
            old(self).level(h as int).len() > 0,
            forall|j: int| h < j < 6 ==> #[trigger] old(self).level(j).len() == 0,
        ensures
            old(self).total_len() > 0 ==> ({
                let hh = choose|hh: int|
                    0 <= hh < 6 && #[trigger] old(self).level(hh).len() > 0 && forall|j: int|
                        hh < j < 6 ==> #[trigger] old(self).level(j).len() == 0;
                &&& r == Some(old(self).level(hh)[0])
                &&& final(self).level(hh) =~= old(self).level(hh).drop_first()
                &&& forall|i: int|
                    0 <= i < 6 && i != hh ==> #[trigger] final(self).level(i) =~= old(self).level(
                        i,
                    )
            }),
    {
        proof {
            let hh = choose|hh: int|
                0 <= hh < 6 && #[trigger] old(self).level(hh).len() > 0 && forall|j: int|
                    hh < j < 6 ==> #[trigger] old(self).level(j).len() == 0;
            assert(0 <= hh < 6 && old(self).level(hh).len() > 0 && forall|j: int|
                hh < j < 6 ==> #[trigger] old(self).level(j).len() == 0) by {
                assert(0 <= h < 6 && old(self).level(h as int).len() > 0 && forall|j: int|
                    h < j < 6 ==> #[trigger] old(self).level(j).len() == 0);
            }
            if hh != h {
                if hh < h {
                    assert(old(self).level(h as int).len() == 0);
                } else {
                    assert(old(self).level(hh).len() == 0);
                }
            }
        }
        match h {
            5 => self.q5.pop_front(),
            4 => self.q4.pop_front(),
            3 => self.q3.pop_front(),
            2 => self.q2.pop_front(),
            1 => self.q1.pop_front(),
            _ => self.q0.pop_front(),
        }
    }
}

} // verus!
