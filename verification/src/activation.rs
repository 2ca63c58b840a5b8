//! Coupling from integer domain events to the propagators that must run.

use vstd::prelude::*;

verus! {

#[derive(Clone, Copy, Debug, PartialEq, Eq, Hash, Structural)]
/// The conditions on which a propagator can subscribe to an integer
/// variable.
pub enum IntPropCond {
    /// Activate when the variable becomes fixed.
    Fixed,
    /// Activate when the lower bound changes.
    LowerBound,
    /// Activate when the upper bound changes.
    UpperBound,
    /// Activate when either bound changes.
    Bounds,
    /// Activate on any domain change.
    Domain,
}

#[derive(Clone, Copy, Debug, PartialEq, Eq, Hash, Structural)]
/// A change event observed on an integer variable.
pub enum IntEvent {
    /// The variable has become fixed.
    Fixed,
    /// The lower bound was raised.
    LowerBound,
    /// The upper bound was lowered.
    UpperBound,
    /// A value inside the bounds was removed.
    Domain,
}

/// Whether a subscription condition is triggered by an event: a `Fixed`
/// event wakes every subscriber; a bound event wakes the matching bound
/// subscribers, the `Bounds` subscribers, and the `Domain` subscribers; a
/// `Domain` event wakes only the `Domain` subscribers.
pub open spec fn triggers(cond: IntPropCond, event: IntEvent) -> bool {
    match event {
        IntEvent::Fixed => true,
        IntEvent::LowerBound => cond is LowerBound || cond is Bounds || cond is Domain,
        IntEvent::UpperBound => cond is UpperBound || cond is Bounds || cond is Domain,
        IntEvent::Domain => cond is Domain,
    }
}

#[derive(Clone)]
/// The list of propagators subscribed to an integer variable, each with its
/// activation condition.
pub struct ActivationList {
    /// The subscriptions: a propagator index and the condition that wakes
    /// it.
    pub subscriptions: Vec<(usize, IntPropCond)>,
}

impl ActivationList {
    /// An empty activation list.
    pub fn new() -> (r: ActivationList)
        ensures
            r.subscriptions@.len() == 0,
    {
        ActivationList { subscriptions: Vec::new() }
    }

    /// Subscribe a propagator with the given condition.
    pub fn add(&mut self, prop: usize, cond: IntPropCond)
        ensures
            final(self).subscriptions@ =~= old(self).subscriptions@.push((prop, cond)),
    {
        self.subscriptions.push((prop, cond));
    }

    /// The propagators whose subscription is triggered by the event, in
    /// subscription order.
    pub fn activated_by(&self, event: IntEvent) -> (r: Vec<usize>)
        ensures
            r@ =~= self.subscriptions@.filter(|s: (usize, IntPropCond)| triggers(s.1, event)).map_values(
                |s: (usize, IntPropCond)| s.0,
            ),
    {
        let n = self.subscriptions.len();
        let mut out: Vec<usize> = Vec::new();
        let mut i: usize = 0;
        while i < n
            invariant
                n == self.subscriptions@.len(),
                0 <= i <= n,
                out@ =~= self.subscriptions@.take(i as int).filter(
                    |s: (usize, IntPropCond)| triggers(s.1, event),
                ).map_values(|s: (usize, IntPropCond)| s.0),
            decreases n - i,
        {
            let (p, cond) = self.subscriptions[i];
            let fire = match (cond, event) {
                (_, IntEvent::Fixed) => true,
                (IntPropCond::LowerBound, IntEvent::LowerBound) => true,
                (IntPropCond::Bounds, IntEvent::LowerBound) => true,
                (IntPropCond::Domain, IntEvent::LowerBound) => true,
                (IntPropCond::UpperBound, IntEvent::UpperBound) => true,
                (IntPropCond::Bounds, IntEvent::UpperBound) => true,
                (IntPropCond::Domain, IntEvent::UpperBound) => true,
                (IntPropCond::Domain, IntEvent::Domain) => true,
                _ => false,
            };
            proof {
                assert(self.subscriptions@.take(i as int + 1) =~= self.subscriptions@.take(
                    i as int,
                ).push(self.subscriptions@[i as int]));
            }
            if fire {
                out.push(p);
            }
            proof {
                let f = |s: (usize, IntPropCond)| triggers(s.1, event);
                let pre = self.subscriptions@.take(i as int);
                let x = self.subscriptions@[i as int];
                assert(pre.push(x).drop_last() =~= pre);
                assert(pre.push(x).last() == x);
                reveal(Seq::filter);
                assert(pre.push(x).filter(f) =~= if f(x) {
                    pre.filter(f).push(x)
                } else {
                    pre.filter(f)
                });
            }
            i = i + 1;
        }
        proof {
            assert(self.subscriptions@.take(n as int) =~= self.subscriptions@);
        }
        out
    }
}

} // verus!
