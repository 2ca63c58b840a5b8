//! The central journal of reversible state changes made during search.
//!
//! Changes to trailed values are recorded in the [`Trail`] structure; when
//! the search process backtracks, the recorded values are restored. The
//! cursor [`Trail::pos`] can also move forward again (redo), because the
//! oracle may ask for a lazy explanation after the state has moved on.
//!
//! The ghost field [`Trail::hist`] gives the trail its meaning: `hist@[k]`
//! holds the values of all trailed integers as they were when the cursor
//! stood at position `k`. The journal entries before the cursor store the
//! value to restore when undoing; the entries at or after the cursor have
//! been rewritten so that they store the value to reapply when redoing.

use vstd::pervasive::VecAdditionalExecFns;
use vstd::prelude::*;

verus! {

#[derive(Clone, Copy, Debug, PartialEq, Eq, Hash, Structural)]
/// Identifies a trailed integer value.
pub struct TrailedInt {
    /// The index of the integer cell within the trail.
    pub idx: usize,
}

#[derive(Clone, Copy, Debug, PartialEq, Eq, Structural)]
/// An event that is recorded so that it can be undone.
pub enum TrailEvent {
    /// The assignment of a Boolean variable.
    SatAssignment(i32),
    /// The assignment of a trailed integer value, and the value it had
    /// before the assignment.
    IntAssignment(TrailedInt, i64),
}

#[derive(Clone, Copy, Debug, PartialEq, Eq, Structural)]
/// The currently assigned value of a Boolean variable, and the value it had
/// while undoing the last assignment.
pub struct BoolStore {
    /// The current value of the variable, if it is assigned.
    pub value: Option<bool>,
    /// The value of the variable when it was untrailed.
    pub restore: Option<bool>,
}

/// The index in the Boolean store that corresponds to a variable.
pub open spec fn sat_index_spec(var: int) -> int {
    if var >= 0 {
        var
    } else {
        -var
    }
}

/// Whether two value vectors of the same length agree everywhere except
/// (possibly) at index `i`.
pub open spec fn agree_except(pre: Seq<i64>, post: Seq<i64>, i: int) -> bool {
    &&& pre.len() == post.len()
    &&& forall|j: int| 0 <= j < pre.len() && j != i ==> pre[j] == post[j]
}

#[derive(Clone)]
/// The journal of reversible assignments, with a cursor that supports both
/// undo and redo.
pub struct Trail {
    /// The recorded events.
    pub trail: Vec<TrailEvent>,
    /// The current position in the trail: events before `pos` have been
    /// applied, events at or after `pos` have been undone (and rewritten so
    /// they can be redone).
    pub pos: usize,
    /// The length of the trail when each decision was made.
    pub prev_len: Vec<usize>,
    /// The current values of the trailed integers.
    pub int_value: Vec<i64>,
    /// The current assigned values of the Boolean variables, and "redo"
    /// values kept while untrailing.
    pub sat_store: Vec<BoolStore>,
    /// The values of all trailed integers at every cursor position.
    pub hist: Ghost<Seq<Seq<i64>>>,
}

impl Trail {
    /// The journal entry `k` relates the integer values at cursor positions
    /// `k` and `k + 1` correctly: entries before the cursor store the value
    /// to restore on undo.
    pub open spec fn entry_ok(self, k: int) -> bool {
        match self.trail@[k] {
            TrailEvent::SatAssignment(var) => {
                &&& self.hist@[k + 1] == self.hist@[k]
                &&& 0 < var
                &&& sat_index_spec(var as int) < self.sat_store@.len()
            },
            TrailEvent::IntAssignment(i, v) => {
                &&& i.idx < self.hist@[k].len()
                &&& agree_except(self.hist@[k], self.hist@[k + 1], i.idx as int)
                &&& (k < self.pos ==> v == self.hist@[k][i.idx as int])
            },
        }
    }

    /// The journal entry `k` stores the value to reapply on redo; this holds
    /// of the entries at or after the cursor, except transiently inside a
    /// backtracking operation.
    pub open spec fn entry_redo_ok(self, k: int) -> bool {
        match self.trail@[k] {
            TrailEvent::SatAssignment(_) => true,
            TrailEvent::IntAssignment(i, v) => k >= self.pos ==> v == self.hist@[k + 1][i.idx as int],
        }
    }

    /// Well-formedness of the journal and the cursor, leaving out the
    /// decision level bookkeeping.
    pub open spec fn wf_core(self) -> bool {
        &&& self.pos <= self.trail@.len()
        &&& self.hist@.len() == self.trail@.len() + 1
        &&& (forall|k: int|
            0 <= k <= self.trail@.len() ==> (#[trigger] self.hist@[k]).len()
                == self.int_value@.len())
        &&& self.hist@[self.pos as int] == self.int_value@
        &&& (forall|k: int| 0 <= k < self.trail@.len() ==> self.entry_ok(k))
    }

    /// Basic well-formedness of the trail.
    pub open spec fn wf(self) -> bool {
        &&& self.wf_core()
        &&& (forall|l: int|
            0 <= l < self.prev_len@.len() ==> #[trigger] self.prev_len@[l] <= self.trail@.len())
        &&& (forall|l1: int, l2: int|
            0 <= l1 <= l2 < self.prev_len@.len() ==> #[trigger] self.prev_len@[l1]
                <= #[trigger] self.prev_len@[l2])
        &&& (self.prev_len@.len() == 0 ==> self.trail@.len() == 0)
        &&& (self.prev_len@.len() > 0 ==> self.prev_len@[0] == 0)
        &&& self.prev_len@.len() <= u32::MAX
    }

    /// The redo information of every entry at or after the cursor is intact.
    pub open spec fn redo_wf(self) -> bool {
        forall|k: int| 0 <= k < self.trail@.len() ==> self.entry_redo_ok(k)
    }

    /// The trailed integer values as they were at the moment the decision
    /// level `l + 1` began (level `l` was still current).
    pub open spec fn level_values(self, l: int) -> Seq<i64> {
        self.hist@[self.prev_len@[l] as int]
    }

    /// A trailed integer that is used to track the currently active
    /// brancher.
    pub fn current_brancher() -> (r: TrailedInt)
        ensures
            r.idx == 0,
    {
        TrailedInt { idx: 0 }
    }

    /// Create a new trail, holding only the trailed integer that tracks the
    /// currently active brancher.
    pub fn new() -> (r: Trail)
        ensures
            r.wf(),
            r.redo_wf(),
            r.trail@.len() == 0,
            r.pos == 0,
            r.prev_len@.len() == 0,
            r.int_value@ =~= seq![0i64],
            r.sat_store@.len() == 0,
    {
        let ghost h: Seq<Seq<i64>> = seq![seq![0i64]];
        let hist: Ghost<Seq<Seq<i64>>> = Ghost(h);
        let r = Trail {
            trail: Vec::new(),
            pos: 0,
            prev_len: Vec::new(),
            int_value: vec![0],
            sat_store: Vec::new(),
            hist,
        };
        proof {
            assert(r.int_value@ =~= seq![0i64]);
            assert(r.hist@[0] =~= r.int_value@);
        }
        r
    }

    /// Return the current decision level.
    pub fn decision_level(&self) -> (r: u32)
        requires
            self.wf(),
        ensures
            r == self.prev_len@.len(),
    {
        self.prev_len.len() as u32
    }

    /// Create a new trailed integer with the initial value `val`.
    pub fn track_int(&mut self, val: i64) -> (r: TrailedInt)
        requires
            old(self).wf(),
            old(self).redo_wf(),
        ensures
            final(self).wf(),
            final(self).redo_wf(),
            r.idx == old(self).int_value@.len(),
            final(self).int_value@ =~= old(self).int_value@.push(val),
            final(self).trail@ == old(self).trail@,
            final(self).pos == old(self).pos,
            final(self).prev_len@ == old(self).prev_len@,
            final(self).sat_store@ == old(self).sat_store@,
            final(self).hist@.len() == old(self).hist@.len(),
            forall|k: int|
                0 <= k < old(self).hist@.len() ==> #[trigger] final(self).hist@[k] =~= old(
                    self,
                ).hist@[k].push(val),
            forall|l: int|
                0 <= l < old(self).prev_len@.len() ==> #[trigger] final(self).level_values(l)
                    =~= old(self).level_values(l).push(val),
    {
        let r = TrailedInt { idx: self.int_value.len() };
        let ghost old_trail = *self;
        self.int_value.push(val);
        proof {
            self.hist@ = Seq::new(old_trail.hist@.len(), |k: int| old_trail.hist@[k].push(val));
            assert(self.hist@[self.pos as int] =~= self.int_value@);
            assert forall|k: int| 0 <= k < self.trail@.len() implies self.entry_ok(k)
                && self.entry_redo_ok(k) by {
                assert(old_trail.entry_ok(k));
                assert(old_trail.entry_redo_ok(k));
            }
        }
        r
    }

    /// Return the current value of a trailed integer.
    pub fn get_trailed_int(&self, i: TrailedInt) -> (r: i64)
        requires
            self.wf(),
            i.idx < self.int_value@.len(),
        ensures
            r == self.int_value@[i.idx as int],
    {
        self.int_value[i.idx]
    }

    /// Record an event in the trail. The stored value of an integer event
    /// must be the value the cell holds right now: the cell is overwritten
    /// only after the previous value has been recorded.
    pub fn push_trail(&mut self, event: TrailEvent)
        requires
            old(self).wf(),
            old(self).redo_wf(),
            old(self).pos == old(self).trail@.len(),
            old(self).prev_len@.len() > 0,
            match event {
                TrailEvent::SatAssignment(var) => 0 < var && sat_index_spec(var as int) < old(
                    self,
                ).sat_store@.len(),
                TrailEvent::IntAssignment(i, v) => i.idx < old(self).int_value@.len() && v == old(
                    self,
                ).int_value@[i.idx as int],
            },
        ensures
            final(self).wf(),
            final(self).redo_wf(),
            final(self).trail@ =~= old(self).trail@.push(event),
            final(self).pos == old(self).pos + 1,
            final(self).prev_len@ == old(self).prev_len@,
            final(self).int_value@ == old(self).int_value@,
            final(self).sat_store@ == old(self).sat_store@,
            final(self).hist@ =~= old(self).hist@.push(old(self).int_value@),
            forall|l: int|
                0 <= l < old(self).prev_len@.len() ==> #[trigger] final(self).level_values(l)
                    == old(self).level_values(l),
    {
        let ghost old_trail = *self;
        self.trail.push(event);
        self.pos = self.trail.len();
        proof {
            self.hist@ = old_trail.hist@.push(old_trail.int_value@);
            assert forall|k: int| 0 <= k < self.trail@.len() implies self.entry_ok(k)
                && self.entry_redo_ok(k) by {
                if k < old_trail.trail@.len() {
                    assert(old_trail.entry_ok(k));
                    assert(old_trail.entry_redo_ok(k));
                    assert(self.trail@[k] == old_trail.trail@[k]);
                } else {
                    assert(self.trail@[k] == event);
                    assert(self.hist@[k] == old_trail.int_value@);
                    assert(self.hist@[k + 1] == old_trail.int_value@);
                }
            }
        }
    }

    /// Set the value of a trailed integer, returning the previous value. An
    /// undo record is appended exactly when the value changes and the trail
    /// is below the root level.
    pub fn set_trailed_int(&mut self, i: TrailedInt, v: i64) -> (r: i64)
        requires
            old(self).wf(),
            old(self).redo_wf(),
            old(self).pos == old(self).trail@.len(),
            i.idx < old(self).int_value@.len(),
        ensures
            final(self).wf(),
            final(self).redo_wf(),
            r == old(self).int_value@[i.idx as int],
            final(self).int_value@ =~= old(self).int_value@.update(i.idx as int, v),
            final(self).pos == final(self).trail@.len(),
            final(self).prev_len@ == old(self).prev_len@,
            final(self).sat_store@ == old(self).sat_store@,
            final(self).hist@.len() >= old(self).hist@.len(),
            old(self).prev_len@.len() > 0 || r == v ==> forall|k: int|
                0 <= k < old(self).hist@.len() ==> #[trigger] final(self).hist@[k] == old(
                self,
            ).hist@[k],
            forall|l: int|
                0 <= l < old(self).prev_len@.len() ==> #[trigger] final(self).level_values(l)
                    == old(self).level_values(l),
    {
        let old_v = self.int_value[i.idx];
        if old_v == v {
            proof {
                assert(old(self).int_value@.update(i.idx as int, v) =~= old(self).int_value@);
            }
            return old_v;
        }
        if self.prev_len.len() > 0 {
            self.push_trail(TrailEvent::IntAssignment(i, old_v));
        }
        let ghost mid = *self;
        self.int_value.set(i.idx, v);
        proof {
            let p = self.pos as int;
            self.hist@ = mid.hist@.update(p, self.int_value@);
            assert(self.hist@[p] == self.int_value@);
            assert forall|k: int| 0 <= k <= self.trail@.len() implies (#[trigger] self.hist@[k]).len()
                == self.int_value@.len() by {
                assert(mid.hist@[k].len() == mid.int_value@.len());
            }
            assert forall|k: int| 0 <= k < self.trail@.len() implies self.entry_ok(k)
                && self.entry_redo_ok(k) by {
                assert(mid.entry_ok(k));
                assert(mid.entry_redo_ok(k));
                assert(self.trail@[k] == mid.trail@[k]);
                if k + 1 < p {
                    assert(self.hist@[k] == mid.hist@[k] && self.hist@[k + 1] == mid.hist@[k + 1]);
                }
            }
            assert forall|l: int| 0 <= l < old(self).prev_len@.len() implies #[trigger] self
                .level_values(l) == old(self).level_values(l) by {
                assert(old(self).prev_len@[l] <= old(self).trail@.len());
                assert(mid.level_values(l) == old(self).level_values(l));
                assert(self.prev_len@[l] == mid.prev_len@[l]);
                assert(self.prev_len@[l] < p);
            }
        }
        old_v
    }

    /// The value currently assigned to a literal, if any: the stored value
    /// of its variable, negated for a negative literal.
    pub open spec fn sat_value_spec(self, lit: int) -> Option<bool> {
        let idx = sat_index_spec(lit);
        if 0 <= idx < self.sat_store@.len() {
            match self.sat_store@[idx].value {
                Some(b) => Some(
                    if lit < 0 {
                        !b
                    } else {
                        b
                    },
                ),
                None => None,
            }
        } else {
            None
        }
    }

    /// Grow the storage for the state of Boolean variables to include enough
    /// space for `var`.
    pub fn grow_to_boolvar(&mut self, var: i32)
        requires
            old(self).wf(),
            old(self).redo_wf(),
            var > 0,
        ensures
            final(self).wf(),
            final(self).redo_wf(),
            final(self).sat_store@.len() > var,
            final(self).sat_store@.len() >= old(self).sat_store@.len(),
            forall|j: int|
                0 <= j < old(self).sat_store@.len() ==> #[trigger] final(self).sat_store@[j]
                    == old(self).sat_store@[j],
            forall|j: int|
                old(self).sat_store@.len() <= j < final(self).sat_store@.len()
                    ==> #[trigger] final(self).sat_store@[j] == (BoolStore {
                    value: None,
                    restore: None,
                }),
            final(self).trail@ == old(self).trail@,
            final(self).pos == old(self).pos,
            final(self).prev_len@ == old(self).prev_len@,
            final(self).int_value@ == old(self).int_value@,
            final(self).hist@ == old(self).hist@,
    {
        let idx = var as usize;
        while self.sat_store.len() <= idx
            invariant
                self.trail == old(self).trail,
                self.pos == old(self).pos,
                self.prev_len == old(self).prev_len,
                self.int_value == old(self).int_value,
                self.hist == old(self).hist,
                self.sat_store@.len() >= old(self).sat_store@.len(),
                forall|j: int|
                    0 <= j < old(self).sat_store@.len() ==> #[trigger] self.sat_store@[j] == old(
                        self,
                    ).sat_store@[j],
                forall|j: int|
                    old(self).sat_store@.len() <= j < self.sat_store@.len()
                        ==> #[trigger] self.sat_store@[j] == (BoolStore {
                        value: None,
                        restore: None,
                    }),
            decreases idx + 1 - self.sat_store@.len(),
        {
            self.sat_store.push(BoolStore { value: None, restore: None });
        }
        proof {
            assert forall|k: int| 0 <= k < self.trail@.len() implies self.entry_ok(k)
                && self.entry_redo_ok(k) by {
                assert(old(self).entry_ok(k));
                assert(old(self).entry_redo_ok(k));
            }
        }
    }

    /// Get the current assigned value for a literal, if any.
    pub fn get_sat_value(&self, lit: i32) -> (r: Option<bool>)
        requires
            self.wf(),
            lit != i32::MIN,
        ensures
            r == self.sat_value_spec(lit as int),
    {
        let idx: usize = if lit >= 0 {
            lit as usize
        } else {
            (-lit) as usize
        };
        if idx < self.sat_store.len() {
            match self.sat_store[idx].value {
                Some(b) => Some(
                    if lit < 0 {
                        !b
                    } else {
                        b
                    },
                ),
                None => None,
            }
        } else {
            None
        }
    }

    /// Record the assignment of a literal in the trail, returning the value
    /// the variable held before. If the variable was unassigned and the
    /// trail is below the root level, an undo record is appended.
    ///
    /// The storage must already have been extended to cover the variable
    /// (using [`Self::grow_to_boolvar`]).
    pub fn assign_lit(&mut self, lit: i32) -> (r: Option<bool>)
        requires
            old(self).wf(),
            old(self).redo_wf(),
            lit != 0,
            lit != i32::MIN,
            sat_index_spec(lit as int) < old(self).sat_store@.len(),
            old(self).pos == old(self).trail@.len(),
        ensures
            final(self).wf(),
            final(self).redo_wf(),
            final(self).pos == final(self).trail@.len(),
            r == old(self).sat_store@[sat_index_spec(lit as int)].value,
            final(self).sat_store@.len() == old(self).sat_store@.len(),
            final(self).sat_store@[sat_index_spec(lit as int)].value == Some(lit > 0),
            forall|j: int|
                0 <= j < old(self).sat_store@.len() && j != sat_index_spec(lit as int)
                    ==> #[trigger] final(self).sat_store@[j] == old(self).sat_store@[j],
            final(self).sat_value_spec(lit as int) == Some(true),
            final(self).int_value@ == old(self).int_value@,
            final(self).prev_len@ == old(self).prev_len@,
            old(self).sat_store@[sat_index_spec(lit as int)].value is None && old(
                self,
            ).prev_len@.len() > 0 ==> final(self).trail@ =~= old(self).trail@.push(
                TrailEvent::SatAssignment(
                    (if lit >= 0 {
                        lit as int
                    } else {
                        -(lit as int)
                    }) as i32,
                ),
            ) && final(self).pos == old(self).pos + 1,
            !(old(self).sat_store@[sat_index_spec(lit as int)].value is None && old(
                self,
            ).prev_len@.len() > 0) ==> final(self).trail@ == old(self).trail@ && final(self).pos
                == old(self).pos,
            final(self).hist@.len() >= old(self).hist@.len(),
            forall|k: int|
                0 <= k < old(self).hist@.len() ==> #[trigger] final(self).hist@[k] == old(
                    self,
                ).hist@[k],
            forall|l: int|
                0 <= l < old(self).prev_len@.len() ==> #[trigger] final(self).level_values(l)
                    == old(self).level_values(l),
    {
        let idx: usize = if lit >= 0 {
            lit as usize
        } else {
            (-lit) as usize
        };
        let var: i32 = if lit >= 0 {
            lit
        } else {
            -lit
        };
        let store = self.sat_store[idx];
        let prev = store.value;
        self.sat_store.set(idx, BoolStore { value: Some(lit > 0), restore: store.restore });
        proof {
            assert forall|k: int| 0 <= k < self.trail@.len() implies self.entry_ok(k)
                && self.entry_redo_ok(k) by {
                assert(old(self).entry_ok(k));
                assert(old(self).entry_redo_ok(k));
            }
        }
        if prev.is_none() && self.prev_len.len() > 0 {
            self.push_trail(TrailEvent::SatAssignment(var));
        }
        prev
    }

    /// Undo the last change on the trail, moving the cursor one step back.
    /// Returns `None` if the cursor is at the start of the trail.
    ///
    /// When `RESTORE` is set, the undone change is recorded so that it can
    /// be reapplied by [`Self::redo`].
    pub fn undo<const RESTORE: bool>(&mut self) -> (r: Option<TrailEvent>)
        requires
            old(self).wf_core(),
        ensures
            final(self).wf_core(),
            old(self).pos == 0 ==> r is None && *final(self) == *old(self),
            old(self).pos > 0 ==> {
                &&& r == Some(old(self).trail@[old(self).pos - 1])
                &&& final(self).pos == old(self).pos - 1
                &&& final(self).int_value@ == old(self).hist@[old(self).pos - 1]
                &&& (RESTORE && old(self).redo_wf() ==> final(self).redo_wf())
                &&& (forall|k: int|
                    0 <= k < old(self).trail@.len() && k != old(self).pos - 1
                        ==> #[trigger] final(self).trail@[k] == old(self).trail@[k])
                &&& match old(self).trail@[old(self).pos - 1] {
                    TrailEvent::SatAssignment(v) => final(self).trail@ == old(self).trail@
                        && final(self).sat_store@ =~= old(self).sat_store@.update(
                        v as int,
                        BoolStore {
                            value: None,
                            restore: if RESTORE {
                                old(self).sat_store@[v as int].value
                            } else {
                                old(self).sat_store@[v as int].restore
                            },
                        },
                    ),
                    TrailEvent::IntAssignment(i, _) => final(self).sat_store@ == old(
                        self,
                    ).sat_store@ && (RESTORE ==> final(self).trail@[old(self).pos - 1]
                        == TrailEvent::IntAssignment(
                        i,
                        old(self).int_value@[i.idx as int],
                    )) && (!RESTORE ==> final(self).trail@ == old(self).trail@),
                }
            },
            final(self).hist@ == old(self).hist@,
            final(self).trail@.len() == old(self).trail@.len(),
            final(self).prev_len@ == old(self).prev_len@,
            final(self).sat_store@.len() == old(self).sat_store@.len(),
            final(self).int_value@.len() == old(self).int_value@.len(),
            forall|l: int|
                0 <= l < old(self).prev_len@.len() ==> #[trigger] final(self).level_values(l)
                    == old(self).level_values(l),
    {
        if self.pos == 0 {
            return None;
        }
        let k = self.pos - 1;
        let event = self.trail[k];
        proof {
            assert(self.entry_ok(k as int));
        }
        match event {
            TrailEvent::SatAssignment(var) => {
                let idx = var as usize;
                let store = self.sat_store[idx];
                let new_store = if RESTORE {
                    BoolStore { value: None, restore: store.value }
                } else {
                    BoolStore { value: None, restore: store.restore }
                };
                self.sat_store.set(idx, new_store);
                self.pos = k;
            },
            TrailEvent::IntAssignment(i, v) => {
                let x = self.int_value[i.idx];
                if RESTORE {
                    self.trail.set(k, TrailEvent::IntAssignment(i, x));
                }
                self.int_value.set(i.idx, v);
                self.pos = k;
            },
        }
        proof {
            assert(self.hist@[k as int] =~= self.int_value@);
            assert forall|kk: int| 0 <= kk < self.trail@.len() implies self.entry_ok(kk) by {
                assert(old(self).entry_ok(kk));
            }
            if RESTORE && old(self).redo_wf() {
                assert forall|kk: int| 0 <= kk < self.trail@.len() implies self.entry_redo_ok(
                    kk,
                ) by {
                    assert(old(self).entry_ok(kk));
                    assert(old(self).entry_redo_ok(kk));
                }
            }
        }
        Some(event)
    }

    /// Reapply the last undone change on the trail, moving the cursor one
    /// step forward. Returns `None` if the cursor is at the end of the
    /// trail, or if the changes beyond the cursor were removed by a
    /// backtrack.
    pub fn redo(&mut self) -> (r: Option<TrailEvent>)
        requires
            old(self).wf_core(),
            old(self).redo_wf(),
        ensures
            final(self).wf_core(),
            final(self).redo_wf(),
            old(self).pos == old(self).trail@.len() ==> r is None && *final(self) == *old(self),
            old(self).pos < old(self).trail@.len() ==> {
                &&& r == Some(old(self).trail@[old(self).pos as int])
                &&& final(self).pos == old(self).pos + 1
                &&& final(self).int_value@ == old(self).hist@[old(self).pos + 1]
                &&& (forall|k: int|
                    0 <= k < old(self).trail@.len() && k != old(self).pos
                        ==> #[trigger] final(self).trail@[k] == old(self).trail@[k])
                &&& match old(self).trail@[old(self).pos as int] {
                    TrailEvent::SatAssignment(v) => final(self).trail@ == old(self).trail@
                        && final(self).sat_store@ =~= old(self).sat_store@.update(
                        v as int,
                        BoolStore {
                            value: old(self).sat_store@[v as int].restore,
                            restore: old(self).sat_store@[v as int].value,
                        },
                    ),
                    TrailEvent::IntAssignment(i, _) => final(self).sat_store@ == old(
                        self,
                    ).sat_store@ && final(self).trail@[old(self).pos as int]
                        == TrailEvent::IntAssignment(i, old(self).int_value@[i.idx as int]),
                }
            },
            final(self).hist@ == old(self).hist@,
            final(self).trail@.len() == old(self).trail@.len(),
            final(self).prev_len@ == old(self).prev_len@,
            final(self).sat_store@.len() == old(self).sat_store@.len(),
            final(self).int_value@.len() == old(self).int_value@.len(),
            forall|l: int|
                0 <= l < old(self).prev_len@.len() ==> #[trigger] final(self).level_values(l)
                    == old(self).level_values(l),
    {
        if self.pos == self.trail.len() {
            return None;
        }
        let k = self.pos;
        let event = self.trail[k];
        proof {
            assert(self.entry_ok(k as int));
            assert(self.entry_redo_ok(k as int));
        }
        match event {
            TrailEvent::SatAssignment(var) => {
                let idx = var as usize;
                let store = self.sat_store[idx];
                self.sat_store.set(idx, BoolStore { value: store.restore, restore: store.value });
                self.pos = k + 1;
            },
            TrailEvent::IntAssignment(i, v) => {
                let x = self.int_value[i.idx];
                self.trail.set(k, TrailEvent::IntAssignment(i, x));
                self.int_value.set(i.idx, v);
                self.pos = k + 1;
            },
        }
        proof {
            assert(self.hist@[self.pos as int] =~= self.int_value@);
            assert forall|kk: int| 0 <= kk < self.trail@.len() implies self.entry_ok(kk)
                && self.entry_redo_ok(kk) by {
                assert(old(self).entry_ok(kk));
                assert(old(self).entry_redo_ok(kk));
            }
        }
        Some(event)
    }

    /// Notify the trail of a new decision level to which the trail can later
    /// be restored.
    pub fn notify_new_decision_level(&mut self)
        requires
            old(self).wf(),
            old(self).redo_wf(),
            old(self).pos == old(self).trail@.len(),
            old(self).prev_len@.len() < u32::MAX,
        ensures
            final(self).wf(),
            final(self).redo_wf(),
            final(self).prev_len@ =~= old(self).prev_len@.push(old(self).trail@.len() as usize),
            final(self).level_values(old(self).prev_len@.len() as int) == old(self).int_value@,
            final(self).trail@ == old(self).trail@,
            final(self).pos == old(self).pos,
            final(self).int_value@ == old(self).int_value@,
            final(self).sat_store@ == old(self).sat_store@,
            final(self).hist@ == old(self).hist@,
            forall|l: int|
                0 <= l < old(self).prev_len@.len() ==> #[trigger] final(self).level_values(l)
                    == old(self).level_values(l),
    {
        let len = self.trail.len();
        self.prev_len.push(len);
        proof {
            assert forall|k: int| 0 <= k < self.trail@.len() implies self.entry_ok(k)
                && self.entry_redo_ok(k) by {
                assert(old(self).entry_ok(k));
                assert(old(self).entry_redo_ok(k));
            }
        }
    }

    /// Notify the trail of a backtracking operation: the trailed values are
    /// restored to the state they held when decision level `level` was
    /// current, and the journal beyond that point is discarded.
    ///
    /// A request for a level at or above the current decision level is
    /// ignored (the oracle may send such notifications).
    pub fn notify_backtrack(&mut self, level: usize)
        requires
            old(self).wf(),
            old(self).redo_wf(),
        ensures
            final(self).wf(),
            final(self).redo_wf(),
            level >= old(self).prev_len@.len() ==> *final(self) == *old(self),
            level < old(self).prev_len@.len() ==> {
                &&& final(self).prev_len@ =~= old(self).prev_len@.take(level as int)
                &&& final(self).trail@.len() == old(self).prev_len@[level as int]
                &&& final(self).pos == final(self).trail@.len()
                &&& final(self).int_value@ == old(self).level_values(level as int)
                &&& final(self).int_value@.len() == old(self).int_value@.len()
                &&& final(self).sat_store@.len() == old(self).sat_store@.len()
                &&& final(self).hist@.len() <= old(self).hist@.len()
                &&& (forall|k: int|
                    0 <= k < final(self).hist@.len() ==> #[trigger] final(self).hist@[k] == old(
                        self,
                    ).hist@[k])
                &&& (old(self).pos == old(self).trail@.len() ==> (forall|v: i32|
                    0 <= v < old(self).sat_store@.len() ==> ((no_sat_between(
                        old(self).trail@,
                        v,
                        old(self).prev_len@[level as int] as int,
                        old(self).pos as int,
                    ) ==> #[trigger] final(self).sat_store@[v as int] == old(
                        self,
                    ).sat_store@[v as int]) && (!no_sat_between(
                        old(self).trail@,
                        v,
                        old(self).prev_len@[level as int] as int,
                        old(self).pos as int,
                    ) ==> final(self).sat_store@[v as int].value is None))))
                &&& forall|l: int|
                    0 <= l < level ==> #[trigger] final(self).level_values(l) == old(
                        self,
                    ).level_values(l)
            },
    {
        if level >= self.prev_len.len() {
            return;
        }
        let len = self.prev_len[level];
        self.prev_len.truncate(level);
        proof {
            assert forall|k: int| 0 <= k < self.trail@.len() implies self.entry_ok(k)
                && self.entry_redo_ok(k) by {
                assert(old(self).entry_ok(k));
                assert(old(self).entry_redo_ok(k));
            }
        }
        if len <= self.pos {
            while self.pos > len
                invariant
                    self.wf_core(),
                    len <= self.pos,
                    len <= self.trail@.len(),
                    self.trail@.len() == old(self).trail@.len(),
                    self.hist@ == old(self).hist@,
                    self.prev_len@ == old(self).prev_len@.take(level as int),
                    self.sat_store@.len() == old(self).sat_store@.len(),
                    self.int_value@.len() == old(self).int_value@.len(),
                    self.pos <= old(self).pos,
                    old(self).pos == old(self).trail@.len() ==> self.trail@ == old(self).trail@
                        && (forall|v: i32|
                        0 <= v < old(self).sat_store@.len() ==> ((no_sat_between(
                            old(self).trail@,
                            v,
                            self.pos as int,
                            old(self).pos as int,
                        ) ==> #[trigger] self.sat_store@[v as int] == old(
                            self,
                        ).sat_store@[v as int]) && (!no_sat_between(
                            old(self).trail@,
                            v,
                            self.pos as int,
                            old(self).pos as int,
                        ) ==> self.sat_store@[v as int].value is None))),
                decreases self.pos,
            {
                let ghost before = *self;
                let _ = self.undo::<false>();
                proof {
                    if old(self).pos == old(self).trail@.len() {
                        assert(before.entry_ok(before.pos - 1));
                        let ev = before.trail@[before.pos - 1];
                        assert forall|v: i32| 0 <= v < old(self).sat_store@.len() implies ((
                        no_sat_between(
                            old(self).trail@,
                            v,
                            self.pos as int,
                            old(self).pos as int,
                        ) ==> #[trigger] self.sat_store@[v as int] == old(
                            self,
                        ).sat_store@[v as int]) && (!no_sat_between(
                            old(self).trail@,
                            v,
                            self.pos as int,
                            old(self).pos as int,
                        ) ==> self.sat_store@[v as int].value is None)) by {
                            match ev {
                                TrailEvent::SatAssignment(v0) => {
                                    if v != v0 {
                                        assert(self.sat_store@[v as int]
                                            == before.sat_store@[v as int]);
                                        assert(old(self).trail@[before.pos - 1]
                                            == TrailEvent::SatAssignment(v0));
                                    } else {
                                        assert(self.sat_store@[v as int].value is None);
                                        assert(!no_sat_between(
                                            old(self).trail@,
                                            v,
                                            self.pos as int,
                                            old(self).pos as int,
                                        ));
                                    }
                                },
                                TrailEvent::IntAssignment(_, _) => {
                                    assert(self.sat_store@ == before.sat_store@);
                                    assert(old(self).trail@[before.pos - 1] == ev);
                                },
                            }
                        }
                    }
                }
            }
        } else {
            while self.pos < len
                invariant
                    self.wf_core(),
                    self.redo_wf(),
                    self.pos <= len,
                    len <= self.trail@.len(),
                    self.trail@.len() == old(self).trail@.len(),
                    self.hist@ == old(self).hist@,
                    self.prev_len@ == old(self).prev_len@.take(level as int),
                    self.sat_store@.len() == old(self).sat_store@.len(),
                    self.int_value@.len() == old(self).int_value@.len(),
                decreases len - self.pos,
            {
                let _ = self.redo();
            }
        }
        let ghost before_trunc = *self;
        self.trail.truncate(len);
        proof {
            self.hist@ = before_trunc.hist@.take(len + 1);
            assert(self.hist@[self.pos as int] == before_trunc.hist@[self.pos as int]);
            assert forall|k: int| 0 <= k < self.trail@.len() implies self.entry_ok(k)
                && self.entry_redo_ok(k) by {
                assert(before_trunc.entry_ok(k));
                assert(self.trail@[k] == before_trunc.trail@[k]);
                assert(k < self.pos);
            }
            assert forall|l1: int, l2: int|
                0 <= l1 <= l2 < self.prev_len@.len() implies #[trigger] self.prev_len@[l1]
                <= #[trigger] self.prev_len@[l2] by {
                assert(old(self).prev_len@[l1] <= old(self).prev_len@[l2]);
            }
            assert forall|l: int| 0 <= l < self.prev_len@.len() implies #[trigger] self.prev_len@[l]
                <= self.trail@.len() by {
                assert(old(self).prev_len@[l] <= old(self).prev_len@[level as int]);
            }
            assert forall|l: int| 0 <= l < level implies #[trigger] self.level_values(l) == old(
                self,
            ).level_values(l) by {
                assert(old(self).prev_len@[l] <= old(self).prev_len@[level as int]);
            }
        }
    }

    /// Restore the state of all values to the point at which a literal was
    /// assigned, without discarding any journal entries.
    ///
    /// This is used when creating lazy explanations: the oracle may ask for
    /// the reason of a propagation after the state has moved on, and the
    /// reason must be computed against the state at the time of the
    /// propagation. The cursor ends on the assignment event of the
    /// literal's variable (undoing or redoing as needed); if the literal is
    /// not known to the journal, the cursor ends at the start (when the
    /// variable is assigned but its event is out of reach) or at the head
    /// (when it is unassigned), best effort.
    pub fn goto_assign_lit(&mut self, lit: i32)
        requires
            old(self).wf(),
            old(self).redo_wf(),
            lit != 0,
            lit != i32::MIN,
        ensures
            final(self).wf(),
            final(self).redo_wf(),
            final(self).trail@.len() == old(self).trail@.len(),
            final(self).prev_len@ == old(self).prev_len@,
            final(self).hist@ == old(self).hist@,
            final(self).sat_store@.len() == old(self).sat_store@.len(),
            final(self).int_value@.len() == old(self).int_value@.len(),
            forall|l: int|
                0 <= l < old(self).prev_len@.len() ==> #[trigger] final(self).level_values(l)
                    == old(self).level_values(l),
            ({
                let var = (if lit >= 0 {
                    lit as int
                } else {
                    -(lit as int)
                }) as i32;
                let assigned = sat_index_spec(lit as int) < old(self).sat_store@.len() && old(
                    self,
                ).sat_store@[sat_index_spec(lit as int)].value is Some;
                if assigned {
                    final(self).pos <= old(self).pos && ((final(self).pos == 0 && no_sat_between(
                        final(self).trail@,
                        var,
                        0,
                        old(self).pos as int,
                    )) || (final(self).pos < old(self).pos
                        && final(self).trail@[final(self).pos as int]
                        == TrailEvent::SatAssignment(var) && no_sat_between(
                        final(self).trail@,
                        var,
                        final(self).pos + 1,
                        old(self).pos as int,
                    )))
                } else {
                    old(self).pos <= final(self).pos && ((final(self).pos
                        == final(self).trail@.len() && no_sat_between(
                        final(self).trail@,
                        var,
                        old(self).pos as int,
                        final(self).trail@.len() as int,
                    )) || (final(self).pos < final(self).trail@.len()
                        && final(self).trail@[final(self).pos as int]
                        == TrailEvent::SatAssignment(var) && no_sat_between(
                        final(self).trail@,
                        var,
                        old(self).pos as int,
                        final(self).pos as int,
                    )))
                }
            }),
    {
        let idx: usize = if lit >= 0 {
            lit as usize
        } else {
            (-lit) as usize
        };
        let var: i32 = if lit >= 0 {
            lit
        } else {
            -lit
        };
        let assigned = idx < self.sat_store.len() && self.sat_store[idx].value.is_some();
        if !assigned {
            loop
                invariant
                    self.wf(),
                    self.redo_wf(),
                    self.trail@.len() == old(self).trail@.len(),
                    self.prev_len@ == old(self).prev_len@,
                    self.hist@ == old(self).hist@,
                    self.sat_store@.len() == old(self).sat_store@.len(),
                    self.int_value@.len() == old(self).int_value@.len(),
                    old(self).pos <= self.pos,
                    no_sat_between(self.trail@, var, old(self).pos as int, self.pos as int),
                ensures
                    (self.pos == self.trail@.len() && no_sat_between(
                        self.trail@,
                        var,
                        old(self).pos as int,
                        self.trail@.len() as int,
                    )) || (self.pos < self.trail@.len() && self.trail@[self.pos as int]
                        == TrailEvent::SatAssignment(var) && no_sat_between(
                        self.trail@,
                        var,
                        old(self).pos as int,
                        self.pos as int,
                    )),
                decreases self.trail@.len() - self.pos,
            {
                let ghost before = *self;
                let e = self.redo();
                match e {
                    None => {
                        break ;
                    },
                    Some(TrailEvent::SatAssignment(r)) => {
                        if r == var {
                            let _ = self.undo::<true>();
                            break ;
                        }
                    },
                    Some(_) => {},
                }
                proof {
                    let ev = before.trail@[before.pos as int];
                    assert forall|k: int|
                        old(self).pos <= k < self.pos implies self.trail@[k]
                        != TrailEvent::SatAssignment(var) by {
                        if k < before.pos {
                            assert(self.trail@[k] == before.trail@[k]);
                        } else {
                            assert(k == before.pos);
                            match ev {
                                TrailEvent::SatAssignment(v0) => {
                                    assert(self.trail@[k] == ev);
                                    assert(v0 != var);
                                },
                                TrailEvent::IntAssignment(i, _) => {
                                    assert(self.trail@[k] == TrailEvent::IntAssignment(
                                        i,
                                        before.int_value@[i.idx as int],
                                    ));
                                },
                            }
                        }
                    }
                }
            }
            return ;
        }
        loop
            invariant_except_break
                no_sat_between(self.trail@, var, self.pos as int, old(self).pos as int),
            invariant
                self.wf(),
                self.redo_wf(),
                self.trail@.len() == old(self).trail@.len(),
                self.prev_len@ == old(self).prev_len@,
                self.hist@ == old(self).hist@,
                self.sat_store@.len() == old(self).sat_store@.len(),
                self.int_value@.len() == old(self).int_value@.len(),
                self.pos <= old(self).pos,
                old(self).pos <= old(self).trail@.len(),
            ensures
                (self.pos == 0 && no_sat_between(
                    self.trail@,
                    var,
                    0,
                    old(self).pos as int,
                )) || (self.pos < old(self).pos && self.trail@[self.pos as int]
                    == TrailEvent::SatAssignment(var) && no_sat_between(
                    self.trail@,
                    var,
                    self.pos + 1,
                    old(self).pos as int,
                )),
            decreases self.pos,
        {
            let ghost before = *self;
            let e = self.undo::<true>();
            match e {
                None => {
                    break ;
                },
                Some(TrailEvent::SatAssignment(r)) => {
                    if r == var {
                        break ;
                    }
                },
                Some(_) => {},
            }
            proof {
                assert(before.pos > 0);
                assert(self.pos == before.pos - 1);
                let ev = before.trail@[before.pos - 1];
                assert forall|k: int|
                    self.pos <= k < old(self).pos implies self.trail@[k]
                    != TrailEvent::SatAssignment(var) by {
                    if k >= before.pos {
                        assert(0 <= k < before.trail@.len());
                        assert(k != before.pos - 1);
                        assert(self.trail@[k] == before.trail@[k]);
                    } else {
                        assert(k == before.pos - 1);
                        match ev {
                            TrailEvent::SatAssignment(v0) => {
                                assert(self.trail@[k] == ev);
                                assert(v0 != var);
                            },
                            TrailEvent::IntAssignment(i, _) => {
                                assert(self.trail@[k] == TrailEvent::IntAssignment(
                                    i,
                                    before.int_value@[i.idx as int],
                                ));
                            },
                        }
                    }
                }
            }
        }
    }
}

/// No assignment event of the Boolean variable `var` occurs in the journal
/// positions `[a, b)`.
pub open spec fn no_sat_between(tr: Seq<TrailEvent>, var: i32, a: int, b: int) -> bool {
    forall|k: int| a <= k < b ==> tr[k] != TrailEvent::SatAssignment(var)
}

} // verus!
