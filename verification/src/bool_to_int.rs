//! Tracking which integer condition an oracle variable stands for.

use vstd::prelude::*;

use crate::int_var::VarRange;
use crate::meaning::LitMeaning;

verus! {

#[derive(Clone)]
/// A mapping from Boolean variables to the integer variables whose
/// conditions they represent.
///
/// Eagerly created variables come in contiguous ranges, stored as a sorted
/// vector and answered by binary search; the meaning of such a variable is
/// recovered from its offset in the range. Lazily created variables store
/// their meaning explicitly.
pub struct BoolToIntMap {
    /// The eagerly created ranges, sorted and non-overlapping, each mapped
    /// to an integer variable index.
    pub eager: Vec<(VarRange, usize)>,
    /// The lazily created variables, each mapped to an integer variable
    /// index and the meaning of the positive literal.
    pub lazy: Vec<(i32, (usize, LitMeaning))>,
}

impl BoolToIntMap {
    /// Whether the eager ranges are sorted and non-overlapping, and the
    /// lazy entries have distinct variables above every eager range.
    pub open spec fn wf(self) -> bool {
        &&& (forall|i: int| 0 <= i < self.eager@.len() ==> (#[trigger] self.eager@[i]).0.wf())
        &&& (forall|i: int|
            0 < i < self.eager@.len() ==> (#[trigger] self.eager@[i]).0.start >= self.eager@[i
                - 1].0.start + self.eager@[i - 1].0.len)
        &&& (forall|i1: int, i2: int|
            0 <= i1 < i2 < self.lazy@.len() ==> (#[trigger] self.lazy@[i1]).0 != (
            #[trigger] self.lazy@[i2]).0)
    }

    /// Whether the variable `v` lies in some eager range.
    pub open spec fn eager_has(self, v: int) -> bool {
        exists|i: int| 0 <= i < self.eager@.len() && (#[trigger] self.eager@[i]).0.contains_var(v)
    }

    /// Whether the variable `v` has a lazy entry.
    pub open spec fn lazy_has(self, v: int) -> bool {
        exists|i: int| 0 <= i < self.lazy@.len() && (#[trigger] self.lazy@[i]).0 == v
    }

    /// The lazy entry of the variable `v`.
    pub open spec fn lazy_entry(self, v: int) -> (usize, LitMeaning) {
        let i = choose|i: int| 0 <= i < self.lazy@.len() && (#[trigger] self.lazy@[i]).0 == v;
        self.lazy@[i].1
    }

    /// The integer variable of the eager range holding `v`.
    pub open spec fn eager_entry(self, v: int) -> (VarRange, usize) {
        let i = choose|i: int|
            0 <= i < self.eager@.len() && (#[trigger] self.eager@[i]).0.contains_var(v);
        self.eager@[i]
    }

    /// An empty map.
    pub fn new() -> (r: BoolToIntMap)
        ensures
            r.wf(),
            r.eager@.len() == 0,
            r.lazy@.len() == 0,
            forall|v: int| !r.eager_has(v) && !r.lazy_has(v),
    {
        BoolToIntMap { eager: Vec::new(), lazy: Vec::new() }
    }

    /// Map a range of eagerly created variables to the integer variable
    /// they were created for. Ranges must be inserted in ascending variable
    /// order; an out-of-order range is refused.
    #[verifier::rlimit(50)]
    pub fn insert_eager(&mut self, range: VarRange, var: usize) -> (r: bool)
        requires
            old(self).wf(),
            range.wf(),
        ensures
            final(self).wf(),
            final(self).lazy@ == old(self).lazy@,
            r ==> final(self).eager@ =~= old(self).eager@.push((range, var)),
            !r ==> *final(self) == *old(self),
            r <==> range.len > 0 && (old(self).eager@.len() == 0 || old(self).eager@.last().0.start
                + old(self).eager@.last().0.len <= range.start),
    {
        if range.len == 0 {
            return false;
        }
        if self.eager.len() == 0 {
            self.eager.push((range, var));
            return true;
        }
        let last = self.eager[self.eager.len() - 1].0;
        if last.start + (last.len as i32) <= range.start {
            self.eager.push((range, var));
            return true;
        }
        false
    }

    /// Map a lazily created variable to the integer variable and the
    /// meaning of its positive literal. A variable that already has an
    /// entry is refused.
    pub fn insert_lazy(&mut self, v: i32, iv: usize, m: LitMeaning) -> (r: bool)
        requires
            old(self).wf(),
        ensures
            final(self).wf(),
            final(self).eager@ == old(self).eager@,
            r ==> final(self).lazy@ =~= old(self).lazy@.push((v, (iv, m))),
            r <==> !old(self).lazy_has(v as int),
            !r ==> *final(self) == *old(self),
    {
        let n = self.lazy.len();
        let mut i: usize = 0;
        while i < n
            invariant
                *self == *old(self),
                self.wf(),
                n == self.lazy@.len(),
                0 <= i <= n,
                forall|j: int| 0 <= j < i ==> (#[trigger] self.lazy@[j]).0 != v,
            decreases n - i,
        {
            if self.lazy[i].0 == v {
                return false;
            }
            i = i + 1;
        }
        self.lazy.push((v, (iv, m)));
        proof {
            assert forall|i1: int, i2: int| 0 <= i1 < i2 < self.lazy@.len() implies (
            #[trigger] self.lazy@[i1]).0 != (#[trigger] self.lazy@[i2]).0 by {
                if i2 < old(self).lazy@.len() {
                    assert(self.lazy@[i1] == old(self).lazy@[i1]);
                    assert(self.lazy@[i2] == old(self).lazy@[i2]);
                } else {
                    assert(self.lazy@[i1] == old(self).lazy@[i1]);
                }
            }
        }
        true
    }

    /// Return the integer variable for which the Boolean variable `v`
    /// stands, if any. A lazily created variable also reports the meaning
    /// of its positive literal; the meaning of an eagerly created variable
    /// is recovered from its range offset by the caller.
    #[verifier::rlimit(100)]
    #[verifier::spinoff_prover]
    pub fn get(&self, v: i32) -> (r: Option<(usize, Option<LitMeaning>)>)
        requires
            self.wf(),
        ensures
            match r {
                Some((iv, om)) => match om {
                    Some(m) => self.lazy_has(v as int) && (iv, m) == self.lazy_entry(v as int)
                        && !self.eager_has(v as int),
                    None => self.eager_has(v as int) && iv == self.eager_entry(v as int).1,
                },
                None => !self.eager_has(v as int) && !self.lazy_has(v as int),
            },
    {
        // Binary search over the sorted eager ranges.
        proof {
            assert(self.wf());
        }
        let mut lo: usize = 0;
        let mut hi: usize = self.eager.len();
        while lo < hi
            invariant
                self.wf(),
                0 <= lo <= hi <= self.eager@.len(),
                forall|i: int|
                    0 <= i < lo ==> (#[trigger] self.eager@[i]).0.start + self.eager@[i].0.len
                        <= v,
                forall|i: int| hi <= i < self.eager@.len() ==> v < (#[trigger] self.eager@[i]).0.start,
            decreases hi - lo,
        {
            let mid = lo + (hi - lo) / 2;
            let (range, iv) = self.eager[mid];
            if range.start > v {
                proof {
                    assert forall|i: int| mid <= i < self.eager@.len() implies v < (
                    #[trigger] self.eager@[i]).0.start by {
                        lemma_ranges_sorted(self, mid as int, i);
                    }
                }
                hi = mid;
            } else if range.start + (range.len as i32) <= v {
                proof {
                    assert forall|i: int| 0 <= i <= mid implies (#[trigger] self.eager@[i]).0.start
                        + self.eager@[i].0.len <= v by {
                        lemma_ranges_sorted(self, i, mid as int);
                    }
                }
                lo = mid + 1;
            } else {
                proof {
                    assert(self.eager@[mid as int].0.contains_var(v as int));
                    let i0 = choose|i0: int|
                        0 <= i0 < self.eager@.len() && (#[trigger] self.eager@[i0]).0.contains_var(
                            v as int,
                        );
                    if i0 < mid {
                        lemma_ranges_sorted(self, i0, mid as int);
                    }
                    if i0 > mid {
                        lemma_ranges_sorted(self, mid as int, i0);
                    }
                }
                return Some((iv, None));
            }
        }
        proof {
            assert forall|i: int| 0 <= i < self.eager@.len() implies !(
            #[trigger] self.eager@[i]).0.contains_var(v as int) by {}
        }
        // Fall back to the lazy entries.
        let n = self.lazy.len();
        let mut i: usize = 0;
        while i < n
            invariant
                self.wf(),
                n == self.lazy@.len(),
                0 <= i <= n,
                forall|j: int| 0 <= j < i ==> (#[trigger] self.lazy@[j]).0 != v,
                forall|j: int|
                    0 <= j < self.eager@.len() ==> !(#[trigger] self.eager@[j]).0.contains_var(
                        v as int,
                    ),
            decreases n - i,
        {
            let (lv, entry) = &self.lazy[i];
            if *lv == v {
                let (iv, m) = entry;
                proof {
                    assert(self.lazy@[i as int].0 == v);
                    let i0 = choose|i0: int|
                        0 <= i0 < self.lazy@.len() && (#[trigger] self.lazy@[i0]).0 == v;
                    if i0 != i {
                        assert(self.lazy@[i0].0 != self.lazy@[i as int].0);
                    }
                }
                return Some((*iv, Some(m.clone())));
            }
            i = i + 1;
        }
        None
    }
}

/// The eager ranges are sorted: every earlier range lies entirely below
/// every later range.
proof fn lemma_ranges_sorted(m: &BoolToIntMap, i: int, j: int)
    requires
        m.wf(),
        0 <= i <= j < m.eager@.len(),
    ensures
        m.eager@[i].0.start + m.eager@[i].0.len <= m.eager@[j].0.start + m.eager@[j].0.len,
        i < j ==> m.eager@[i].0.start + m.eager@[i].0.len <= m.eager@[j].0.start,
    decreases j - i,
{
    if i < j {
        lemma_ranges_sorted(m, i + 1, j);
    }
}

} // verus!
