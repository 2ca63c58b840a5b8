//! Sets of integers represented as sorted disjoint inclusive ranges, used
//! for the initial domains of integer variables.

use vstd::prelude::*;

verus! {

/// The number of integers in the inclusive range `r` that are strictly below
/// `x`.
pub open spec fn range_count_below(r: (i64, i64), x: int) -> int {
    if x <= r.0 {
        0
    } else if x > r.1 {
        r.1 - r.0 + 1
    } else {
        x - r.0
    }
}

/// The number of integers in the ranges `rs` that are strictly below `x`.
pub open spec fn seq_count_below(rs: Seq<(i64, i64)>, x: int) -> int
    decreases rs.len(),
{
    if rs.len() == 0 {
        0
    } else {
        range_count_below(rs[0], x) + seq_count_below(rs.drop_first(), x)
    }
}

#[derive(Clone, Debug, PartialEq, Eq, Hash)]
/// A set of integers, stored as an ordered sequence of disjoint,
/// non-adjacent, inclusive ranges.
pub struct IntSetVal {
    /// The ranges of the set, each a pair of its lowest and highest value.
    pub ranges: Vec<(i64, i64)>,
}

impl IntSetVal {
    /// Whether the ranges are individually non-empty, sorted, and separated
    /// by at least one missing value.
    pub open spec fn wf(self) -> bool {
        &&& (forall|i: int| 0 <= i < self.ranges@.len() ==> (#[trigger] self.ranges@[i]).0 <= self.ranges@[i].1)
        &&& (forall|i: int|
            0 < i < self.ranges@.len() ==> (#[trigger] self.ranges@[i]).0 > self.ranges@[i - 1].1
                + 1)
    }

    /// Whether the set contains the value `x`.
    pub open spec fn contains_spec(self, x: int) -> bool {
        exists|i: int|
            0 <= i < self.ranges@.len() && (#[trigger] self.ranges@[i]).0 <= x <= self.ranges@[i].1
    }

    /// The smallest value of the set.
    pub open spec fn lb_spec(self) -> int {
        self.ranges@[0].0 as int
    }

    /// The largest value of the set.
    pub open spec fn ub_spec(self) -> int {
        self.ranges@[self.ranges@.len() - 1].1 as int
    }

    /// The number of values of the set that are strictly below `x`.
    pub open spec fn count_below(self, x: int) -> int {
        seq_count_below(self.ranges@, x)
    }

    /// The number of values in the set.
    pub open spec fn card_spec(self) -> int {
        self.count_below(self.ub_spec() + 1)
    }

    /// Create a set from the single inclusive range `lb..=ub`.
    pub fn from_range(lb: i64, ub: i64) -> (r: IntSetVal)
        requires
            lb <= ub,
        ensures
            r.wf(),
            r.ranges@.len() == 1,
            r.ranges@[0] == (lb, ub),
            r.lb_spec() == lb,
            r.ub_spec() == ub,
    {
        IntSetVal { ranges: vec![(lb, ub)] }
    }

    /// Create a set from a sorted sequence of disjoint, non-adjacent,
    /// non-empty inclusive ranges; `None` if the sequence is not of that
    /// shape.
    pub fn from_ranges(ranges: Vec<(i64, i64)>) -> (r: Option<IntSetVal>)
        ensures
            match r {
                Some(s) => s.wf() && s.ranges@ == ranges@,
                None => !(IntSetVal { ranges }).wf(),
            },
    {
        let n = ranges.len();
        let mut i: usize = 0;
        while i < n
            invariant
                n == ranges@.len(),
                0 <= i <= n,
                forall|j: int| 0 <= j < i ==> (#[trigger] ranges@[j]).0 <= ranges@[j].1,
                forall|j: int| 0 < j < i ==> (#[trigger] ranges@[j]).0 > ranges@[j - 1].1 + 1,
            decreases n - i,
        {
            let (a, b) = ranges[i];
            if a > b {
                proof {
                    let ghost st = IntSetVal { ranges };
                    assert(st.ranges@[i as int].0 > st.ranges@[i as int].1);
                }
                return None;
            }
            if i > 0 {
                let prev = ranges[i - 1].1;
                if prev > i64::MAX - 2 || a <= prev + 1 {
                    proof {
                        let ghost st = IntSetVal { ranges };
                        assert(st.ranges@[i as int].0 <= st.ranges@[i as int - 1].1 + 1);
                    }
                    return None;
                }
            }
            i = i + 1;
        }
        Some(IntSetVal { ranges })
    }

    /// The number of ranges in the set.
    pub fn num_ranges(&self) -> (r: usize)
        ensures
            r == self.ranges@.len(),
    {
        self.ranges.len()
    }

    /// The range at the given position.
    pub fn range(&self, i: usize) -> (r: (i64, i64))
        requires
            i < self.ranges@.len(),
        ensures
            r == self.ranges@[i as int],
    {
        self.ranges[i]
    }

    /// The smallest value of the set.
    pub fn lower_bound(&self) -> (r: i64)
        requires
            self.wf(),
            self.ranges@.len() > 0,
        ensures
            r == self.lb_spec(),
    {
        self.ranges[0].0
    }

    /// The largest value of the set.
    pub fn upper_bound(&self) -> (r: i64)
        requires
            self.wf(),
            self.ranges@.len() > 0,
        ensures
            r == self.ub_spec(),
    {
        self.ranges[self.ranges.len() - 1].1
    }

    /// Whether the set contains the value `x`.
    pub fn contains(&self, x: i64) -> (r: bool)
        requires
            self.wf(),
        ensures
            r == self.contains_spec(x as int),
    {
        let n = self.ranges.len();
        let mut i: usize = 0;
        while i < n
            invariant
                self.wf(),
                n == self.ranges@.len(),
                0 <= i <= n,
                forall|j: int|
                    0 <= j < i ==> !((#[trigger] self.ranges@[j]).0 <= x <= self.ranges@[j].1),
            decreases n - i,
        {
            let (a, b) = self.ranges[i];
            if a <= x && x <= b {
                return true;
            }
            i = i + 1;
        }
        false
    }
}

impl IntSetVal {
    /// Resolve a threshold value for the order encoding: the lowest value
    /// `w` of the set for which `x < val` and `x < w` agree on every set
    /// value `x`, together with the position of the literal `< w` in an
    /// eagerly created variable range.
    #[verifier::rlimit(80)]
    pub fn resolve_val(&self, val: i64) -> (res: (i64, usize))
        requires
            self.wf(),
            self.ranges@.len() > 0,
            self.lb_spec() < val <= self.ub_spec(),
            self.card_spec() <= usize::MAX,
        ensures
            ({
                let (w, offset) = res;
                &&& self.contains_spec(w as int)
                &&& self.lb_spec() < w <= self.ub_spec()
                &&& val <= w
                &&& self.count_below(w as int) == offset + 1
                &&& self.count_below(val as int) == offset + 1
                &&& forall|x: int|
                    self.contains_spec(x) ==> ((x < val) <==> (x < w))
            }),
    {
        let ghost rs = self.ranges@;
        let n = self.ranges.len();
        let mut acc: usize = 0;
        let mut i: usize = 0;
        loop
            invariant
                self.wf(),
                n == rs.len(),
                rs == self.ranges@,
                n > 0,
                self.lb_spec() < val <= self.ub_spec(),
                self.card_spec() <= usize::MAX,
                0 <= i <= n,
                i < n,
                acc == seq_count_below(rs.take(i as int), val as int),
                acc == seq_count_below(rs.take(i as int), self.ub_spec() + 1),
                forall|j: int| 0 <= j < i ==> (#[trigger] rs[j]).1 < val,
                i > 0 ==> acc >= 1,
            decreases n - i,
        {
            let (a, b) = self.ranges[i];
            proof {
                lemma_take_one_more(rs, i as int, val as int);
                lemma_take_one_more(rs, i as int, self.ub_spec() + 1);
                lemma_count_split(self, i as int, val as int);
                lemma_count_split(self, i as int, self.ub_spec() + 1);
                lemma_seq_count_below_nonneg(rs.skip(i as int + 1), val as int);
                lemma_seq_count_below_nonneg(rs.skip(i as int + 1), self.ub_spec() + 1);
            }
            if val < a {
                proof {
                    assert(i > 0);
                    assert(self.contains_spec(a as int));
                    lemma_starts_sorted(self, 0, i as int);
                    lemma_last_end_largest(self, i as int);
                    lemma_count_at_set_value(self, i as int, a as int);
                    lemma_count_at_set_value(self, i as int, val as int);
                    assert forall|x: int| self.contains_spec(x) implies ((x < val) <==> (x
                        < a)) by {
                        if val <= x < a {
                            let j = choose|j: int|
                                0 <= j < rs.len() && (#[trigger] rs[j]).0 <= x <= rs[j].1;
                            if j < i {
                                assert(rs[j].1 < val);
                            } else {
                                lemma_starts_sorted(self, i as int, j);
                            }
                        }
                    }
                }
                return (a, acc - 1);
            } else if val <= b {
                let off128: i128 = (acc as i128) + ((val as i128) - (a as i128));
                proof {
                    lemma_count_at_set_value(self, i as int, val as int);
                    assert(self.count_below(val as int) == acc + (val - a));
                    lemma_count_below_le_card(self, val as int);
                    assert(self.count_below(val as int) >= 1);
                }
                let off = off128 as usize;
                return (val, off - 1);
            } else {
                proof {
                    if i as int + 1 == n {
                        assert(rs[n - 1].1 == self.ub_spec());
                        assert(false);
                    }
                    lemma_count_split(self, i as int + 1, self.ub_spec() + 1);
                    lemma_seq_count_below_nonneg(rs.skip(i as int + 1), self.ub_spec() + 1);
                    lemma_last_end_largest(self, i as int);
                    assert(seq_count_below(rs.take(i as int + 1), self.ub_spec() + 1) == acc + (
                    b - a + 1));
                    assert(acc + (b - a + 1) <= self.card_spec());
                }
                acc = acc + (((b as i128) - (a as i128) + 1) as usize);
                i = i + 1;
            }
        }
    }

    /// The value of the set with exactly `rank` set values below it.
    #[verifier::rlimit(80)]
    pub fn value_at_rank(&self, rank: usize) -> (r: i64)
        requires
            self.wf(),
            self.ranges@.len() > 0,
            rank < self.card_spec(),
            self.card_spec() <= usize::MAX,
        ensures
            self.contains_spec(r as int),
            self.count_below(r as int) == rank,
    {
        let ghost rs = self.ranges@;
        let n = self.ranges.len();
        let mut acc: usize = 0;
        let mut i: usize = 0;
        loop
            invariant
                self.wf(),
                n == rs.len(),
                rs == self.ranges@,
                n > 0,
                rank < self.card_spec(),
                self.card_spec() <= usize::MAX,
                0 <= i <= n,
                i < n,
                acc <= rank,
                acc == seq_count_below(rs.take(i as int), self.ub_spec() + 1),
            decreases n - i,
        {
            let (a, b) = self.ranges[i];
            let size128: i128 = ((b as i128) - (a as i128)) + 1;
            if ((rank - acc) as i128) < size128 {
                let r128: i128 = (a as i128) + ((rank - acc) as i128);
                let r = r128 as i64;
                proof {
                    assert(self.contains_spec(r as int));
                    assert forall|j: int| 0 <= j < i implies (#[trigger] rs[j]).1 < r by {
                        lemma_starts_sorted(self, j, i as int);
                    }
                    lemma_count_at_set_value(self, i as int, r as int);
                }
                return r;
            }
            proof {
                lemma_count_split(self, i as int + 1, self.ub_spec() + 1);
                assert forall|j: int| 0 <= j < rs.skip(i as int + 1).len() implies (#[trigger] rs
                    .skip(i as int + 1)[j]).0 <= rs.skip(i as int + 1)[j].1 by {
                    assert(rs.skip(i as int + 1)[j] == rs[i as int + 1 + j]);
                }
                lemma_seq_count_below_nonneg(rs.skip(i as int + 1), self.ub_spec() + 1);
                lemma_last_end_largest(self, i as int);
                lemma_take_one_more(rs, i as int, self.ub_spec() + 1);
                assert(seq_count_below(rs.take(i as int + 1), self.ub_spec() + 1) == acc + (b - a
                    + 1));
                assert(acc + (b - a + 1) <= self.card_spec());
                if i as int + 1 == n {
                    assert(rs[n - 1].1 == self.ub_spec());
                    assert(rs.take(n as int) =~= rs);
                    assert(false);
                }
            }
            acc = acc + (((b as i128) - (a as i128) + 1) as usize);
            i = i + 1;
        }
    }

    /// The number of values in the set.
    pub fn card(&self) -> (r: usize)
        requires
            self.wf(),
            self.ranges@.len() > 0,
            self.card_spec() <= usize::MAX,
        ensures
            r == self.card_spec(),
    {
        let ghost rs = self.ranges@;
        let n = self.ranges.len();
        let mut acc: usize = 0;
        let mut i: usize = 0;
        while i < n
            invariant
                self.wf(),
                n == rs.len(),
                rs == self.ranges@,
                n > 0,
                self.card_spec() <= usize::MAX,
                0 <= i <= n,
                acc == seq_count_below(rs.take(i as int), self.ub_spec() + 1),
            decreases n - i,
        {
            let (a, b) = self.ranges[i];
            proof {
                lemma_count_split(self, i as int + 1, self.ub_spec() + 1);
                assert forall|j: int| 0 <= j < rs.skip(i as int + 1).len() implies (#[trigger] rs
                    .skip(i as int + 1)[j]).0 <= rs.skip(i as int + 1)[j].1 by {
                    assert(rs.skip(i as int + 1)[j] == rs[i as int + 1 + j]);
                }
                lemma_seq_count_below_nonneg(rs.skip(i as int + 1), self.ub_spec() + 1);
                lemma_last_end_largest(self, i as int);
                lemma_take_one_more(rs, i as int, self.ub_spec() + 1);
                lemma_seq_count_below_nonneg(rs.take(i as int), self.ub_spec() + 1);
                assert forall|j: int| 0 <= j < rs.take(i as int).len() implies (#[trigger] rs.take(
                    i as int,
                )[j]).0 <= rs.take(i as int)[j].1 by {
                    assert(rs.take(i as int)[j] == rs[j]);
                }
                assert(acc + (b - a + 1) <= self.card_spec());
            }
            acc = acc + (((b as i128) - (a as i128) + 1) as usize);
            i = i + 1;
        }
        proof {
            assert(rs.take(n as int) =~= rs);
        }
        acc
    }

    /// The largest value of the set that is at most `v` (as a
    /// specification).
    pub open spec fn largest_le_spec(self, v: int) -> int {
        choose|u: int|
            self.contains_spec(u) && u <= v && forall|x: int|
                self.contains_spec(x) && x <= v ==> x <= u
    }

    /// The largest value of the set that is at most `v`.
    pub fn largest_le(&self, v: i64) -> (r: i64)
        requires
            self.wf(),
            self.ranges@.len() > 0,
            self.lb_spec() <= v,
        ensures
            self.contains_spec(r as int),
            r <= v,
            forall|x: int| self.contains_spec(x) && x <= v ==> x <= r,
            r == self.largest_le_spec(v as int),
    {
        let ghost rs = self.ranges@;
        let n = self.ranges.len();
        let mut i: usize = n - 1;
        loop
            invariant
                self.wf(),
                n == rs.len(),
                rs == self.ranges@,
                n > 0,
                self.lb_spec() <= v,
                0 <= i < n,
                forall|j: int| i < j < n ==> v < (#[trigger] rs[j]).0,
            decreases i,
        {
            let (a, b) = self.ranges[i];
            if a <= v {
                let r: i64 = if v > b {
                    b
                } else {
                    v
                };
                proof {
                    assert(self.contains_spec(r as int));
                    assert forall|x: int| self.contains_spec(x) && x <= v implies x <= r by {
                        let j = choose|j: int|
                            0 <= j < rs.len() && (#[trigger] rs[j]).0 <= x <= rs[j].1;
                        if j > i {
                            assert(v < rs[j].0);
                        } else if j < i {
                            lemma_starts_sorted(self, j, i as int);
                        }
                    }
                    let u = self.largest_le_spec(v as int);
                    assert(self.contains_spec(u) && u <= v && forall|x: int|
                        self.contains_spec(x) && x <= v ==> x <= u) by {
                        assert(self.contains_spec(r as int) && r <= v && forall|x: int|
                            self.contains_spec(x) && x <= v ==> x <= r);
                    }
                    assert(u == r);
                }
                return r;
            }
            proof {
                if i == 0 {
                    assert(rs[0].0 == self.lb_spec());
                    assert(false);
                }
            }
            i = i - 1;
        }
    }

    /// The smallest value of the set that is strictly greater than `v`,
    /// which must itself be a set value below the largest one.
    pub fn next_value(&self, v: i64) -> (r: i64)
        requires
            self.wf(),
            self.ranges@.len() > 0,
            self.contains_spec(v as int),
            v < self.ub_spec(),
        ensures
            self.contains_spec(r as int),
            r > v,
            self.count_below(r as int) == self.count_below(v as int) + 1,
            forall|x: int| self.contains_spec(x) && x > v ==> x >= r,
    {
        let ghost rs = self.ranges@;
        let n = self.ranges.len();
        let mut i: usize = 0;
        loop
            invariant
                self.wf(),
                n == rs.len(),
                rs == self.ranges@,
                n > 0,
                self.contains_spec(v as int),
                v < self.ub_spec(),
                0 <= i < n,
                forall|j: int| 0 <= j < i ==> (#[trigger] rs[j]).1 < v,
            decreases n - i,
        {
            let (a, b) = self.ranges[i];
            if a <= v && v <= b {
                let r: i64 = if v < b {
                    v + 1
                } else {
                    proof {
                        if i as int + 1 == n {
                            assert(rs[n - 1].1 == self.ub_spec());
                            assert(false);
                        }
                        lemma_starts_sorted(self, i as int, i as int + 1);
                    }
                    self.ranges[i + 1].0
                };
                proof {
                    lemma_next_value_correct(self, i as int, v as int, r as int);
                }
                return r;
            }
            proof {
                if b >= v {
                    assert(a > v);
                    let j = choose|j: int| 0 <= j < rs.len() && (#[trigger] rs[j]).0 <= v <= rs[j].1;
                    if j < i {
                        assert(rs[j].1 < v);
                    } else if j > i {
                        lemma_starts_sorted(self, i as int, j);
                    }
                    assert(false);
                }
                if i as int + 1 == n {
                    assert(rs[n - 1].1 == self.ub_spec());
                    assert(false);
                }
            }
            i = i + 1;
        }
    }
}

/// Taking one more range extends the count by that range's contribution.
pub proof fn lemma_take_one_more(rs: Seq<(i64, i64)>, i: int, x: int)
    requires
        0 <= i < rs.len(),
    ensures
        seq_count_below(rs.take(i + 1), x) == seq_count_below(rs.take(i), x) + range_count_below(
            rs[i],
            x,
        ),
    decreases i,
{
    if i == 0 {
        assert(rs.take(1).drop_first() =~= rs.take(0));
        assert(rs.take(1)[0] == rs[0]);
        assert(rs.take(0).len() == 0);
    } else {
        lemma_take_one_more(rs.drop_first(), i - 1, x);
        assert(rs.take(i + 1).drop_first() =~= rs.drop_first().take(i));
        assert(rs.take(i).drop_first() =~= rs.drop_first().take(i - 1));
        assert(rs.take(i + 1)[0] == rs[0]);
        assert(rs.take(i)[0] == rs[0]);
        assert(rs.drop_first()[i - 1] == rs[i]);
    }
}

/// The count over all ranges splits at any position into the count over the
/// prefix and the count over the rest.
pub proof fn lemma_count_split(s: &IntSetVal, i: int, x: int)
    requires
        0 <= i <= s.ranges@.len(),
    ensures
        seq_count_below(s.ranges@, x) == seq_count_below(s.ranges@.take(i), x) + seq_count_below(
            s.ranges@.skip(i),
            x,
        ),
    decreases i,
{
    if i == 0 {
        assert(s.ranges@.take(0).len() == 0);
        assert(s.ranges@.skip(0) =~= s.ranges@);
    } else {
        lemma_count_split(s, i - 1, x);
        lemma_take_one_more(s.ranges@, i - 1, x);
        lemma_seq_count_below_skip(s.ranges@, i - 1, x);
    }
}

/// Every contribution to a count is non-negative, provided each range is
/// non-empty.
pub proof fn lemma_seq_count_below_nonneg(rs: Seq<(i64, i64)>, x: int)
    ensures
        (forall|i: int| 0 <= i < rs.len() ==> (#[trigger] rs[i]).0 <= rs[i].1)
            ==> seq_count_below(rs, x) >= 0,
    decreases rs.len(),
{
    if rs.len() > 0 {
        lemma_seq_count_below_nonneg(rs.drop_first(), x);
    }
}

/// The starts of the ranges of a well-formed set are strictly increasing.
pub proof fn lemma_starts_sorted(s: &IntSetVal, i: int, j: int)
    requires
        s.wf(),
        0 <= i <= j < s.ranges@.len(),
    ensures
        s.ranges@[i].0 <= s.ranges@[j].0,
        i < j ==> s.ranges@[i].1 + 1 < s.ranges@[j].0,
    decreases j - i,
{
    if i < j {
        lemma_starts_sorted(s, i + 1, j);
    }
}

/// For a value `x` lying in (or at the start of) the range at position `i`,
/// the count below `x` is the count contributed by the earlier ranges plus
/// `x`'s offset in its own range; the ranges after `i` contribute nothing.
pub proof fn lemma_count_at_set_value(s: &IntSetVal, i: int, x: int)
    requires
        s.wf(),
        0 <= i < s.ranges@.len(),
        x <= s.ranges@[i].1 + 1,
        forall|j: int| 0 <= j < i ==> (#[trigger] s.ranges@[j]).1 < x,
    ensures
        s.count_below(x) == seq_count_below(s.ranges@.take(i), s.ub_spec() + 1)
            + range_count_below(s.ranges@[i], x),
{
    let rs = s.ranges@;
    lemma_count_split(s, i, x);
    lemma_seq_count_below_skip(rs, i, x);
    assert forall|j: int| 0 <= j < rs.skip(i + 1).len() implies x <= (#[trigger] rs.skip(
        i + 1,
    )[j]).0 by {
        assert(rs.skip(i + 1)[j] == rs[i + 1 + j]);
        lemma_starts_sorted(s, i, i + 1 + j);
    }
    lemma_seq_count_below_high(rs.skip(i + 1), x);
    lemma_counts_agree_on_prefix(s, i, x);
}

/// When every range of a prefix lies entirely below both thresholds, the
/// prefix contributes its full size to the count below either threshold.
pub proof fn lemma_counts_agree_on_prefix(s: &IntSetVal, i: int, x: int)
    requires
        s.wf(),
        0 <= i <= s.ranges@.len(),
        forall|j: int| 0 <= j < i ==> (#[trigger] s.ranges@[j]).1 < x,
    ensures
        seq_count_below(s.ranges@.take(i), x) == seq_count_below(
            s.ranges@.take(i),
            s.ub_spec() + 1,
        ),
    decreases i,
{
    if i > 0 {
        lemma_counts_agree_on_prefix(s, i - 1, x);
        lemma_take_one_more(s.ranges@, i - 1, x);
        lemma_take_one_more(s.ranges@, i - 1, s.ub_spec() + 1);
        lemma_last_end_largest(s, i - 1);
    }
}

/// Every range ends at or below the largest value of the set.
pub proof fn lemma_last_end_largest(s: &IntSetVal, i: int)
    requires
        s.wf(),
        0 <= i < s.ranges@.len(),
    ensures
        s.ranges@[i].1 <= s.ub_spec(),
    decreases s.ranges@.len() - i,
{
    if i + 1 < s.ranges@.len() {
        lemma_last_end_largest(s, i + 1);
    }
}

/// The count below any threshold never exceeds the size of the set, and the
/// count below a set value that is above the smallest value is at least one.
pub proof fn lemma_count_below_le_card(s: &IntSetVal, x: int)
    requires
        s.wf(),
        s.ranges@.len() > 0,
    ensures
        x <= s.ub_spec() + 1 ==> s.count_below(x) <= s.card_spec(),
        x > s.lb_spec() ==> s.count_below(x) >= 1,
        s.count_below(x) >= 0,
{
    if x <= s.ub_spec() + 1 {
        lemma_count_mono_all(s.ranges@, x, s.ub_spec() + 1);
    }
    lemma_seq_count_below_nonneg(s.ranges@, x);
    if x > s.lb_spec() {
        assert(range_count_below(s.ranges@[0], x) >= 1);
        lemma_seq_count_below_nonneg(s.ranges@.drop_first(), x);
        assert forall|j: int| 0 <= j < s.ranges@.drop_first().len() implies (#[trigger] s.ranges@
            .drop_first()[j]).0 <= s.ranges@.drop_first()[j].1 by {
            assert(s.ranges@.drop_first()[j] == s.ranges@[j + 1]);
        }
    }
}

/// The count below a threshold is monotone in the threshold.
pub proof fn lemma_count_mono_all(rs: Seq<(i64, i64)>, x: int, y: int)
    requires
        x <= y,
    ensures
        (forall|i: int| 0 <= i < rs.len() ==> (#[trigger] rs[i]).0 <= rs[i].1) ==> seq_count_below(
            rs,
            x,
        ) <= seq_count_below(rs, y),
    decreases rs.len(),
{
    if rs.len() > 0 {
        lemma_count_mono_all(rs.drop_first(), x, y);
    }
}

/// The next set value after `v` (both in the range at position `i`, or `r`
/// opening the following range) has exactly one more set value below it.
#[verifier::rlimit(100)]
proof fn lemma_next_value_correct(s: &IntSetVal, i: int, v: int, r: int)
    requires
        s.wf(),
        0 <= i < s.ranges@.len(),
        s.ranges@[i].0 <= v <= s.ranges@[i].1,
        forall|j: int| 0 <= j < i ==> (#[trigger] s.ranges@[j]).1 < v,
        r == if v < s.ranges@[i].1 {
            v + 1
        } else {
            s.ranges@[i + 1].0 as int
        },
        v == s.ranges@[i].1 ==> i + 1 < s.ranges@.len(),
    ensures
        s.contains_spec(r),
        r > v,
        s.count_below(r) == s.count_below(v) + 1,
        forall|x: int| s.contains_spec(x) && x > v ==> x >= r,
{
    let rs = s.ranges@;
    lemma_count_at_set_value(s, i, v);
    if v < rs[i].1 {
        lemma_count_at_set_value(s, i, r);
        assert(s.contains_spec(r));
    } else {
        lemma_starts_sorted(s, i, i + 1);
        lemma_last_end_largest(s, i);
        assert(s.contains_spec(r));
        assert forall|j: int| 0 <= j <= i implies (#[trigger] rs[j]).1 < r by {
            lemma_starts_sorted(s, j, i);
        }
        lemma_count_at_set_value(s, i + 1, r);
        lemma_take_one_more(rs, i, s.ub_spec() + 1);
    }
    assert forall|x: int| s.contains_spec(x) && x > v implies x >= r by {
        let j = choose|j: int| 0 <= j < rs.len() && (#[trigger] rs[j]).0 <= x <= rs[j].1;
        if j < i {
            assert(rs[j].1 < v);
        } else if j == i {
        } else {
            lemma_starts_sorted(s, i + 1, j);
        }
    }
}

/// The count below a threshold grows strictly across a set value: of two
/// distinct set values, the larger has strictly more set values below it.
pub proof fn lemma_rank_strict_mono(s: &IntSetVal, w1: int, w2: int)
    requires
        s.wf(),
        s.contains_spec(w1),
        w1 < w2,
    ensures
        s.count_below(w1) < s.count_below(w2),
{
    let rs = s.ranges@;
    let i = choose|i: int| 0 <= i < rs.len() && (#[trigger] rs[i]).0 <= w1 <= rs[i].1;
    assert forall|j: int| 0 <= j < i implies (#[trigger] rs[j]).1 < w1 by {
        lemma_starts_sorted(s, j, i);
    }
    lemma_count_at_set_value(s, i, w1);
    lemma_count_at_set_value(s, i, w1 + 1);
    lemma_count_mono_all(rs, w1 + 1, w2);
}

/// Crossing a set value increases the count below by exactly one.
pub proof fn lemma_count_step(s: &IntSetVal, w: int)
    requires
        s.wf(),
        s.contains_spec(w),
    ensures
        s.count_below(w + 1) == s.count_below(w) + 1,
{
    let rs = s.ranges@;
    let i = choose|i: int| 0 <= i < rs.len() && (#[trigger] rs[i]).0 <= w <= rs[i].1;
    assert forall|j: int| 0 <= j < i implies (#[trigger] rs[j]).1 < w by {
        lemma_starts_sorted(s, j, i);
    }
    lemma_count_at_set_value(s, i, w);
    lemma_count_at_set_value(s, i, w + 1);
}

/// The count below a threshold that is at most the largest set value leaves
/// out at least that largest value.
pub proof fn lemma_count_le_rank_ub(s: &IntSetVal, x: int)
    requires
        s.wf(),
        s.ranges@.len() > 0,
        x <= s.ub_spec(),
    ensures
        s.count_below(x) <= s.card_spec() - 1,
{
    assert(s.contains_spec(s.ub_spec())) by {
        assert((s.ranges@[s.ranges@.len() - 1]).0 <= s.ub_spec() <= s.ranges@[s.ranges@.len()
            - 1].1);
    }
    lemma_count_step(s, s.ub_spec());
    lemma_count_mono_all(s.ranges@, x, s.ub_spec());
}

/// Every set value lies between the smallest and largest set values.
pub proof fn lemma_contains_in_bounds(s: &IntSetVal, x: int)
    requires
        s.wf(),
        s.ranges@.len() > 0,
        s.contains_spec(x),
    ensures
        s.lb_spec() <= x <= s.ub_spec(),
{
    let j = choose|j: int| 0 <= j < s.ranges@.len() && (#[trigger] s.ranges@[j]).0 <= x <= s.ranges@[j].1;
    lemma_starts_sorted(s, 0, j);
    lemma_last_end_largest(s, j);
}

/// Two set values with the same number of set values below them are equal.
pub proof fn lemma_rank_unique(s: &IntSetVal, w1: int, w2: int)
    requires
        s.wf(),
        s.contains_spec(w1),
        s.contains_spec(w2),
        s.count_below(w1) == s.count_below(w2),
    ensures
        w1 == w2,
{
    if w1 < w2 {
        lemma_rank_strict_mono(s, w1, w2);
    }
    if w2 < w1 {
        lemma_rank_strict_mono(s, w2, w1);
    }
}

/// Splitting off the first range of a non-empty sequence splits the count.
pub proof fn lemma_seq_count_below_skip(rs: Seq<(i64, i64)>, i: int, x: int)
    requires
        0 <= i < rs.len(),
    ensures
        seq_count_below(rs.skip(i), x) == range_count_below(rs[i], x) + seq_count_below(
            rs.skip(i + 1),
            x,
        ),
{
    assert(rs.skip(i).len() > 0);
    assert(rs.skip(i)[0] == rs[i]);
    assert(rs.skip(i).drop_first() =~= rs.skip(i + 1));
}

/// In a well-formed range sequence, values at or above `x` contribute
/// nothing to the count below `x`.
pub proof fn lemma_seq_count_below_high(rs: Seq<(i64, i64)>, x: int)
    requires
        forall|i: int| 0 <= i < rs.len() ==> x <= (#[trigger] rs[i]).0,
    ensures
        seq_count_below(rs, x) == 0,
    decreases rs.len(),
{
    if rs.len() > 0 {
        assert(range_count_below(rs[0], x) == 0);
        lemma_seq_count_below_high(rs.drop_first(), x);
    }
}

} // verus!
