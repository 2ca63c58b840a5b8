//! Linear transformations of integer values and of literal meanings.

use vstd::prelude::*;

use crate::helpers::{
    abs_int, div_ceil_i128, div_ceil_spec, is_div_ceil, lemma_div_ceil_spec, lemma_div_ceil_unique,
    magnitude_div, trunc_div_spec,
};
use crate::meaning::{lit_holds, LitMeaning};
use crate::value::NonZeroIntVal;

verus! {

/// Whether a mathematical integer is representable as an `i64`.
pub open spec fn fits_i64(x: int) -> bool {
    i64::MIN <= x <= i64::MAX
}

/// Whether `b` divides `a` exactly.
pub open spec fn divides(b: int, a: int) -> bool {
    abs_int(a) % abs_int(b) == 0
}

#[derive(Clone, Copy, Debug, PartialEq, Eq, Hash, Structural)]
/// An integer linear transformation of a discrete value.
///
/// The transformation will take a discrete value `x` and transform it to
/// `scale * x + offset`. The transformation can also be reversed.
pub struct LinearTransform {
    /// The multiplicative scale.
    pub scale: NonZeroIntVal,
    /// The additive offset.
    pub offset: i64,
}

impl LinearTransform {
    /// Whether the transformation is well formed: the scale is non-zero.
    pub open spec fn wf(self) -> bool {
        self.scale.wf()
    }

    /// The scale as a mathematical integer.
    pub open spec fn s(self) -> int {
        self.scale.get_spec()
    }

    /// The offset as a mathematical integer.
    pub open spec fn o(self) -> int {
        self.offset as int
    }

    /// The transformation applied to the mathematical integer `x`.
    pub open spec fn tf(self, x: int) -> int {
        self.s() * x + self.o()
    }

    /// Check whether the linear transformation is an identity transformation.
    pub fn is_identity(&self) -> (r: bool)
        ensures
            r <==> (self.s() == 1 && self.o() == 0),
    {
        self.scale.get() == 1 && self.offset == 0
    }

    /// Creates a new linear transformation with the given offset and no scale.
    pub fn offset(offset: i64) -> (r: Self)
        ensures
            r.wf(),
            r.s() == 1,
            r.o() == offset,
    {
        let one = NonZeroIntVal::new(1);
        Self { scale: one.unwrap(), offset }
    }

    /// Creates a new linear transformation with the given scale and no offset.
    pub fn scaled(scale: NonZeroIntVal) -> (r: Self)
        requires
            scale.wf(),
        ensures
            r.wf(),
            r.s() == scale.get_spec(),
            r.o() == 0,
    {
        Self { scale, offset: 0 }
    }

    /// Return whether the scale applied by the linear transformation is
    /// positive.
    pub fn positive_scale(&self) -> (r: bool)
        ensures
            r <==> self.s() > 0,
    {
        self.scale.get() > 0
    }

    /// The transformation with both scale and offset negated; it maps `x` to
    /// `-(scale * x + offset)`.
    pub fn negated(&self) -> (r: Self)
        requires
            self.wf(),
            self.s() != i64::MIN,
            self.o() != i64::MIN,
        ensures
            r.wf(),
            r.s() == -self.s(),
            r.o() == -self.o(),
    {
        let s = NonZeroIntVal::new(-self.scale.get());
        Self { scale: s.unwrap(), offset: -self.offset }
    }

    /// The transformation with `rhs` added to the offset.
    pub fn plus(&self, rhs: i64) -> (r: Self)
        requires
            fits_i64(self.o() + rhs),
        ensures
            r.s() == self.s(),
            r.o() == self.o() + rhs,
            r.wf() == self.wf(),
    {
        Self { scale: self.scale, offset: self.offset + rhs }
    }

    /// The transformation with both scale and offset multiplied by `rhs`.
    pub fn times(&self, rhs: NonZeroIntVal) -> (r: Self)
        requires
            self.wf(),
            rhs.wf(),
            fits_i64(self.s() * rhs.get_spec()),
            fits_i64(self.o() * rhs.get_spec()),
        ensures
            r.wf(),
            r.s() == self.s() * rhs.get_spec(),
            r.o() == self.o() * rhs.get_spec(),
    {
        proof {
            assert(self.s() * rhs.get_spec() != 0) by (nonlinear_arith)
                requires
                    self.s() != 0 && rhs.get_spec() != 0,
            ;
        }
        let s = NonZeroIntVal::new(self.scale.get() * rhs.get());
        Self { scale: s.unwrap(), offset: self.offset * rhs.get() }
    }

    /// Perform the linear transformation on a value.
    pub fn transform(&self, val: i64) -> (r: i64)
        requires
            self.wf(),
            fits_i64(self.tf(val as int)),
        ensures
            r as int == self.tf(val as int),
    {
        let wide: i128 = (self.scale.get() as i128) * (val as i128) + (self.offset as i128);
        wide as i64
    }

    /// Returns whether a value remains an integer after reversing the
    /// transformation.
    pub fn rev_remains_integer(&self, val: i64) -> (r: bool)
        requires
            self.wf(),
        ensures
            r <==> divides(self.s(), val as int - self.o()),
            r <==> exists|k: int| val as int == self.tf(k),
    {
        let (q, rem) = magnitude_div((val as i128) - (self.offset as i128), self.scale.get() as i128);
        proof {
            lemma_rem_zero_divides(val as int - self.o(), self.s(), q as int, rem as int);
            if rem == 0 {
                let k = choose|k: int| val as int - self.o() == #[trigger] (self.s() * k);
                assert(val as int == self.tf(k));
            }
            if exists|k: int| val as int == self.tf(k) {
                let k = choose|k: int| val as int == self.tf(k);
                assert(val as int - self.o() == self.s() * k);
            }
        }
        rem == 0
    }

    /// Perform the reverse linear transformation on a value, rounding towards
    /// zero; when the transformation divides exactly, the result maps back to
    /// `val`.
    pub fn rev_transform(&self, val: i64) -> (r: i64)
        requires
            self.wf(),
            fits_i64(trunc_div_spec(val as int - self.o(), self.s())),
        ensures
            r as int == trunc_div_spec(val as int - self.o(), self.s()),
            divides(self.s(), val as int - self.o()) ==> self.tf(r as int) == val as int,
    {
        let a: i128 = (val as i128) - (self.offset as i128);
        let b: i128 = self.scale.get() as i128;
        let (q, rem) = magnitude_div(a, b);
        let same_sign = (a >= 0) == (b > 0);
        let ret: i128 = if same_sign {
            q
        } else {
            -q
        };
        proof {
            lemma_rem_zero_divides(a as int, b as int, q as int, rem as int);
            assert(ret as int == trunc_div_spec(a as int, b as int) && (rem == 0 ==> b * ret
                == a)) by (nonlinear_arith)
                requires
                    b != 0,
                    abs_int(a as int) == abs_int(b as int) * q + rem,
                    0 <= rem < abs_int(b as int),
                    q >= 0,
                    ret == if (a as int >= 0) == (b as int > 0) {
                        q as int
                    } else {
                        -q
                    },
            ;
        }
        ret as i64
    }
}

/// The payload value of a literal meaning.
pub open spec fn lit_val(m: LitMeaning) -> int {
    match m {
        LitMeaning::Eq(i) => i as int,
        LitMeaning::NotEq(i) => i as int,
        LitMeaning::GreaterEq(i) => i as int,
        LitMeaning::Less(i) => i as int,
    }
}

impl LinearTransform {
    /// The meaning on the transformed value that corresponds to the meaning
    /// `m` on the untransformed value.
    pub open spec fn transform_lit_spec(self, m: LitMeaning) -> LitMeaning {
        let s = self.s();
        let o = self.o();
        match m {
            LitMeaning::Eq(i) => LitMeaning::Eq((s * i + o) as i64),
            LitMeaning::NotEq(i) => LitMeaning::NotEq((s * i + o) as i64),
            LitMeaning::GreaterEq(i) => if s < 0 {
                LitMeaning::Less(((-s) * (-i + 1) + o) as i64)
            } else {
                LitMeaning::GreaterEq((s * i + o) as i64)
            },
            LitMeaning::Less(i) => if s < 0 {
                LitMeaning::GreaterEq(((-s) * (-i + 1) + o) as i64)
            } else {
                LitMeaning::Less((s * i + o) as i64)
            },
        }
    }

    /// Whether the payload of [`Self::transform_lit_spec`] is representable.
    pub open spec fn transform_lit_fits(self, m: LitMeaning) -> bool {
        let s = self.s();
        let o = self.o();
        match m {
            LitMeaning::Eq(i) => fits_i64(s * i + o),
            LitMeaning::NotEq(i) => fits_i64(s * i + o),
            LitMeaning::GreaterEq(i) => if s < 0 {
                fits_i64((-s) * (-i + 1) + o)
            } else {
                fits_i64(s * i + o)
            },
            LitMeaning::Less(i) => if s < 0 {
                fits_i64((-s) * (-i + 1) + o)
            } else {
                fits_i64(s * i + o)
            },
        }
    }

    /// Perform the linear transformation on a `LitMeaning`: the result is the
    /// condition on the transformed value that holds exactly when `lit` holds
    /// of the untransformed value (see [`lemma_transform_lit_semantics`]).
    pub fn transform_lit(&self, lit: LitMeaning) -> (r: LitMeaning)
        requires
            self.wf(),
            self.transform_lit_fits(lit),
        ensures
            r == self.transform_lit_spec(lit),
    {
        let s: i128 = self.scale.get() as i128;
        let o: i128 = self.offset as i128;
        match lit {
            LitMeaning::Eq(i) => LitMeaning::Eq((s * (i as i128) + o) as i64),
            LitMeaning::NotEq(i) => LitMeaning::NotEq((s * (i as i128) + o) as i64),
            LitMeaning::GreaterEq(i) => if self.scale.get() < 0 {
                LitMeaning::Less(((-s) * (-(i as i128) + 1) + o) as i64)
            } else {
                LitMeaning::GreaterEq((s * (i as i128) + o) as i64)
            },
            LitMeaning::Less(i) => if self.scale.get() < 0 {
                LitMeaning::GreaterEq(((-s) * (-(i as i128) + 1) + o) as i64)
            } else {
                LitMeaning::Less((s * (i as i128) + o) as i64)
            },
        }
    }

    /// The meaning on the untransformed value that corresponds to the meaning
    /// `m` on the transformed value, or `Err(b)` when the meaning collapses
    /// to the constant `b` (see [`lemma_rev_transform_lit_semantics`]).
    pub open spec fn rev_transform_lit_spec(self, m: LitMeaning) -> Result<LitMeaning, bool> {
        let s = self.s();
        let o = self.o();
        match m {
            LitMeaning::Eq(i) => if divides(s, i - o) {
                Ok(LitMeaning::Eq(trunc_div_spec(i - o, s) as i64))
            } else {
                Err(false)
            },
            LitMeaning::NotEq(i) => if divides(s, i - o) {
                Ok(LitMeaning::NotEq(trunc_div_spec(i - o, s) as i64))
            } else {
                Err(true)
            },
            LitMeaning::GreaterEq(i) => if s < 0 {
                Ok(LitMeaning::Less(div_ceil_spec((-i + 1) - (-o), -s) as i64))
            } else {
                Ok(LitMeaning::GreaterEq(div_ceil_spec(i - o, s) as i64))
            },
            LitMeaning::Less(i) => if s < 0 {
                Ok(LitMeaning::GreaterEq(div_ceil_spec((-i + 1) - (-o), -s) as i64))
            } else {
                Ok(LitMeaning::Less(div_ceil_spec(i - o, s) as i64))
            },
        }
    }

    /// Whether the payload of [`Self::rev_transform_lit_spec`] is
    /// representable.
    pub open spec fn rev_transform_lit_fits(self, m: LitMeaning) -> bool {
        let s = self.s();
        let o = self.o();
        match m {
            LitMeaning::Eq(i) => divides(s, i - o) ==> fits_i64(trunc_div_spec(i - o, s)),
            LitMeaning::NotEq(i) => divides(s, i - o) ==> fits_i64(trunc_div_spec(i - o, s)),
            LitMeaning::GreaterEq(i) => if s < 0 {
                fits_i64(div_ceil_spec((-i + 1) - (-o), -s))
            } else {
                fits_i64(div_ceil_spec(i - o, s))
            },
            LitMeaning::Less(i) => if s < 0 {
                fits_i64(div_ceil_spec((-i + 1) - (-o), -s))
            } else {
                fits_i64(div_ceil_spec(i - o, s))
            },
        }
    }

    /// Perform the reverse linear transformation on a `LitMeaning`.
    ///
    /// Note that this performs the correct rounding to maintain the meaning
    /// of the literal. If an equality meaning is requested that cannot be
    /// correctly rounded, then a Boolean `Err` is returned that gives the
    /// constant truth value of the requested condition.
    pub fn rev_transform_lit(&self, lit: LitMeaning) -> (r: Result<LitMeaning, bool>)
        requires
            self.wf(),
            self.rev_transform_lit_fits(lit),
        ensures
            r == self.rev_transform_lit_spec(lit),
    {
        match lit {
            LitMeaning::Eq(i) => {
                if self.rev_remains_integer(i) {
                    Ok(LitMeaning::Eq(self.rev_transform_payload(i)))
                } else {
                    Err(false)
                }
            },
            LitMeaning::NotEq(i) => {
                if self.rev_remains_integer(i) {
                    Ok(LitMeaning::NotEq(self.rev_transform_payload(i)))
                } else {
                    Err(true)
                }
            },
            LitMeaning::GreaterEq(i) => {
                let (a, b) = self.rev_ceil_args(i);
                let v = div_ceil_i128(a, b);
                if self.scale.get() < 0 {
                    Ok(LitMeaning::Less(v as i64))
                } else {
                    Ok(LitMeaning::GreaterEq(v as i64))
                }
            },
            LitMeaning::Less(i) => {
                let (a, b) = self.rev_ceil_args(i);
                let v = div_ceil_i128(a, b);
                if self.scale.get() < 0 {
                    Ok(LitMeaning::GreaterEq(v as i64))
                } else {
                    Ok(LitMeaning::Less(v as i64))
                }
            },
        }
    }

    /// The arguments of the ceiling division used by
    /// [`Self::rev_transform_lit`] for an inequality meaning with payload
    /// `i`: the transformation is first made positive when the scale is
    /// negative.
    fn rev_ceil_args(&self, i: i64) -> (res: (i128, i128))
        requires
            self.wf(),
        ensures
            res.1 != 0,
            -(i64::MAX as int) * 4 <= res.0 <= (i64::MAX as int) * 4,
            -(i64::MAX as int) * 4 <= res.1 <= (i64::MAX as int) * 4,
            res.0 as int == if self.s() < 0 {
                (-i + 1) - (-self.o())
            } else {
                i - self.o()
            },
            res.1 as int == if self.s() < 0 {
                -self.s()
            } else {
                self.s()
            },
    {
        let s: i128 = self.scale.get() as i128;
        let o: i128 = self.offset as i128;
        if self.scale.get() < 0 {
            ((-(i as i128) + 1) + o, -s)
        } else {
            ((i as i128) - o, s)
        }
    }

    /// The exact quotient `(val - offset) / scale`, used by
    /// [`Self::rev_transform_lit`] after divisibility has been checked.
    fn rev_transform_payload(&self, val: i64) -> (r: i64)
        requires
            self.wf(),
            fits_i64(trunc_div_spec(val as int - self.o(), self.s())),
        ensures
            r as int == trunc_div_spec(val as int - self.o(), self.s()),
    {
        self.rev_transform(val)
    }
}

impl LinearTransform {
    /// Reverse the linear transformation on a set of integer ranges: each
    /// inclusive range of transformed values is mapped to the inclusive
    /// range of original values whose transforms lie in it (with the
    /// correct rounding on both ends, and the orientation restored for a
    /// negative scale). A resulting pair with a start above its end is an
    /// empty range: no original value maps into that range.
    pub fn rev_transform_int_set(&self, mask: &crate::domain::IntSetVal) -> (r: Vec<(i64, i64)>)
        requires
            self.wf(),
            forall|i: int|
                0 <= i < mask.ranges@.len() ==> (#[trigger] mask.ranges@[i]).1 < i64::MAX
                    && self.rev_transform_lit_fits(
                    LitMeaning::GreaterEq(mask.ranges@[i].0),
                ) && self.rev_transform_lit_fits(
                    LitMeaning::Less((mask.ranges@[i].1 + 1) as i64),
                ) && i64::MIN < lit_val(
                    self.rev_transform_lit_spec(
                        LitMeaning::Less((mask.ranges@[i].1 + 1) as i64),
                    )->Ok_0,
                ) && i64::MIN < lit_val(
                    self.rev_transform_lit_spec(LitMeaning::GreaterEq(mask.ranges@[i].0))->Ok_0,
                ),
        ensures
            r@.len() == mask.ranges@.len(),
            forall|i: int, x: int|
                #![trigger r@[i], self.tf(x)]
                0 <= i < mask.ranges@.len() ==> (r@[i].0 <= x <= r@[i].1
                    <==> mask.ranges@[i].0 <= self.tf(x) <= mask.ranges@[i].1),
    {
        let n = mask.num_ranges();
        let mut out: Vec<(i64, i64)> = Vec::new();
        let mut i: usize = 0;
        while i < n
            invariant
                self.wf(),
                n == mask.ranges@.len(),
                0 <= i <= n,
                out@.len() == i,
                forall|j: int|
                    0 <= j < mask.ranges@.len() ==> (#[trigger] mask.ranges@[j]).1 < i64::MAX
                        && self.rev_transform_lit_fits(
                        LitMeaning::GreaterEq(mask.ranges@[j].0),
                    ) && self.rev_transform_lit_fits(
                        LitMeaning::Less((mask.ranges@[j].1 + 1) as i64),
                    ) && i64::MIN < lit_val(
                        self.rev_transform_lit_spec(
                            LitMeaning::Less((mask.ranges@[j].1 + 1) as i64),
                        )->Ok_0,
                    ) && i64::MIN < lit_val(
                        self.rev_transform_lit_spec(
                            LitMeaning::GreaterEq(mask.ranges@[j].0),
                        )->Ok_0,
                    ),
                forall|j: int, x: int|
                    #![trigger out@[j], self.tf(x)]
                    0 <= j < i ==> (out@[j].0 <= x <= out@[j].1
                        <==> mask.ranges@[j].0 <= self.tf(x) <= mask.ranges@[j].1),
            decreases n - i,
        {
            let (start, end) = mask.range(i);
            let m1 = self.rev_transform_lit(LitMeaning::GreaterEq(start));
            let m2 = self.rev_transform_lit(LitMeaning::Less(end + 1));
            let a: i64 = match m1 {
                Ok(LitMeaning::GreaterEq(v)) => v,
                Ok(LitMeaning::Less(v)) => v - 1,
                _ => 0,
            };
            let b: i64 = match m2 {
                Ok(LitMeaning::GreaterEq(v)) => v,
                Ok(LitMeaning::Less(v)) => v - 1,
                _ => 0,
            };
            let positive = self.positive_scale();
            let lo = if positive {
                a
            } else {
                b
            };
            let hi = if positive {
                b
            } else {
                a
            };
            proof {
                assert forall|x: int| #![trigger self.tf(x)] (lo <= x <= hi) <==> (start
                    <= self.tf(x) <= end) by {
                    lemma_rev_transform_lit_semantics(
                        *self,
                        LitMeaning::GreaterEq(start),
                        x,
                    );
                    lemma_rev_transform_lit_semantics(
                        *self,
                        LitMeaning::Less((end + 1) as i64),
                        x,
                    );
                }
            }
            out.push((lo, hi));
            i = i + 1;
        }
        out
    }
}

/// `b` divides `a` exactly when `a` is an integer multiple of `b`.
pub proof fn lemma_divides_iff_exists(a: int, b: int)
    requires
        b != 0,
    ensures
        divides(b, a) <==> exists|k: int| a == #[trigger] (b * k),
{
    vstd::arithmetic::div_mod::lemma_fundamental_div_mod(abs_int(a), abs_int(b));
    let q = abs_int(a) / abs_int(b);
    let r = abs_int(a) % abs_int(b);
    assert(abs_int(a) == abs_int(b) * q + r);
    assert(0 <= r < abs_int(b));
    assert(q >= 0) by (nonlinear_arith)
        requires
            abs_int(a) == abs_int(b) * q + r && 0 <= r < abs_int(b) && abs_int(a) >= 0 && abs_int(
                b,
            ) >= 1,
    ;
    lemma_rem_zero_divides(a, b, q, r);
    vstd::arithmetic::div_mod::lemma_fundamental_div_mod_converse(abs_int(a), abs_int(b), q, r);
}

/// When `b` divides `a`, the truncating quotient is the exact quotient.
pub proof fn lemma_trunc_div_exact(a: int, b: int)
    requires
        b != 0,
        divides(b, a),
    ensures
        b * trunc_div_spec(a, b) == a,
{
    vstd::arithmetic::div_mod::lemma_fundamental_div_mod(abs_int(a), abs_int(b));
    let q = abs_int(a) / abs_int(b);
    assert(abs_int(a) == abs_int(b) * q + abs_int(a) % abs_int(b));
    assert(b * trunc_div_spec(a, b) == a) by (nonlinear_arith)
        requires
            b != 0,
            abs_int(a) % abs_int(b) == 0,
            abs_int(a) == abs_int(b) * q + abs_int(a) % abs_int(b),
            q == abs_int(a) / abs_int(b),
            trunc_div_spec(a, b) == if (a >= 0) == (b >= 0) {
                q as int
            } else {
                -q
            },
    ;
}

/// The meaning produced by [`LinearTransform::transform_lit_spec`] holds of
/// the transformed value exactly when the given meaning holds of the
/// original value.
pub proof fn lemma_transform_lit_semantics(t: LinearTransform, m: LitMeaning, x: int)
    requires
        t.wf(),
        t.transform_lit_fits(m),
    ensures
        lit_holds(t.transform_lit_spec(m), t.tf(x)) <==> lit_holds(m, x),
{
    let s = t.s();
    let o = t.o();
    match m {
        LitMeaning::Eq(i) => {
            assert((s * x + o == s * i + o) <==> x == i) by (nonlinear_arith)
                requires
                    s != 0,
            ;
        },
        LitMeaning::NotEq(i) => {
            assert((s * x + o == s * i + o) <==> x == i) by (nonlinear_arith)
                requires
                    s != 0,
            ;
        },
        LitMeaning::GreaterEq(i) => {
            if s < 0 {
                assert((s * x + o < (-s) * (-i + 1) + o) <==> x >= i) by (nonlinear_arith)
                    requires
                        s < 0,
                ;
            } else {
                assert((s * x + o >= s * i + o) <==> x >= i) by (nonlinear_arith)
                    requires
                        s > 0,
                ;
            }
        },
        LitMeaning::Less(i) => {
            if s < 0 {
                assert((s * x + o >= (-s) * (-i + 1) + o) <==> x < i) by (nonlinear_arith)
                    requires
                        s < 0,
                ;
            } else {
                assert((s * x + o < s * i + o) <==> x < i) by (nonlinear_arith)
                    requires
                        s > 0,
                ;
            }
        },
    }
}

/// The meaning produced by [`LinearTransform::rev_transform_lit_spec`] holds
/// of the original value exactly when the given meaning holds of the
/// transformed value; an `Err(b)` result means the given meaning has the
/// constant truth value `b` on every transformed value.
pub proof fn lemma_rev_transform_lit_semantics(t: LinearTransform, m: LitMeaning, x: int)
    requires
        t.wf(),
        t.rev_transform_lit_fits(m),
    ensures
        match t.rev_transform_lit_spec(m) {
            Ok(m2) => lit_holds(m2, x) <==> lit_holds(m, t.tf(x)),
            Err(b) => lit_holds(m, t.tf(x)) == b,
        },
{
    let s = t.s();
    let o = t.o();
    match m {
        LitMeaning::Eq(i) | LitMeaning::NotEq(i) => {
            lemma_divides_iff_exists(i - o, s);
            if divides(s, i - o) {
                lemma_trunc_div_exact(i - o, s);
                let q = trunc_div_spec(i - o, s);
                assert((x == q) <==> (s * x + o == i)) by (nonlinear_arith)
                    requires
                        s != 0 && s * q == i - o,
                ;
            } else {
                if s * x + o == i {
                    assert(i - o == s * x);
                }
                assert(s * x + o != i);
            }
        },
        LitMeaning::GreaterEq(i) => {
            if s < 0 {
                let c = div_ceil_spec((-i + 1) - (-o), -s);
                lemma_div_ceil_spec((-i + 1) - (-o), -s);
                assert((x < c) <==> (s * x + o >= i)) by (nonlinear_arith)
                    requires
                        s < 0,
                        (-s) * (c - 1) < (-i + 1) + o <= (-s) * c,
                ;
            } else {
                let c = div_ceil_spec(i - o, s);
                lemma_div_ceil_spec(i - o, s);
                assert((x >= c) <==> (s * x + o >= i)) by (nonlinear_arith)
                    requires
                        s > 0,
                        s * (c - 1) < i - o <= s * c,
                ;
            }
        },
        LitMeaning::Less(i) => {
            if s < 0 {
                let c = div_ceil_spec((-i + 1) - (-o), -s);
                lemma_div_ceil_spec((-i + 1) - (-o), -s);
                assert((x >= c) <==> (s * x + o < i)) by (nonlinear_arith)
                    requires
                        s < 0,
                        (-s) * (c - 1) < (-i + 1) + o <= (-s) * c,
                ;
            } else {
                let c = div_ceil_spec(i - o, s);
                lemma_div_ceil_spec(i - o, s);
                assert((x < c) <==> (s * x + o < i)) by (nonlinear_arith)
                    requires
                        s > 0,
                        s * (c - 1) < i - o <= s * c,
                ;
            }
        },
    }
}

/// Reversing a transformed inequality meaning gives back the original
/// meaning: `rev_transform_lit(transform_lit(m)) == Ok(m)` for `GreaterEq`
/// and `Less`.
pub proof fn lemma_lit_transform_round_trip(t: LinearTransform, m: LitMeaning)
    requires
        t.wf(),
        m is GreaterEq || m is Less,
        t.transform_lit_fits(m),
    ensures
        t.rev_transform_lit_spec(t.transform_lit_spec(m)) == Ok::<LitMeaning, bool>(m),
{
    let s = t.s();
    let o = t.o();
    let i = lit_val(m);
    if s > 0 {
        let j = s * i + o;
        lemma_div_ceil_spec(j - o, s);
        assert(is_div_ceil(s * i, s, i)) by (nonlinear_arith)
            requires
                s > 0,
        ;
        lemma_div_ceil_unique(s * i, s, div_ceil_spec(j - o, s), i);
    } else {
        let j = (-s) * (-i + 1) + o;
        let arg = (-j + 1) - (-o);
        assert(arg == (-s) * (i - 1) + 1) by (nonlinear_arith)
            requires
                j == (-s) * (-i + 1) + o && arg == (-j + 1) + o,
        ;
        lemma_div_ceil_spec(arg, -s);
        assert(is_div_ceil((-s) * (i - 1) + 1, -s, i)) by (nonlinear_arith)
            requires
                s < 0,
        ;
        lemma_div_ceil_unique(arg, -s, div_ceil_spec(arg, -s), i);
    }
}

/// Under the decomposition produced by [`magnitude_div`], the remainder is
/// zero exactly when the divisor divides the dividend, and then the dividend
/// is the divisor times the (sign-corrected) quotient.
proof fn lemma_rem_zero_divides(a: int, b: int, q: int, r: int)
    requires
        b != 0,
        abs_int(a) == abs_int(b) * q + r,
        0 <= r < abs_int(b),
        q >= 0,
    ensures
        r == 0 <==> divides(b, a),
        r == 0 <==> exists|k: int| a == #[trigger] (b * k),
{
    assert(abs_int(a) == q * abs_int(b) + r) by (nonlinear_arith)
        requires
            abs_int(a) == abs_int(b) * q + r,
    ;
    vstd::arithmetic::div_mod::lemma_fundamental_div_mod_converse(abs_int(a), abs_int(b), q, r);
    if r == 0 {
        let k: int = if (a >= 0) == (b >= 0) {
            q
        } else {
            -q
        };
        assert(a == b * k) by (nonlinear_arith)
            requires
                b != 0 && abs_int(a) == abs_int(b) * q + 0 && q >= 0 && k == if (a >= 0) == (b
                    >= 0) {
                    q
                } else {
                    -q
                },
        ;
    } else {
        if exists|k: int| a == #[trigger] (b * k) {
            let k = choose|k: int| a == #[trigger] (b * k);
            let kk: int = if k >= 0 {
                k
            } else {
                -k
            };
            assert(abs_int(a) == kk * abs_int(b) + 0) by (nonlinear_arith)
                requires
                    b != 0 && a == b * k && kk == abs_int(k),
            ;
            vstd::arithmetic::div_mod::lemma_fundamental_div_mod_converse(
                abs_int(a),
                abs_int(b),
                kk,
                0,
            );
        }
    }
}

} // verus!
