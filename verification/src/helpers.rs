//! General purely numeric helper functions used throughout the library.

use vstd::arithmetic::div_mod::lemma_fundamental_div_mod;
use vstd::prelude::*;

verus! {

/// Whether `q` is the quotient of `a / b` rounded towards positive infinity.
pub open spec fn is_div_ceil(a: int, b: int, q: int) -> bool {
    if b > 0 {
        b * (q - 1) < a <= b * q
    } else {
        b * q <= a < b * (q - 1)
    }
}

/// Whether `q` is the quotient of `a / b` rounded towards negative infinity.
pub open spec fn is_div_floor(a: int, b: int, q: int) -> bool {
    if b > 0 {
        b * q <= a < b * (q + 1)
    } else {
        b * (q + 1) < a <= b * q
    }
}

/// The absolute value of an integer.
pub open spec fn abs_int(a: int) -> int {
    if a >= 0 {
        a
    } else {
        -a
    }
}

/// `base` raised to the power `exp` in unbounded integer arithmetic.
pub open spec fn pow_int(base: int, exp: nat) -> int
    decreases exp,
{
    if exp == 0 {
        1
    } else {
        base * pow_int(base, (exp - 1) as nat)
    }
}

/// The quotient rounded towards positive infinity is unique.
pub proof fn lemma_div_ceil_unique(a: int, b: int, q1: int, q2: int)
    requires
        b != 0,
        is_div_ceil(a, b, q1),
        is_div_ceil(a, b, q2),
    ensures
        q1 == q2,
{
    if b > 0 {
        if q1 < q2 {
            assert(b * q1 <= b * (q2 - 1)) by (nonlinear_arith)
                requires
                    b > 0 && q1 <= q2 - 1,
            ;
        }
        if q2 < q1 {
            assert(b * q2 <= b * (q1 - 1)) by (nonlinear_arith)
                requires
                    b > 0 && q2 <= q1 - 1,
            ;
        }
    } else {
        if q1 < q2 {
            assert(b * (q2 - 1) <= b * q1) by (nonlinear_arith)
                requires
                    b < 0 && q1 <= q2 - 1,
            ;
        }
        if q2 < q1 {
            assert(b * (q1 - 1) <= b * q2) by (nonlinear_arith)
                requires
                    b < 0 && q2 <= q1 - 1,
            ;
        }
    }
}

/// The quotient of `a / b` rounded towards positive infinity, written with
/// the Euclidean division of mathematical integers.
pub open spec fn div_ceil_spec(a: int, b: int) -> int {
    if b < 0 {
        a / b
    } else {
        -((-a) / b)
    }
}

/// The quotient of `a / b` rounded towards zero, written with the Euclidean
/// division of mathematical integers.
pub open spec fn trunc_div_spec(a: int, b: int) -> int {
    if (a >= 0) == (b >= 0) {
        abs_int(a) / abs_int(b)
    } else {
        -(abs_int(a) / abs_int(b))
    }
}

/// [`div_ceil_spec`] satisfies the bracketing property [`is_div_ceil`].
pub proof fn lemma_div_ceil_spec(a: int, b: int)
    requires
        b != 0,
    ensures
        is_div_ceil(a, b, div_ceil_spec(a, b)),
{
    if b < 0 {
        lemma_fundamental_div_mod(a, b);
        let q = a / b;
        let r = a % b;
        assert(b * q <= a < b * (q - 1)) by (nonlinear_arith)
            requires
                b < 0 && a == b * q + r && 0 <= r < -b,
        ;
    } else {
        lemma_fundamental_div_mod(-a, b);
        let q = (-a) / b;
        let r = (-a) % b;
        assert(b * (-q - 1) < a <= b * (-q)) by (nonlinear_arith)
            requires
                b > 0 && -a == b * q + r && 0 <= r < b,
        ;
    }
}

/// The magnitudes and the truncating quotient and remainder of `a` and `b`,
/// computed in `i128` so that `i64::MIN` needs no special handling.
pub(crate) fn magnitude_div(a: i128, b: i128) -> (res: (i128, i128))
    requires
        b != 0,
        -i128::MAX <= a,
        -i128::MAX <= b,
    ensures
        ({
            let (q, r) = res;
            &&& abs_int(a as int) == abs_int(b as int) * q + r
            &&& 0 <= r < abs_int(b as int)
            &&& 0 <= q <= abs_int(a as int)
        }),
{
    let n: i128 = if a >= 0 {
        a
    } else {
        -a
    };
    let m: i128 = if b >= 0 {
        b
    } else {
        -b
    };
    let q = n / m;
    let r = n % m;
    proof {
        lemma_fundamental_div_mod(n as int, m as int);
        assert(q <= n) by (nonlinear_arith)
            requires
                n == m * q + r && 0 <= r && m >= 1 && q >= 0,
        ;
    }
    (q, r)
}

/// Integer division that rounds towards positive infinity.
pub fn div_ceil(a: i64, b: i64) -> (res: i64)
    requires
        b != 0,
        !(a == i64::MIN && b == -1),
    ensures
        is_div_ceil(a as int, b as int, res as int),
        res as int == div_ceil_spec(a as int, b as int),
{
    let r = div_ceil_i128(a as i128, b as i128);
    proof {
        lemma_div_ceil_spec(a as int, b as int);
        lemma_div_ceil_unique(a as int, b as int, r as int, div_ceil_spec(a as int, b as int));
        assert(i64::MIN <= r <= i64::MAX) by (nonlinear_arith)
            requires
                b != 0,
                !(a == i64::MIN && b == -1),
                i64::MIN <= a <= i64::MAX,
                i64::MIN <= b <= i64::MAX,
                is_div_ceil(a as int, b as int, r as int),
        ;
    }
    r as i64
}

/// Integer division of `i128` values that rounds towards positive infinity.
///
/// The bounds on the arguments keep every intermediate value representable.
pub(crate) fn div_ceil_i128(a: i128, b: i128) -> (res: i128)
    requires
        b != 0,
        -(i64::MAX as int) * 4 <= a <= (i64::MAX as int) * 4,
        -(i64::MAX as int) * 4 <= b <= (i64::MAX as int) * 4,
    ensures
        is_div_ceil(a as int, b as int, res as int),
        res as int == div_ceil_spec(a as int, b as int),
        abs_int(res as int) <= abs_int(a as int) + 1,
{
    let (q, r) = magnitude_div(a, b);
    let same_sign = (a >= 0) == (b > 0);
    let ret: i128 = if same_sign {
        if r > 0 {
            q + 1
        } else {
            q
        }
    } else {
        -q
    };
    proof {
        let ai = a as int;
        let bi = b as int;
        let n = abs_int(ai);
        let m = abs_int(bi);
        assert(is_div_ceil(ai, bi, ret as int) && abs_int(ret as int) <= n + 1)
            by (nonlinear_arith)
            requires
                bi != 0,
                n == abs_int(ai),
                m == abs_int(bi),
                n == m * q + r,
                0 <= r < m,
                q >= 0,
                ret == if (ai >= 0) == (bi > 0) {
                    if r > 0 {
                        q + 1
                    } else {
                        q as int
                    }
                } else {
                    -q
                },
        ;
        lemma_div_ceil_spec(ai, bi);
        lemma_div_ceil_unique(ai, bi, ret as int, div_ceil_spec(ai, bi));
    }
    ret
}

/// Integer division that rounds towards negative infinity.
pub fn div_floor(a: i64, b: i64) -> (res: i64)
    requires
        b != 0,
        !(a == i64::MIN && b == -1),
    ensures
        is_div_floor(a as int, b as int, res as int),
{
    let (q, r) = magnitude_div(a as i128, b as i128);
    let same_sign = (a >= 0) == (b > 0);
    let ret: i128 = if same_sign {
        q
    } else {
        if r > 0 {
            -q - 1
        } else {
            -q
        }
    };
    proof {
        let ai = a as int;
        let bi = b as int;
        let n = abs_int(ai);
        let m = abs_int(bi);
        assert(is_div_floor(ai, bi, ret as int) && i64::MIN <= ret <= i64::MAX)
            by (nonlinear_arith)
            requires
                bi != 0,
                !(ai == i64::MIN && bi == -1),
                i64::MIN <= ai <= i64::MAX,
                i64::MIN <= bi <= i64::MAX,
                n == abs_int(ai),
                m == abs_int(bi),
                n == m * q + r,
                0 <= r < m,
                q >= 0,
                ret == if (ai >= 0) == (bi > 0) {
                    q as int
                } else {
                    if r > 0 {
                        -q - 1
                    } else {
                        -q
                    }
                },
        ;
    }
    ret as i64
}

/// Calculate the power of a base to an exponent according to the rules of
/// integer arithmetic (matching the semantics of the modelling language).
pub fn pow(base: i64, exponent: i64) -> (r: Option<i64>)
    requires
        exponent >= 2 ==> forall|k: nat|
            k <= exponent ==> i64::MIN <= #[trigger] pow_int(base as int, k) <= i64::MAX,
    ensures
        r is None <==> base == 0 && exponent < 0,
        r is Some && exponent >= 0 ==> r->Some_0 == pow_int(base as int, exponent as nat),
        r is Some && exponent < 0 ==> r->Some_0 == neg_pow_result(base as int, exponent as int),
{
    if exponent == 0 {
        Some(1)
    } else if exponent == 1 {
        proof {
            assert(pow_int(base as int, 1) == base * pow_int(base as int, 0));
        }
        Some(base)
    } else if exponent < 0 {
        if base == 0 {
            None
        } else if base == 1 {
            Some(1)
        } else if base == -1 && exponent % 2 == 0 {
            Some(1)
        } else if base == -1 {
            Some(-1)
        } else {
            Some(0)
        }
    } else {
        let mut result: i64 = 1;
        let mut i: i64 = 0;
        while i < exponent
            invariant
                0 <= i <= exponent,
                2 <= exponent,
                result == pow_int(base as int, i as nat),
                forall|k: nat| k <= exponent ==> i64::MIN <= #[trigger] pow_int(base as int, k) <= i64::MAX,
            decreases exponent - i,
        {
            proof {
                let k: nat = (i + 1) as nat;
                assert(k <= exponent);
                assert(pow_int(base as int, k) == base * pow_int(base as int, (k - 1) as nat));
                assert(i64::MIN <= base * result <= i64::MAX);
            }
            result = base * result;
            i = i + 1;
        }
        Some(result)
    }
}

/// The value returned by [`pow`] for a negative exponent and a non-zero base:
/// the integer truncation of `base^exponent`.
pub open spec fn neg_pow_result(base: int, exponent: int) -> int {
    if base == 1 {
        1
    } else if base == -1 && exponent % 2 == 0 {
        1
    } else if base == -1 {
        -1
    } else {
        0
    }
}

} // verus!
