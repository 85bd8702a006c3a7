//! The two roots `(p - sqrt(n)) / a` and `(p + sqrt(n)) / a` of a quadratic
//! with integer coefficients, `n >= 0` and `a > 0`: how each stands to an
//! integer bound, and each rounded to an integer. The roots themselves are
//! irrational in general; every statement about them is made by squaring.

use vstd::prelude::*;
use crate::arith::ceil_div;
use crate::arith::ceil_sqrt;
use crate::arith::div_up;
use crate::arith::floor_div;
use crate::arith::floor_sqrt;
use crate::arith::isqrt;
use crate::arith::isqrt_ceil;
use crate::arith::lemma_div_up_order;
use crate::arith::lemma_floor_div_order;
use crate::arith::lemma_floor_le_ceil;
use crate::arith::lemma_floor_sqrt;
use crate::arith::lemma_sqrt_order;

verus! {

/// `(p + sqrt(n)) / a >= b`.
pub open spec fn upper_at_least(p: int, n: int, a: int, b: int) -> bool {
    let k = a * b - p;
    k <= 0 || k * k <= n
}

/// `(p + sqrt(n)) / a <= b`.
pub open spec fn upper_at_most(p: int, n: int, a: int, b: int) -> bool {
    let k = a * b - p;
    k >= 0 && n <= k * k
}

/// `(p - sqrt(n)) / a >= b`.
pub open spec fn lower_at_least(p: int, n: int, a: int, b: int) -> bool {
    let k = a * b - p;
    k <= 0 && n <= k * k
}

/// `(p - sqrt(n)) / a <= b`.
pub open spec fn lower_at_most(p: int, n: int, a: int, b: int) -> bool {
    let k = a * b - p;
    k >= 0 || k * k <= n
}

/// `lo <= (p - sqrt(n)) / a <= hi`, both ends included.
pub open spec fn lower_in(p: int, n: int, a: int, lo: int, hi: int) -> bool {
    lower_at_least(p, n, a, lo) && lower_at_most(p, n, a, hi)
}

/// `lo <= (p + sqrt(n)) / a <= hi`, both ends included.
pub open spec fn upper_in(p: int, n: int, a: int, lo: int, hi: int) -> bool {
    upper_at_least(p, n, a, lo) && upper_at_most(p, n, a, hi)
}

/// `(p + sqrt(n)) / a`, rounded down.
pub open spec fn upper_floor(p: int, n: int, a: int) -> int {
    (p + floor_sqrt(n)) / a
}

/// `(p + sqrt(n)) / a`, rounded up.
pub open spec fn upper_ceil(p: int, n: int, a: int) -> int {
    div_up(p + ceil_sqrt(n), a)
}

/// `(p - sqrt(n)) / a`, rounded down.
pub open spec fn lower_floor(p: int, n: int, a: int) -> int {
    (p - ceil_sqrt(n)) / a
}

/// `(p - sqrt(n)) / a`, rounded up.
pub open spec fn lower_ceil(p: int, n: int, a: int) -> int {
    div_up(p - floor_sqrt(n), a)
}

/// The smaller root if it lies in `[lo, hi]`, else the larger root if that
/// one does, else nothing; the chosen root is rounded down.
pub open spec fn first_root_in(p: int, n: int, a: int, lo: int, hi: int) -> Option<int> {
    if lower_in(p, n, a, lo, hi) {
        Some(lower_floor(p, n, a))
    } else if upper_in(p, n, a, lo, hi) {
        Some(upper_floor(p, n, a))
    } else {
        None
    }
}

/// The numerator of the root that `first_root_in` picks, with the square
/// root in it rounded to an integer, away from the other root: the picked
/// root itself is within `1 / a` of `numer / a`, and rounds down to the
/// same integer.
pub open spec fn first_root_numer(p: int, n: int, a: int, lo: int, hi: int) -> Option<int> {
    if lower_in(p, n, a, lo, hi) {
        Some(p - ceil_sqrt(n))
    } else if upper_in(p, n, a, lo, hi) {
        Some(p + floor_sqrt(n))
    } else {
        None
    }
}

/// `d * (p + sqrt(n)) / a >= b`, for a factor `d` of either sign.
pub open spec fn scaled_upper_at_least(d: int, p: int, n: int, a: int, b: int) -> bool {
    if d >= 0 {
        upper_at_least(d * p, d * d * n, a, b)
    } else {
        lower_at_least(d * p, d * d * n, a, b)
    }
}

/// `d * (p + sqrt(n)) / a <= b`, for a factor `d` of either sign.
pub open spec fn scaled_upper_at_most(d: int, p: int, n: int, a: int, b: int) -> bool {
    if d >= 0 {
        upper_at_most(d * p, d * d * n, a, b)
    } else {
        lower_at_most(d * p, d * d * n, a, b)
    }
}

/// `d * (p - sqrt(n)) / a >= b`, for a factor `d` of either sign.
pub open spec fn scaled_lower_at_least(d: int, p: int, n: int, a: int, b: int) -> bool {
    if d >= 0 {
        lower_at_least(d * p, d * d * n, a, b)
    } else {
        upper_at_least(d * p, d * d * n, a, b)
    }
}

/// `d * (p - sqrt(n)) / a <= b`, for a factor `d` of either sign.
pub open spec fn scaled_lower_at_most(d: int, p: int, n: int, a: int, b: int) -> bool {
    if d >= 0 {
        lower_at_most(d * p, d * d * n, a, b)
    } else {
        upper_at_most(d * p, d * d * n, a, b)
    }
}

/// A multiple of a root lies between the same multiples of the two
/// numerators that hold the rounded square roots: whatever is at most both
/// is at most the multiple of the root, and whatever is at least both is at
/// least it.
pub proof fn lemma_scaled_root_bracket(d: int, p: int, n: int, a: int, b: int)
    requires
        n >= 0,
        a > 0,
    ensures
        a * b <= d * (p + floor_sqrt(n)) && a * b <= d * (p + ceil_sqrt(n))
            ==> scaled_upper_at_least(d, p, n, a, b),
        a * b >= d * (p + floor_sqrt(n)) && a * b >= d * (p + ceil_sqrt(n))
            ==> scaled_upper_at_most(d, p, n, a, b),
        a * b <= d * (p - floor_sqrt(n)) && a * b <= d * (p - ceil_sqrt(n))
            ==> scaled_lower_at_least(d, p, n, a, b),
        a * b >= d * (p - floor_sqrt(n)) && a * b >= d * (p - ceil_sqrt(n))
            ==> scaled_lower_at_most(d, p, n, a, b),
{
    let fs = floor_sqrt(n);
    let cs = ceil_sqrt(n);
    let k = a * b - d * p;
    let nn = d * d * n;
    lemma_sqrt_order(n, 0);
    lemma_floor_sqrt(n);
    lemma_sqrt_order(n, cs);
    // (d * fs)^2 <= d^2 * n <= (d * cs)^2
    assert((d * fs) * (d * fs) <= nn <= (d * cs) * (d * cs)) by (nonlinear_arith)
        requires
            nn == d * d * n,
            0 <= fs,
            fs * fs <= n,
            0 <= cs,
            n <= cs * cs,
    ;
    assert(d * (p + fs) == d * p + d * fs && d * (p + cs) == d * p + d * cs && d * (p - fs) == d
        * p - d * fs && d * (p - cs) == d * p - d * cs) by (nonlinear_arith);
    lemma_between_squares(k, d * fs, d * cs);
    lemma_between_squares(k, -(d * fs), -(d * cs));
    assert((-(d * fs)) * (-(d * fs)) == (d * fs) * (d * fs) && (-(d * cs)) * (-(d * cs)) == (d
        * cs) * (d * cs)) by (nonlinear_arith);
    assert(d >= 0 ==> d * fs >= 0 && d * cs >= 0) by (nonlinear_arith)
        requires
            fs >= 0,
            cs >= 0,
    ;
    assert(d < 0 ==> d * fs <= 0 && d * cs <= 0) by (nonlinear_arith)
        requires
            fs >= 0,
            cs >= 0,
    ;
}

/// How the square of `k` stands to the squares of two numbers of one sign
/// that `k` is not between.
pub proof fn lemma_between_squares(k: int, x: int, y: int)
    ensures
        x >= 0 && y >= 0 && 0 <= k <= x && k <= y ==> k * k <= x * x && k * k <= y * y,
        x >= 0 && y >= 0 && k >= x && k >= y ==> k * k >= x * x && k * k >= y * y,
        x <= 0 && y <= 0 && 0 >= k >= x && k >= y ==> k * k <= x * x && k * k <= y * y,
        x <= 0 && y <= 0 && k <= x && k <= y ==> k * k >= x * x && k * k >= y * y,
{
    assert(x >= 0 && y >= 0 && 0 <= k <= x && k <= y ==> k * k <= x * x && k * k <= y * y)
        by (nonlinear_arith);
    assert(x >= 0 && y >= 0 && k >= x && k >= y ==> k * k >= x * x && k * k >= y * y)
        by (nonlinear_arith);
    assert(x <= 0 && y <= 0 && 0 >= k >= x && k >= y ==> k * k <= x * x && k * k <= y * y)
        by (nonlinear_arith);
    assert(x <= 0 && y <= 0 && k <= x && k <= y ==> k * k >= x * x && k * k >= y * y)
        by (nonlinear_arith);
}

/// The rounded roots decide the comparisons: a root is at least the integer
/// `b` exactly when its floor is, and at most `b` exactly when its ceiling
/// is.
pub proof fn lemma_rounded_roots(p: int, n: int, a: int, b: int)
    requires
        n >= 0,
        a > 0,
    ensures
        upper_at_least(p, n, a, b) == (upper_floor(p, n, a) >= b),
        upper_at_most(p, n, a, b) == (upper_ceil(p, n, a) <= b),
        lower_at_least(p, n, a, b) == (lower_floor(p, n, a) >= b),
        lower_at_most(p, n, a, b) == (lower_ceil(p, n, a) <= b),
{
    let k = a * b - p;
    let fs = floor_sqrt(n);
    let cs = ceil_sqrt(n);
    lemma_floor_div_order(p + fs, a, b);
    lemma_div_up_order(p + cs, a, b);
    lemma_floor_div_order(p - cs, a, b);
    lemma_div_up_order(p - fs, a, b);
    if k >= 0 {
        lemma_sqrt_order(n, k);
    } else {
        lemma_sqrt_order(n, 0);
    }
    if k <= 0 {
        lemma_sqrt_order(n, -k);
        assert((-k) * (-k) == k * k) by (nonlinear_arith);
    }
}

/// A root that `first_root_in` picks lies in the interval even after it was
/// rounded down.
pub proof fn lemma_first_root_in_interval(p: int, n: int, a: int, lo: int, hi: int)
    requires
        n >= 0,
        a > 0,
    ensures
        first_root_in(p, n, a, lo, hi) matches Some(t) ==> lo <= t <= hi,
{
    lemma_sqrt_order(n, 0);
    lemma_rounded_roots(p, n, a, lo);
    lemma_rounded_roots(p, n, a, hi);
    lemma_floor_le_ceil(p - ceil_sqrt(n), p - floor_sqrt(n), a);
    lemma_floor_le_ceil(p + floor_sqrt(n), p + ceil_sqrt(n), a);
}

/// The largest magnitude of `p` for which the roots are computed: `2^126`.
pub const P_MAX: i128 = 0x4000_0000_0000_0000_0000_0000_0000_0000;

/// A root as `pick_root` hands it out.
#[derive(Clone, Copy, Debug, PartialEq, Eq, Structural)]
pub struct Root {
    /// The root, rounded down.
    pub t: i64,
    /// The numerator of the root, with the square root in it rounded.
    pub numer: i128,
}

/// Picks the first of the two roots, the smaller before the larger, that
/// lies in `[lo, hi]`; hands out its numerator, and the root rounded down.
pub fn pick_root(p: i128, n: u128, a: i128, lo: i64, hi: i64) -> (res: Option<Root>)
    requires
        a > 0,
        -P_MAX <= p <= P_MAX,
    ensures
        match res {
            Some(root) => {
                &&& first_root_in(p as int, n as int, a as int, lo as int, hi as int) == Some(
                    root.t as int,
                )
                &&& first_root_numer(p as int, n as int, a as int, lo as int, hi as int) == Some(
                    root.numer as int,
                )
            },
            None => first_root_in(p as int, n as int, a as int, lo as int, hi as int) is None,
        },
{
    let fs: i128 = isqrt(n) as i128;
    let cs: i128 = isqrt_ceil(n) as i128;
    proof {
        lemma_sqrt_order(n as int, 0);
        lemma_rounded_roots(p as int, n as int, a as int, lo as int);
        lemma_rounded_roots(p as int, n as int, a as int, hi as int);
    }
    let near_floor: i128 = floor_div(p - cs, a);
    let near_ceil: i128 = ceil_div(p - fs, a);
    if lo as i128 <= near_floor && near_ceil <= hi as i128 {
        proof {
            lemma_floor_le_ceil(p - cs, p - fs, a as int);
        }
        return Some(Root { t: near_floor as i64, numer: p - cs });
    }
    let far_floor: i128 = floor_div(p + fs, a);
    let far_ceil: i128 = ceil_div(p + cs, a);
    if lo as i128 <= far_floor && far_ceil <= hi as i128 {
        proof {
            lemma_floor_le_ceil(p + fs, p + cs, a as int);
        }
        return Some(Root { t: far_floor as i64, numer: p + fs });
    }
    None
}

} // verus!
