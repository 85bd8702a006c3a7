//! Integer arithmetic for the quadratic formula: square roots and quotients
//! rounded to integers, and the algebra that the proofs about them use.

use vstd::prelude::*;
use vstd::arithmetic::div_mod::lemma_fundamental_div_mod;
use vstd::arithmetic::div_mod::lemma_fundamental_div_mod_converse;
use vstd::arithmetic::mul::lemma_mul_is_associative;
use vstd::arithmetic::mul::lemma_mul_is_commutative;
use vstd::arithmetic::mul::lemma_mul_is_distributive_add;
use vstd::arithmetic::mul::lemma_mul_is_distributive_sub;

verus! {

/// `s` is the integer square root of `n`: the largest integer whose square
/// does not exceed `n`.
pub open spec fn is_floor_sqrt(n: int, s: int) -> bool {
    0 <= s && s * s <= n && n < (s + 1) * (s + 1)
}

/// The square root of `n`, rounded down. Meaningful for `n >= 0`.
pub open spec fn floor_sqrt(n: int) -> int {
    choose|s: int| is_floor_sqrt(n, s)
}

/// The square root of `n`, rounded up. Meaningful for `n >= 0`.
pub open spec fn ceil_sqrt(n: int) -> int {
    let s = floor_sqrt(n);
    if s * s == n {
        s
    } else {
        s + 1
    }
}

/// The quotient of `a` by a positive `b`, rounded up. (In ghost code
/// `a / b` itself rounds down for a positive `b`.)
pub open spec fn div_up(a: int, b: int) -> int {
    -((-a) / b)
}

/// Squaring is monotone on the non-negative integers.
pub proof fn lemma_square_monotone(a: int, b: int)
    by (nonlinear_arith)
    requires
        0 <= a <= b,
    ensures
        a * a <= b * b,
{
}

/// Squaring is strictly monotone on the non-negative integers.
pub proof fn lemma_square_strictly_monotone(a: int, b: int)
    by (nonlinear_arith)
    requires
        0 <= a < b,
    ensures
        a * a < b * b,
{
}

/// A number has at most one integer square root.
pub proof fn lemma_floor_sqrt_unique(n: int, s1: int, s2: int)
    requires
        is_floor_sqrt(n, s1),
        is_floor_sqrt(n, s2),
    ensures
        s1 == s2,
{
    if s1 < s2 {
        lemma_square_monotone(s1 + 1, s2);
    }
    if s2 < s1 {
        lemma_square_monotone(s2 + 1, s1);
    }
}

/// Every non-negative number has an integer square root.
pub proof fn lemma_floor_sqrt_exists(n: int) -> (s: int)
    requires
        n >= 0,
    ensures
        is_floor_sqrt(n, s),
    decreases n,
{
    if n == 0 {
        assert(is_floor_sqrt(0, 0)) by (nonlinear_arith);
        0
    } else {
        let s = lemma_floor_sqrt_exists(n - 1);
        if (s + 1) * (s + 1) <= n {
            assert(n < (s + 1 + 1) * (s + 1 + 1)) by (nonlinear_arith)
                requires
                    s >= 0,
                    n - 1 < (s + 1) * (s + 1),
            ;
            s + 1
        } else {
            s
        }
    }
}

/// `floor_sqrt` is the integer square root.
pub proof fn lemma_floor_sqrt(n: int)
    requires
        n >= 0,
    ensures
        is_floor_sqrt(n, floor_sqrt(n)),
{
    let s = lemma_floor_sqrt_exists(n);
    assert(is_floor_sqrt(n, s));
}

/// How an integer `k >= 0` stands to the real square root of `n`, read off
/// the two rounded roots: `k <= sqrt(n)` exactly when `k * k <= n`, and
/// `k >= sqrt(n)` exactly when `k * k >= n`.
pub proof fn lemma_sqrt_order(n: int, k: int)
    requires
        n >= 0,
        k >= 0,
    ensures
        0 <= floor_sqrt(n) <= ceil_sqrt(n),
        (k <= floor_sqrt(n)) == (k * k <= n),
        (k >= ceil_sqrt(n)) == (k * k >= n),
{
    lemma_floor_sqrt(n);
    let s = floor_sqrt(n);
    if k < s {
        lemma_square_strictly_monotone(k, s);
    } else if k == s {
    } else {
        lemma_square_monotone(s + 1, k);
    }
}

/// A floored quotient reaches `c` exactly when the dividend reaches `b * c`.
pub proof fn lemma_floor_div_order(a: int, b: int, c: int)
    requires
        b > 0,
    ensures
        (a / b >= c) == (a >= b * c),
{
    lemma_fundamental_div_mod(a, b);
    let q = a / b;
    assert((q >= c) == (a >= b * c)) by (nonlinear_arith)
        requires
            b > 0,
            a == b * q + a % b,
            0 <= a % b < b,
    ;
}

/// A ceiled quotient stays within `c` exactly when the dividend stays within
/// `b * c`.
pub proof fn lemma_div_up_order(a: int, b: int, c: int)
    requires
        b > 0,
    ensures
        (div_up(a, b) <= c) == (a <= b * c),
{
    lemma_floor_div_order(-a, b, -c);
    assert(b * (-c) == -(b * c)) by (nonlinear_arith);
}

/// Rounding a quotient down gives no more than rounding a larger one up.
pub proof fn lemma_floor_le_ceil(x: int, y: int, b: int)
    requires
        b > 0,
        x <= y,
    ensures
        x / b <= div_up(y, b),
{
    let q = x / b;
    let c = div_up(y, b);
    lemma_floor_div_order(x, b, q);
    lemma_div_up_order(y, b, c);
    assert(q <= c) by (nonlinear_arith)
        requires
            b > 0,
            b * q <= b * c,
    ;
}

/// The product of two bounded integers is bounded by the product of the
/// bounds.
pub proof fn lemma_product_bound(a: int, b: int, ba: int, bb: int)
    by (nonlinear_arith)
    requires
        -ba <= a <= ba,
        -bb <= b <= bb,
    ensures
        -(ba * bb) <= a * b <= ba * bb,
{
}

/// The product of two 64-bit integers has magnitude at most `2^126`.
pub proof fn lemma_i64_product(a: i64, b: i64)
    ensures
        -0x4000_0000_0000_0000_0000_0000_0000_0000 <= a * b
            <= 0x4000_0000_0000_0000_0000_0000_0000_0000,
{
    lemma_product_bound(
        a as int,
        b as int,
        0x8000_0000_0000_0000,
        0x8000_0000_0000_0000,
    );
}

/// Four factors may be paired either way.
pub proof fn lemma_regroup(a: int, b: int, c: int, d: int)
    ensures
        (a * b) * (c * d) == (a * c) * (b * d),
{
    lemma_mul_is_associative(a, b, c * d);
    lemma_mul_is_associative(b, c, d);
    lemma_mul_is_commutative(b, c);
    lemma_mul_is_associative(c, b, d);
    lemma_mul_is_associative(a, c, b * d);
}

/// `(u + v)^2`, multiplied out.
pub proof fn lemma_square_of_sum(u: int, v: int)
    by (nonlinear_arith)
    ensures
        (u + v) * (u + v) == u * u + 2 * (u * v) + v * v,
{
}

/// `(x * s + y * t)^2`, multiplied out.
pub proof fn lemma_binomial(x: int, y: int, s: int, t: int)
    ensures
        (x * s + y * t) * (x * s + y * t) == s * s * (x * x) + 2 * s * t * (x * y) + t * t * (y
            * y),
{
    lemma_square_of_sum(x * s, y * t);
    lemma_regroup(x, s, x, s);
    lemma_mul_is_commutative(x * x, s * s);
    lemma_regroup(y, t, y, t);
    lemma_mul_is_commutative(y * y, t * t);
    lemma_regroup(x, s, y, t);
    lemma_mul_is_commutative(x * y, s * t);
    lemma_mul_is_associative(2, s, t);
    lemma_mul_is_associative(2, s * t, x * y);
}

/// The quadratic at `t / s`, taken `a * s^2` times, is the difference of two
/// squares: that of `a * t + s * h`, and `s^2` times the discriminant.
pub proof fn lemma_completed_square(a: int, h: int, q: int, r: int, s: int, t: int)
    ensures
        a * (s * s * q + 2 * s * t * h + t * t * a) == s * s * a * (r * r) + (a * t + s * h) * (a
            * t + s * h) - s * s * (h * h - a * (q - r * r)),
{
    let ss = s * s;
    let rr = r * r;
    let big = a * t;
    let small = s * h;
    lemma_square_of_sum(big, small);
    // the left side, term by term
    lemma_mul_is_distributive_add(a, ss * q + 2 * s * t * h, t * t * a);
    lemma_mul_is_distributive_add(a, ss * q, 2 * s * t * h);
    lemma_mul_is_associative(a, ss, q);
    lemma_mul_is_commutative(a, ss);
    lemma_mul_is_associative(2, s, t);
    lemma_mul_is_associative(2, s * t, h);
    lemma_mul_is_associative(s, t, h);
    lemma_mul_is_commutative(t, h);
    lemma_mul_is_associative(s, h, t);
    lemma_mul_is_commutative(small, t);
    lemma_mul_is_associative(a, t, small);
    lemma_mul_is_associative(a, 2, t * small);
    lemma_mul_is_commutative(a, 2);
    lemma_mul_is_associative(2, a, t * small);
    assert(a * (2 * s * t * h) == 2 * (big * small));
    lemma_regroup(a, t, a, t);
    lemma_mul_is_commutative(t * t, a);
    lemma_mul_is_associative(a, a, t * t);
    assert(a * (t * t * a) == big * big);
    // the right side
    lemma_regroup(s, h, s, h);
    assert(small * small == ss * (h * h));
    lemma_mul_is_distributive_sub(ss, h * h, a * (q - rr));
    lemma_mul_is_distributive_sub(a, q, rr);
    lemma_mul_is_distributive_sub(ss, a * q, a * rr);
    lemma_mul_is_associative(ss, a, q);
    lemma_mul_is_associative(ss, a, rr);
}

/// The squared length of `oc * (s * a) + d * u`, given by its three dot
/// products `q`, `h` and `a`, against the squared scaled radius: the
/// difference is `a` times what `(u + s * h)^2` differs from `s^2` times the
/// discriminant.
pub proof fn lemma_completed_square_general(a: int, h: int, q: int, r: int, s: int, u: int)
    ensures
        (s * a) * (s * a) * q + 2 * (s * a) * u * h + u * u * a == (s * s) * ((a * r) * (a * r))
            + a * ((u + s * h) * (u + s * h) - s * s * (h * h - a * (q - r * r))),
{
    let ss = s * s;
    let rr = r * r;
    let x = s * h;
    lemma_square_of_sum(u, x);
    lemma_regroup(s, h, s, h);
    lemma_mul_is_distributive_sub(a, q, rr);
    lemma_mul_is_distributive_sub(ss, h * h, a * q - a * rr);
    lemma_mul_is_distributive_sub(ss, a * q, a * rr);
    let inner = (u + x) * (u + x) - ss * (h * h - a * (q - rr));
    assert(inner == u * u + 2 * (u * x) + ss * (a * q) - ss * (a * rr));
    lemma_mul_is_distributive_add(a, u * u + 2 * (u * x) + ss * (a * q), -(ss * (a * rr)));
    lemma_mul_is_distributive_add(a, u * u + 2 * (u * x), ss * (a * q));
    lemma_mul_is_distributive_add(a, u * u, 2 * (u * x));
    assert(a * (-(ss * (a * rr))) == -(a * (ss * (a * rr)))) by (nonlinear_arith);
    // the four monomials
    lemma_mul_is_commutative(a, u * u);
    assert(a * (2 * (u * x)) == 2 * (s * a) * u * h) by {
        lemma_mul_is_associative(a, 2, u * x);
        lemma_mul_is_commutative(a, 2);
        lemma_mul_is_associative(2, a, u * x);
        lemma_regroup(a, 1, u, x);
        lemma_mul_is_associative(a, u, x);
        lemma_mul_is_commutative(a, u);
        lemma_mul_is_associative(u, a, x);
        lemma_mul_is_associative(a, s, h);
        lemma_mul_is_commutative(a, s);
        lemma_mul_is_associative(u, s * a, h);
        lemma_mul_is_commutative(u, s * a);
        lemma_mul_is_associative(2, s * a, u);
        lemma_mul_is_associative(2, (s * a) * u, h);
        lemma_mul_is_associative(2 * (s * a), u, h);
    }
    assert(a * (ss * (a * q)) == (s * a) * (s * a) * q) by {
        lemma_regroup(s, a, s, a);
        lemma_mul_is_associative(ss, a, q);
        lemma_mul_is_associative(a, ss * a, q);
        lemma_mul_is_commutative(a, ss * a);
        lemma_mul_is_associative(ss, a, a);
    }
    assert(a * (ss * (a * rr)) == ss * ((a * r) * (a * r))) by {
        lemma_regroup(a, r, a, r);
        lemma_mul_is_associative(ss, a, rr);
        lemma_mul_is_associative(a, ss * a, rr);
        lemma_mul_is_commutative(a, ss * a);
        lemma_mul_is_associative(ss, a, a);
        lemma_mul_is_associative(ss, a * a, rr);
    }
}

/// A factor common to dividend and divisor leaves the quotient as it is.
pub proof fn lemma_cancel_factor(x: int, s: int, a: int)
    requires
        s > 0,
        a > 0,
    ensures
        s * a > 0,
        (x * a) / (s * a) == x / s,
{
    lemma_fundamental_div_mod(x, s);
    let q = x / s;
    let rem = x % s;
    assert(s * a > 0 && 0 <= rem * a < s * a && x * a == q * (s * a) + rem * a)
        by (nonlinear_arith)
        requires
            x == s * q + rem,
            0 <= rem < s,
            a > 0,
            s > 0,
    ;
    lemma_fundamental_div_mod_converse(x * a, s * a, q, rem * a);
}

/// Adding a multiple of the divisor to the dividend adds the multiplier to
/// the quotient.
pub proof fn lemma_div_add_multiple(x: int, k: int, m: int)
    requires
        m > 0,
    ensures
        (m * k + x) / m == k + x / m,
{
    lemma_fundamental_div_mod(x, m);
    let q = x / m;
    assert((k + q) * m + x % m == m * k + x) by (nonlinear_arith)
        requires
            x == m * q + x % m,
    ;
    lemma_fundamental_div_mod_converse(m * k + x, m, k + q, x % m);
}

/// Where `t` is `u / a` rounded down, `d * u / (s * a)` rounded down lies
/// between `d * t / s` and `d * (t + 1) / s`, both rounded down.
pub proof fn lemma_scaled_quotient_between(d: int, u: int, a: int, t: int, s: int)
    requires
        a > 0,
        s > 0,
        a * t <= u < a * t + a,
    ensures
        s * a > 0,
        d >= 0 ==> (d * t) / s <= (d * u) / (s * a) <= (d * (t + 1)) / s,
        d <= 0 ==> (d * (t + 1)) / s <= (d * u) / (s * a) <= (d * t) / s,
{
    let q0 = (d * t) / s;
    let q1 = (d * (t + 1)) / s;
    let m = s * a;
    assert(m > 0) by (nonlinear_arith)
        requires
            m == s * a,
            a > 0,
            s > 0,
    ;
    lemma_floor_div_order(d * t, s, q0);
    lemma_floor_div_order(d * t, s, q0 + 1);
    lemma_floor_div_order(d * (t + 1), s, q1);
    lemma_floor_div_order(d * (t + 1), s, q1 + 1);
    lemma_floor_div_order(d * u, m, q0);
    lemma_floor_div_order(d * u, m, q0 + 1);
    lemma_floor_div_order(d * u, m, q1);
    lemma_floor_div_order(d * u, m, q1 + 1);
    if d >= 0 {
        assert(m * q0 <= d * u) by (nonlinear_arith)
            requires
                m == s * a,
                a > 0,
                d >= 0,
                s * q0 <= d * t,
                a * t <= u,
        ;
        assert(d * u < m * (q1 + 1)) by (nonlinear_arith)
            requires
                m == s * a,
                a > 0,
                d >= 0,
                d * (t + 1) < s * (q1 + 1),
                u < a * t + a,
        ;
    }
    if d <= 0 {
        assert(d * u < m * (q0 + 1)) by (nonlinear_arith)
            requires
                m == s * a,
                a > 0,
                d <= 0,
                d * t < s * (q0 + 1),
                a * t <= u,
        ;
        assert(m * q1 <= d * u) by (nonlinear_arith)
            requires
                m == s * a,
                a > 0,
                d <= 0,
                s * q1 <= d * (t + 1),
                u < a * t + a,
        ;
    }
}

/// A dividend of magnitude at most `bound` times the divisor has a floored
/// quotient of magnitude at most `bound`.
pub proof fn lemma_quotient_pinch(x: int, d: int, bound: int)
    requires
        d > 0,
        -(d * bound) <= x <= d * bound,
    ensures
        -bound <= x / d <= bound,
{
    lemma_floor_div_order(x, d, -bound);
    lemma_floor_div_order(x, d, bound + 1);
    assert(d * (-bound) == -(d * bound) && d * (bound + 1) == d * bound + d) by (nonlinear_arith);
}

/// A number whose square is below `bound^2` is below `bound` in magnitude.
pub proof fn lemma_root_bound(x: int, bound: int)
    requires
        bound >= 0,
        x * x < bound * bound,
    ensures
        -bound < x < bound,
{
    if x >= bound {
        lemma_square_monotone(bound, x);
    }
    if x <= -bound {
        lemma_square_monotone(bound, -x);
        assert((-x) * (-x) == x * x) by (nonlinear_arith);
    }
}

/// The magnitude of an integer.
pub open spec fn magnitude(x: int) -> int {
    if x >= 0 {
        x
    } else {
        -x
    }
}

/// The integer square root of `n`, found by bisection.
pub fn isqrt(n: u128) -> (s: u64)
    ensures
        s == floor_sqrt(n as int),
{
    let mut lo: u128 = 0;
    let mut hi: u128 = 0x1_0000_0000_0000_0000;
    while hi - lo > 1
        invariant
            lo < hi <= 0x1_0000_0000_0000_0000,
            lo * lo <= n,
            n < hi * hi,
        decreases hi - lo,
    {
        let mid: u128 = lo + (hi - lo) / 2;
        assert(mid * mid < 0x1_0000_0000_0000_0000int * 0x1_0000_0000_0000_0000int) by {
            lemma_square_strictly_monotone(mid as int, 0x1_0000_0000_0000_0000int);
        }
        if mid * mid <= n {
            lo = mid;
        } else {
            hi = mid;
        }
    }
    proof {
        lemma_floor_sqrt(n as int);
        lemma_floor_sqrt_unique(n as int, lo as int, floor_sqrt(n as int));
    }
    lo as u64
}

/// The square root of `n`, rounded up.
pub fn isqrt_ceil(n: u128) -> (s: u128)
    ensures
        s == ceil_sqrt(n as int),
        s <= 0x1_0000_0000_0000_0000,
{
    let s: u64 = isqrt(n);
    let wide: u128 = s as u128;
    proof {
        lemma_floor_sqrt(n as int);
        lemma_square_strictly_monotone(wide as int, 0x1_0000_0000_0000_0000int);
    }
    if wide * wide == n {
        wide
    } else {
        wide + 1
    }
}

/// The quotient of `a` by a positive `b`, rounded toward minus infinity.
pub fn floor_div(a: i128, b: i128) -> (q: i128)
    requires
        b > 0,
        a > i128::MIN,
    ensures
        q == a / b,
{
    if a >= 0 {
        a / b
    } else {
        let neg: i128 = -a;
        let q0: i128 = neg / b;
        let r0: i128 = neg % b;
        proof {
            lemma_fundamental_div_mod(neg as int, b as int);
            assert(b * q0 == q0 * b) by (nonlinear_arith);
            if r0 == 0 {
                assert((-q0) * b == -(q0 * b)) by (nonlinear_arith);
                lemma_fundamental_div_mod_converse(a as int, b as int, -q0, 0);
            } else {
                assert((-q0 - 1) * b == -(q0 * b) - b) by (nonlinear_arith);
                lemma_fundamental_div_mod_converse(a as int, b as int, -q0 - 1, b - r0);
            }
        }
        if r0 == 0 {
            -q0
        } else {
            -q0 - 1
        }
    }
}

/// The quotient of `a` by a positive `b`, rounded toward plus infinity.
pub fn ceil_div(a: i128, b: i128) -> (q: i128)
    requires
        b > 0,
        a > i128::MIN,
    ensures
        q == div_up(a as int, b as int),
{
    let f: i128 = floor_div(-a, b);
    proof {
        lemma_floor_div_order(-a, b as int, i128::MIN + 1);
        assert(b * (i128::MIN + 1) <= -a) by (nonlinear_arith)
            requires
                b >= 1,
                -a >= i128::MIN + 1,
                i128::MIN + 1 < 0,
        ;
    }
    -f
}

} // verus!
