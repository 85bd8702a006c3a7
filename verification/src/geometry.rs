//! The geometry behind an intersection test: bounds on the coefficients of
//! the quadratic, and how far a hit point that was computed from a rounded
//! root lies from the surface.

use vstd::prelude::*;
use vstd::arithmetic::div_mod::lemma_fundamental_div_mod;
use vstd::arithmetic::mul::lemma_mul_is_commutative;
use vstd::arithmetic::mul::lemma_mul_is_distributive_sub;
use crate::arith::ceil_sqrt;
use crate::arith::floor_sqrt;
use crate::arith::lemma_completed_square_general;
use crate::arith::lemma_div_add_multiple;
use crate::arith::lemma_floor_sqrt;
use crate::arith::lemma_product_bound;
use crate::arith::lemma_quotient_pinch;
use crate::arith::lemma_regroup;
use crate::arith::lemma_root_bound;
use crate::arith::lemma_scaled_quotient_between;
use crate::arith::lemma_sqrt_order;
use crate::arith::lemma_square_monotone;
use crate::arith::lemma_square_strictly_monotone;
use crate::fixed::LIMIT;
use crate::fixed::SCALE;
use crate::ray::RayModel;
use crate::sphere::SphereModel;
use crate::vec3::lemma_cauchy_schwarz;
use crate::vec3::lemma_combination_norm;
use crate::vec3::lemma_dot_bound;
use crate::vec3::lemma_neg_keeps_length;
use crate::vec3::lemma_norm_sq_positive;

verus! {

/// The coefficients of the quadratic of a valid sphere and a valid ray are
/// bounded, and `a` is positive.
pub proof fn lemma_coefficient_bounds(sphere: SphereModel, ray: RayModel)
    requires
        sphere.valid(),
        ray.valid(),
    ensures
        sphere.offset(ray).within(2 * LIMIT),
        0 < sphere.a(ray) <= 3_000_000_000_000,
        -6_000_000_000_000 <= sphere.half_b(ray) <= 6_000_000_000_000,
        -1_000_000_000_000 <= sphere.c(ray) <= 12_000_000_000_000,
        -36_000_000_000_000_000_000_000_000 <= sphere.discriminant(ray)
            <= 39_000_000_000_000_000_000_000_000,
{
    let oc = sphere.offset(ray);
    let d = ray.direction;
    let r = sphere.radius;
    lemma_dot_bound(d, d, LIMIT as int, LIMIT as int);
    lemma_dot_bound(oc, d, 2 * LIMIT, LIMIT as int);
    lemma_dot_bound(oc, oc, 2 * LIMIT, 2 * LIMIT);
    lemma_norm_sq_positive(oc);
    lemma_product_bound(r, r, LIMIT as int, LIMIT as int);
    assert(0 <= r * r) by (nonlinear_arith);
    let hb = sphere.half_b(ray);
    let a = sphere.a(ray);
    let c = sphere.c(ray);
    lemma_product_bound(hb, hb, 6_000_000_000_000, 6_000_000_000_000);
    assert(0 <= hb * hb) by (nonlinear_arith);
    assert(-36_000_000_000_000_000_000_000_000 <= a * c <= 36_000_000_000_000_000_000_000_000
        && a * c >= -3_000_000_000_000_000_000_000_000) by (nonlinear_arith)
        requires
            0 < a <= 3_000_000_000_000,
            -1_000_000_000_000 <= c <= 12_000_000_000_000,
    ;
}

/// The discriminant is at most `a` times the squared radius.
pub proof fn lemma_discriminant_at_most(sphere: SphereModel, ray: RayModel)
    ensures
        sphere.discriminant(ray) <= sphere.a(ray) * (sphere.radius * sphere.radius),
{
    let a = sphere.a(ray);
    let hb = sphere.half_b(ray);
    let q = sphere.offset(ray).norm_sq();
    let rr = sphere.radius * sphere.radius;
    lemma_cauchy_schwarz(sphere.offset(ray), ray.direction);
    lemma_mul_is_distributive_sub(a, q, rr);
    lemma_mul_is_commutative(a, q);
}

/// What is left of the derivative of the quadratic at `t / SCALE`: zero at
/// the vertex, and plus or minus `SCALE` times the square root of the
/// discriminant at a root.
pub open spec fn residual(sphere: SphereModel, ray: RayModel, t: int) -> int {
    sphere.a(ray) * t + SCALE * sphere.half_b(ray)
}

/// The squared length of the offset that a record is rounded from, against
/// the squared radius on the same scale: the two differ by `a` times what
/// the square of the rounded square root differs from `SCALE^2` times the
/// discriminant. With the square root itself in the numerator they would be
/// equal: the point would lie on the surface.
pub proof fn lemma_root_offset_norm(sphere: SphereModel, ray: RayModel, u: int)
    ensures
        ({
            let w = u + SCALE * sphere.half_b(ray);
            let m = sphere.a(ray) * sphere.radius;
            sphere.root_offset(ray, u).norm_sq() == (SCALE * SCALE) * (m * m) + sphere.a(ray) * (w
                * w - SCALE * SCALE * sphere.discriminant(ray))
        }),
{
    lemma_combination_norm(sphere.offset(ray), ray.direction, SCALE * sphere.a(ray), u);
    lemma_completed_square_general(
        sphere.a(ray),
        sphere.half_b(ray),
        sphere.offset(ray).norm_sq(),
        sphere.radius,
        SCALE as int,
        u,
    );
}

/// The square of a coordinate `m` of the normal, taken `k^2` times, against
/// the square of the coordinate `y` of the offset that it was rounded from.
proof fn lemma_rounded_square(y: int, m: int, k: int)
    requires
        k > 0,
        -(1002 * k) <= y <= 1002 * k,
        0 <= y - k * m < k,
    ensures
        y * y - 2004 * (k * k) <= (k * k) * (m * m) <= y * y + 2005 * (k * k),
{
    let lost = y - k * m;
    lemma_regroup(k, m, k, m);
    assert((k * m) * (k * m) == y * y - 2 * (y * lost) + lost * lost) by (nonlinear_arith)
        requires
            k * m == y - lost,
    ;
    lemma_product_bound(y, lost, 1002 * k, k);
    lemma_product_bound(lost, lost, k, k);
    assert((1002 * k) * k == 1002 * (k * k)) by (nonlinear_arith);
}

/// The largest magnitude of the numerator of a root of a valid sphere and a
/// valid ray.
pub const NUMER_MAX: i128 = 20_000_000_000_000_000;

/// What holds of the record at either root of a valid sphere and a valid
/// ray: the numerator is bounded; the offset, the point and the outward
/// normal are small; and the normal has unit length up to rounding.
pub proof fn lemma_record_bounds(sphere: SphereModel, ray: RayModel, u: int)
    requires
        sphere.valid(),
        ray.valid(),
        sphere.discriminant(ray) >= 0,
        u == -(SCALE * sphere.half_b(ray)) - ceil_sqrt(SCALE * SCALE * sphere.discriminant(ray))
            || u == -(SCALE * sphere.half_b(ray)) + floor_sqrt(
            SCALE * SCALE * sphere.discriminant(ray),
        ),
    ensures
        -NUMER_MAX <= u <= NUMER_MAX,
        sphere.root_offset(ray, u).within(1002 * (sphere.a(ray) * sphere.radius)),
        sphere.point_at(ray, u).minus(sphere.center).within(2 * LIMIT),
        sphere.point_at(ray, u).within(3 * LIMIT),
        sphere.outward_at(ray, u).within(2 * SCALE),
        sphere.record_at(ray, u).has_unit_normal(),
{
    let a = sphere.a(ray);
    let r = sphere.radius;
    let disc = sphere.discriminant(ray);
    let p = -(SCALE * sphere.half_b(ray));
    let n = SCALE * SCALE * disc;
    let m = a * r;
    let mm = m * m;
    let w = u - p;
    let z = sphere.root_offset(ray, u);
    let normal = sphere.outward_at(ray, u);
    lemma_coefficient_bounds(sphere, ray);
    lemma_discriminant_at_most(sphere, ray);
    // The square root of n is at most SCALE * m.
    assert(0 <= n <= (1000 * m) * (1000 * m) && n == 1_000_000 * disc && 0 < a <= m && m
        <= 3_000_000_000_000_000_000) by (nonlinear_arith)
        requires
            n == SCALE * SCALE * disc,
            SCALE == 1000,
            0 <= disc <= a * (r * r),
            m == a * r,
            0 < a <= 3_000_000_000_000,
            0 < r <= 1_000_000,
    ;
    lemma_floor_sqrt(n);
    let fs = floor_sqrt(n);
    let cs = ceil_sqrt(n);
    if fs > 1000 * m {
        lemma_square_strictly_monotone(1000 * m, fs);
    }
    lemma_sqrt_order(n, cs);
    if fs >= 10_000_000_000_000_000 {
        lemma_square_monotone(10_000_000_000_000_000, fs);
    }
    // The square of the rounded root is within twice the root of n.
    assert(-(2 * fs) <= fs * fs - n <= 0) by (nonlinear_arith)
        requires
            0 <= fs,
            fs * fs <= n < (fs + 1) * (fs + 1),
    ;
    assert(0 <= cs * cs - n <= 2 * fs + 1) by (nonlinear_arith)
        requires
            0 <= fs,
            fs * fs <= n < (fs + 1) * (fs + 1),
            cs == fs || cs == fs + 1,
            cs == fs ==> fs * fs == n,
    ;
    assert(w * w == fs * fs || w * w == cs * cs) by (nonlinear_arith)
        requires
            w == fs || w == -cs,
    ;
    let gap = w * w - n;
    assert(-(2002 * mm) <= a * gap <= 2002 * mm) by (nonlinear_arith)
        requires
            -(2000 * m + 1) <= gap <= 2000 * m + 1,
            0 < a <= m,
            mm == m * m,
    ;
    // So the offset is about as long as SCALE * m.
    lemma_root_offset_norm(sphere, ray, u);
    assert(w == u + SCALE * sphere.half_b(ray));
    let zz = z.norm_sq();
    assert(SCALE * SCALE * mm == 1_000_000 * mm) by (nonlinear_arith)
        requires
            SCALE == 1000,
    ;
    assert(1_000_000 * mm - 2002 * mm <= zz <= 1_000_000 * mm + 2002 * mm);
    assert(z.x * z.x >= 0 && z.y * z.y >= 0 && z.z * z.z >= 0) by (nonlinear_arith);
    assert((1002 * m) * (1002 * m) == 1_004_004 * mm && mm > 0) by (nonlinear_arith)
        requires
            mm == m * m,
            m > 0,
    ;
    lemma_root_bound(z.x, 1002 * m);
    lemma_root_bound(z.y, 1002 * m);
    lemma_root_bound(z.z, 1002 * m);
    // The normal is the offset over m, every coordinate rounded down.
    lemma_fundamental_div_mod(z.x, m);
    lemma_fundamental_div_mod(z.y, m);
    lemma_fundamental_div_mod(z.z, m);
    lemma_rounded_square(z.x, normal.x, m);
    lemma_rounded_square(z.y, normal.y, m);
    lemma_rounded_square(z.z, normal.z, m);
    let nn = normal.norm_sq();
    assert(mm * nn == mm * (normal.x * normal.x) + mm * (normal.y * normal.y) + mm * (normal.z
        * normal.z)) by (nonlinear_arith)
        requires
            nn == normal.x * normal.x + normal.y * normal.y + normal.z * normal.z,
    ;
    assert(991_984 * mm <= mm * nn <= 1_008_017 * mm);
    assert(991_984 <= nn <= 1_008_017) by (nonlinear_arith)
        requires
            mm > 0,
            991_984 * mm <= mm * nn <= 1_008_017 * mm,
    ;
    lemma_neg_keeps_length(normal);
    // The coordinates of the normal and of the point.
    lemma_quotient_pinch(z.x, m, 1002);
    lemma_quotient_pinch(z.y, m, 1002);
    lemma_quotient_pinch(z.z, m, 1002);
    let sa = SCALE * a;
    assert(sa > 0 && 1002 * m <= sa * (2 * r) && sa * (2 * r) <= sa * (2 * LIMIT))
        by (nonlinear_arith)
        requires
            sa == SCALE * a,
            SCALE == 1000,
            m == a * r,
            a > 0,
            0 < r <= LIMIT,
    ;
    lemma_quotient_pinch(z.x, sa, 2 * LIMIT);
    lemma_quotient_pinch(z.y, sa, 2 * LIMIT);
    lemma_quotient_pinch(z.z, sa, 2 * LIMIT);
}

/// The point of a record lies on the ray between the parameter of the
/// record and the next one, a thousandth on.
pub proof fn lemma_point_on_ray(sphere: SphereModel, ray: RayModel, u: int)
    requires
        sphere.a(ray) > 0,
    ensures
        sphere.point_at(ray, u).between(
            ray.at(u / sphere.a(ray)),
            ray.at(u / sphere.a(ray) + 1),
        ),
{
    let a = sphere.a(ray);
    let t = u / a;
    let d = ray.direction;
    let oc = sphere.offset(ray);
    lemma_fundamental_div_mod(u, a);
    lemma_scaled_quotient_between(d.x, u, a, t, SCALE as int);
    lemma_scaled_quotient_between(d.y, u, a, t, SCALE as int);
    lemma_scaled_quotient_between(d.z, u, a, t, SCALE as int);
    lemma_div_add_multiple(d.x * u, oc.x, SCALE * a);
    lemma_div_add_multiple(d.y * u, oc.y, SCALE * a);
    lemma_div_add_multiple(d.z * u, oc.z, SCALE * a);
    lemma_mul_is_commutative(oc.x, SCALE * a);
    lemma_mul_is_commutative(oc.y, SCALE * a);
    lemma_mul_is_commutative(oc.z, SCALE * a);
}

} // verus!
