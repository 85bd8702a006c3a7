//! What holds of every intersection test of a ray with a sphere.

use vstd::prelude::*;
use vstd::arithmetic::div_mod::lemma_fundamental_div_mod;
use vstd::arithmetic::mul::lemma_mul_is_associative;
use vstd::arithmetic::mul::lemma_mul_is_commutative;
use crate::arith::ceil_sqrt;
use crate::arith::floor_sqrt;
use crate::arith::is_floor_sqrt;
use crate::arith::lemma_cancel_factor;
use crate::arith::lemma_completed_square;
use crate::arith::lemma_div_add_multiple;
use crate::arith::lemma_floor_le_ceil;
use crate::arith::lemma_floor_sqrt;
use crate::arith::lemma_floor_sqrt_unique;
use crate::arith::lemma_sqrt_order;
use crate::arith::lemma_square_monotone;
use crate::arith::magnitude;
use crate::fixed::SCALE;
use crate::geometry::lemma_coefficient_bounds;
use crate::geometry::lemma_record_bounds;
use crate::geometry::residual;
use crate::hit::lemma_facing_normal_opposes;
use crate::ray::RayModel;
use crate::sphere::CROSSING_TOLERANCE;
use crate::sphere::SphereModel;
use crate::surd::lemma_rounded_roots;
use crate::surd::lemma_scaled_root_bracket;

verus! {

/// A ray that starts outside the sphere and does not approach its centre
/// strikes nothing at a parameter that is not negative.
pub proof fn lemma_leaving_ray_misses(sphere: SphereModel, ray: RayModel, t_min: int, t_max: int)
    requires
        sphere.valid(),
        ray.valid(),
        sphere.c(ray) > 0,
        sphere.half_b(ray) >= 0,
        t_min >= 0,
    ensures
        sphere.hit(ray, t_min, t_max) is None,
{
    let a = sphere.a(ray);
    let hb = sphere.half_b(ray);
    let c = sphere.c(ray);
    let disc = sphere.discriminant(ray);
    let p = -(SCALE * hb);
    let n = SCALE * SCALE * disc;
    let k = a * t_min - p;
    lemma_coefficient_bounds(sphere, ray);
    if disc >= 0 {
        assert(n < p * p && p <= 0) by (nonlinear_arith)
            requires
                n == SCALE * SCALE * (hb * hb - a * c),
                p == -(SCALE * hb),
                SCALE == 1000,
                a > 0,
                c > 0,
                hb >= 0,
        ;
        assert(k >= -p) by (nonlinear_arith)
            requires
                k == a * t_min - p,
                a > 0,
                t_min >= 0,
        ;
        lemma_square_monotone(-p, k);
        assert((-p) * (-p) == p * p) by (nonlinear_arith);
        assert(n >= 0) by (nonlinear_arith)
            requires
                n == SCALE * SCALE * disc,
                disc >= 0,
        ;
        assert(k * k > n);
        assert(k > 0) by (nonlinear_arith)
            requires
                k >= 0,
                k * k > 0,
        ;
    }
}

/// A parameter in the interval at which the ray meets the surface exactly is
/// found, unless the ray enters the sphere at an earlier parameter of the
/// interval. If the ray enters at that very parameter, or enters outside
/// the interval, the hit has that parameter, and its point is the ray there.
pub proof fn lemma_surface_point_found(
    sphere: SphereModel,
    ray: RayModel,
    t_min: int,
    t_max: int,
    t: int,
)
    requires
        sphere.valid(),
        ray.valid(),
        t_min <= t <= t_max,
        sphere.on_surface(ray, t),
    ensures
        sphere.hit(ray, t_min, t_max) is Some,
        sphere.hit(ray, t_min, t_max)->0.t <= t,
        residual(sphere, ray, t) <= 0 || !sphere.near_root_in(ray, t_min, t_max) ==> {
            &&& sphere.hit(ray, t_min, t_max)->0.t == t
            &&& sphere.hit(ray, t_min, t_max)->0.p == ray.at(t)
        },
{
    let a = sphere.a(ray);
    let hb = sphere.half_b(ray);
    let disc = sphere.discriminant(ray);
    let p = -(SCALE * hb);
    let n = SCALE * SCALE * disc;
    let w = residual(sphere, ray, t);
    lemma_coefficient_bounds(sphere, ray);
    lemma_exact_root_residual(sphere, ray, t);
    assert(w == a * t - p);
    assert(w * w >= 0) by (nonlinear_arith);
    assert(disc >= 0) by (nonlinear_arith)
        requires
            n == SCALE * SCALE * disc,
            SCALE == 1000,
            n >= 0,
    ;
    lemma_sqrt_order(n, 0);
    lemma_rounded_roots(p, n, a, t);
    lemma_rounded_roots(p, n, a, t_min);
    lemma_rounded_roots(p, n, a, t_max);
    lemma_floor_le_ceil(p - ceil_sqrt(n), p - floor_sqrt(n), a);
    lemma_floor_le_ceil(p + floor_sqrt(n), p + ceil_sqrt(n), a);
    lemma_floor_le_ceil(p - ceil_sqrt(n), p + floor_sqrt(n), a);
    lemma_floor_le_ceil(p - ceil_sqrt(n), p + ceil_sqrt(n), a);
    if w <= 0 || !sphere.near_root_in(ray, t_min, t_max) {
        // n is the square of w, so both rounded square roots are its magnitude,
        // and the numerator of the root is a * t.
        lemma_floor_sqrt(n);
        let size = magnitude(w);
        assert(is_floor_sqrt(n, size)) by (nonlinear_arith)
            requires
                n == w * w,
                size == w || size == -w,
                size >= 0,
        ;
        lemma_floor_sqrt_unique(n, size, floor_sqrt(n));
        assert(size * size == n) by (nonlinear_arith)
            requires
                n == w * w,
                size == w || size == -w,
        ;
        let u = a * t;
        assert(sphere.hit_numer(ray, t_min, t_max) == Some(u));
        lemma_point_at_exact_root(sphere, ray, t);
    }
}

/// The record at the numerator `a * t` has the parameter `t`, and for its
/// point the ray at `t`.
pub proof fn lemma_point_at_exact_root(sphere: SphereModel, ray: RayModel, t: int)
    requires
        sphere.a(ray) > 0,
    ensures
        sphere.record_at(ray, sphere.a(ray) * t).t == t,
        sphere.record_at(ray, sphere.a(ray) * t).p == ray.at(t),
{
    let a = sphere.a(ray);
    let u = a * t;
    let d = ray.direction;
    let oc = sphere.offset(ray);
    let sa = SCALE * a;
    lemma_cancel_factor(t, 1, a);
    lemma_mul_is_commutative(a, t);
    assert(1 * a == a);
    assert(u / a == t);
    lemma_cancel_factor(d.x * t, SCALE as int, a);
    lemma_cancel_factor(d.y * t, SCALE as int, a);
    lemma_cancel_factor(d.z * t, SCALE as int, a);
    lemma_mul_is_associative(d.x, t, a);
    lemma_mul_is_associative(d.y, t, a);
    lemma_mul_is_associative(d.z, t, a);
    lemma_mul_is_commutative(t, a);
    lemma_div_add_multiple(d.x * u, oc.x, sa);
    lemma_div_add_multiple(d.y * u, oc.y, sa);
    lemma_div_add_multiple(d.z * u, oc.z, sa);
    lemma_mul_is_commutative(oc.x, sa);
    lemma_mul_is_commutative(oc.y, sa);
    lemma_mul_is_commutative(oc.z, sa);
}

/// At a parameter where the ray meets the surface exactly, the square of the
/// residual is `SCALE^2` times the discriminant.
pub proof fn lemma_exact_root_residual(sphere: SphereModel, ray: RayModel, t: int)
    requires
        sphere.on_surface(ray, t),
    ensures
        residual(sphere, ray, t) * residual(sphere, ray, t) == SCALE * SCALE * sphere.discriminant(
            ray,
        ),
{
    let a = sphere.a(ray);
    let hb = sphere.half_b(ray);
    let q = sphere.offset(ray).norm_sq();
    let r = sphere.radius;
    let s = SCALE as int;
    lemma_completed_square(a, hb, q, r, s, t);
    // a * (s^2 q + 2 s t hb + t^2 a) - s^2 a r^2 is a times the quadratic
    assert(a * (s * s * q + 2 * s * t * hb + t * t * a) - s * s * a * (r * r) == a * (a * (t * t)
        + 2 * (s * hb) * t + s * s * (q - r * r))) by (nonlinear_arith);
    assert(a * (a * (t * t) + 2 * (s * hb) * t + s * s * (q - r * r)) == 0) by (nonlinear_arith)
        requires
            a * (t * t) + 2 * (s * hb) * t + s * s * (q - r * r) == 0,
    ;
}

/// A ray that meets the surface exactly at an end of the interval, and at
/// no other parameter of it, strikes the sphere there: both ends of the
/// interval count. A ray that only touches the sphere there is included.
pub proof fn lemma_interval_ends_count(
    sphere: SphereModel,
    ray: RayModel,
    t_min: int,
    t_max: int,
    t: int,
)
    requires
        sphere.valid(),
        ray.valid(),
        t_min <= t_max,
        t == t_min || t == t_max,
        sphere.on_surface(ray, t),
        sphere.near_root_in(ray, t_min, t_max) ==> sphere.near_root_in(ray, t, t),
        sphere.far_root_in(ray, t_min, t_max) ==> sphere.far_root_in(ray, t, t),
    ensures
        sphere.hit(ray, t_min, t_max) is Some,
        sphere.hit(ray, t_min, t_max)->0.t == t,
        sphere.hit(ray, t_min, t_max)->0.p == ray.at(t),
{
    lemma_surface_point_found(sphere, ray, t_min, t_max, t);
}

/// The face that a hit records, and its normal: `front_face` says whether
/// the ray runs against the outward normal at the hit point, and the stored
/// normal is the outward one turned, if need be, so that the ray never runs
/// along it.
pub proof fn lemma_normal_faces_ray(sphere: SphereModel, ray: RayModel, t_min: int, t_max: int)
    ensures
        sphere.hit_numer(ray, t_min, t_max) matches Some(u) ==> {
            let rec = sphere.hit(ray, t_min, t_max)->0;
            let outward = sphere.outward_at(ray, u);
            &&& rec.front_face == (ray.direction.dot(outward) < 0)
            &&& rec.normal == if rec.front_face { outward } else { outward.neg() }
            &&& ray.direction.dot(rec.normal) <= 0
        },
{
    if sphere.hit_numer(ray, t_min, t_max) is Some {
        let u = sphere.hit_numer(ray, t_min, t_max)->0;
        lemma_facing_normal_opposes(ray.direction, sphere.outward_at(ray, u));
    }
}

/// The normal of every hit has unit length, up to rounding: its length is
/// within `NORMAL_TOLERANCE` thousandths of one, whatever the radius and
/// however long the direction.
pub proof fn lemma_normal_has_unit_length(
    sphere: SphereModel,
    ray: RayModel,
    t_min: int,
    t_max: int,
)
    requires
        sphere.valid(),
        ray.valid(),
    ensures
        sphere.hit(ray, t_min, t_max) matches Some(rec) ==> rec.has_unit_normal(),
{
    if sphere.hit(ray, t_min, t_max) is Some {
        let u = sphere.hit_numer(ray, t_min, t_max)->0;
        lemma_record_bounds(sphere, ray, u);
    }
}

/// The parameter of every hit is the exact root rounded down to a raw unit:
/// the root where the ray enters the sphere if that lies in the interval,
/// and else the root where it leaves.
pub proof fn lemma_parameter_is_rounded_root(
    sphere: SphereModel,
    ray: RayModel,
    t_min: int,
    t_max: int,
)
    requires
        sphere.valid(),
        ray.valid(),
    ensures
        sphere.hit(ray, t_min, t_max) matches Some(rec) ==> sphere.rounds_to(
            ray,
            sphere.near_root_in(ray, t_min, t_max),
            rec.t,
        ),
{
    if sphere.hit(ray, t_min, t_max) is Some {
        let t = sphere.hit(ray, t_min, t_max)->0.t;
        let a = sphere.a(ray);
        let p = -(SCALE * sphere.half_b(ray));
        let n = SCALE * SCALE * sphere.discriminant(ray);
        lemma_coefficient_bounds(sphere, ray);
        assert(n >= 0) by (nonlinear_arith)
            requires
                n == SCALE * SCALE * sphere.discriminant(ray),
                sphere.discriminant(ray) >= 0,
        ;
        lemma_rounded_roots(p, n, a, t);
        lemma_rounded_roots(p, n, a, t + 1);
    }
}

/// The point of every hit is where the ray crosses the surface, up to
/// rounding: within `CROSSING_TOLERANCE` raw units of the exact crossing in
/// every coordinate, however long the direction. The crossing is the one
/// where the ray enters the sphere if that lies in the interval, and else
/// the one where it leaves.
pub proof fn lemma_point_near_crossing(
    sphere: SphereModel,
    ray: RayModel,
    t_min: int,
    t_max: int,
)
    requires
        sphere.valid(),
        ray.valid(),
    ensures
        sphere.hit(ray, t_min, t_max) matches Some(rec) ==> sphere.near_crossing(
            ray,
            sphere.near_root_in(ray, t_min, t_max),
            rec.p,
        ),
{
    if sphere.hit(ray, t_min, t_max) is Some {
        let u = sphere.hit_numer(ray, t_min, t_max)->0;
        let entering = sphere.near_root_in(ray, t_min, t_max);
        let d = ray.direction;
        let oc = sphere.offset(ray);
        let sa = SCALE * sphere.a(ray);
        lemma_coefficient_bounds(sphere, ray);
        assert(d.x * d.x >= 0 && d.y * d.y >= 0 && d.z * d.z >= 0) by (nonlinear_arith);
        lemma_coordinate_near_crossing(sphere, ray, entering, d.x, u);
        lemma_coordinate_near_crossing(sphere, ray, entering, d.y, u);
        lemma_coordinate_near_crossing(sphere, ray, entering, d.z, u);
        assert(sa > 0) by (nonlinear_arith)
            requires
                sa == SCALE * sphere.a(ray),
                SCALE == 1000,
                sphere.a(ray) > 0,
        ;
        lemma_div_add_multiple(d.x * u, oc.x, sa);
        lemma_div_add_multiple(d.y * u, oc.y, sa);
        lemma_div_add_multiple(d.z * u, oc.z, sa);
        lemma_mul_is_commutative(oc.x, sa);
        lemma_mul_is_commutative(oc.y, sa);
        lemma_mul_is_commutative(oc.z, sa);
    }
}

/// One coordinate of the way from the origin to the point of a record is
/// near the same coordinate of the way to the exact crossing.
proof fn lemma_coordinate_near_crossing(
    sphere: SphereModel,
    ray: RayModel,
    entering: bool,
    d: int,
    u: int,
)
    requires
        sphere.a(ray) > 0,
        sphere.discriminant(ray) >= 0,
        d * d <= sphere.a(ray),
        u == if entering {
            -(SCALE * sphere.half_b(ray)) - ceil_sqrt(SCALE * SCALE * sphere.discriminant(ray))
        } else {
            -(SCALE * sphere.half_b(ray)) + floor_sqrt(SCALE * SCALE * sphere.discriminant(ray))
        },
    ensures
        sphere.coordinate_near_crossing(ray, entering, d, (d * u) / (SCALE * sphere.a(ray))),
{
    let a = sphere.a(ray);
    let p = -(SCALE * sphere.half_b(ray));
    let n = SCALE * SCALE * sphere.discriminant(ray);
    let sa = SCALE * a;
    let fs = floor_sqrt(n);
    let cs = ceil_sqrt(n);
    let q = (d * u) / sa;
    assert(n >= 0 && sa >= a) by (nonlinear_arith)
        requires
            n == SCALE * SCALE * sphere.discriminant(ray),
            sphere.discriminant(ray) >= 0,
            sa == SCALE * a,
            SCALE == 1000,
            a > 0,
    ;
    lemma_sqrt_order(n, 0);
    lemma_fundamental_div_mod(d * u, sa);
    lemma_scaled_root_bracket(d, p, n, sa, q - CROSSING_TOLERANCE);
    lemma_scaled_root_bracket(d, p, n, sa, q + CROSSING_TOLERANCE);
    // The two numerators differ by at most one, and d is at most a.
    assert(-a <= d <= a) by (nonlinear_arith)
        requires
            d * d <= a,
    ;
    let step = cs - fs;
    assert(d * (p - fs) == d * (p - cs) + d * step && d * (p + cs) == d * (p + fs) + d * step
        && -a <= d * step <= a) by (nonlinear_arith)
        requires
            step == cs - fs,
            0 <= step <= 1,
            -a <= d <= a,
    ;
    assert(sa * (q - 2) == sa * q - 2 * sa && sa * (q + 2) == sa * q + 2 * sa)
        by (nonlinear_arith);
}

} // verus!
