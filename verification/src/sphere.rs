//! Spheres, and the intersection of a ray with one.
//!
//! A point `origin + t * direction` lies on the sphere when
//! `a * t^2 + 2 * half_b * t + c = 0`, with `a`, `half_b` and `c` as below.
//! All three are integers in raw units, so the sign of the discriminant and
//! the place of each root in the interval are decided exactly. The
//! parameter, the point and the normal of a hit are then rounded to raw
//! units, each once, from the numerator of the root.

use vstd::prelude::*;
use crate::arith::floor_div;
use crate::arith::lemma_product_bound;
use crate::fixed::Fixed;
use crate::fixed::LIMIT;
use crate::fixed::SCALE;
use crate::geometry::lemma_coefficient_bounds;
use crate::geometry::lemma_point_on_ray;
use crate::geometry::lemma_record_bounds;
use crate::geometry::NUMER_MAX;
use crate::hit::facing_normal;
use crate::hit::Hit;
use crate::hit::HitModel;
use crate::hit::HitRecord;
use crate::hit::lemma_facing_normal_opposes;
use crate::laws::lemma_parameter_is_rounded_root;
use crate::laws::lemma_point_near_crossing;
use crate::material::MaterialId;
use crate::ray::Ray;
use crate::ray::RayModel;
use crate::surd::first_root_numer;
use crate::surd::lemma_first_root_in_interval;
use crate::surd::lower_at_least;
use crate::surd::lower_in;
use crate::surd::pick_root;
use crate::surd::scaled_lower_at_least;
use crate::surd::scaled_lower_at_most;
use crate::surd::scaled_upper_at_least;
use crate::surd::scaled_upper_at_most;
use crate::surd::upper_at_least;
use crate::surd::upper_in;
use crate::vec3::Point3;
use crate::vec3::Vec3;
use crate::vec3::Vector;

verus! {

/// A sphere in raw units.
pub struct SphereModel {
    pub center: Vector,
    pub radius: int,
    pub mat: MaterialId,
}

impl SphereModel {
    /// Whether an intersection test accepts the sphere: its radius is
    /// positive, and radius and centre are within `LIMIT`.
    pub open spec fn valid(self) -> bool {
        &&& self.center.within(LIMIT as int)
        &&& 0 < self.radius <= LIMIT
    }

    /// The vector from the centre to the origin of the ray.
    pub open spec fn offset(self, ray: RayModel) -> Vector {
        ray.origin.minus(self.center)
    }

    /// The squared length of the direction.
    pub open spec fn a(self, ray: RayModel) -> int {
        ray.direction.norm_sq()
    }

    pub open spec fn half_b(self, ray: RayModel) -> int {
        self.offset(ray).dot(ray.direction)
    }

    pub open spec fn c(self, ray: RayModel) -> int {
        self.offset(ray).norm_sq() - self.radius * self.radius
    }

    pub open spec fn discriminant(self, ray: RayModel) -> int {
        self.half_b(ray) * self.half_b(ray) - self.a(ray) * self.c(ray)
    }

    /// Whether the root `(-half_b - sqrt(discriminant)) / a`, where the ray
    /// enters the sphere, lies in `[t_min, t_max]`, both ends included. The
    /// interval is in raw units.
    pub open spec fn near_root_in(self, ray: RayModel, t_min: int, t_max: int) -> bool {
        lower_in(
            -(SCALE * self.half_b(ray)),
            SCALE * SCALE * self.discriminant(ray),
            self.a(ray),
            t_min,
            t_max,
        )
    }

    /// Whether the root `(-half_b + sqrt(discriminant)) / a`, where the ray
    /// leaves the sphere, lies in `[t_min, t_max]`, both ends included.
    pub open spec fn far_root_in(self, ray: RayModel, t_min: int, t_max: int) -> bool {
        upper_in(
            -(SCALE * self.half_b(ray)),
            SCALE * SCALE * self.discriminant(ray),
            self.a(ray),
            t_min,
            t_max,
        )
    }

    /// Whether the point of the ray at the parameter `t`, in raw units, lies
    /// exactly on the surface: `t / SCALE` is a root of the quadratic.
    pub open spec fn on_surface(self, ray: RayModel, t: int) -> bool {
        self.a(ray) * (t * t) + 2 * (SCALE * self.half_b(ray)) * t + SCALE * SCALE * self.c(ray)
            == 0
    }

    /// The numerator of the nearest root in `[t_min, t_max]`, over the
    /// denominator `a`: nothing if the discriminant is negative; else that
    /// of the root `(-half_b - sqrt(discriminant)) / a` if the root lies in
    /// the interval; else that of the root `(-half_b + sqrt(discriminant))
    /// / a` if that one does. The interval is in raw units, so each root is
    /// taken `SCALE` times; the square root in the numerator is rounded to
    /// an integer.
    pub open spec fn hit_numer(self, ray: RayModel, t_min: int, t_max: int) -> Option<int> {
        if self.discriminant(ray) < 0 {
            None
        } else {
            first_root_numer(
                -(SCALE * self.half_b(ray)),
                SCALE * SCALE * self.discriminant(ray),
                self.a(ray),
                t_min,
                t_max,
            )
        }
    }

    /// The vector from the centre to the point of the ray at the root with
    /// the numerator `u`, taken `SCALE * a` times: nothing has been rounded
    /// in it but the square root inside `u`.
    pub open spec fn root_offset(self, ray: RayModel, u: int) -> Vector {
        self.offset(ray).times(SCALE * self.a(ray)).plus(ray.direction.times(u))
    }

    /// The point of the ray at the root with the numerator `u`.
    pub open spec fn point_at(self, ray: RayModel, u: int) -> Vector {
        self.center.plus(self.root_offset(ray, u).over(SCALE * self.a(ray)))
    }

    /// The outward normal at that point: the vector from the centre to it,
    /// divided by the radius.
    pub open spec fn outward_at(self, ray: RayModel, u: int) -> Vector {
        self.root_offset(ray, u).over(self.a(ray) * self.radius)
    }

    /// The record of a hit at the root with the numerator `u`. The
    /// parameter, the point and the normal are each rounded once, from the
    /// same numerator.
    pub open spec fn record_at(self, ray: RayModel, u: int) -> HitModel {
        HitModel {
            t: u / self.a(ray),
            p: self.point_at(ray, u),
            normal: facing_normal(ray.direction, self.outward_at(ray, u)),
            mat: self.mat,
            front_face: ray.direction.dot(self.outward_at(ray, u)) < 0,
        }
    }

    /// The nearest hit of `ray` in `[t_min, t_max]`.
    pub open spec fn hit(self, ray: RayModel, t_min: int, t_max: int) -> Option<HitModel> {
        match self.hit_numer(ray, t_min, t_max) {
            Some(u) => Some(self.record_at(ray, u)),
            None => None,
        }
    }

    /// Whether `t` is the exact root rounded down to a raw unit: the root
    /// where the ray enters the sphere if `entering`, the root where it
    /// leaves if not. The root is at least `t` and less than `t + 1`.
    pub open spec fn rounds_to(self, ray: RayModel, entering: bool, t: int) -> bool {
        let p = -(SCALE * self.half_b(ray));
        let n = SCALE * SCALE * self.discriminant(ray);
        if entering {
            lower_at_least(p, n, self.a(ray), t) && !lower_at_least(p, n, self.a(ray), t + 1)
        } else {
            upper_at_least(p, n, self.a(ray), t) && !upper_at_least(p, n, self.a(ray), t + 1)
        }
    }

    /// Whether the exact crossing, at the root where the ray enters the
    /// sphere if `entering` and at the root where it leaves if not, lies
    /// within `CROSSING_TOLERANCE` raw units of `point` in every coordinate.
    pub open spec fn near_crossing(self, ray: RayModel, entering: bool, point: Vector) -> bool {
        &&& self.coordinate_near_crossing(
            ray,
            entering,
            ray.direction.x,
            point.x - ray.origin.x,
        )
        &&& self.coordinate_near_crossing(
            ray,
            entering,
            ray.direction.y,
            point.y - ray.origin.y,
        )
        &&& self.coordinate_near_crossing(
            ray,
            entering,
            ray.direction.z,
            point.z - ray.origin.z,
        )
    }

    /// Whether `d` times the exact root lies within `CROSSING_TOLERANCE` of
    /// `travel`: `d` is a coordinate of the direction, and `travel` the same
    /// coordinate of the way from the origin to a point.
    pub open spec fn coordinate_near_crossing(
        self,
        ray: RayModel,
        entering: bool,
        d: int,
        travel: int,
    ) -> bool {
        let p = -(SCALE * self.half_b(ray));
        let n = SCALE * SCALE * self.discriminant(ray);
        let sa = SCALE * self.a(ray);
        if entering {
            &&& scaled_lower_at_least(d, p, n, sa, travel - CROSSING_TOLERANCE)
            &&& scaled_lower_at_most(d, p, n, sa, travel + CROSSING_TOLERANCE)
        } else {
            &&& scaled_upper_at_least(d, p, n, sa, travel - CROSSING_TOLERANCE)
            &&& scaled_upper_at_most(d, p, n, sa, travel + CROSSING_TOLERANCE)
        }
    }
}

/// How far, in raw units, a coordinate of the point of a record may be from
/// the same coordinate of the exact crossing.
pub const CROSSING_TOLERANCE: i64 = 2;

/// A sphere: a centre, a radius and a material.
#[derive(Clone, Copy, Debug)]
pub struct Sphere {
    center: Point3,
    radius: Fixed,
    mat: MaterialId,
}

impl View for Sphere {
    type V = SphereModel;

    closed spec fn view(&self) -> SphereModel {
        SphereModel { center: self.center@, radius: self.radius@, mat: self.mat }
    }
}

impl Sphere {
    /// The sphere with the given centre, radius and material. Any numbers
    /// make a sphere; [`Sphere::is_valid`] tells which ones a ray can be
    /// tested against.
    pub fn new(cen: Point3, r: Fixed, m: MaterialId) -> (s: Sphere)
        ensures
            s@ == (SphereModel { center: cen@, radius: r@, mat: m }),
    {
        Sphere { center: cen, radius: r, mat: m }
    }

    /// Tests [`SphereModel::valid`].
    pub fn is_valid(&self) -> (b: bool)
        ensures
            b == self@.valid(),
    {
        self.center.is_within(LIMIT) && 0 < self.radius.raw && self.radius.raw <= LIMIT
    }
}

impl Hit for Sphere {
    open spec fn valid(&self) -> bool {
        self@.valid()
    }

    open spec fn hit_model(&self, ray: RayModel, t_min: int, t_max: int) -> Option<HitModel> {
        self@.hit(ray, t_min, t_max)
    }

    /// The nearest hit of the ray with a parameter in `[t_min, t_max]`. Of
    /// a sphere, beyond what holds of every primitive: the crossing is
    /// where the ray enters the sphere if that is in the interval, and else
    /// where it leaves; the parameter of the record is the exact root
    /// rounded down, and its point is within `CROSSING_TOLERANCE` raw units
    /// of the exact crossing.
    fn hit(&self, r: &Ray, t_min: Fixed, t_max: Fixed) -> (res: Option<HitRecord>)
        ensures
            res matches Some(rec) ==> {
                let entering = self@.near_root_in(r@, t_min@, t_max@);
                &&& self@.rounds_to(r@, entering, rec@.t)
                &&& self@.near_crossing(r@, entering, rec@.p)
            },
    {
        proof {
            lemma_coefficient_bounds(self@, r@);
            lemma_parameter_is_rounded_root(self@, r@, t_min@, t_max@);
            lemma_point_near_crossing(self@, r@, t_min@, t_max@);
        }
        let oc = r.origin().minus(&self.center);
        let a: i128 = r.direction().dot(&r.direction());
        let half_b: i128 = oc.dot(&r.direction());
        let radius: i128 = self.radius.raw as i128;
        proof {
            lemma_product_bound(radius as int, radius as int, LIMIT as int, LIMIT as int);
        }
        let c: i128 = oc.dot(&oc) - radius * radius;
        proof {
            lemma_product_bound(
                half_b as int,
                half_b as int,
                6_000_000_000_000,
                6_000_000_000_000,
            );
            lemma_product_bound(a as int, c as int, 3_000_000_000_000, 12_000_000_000_000);
        }
        let discriminant: i128 = half_b * half_b - a * c;
        if discriminant < 0 {
            return None;
        }
        // Both roots, taken `SCALE` times, are (p -+ sqrt(n)) / a.
        let p: i128 = -(SCALE as i128 * half_b);
        let n: u128 = (SCALE as i128 * SCALE as i128 * discriminant) as u128;
        let root = match pick_root(p, n, a, t_min.raw, t_max.raw) {
            Some(root) => root,
            None => {
                return None;
            },
        };
        let u: i128 = root.numer;
        proof {
            lemma_first_root_in_interval(p as int, n as int, a as int, t_min@, t_max@);
            lemma_record_bounds(self@, r@, u as int);
            lemma_point_on_ray(self@, r@, u as int);
            lemma_product_bound(a as int, radius as int, 3_000_000_000_000, LIMIT as int);
            assert(a * radius > 0) by (nonlinear_arith)
                requires
                    a > 0,
                    radius > 0,
            ;
        }
        // The point and the normal are rounded from the same offset.
        let sa: i128 = SCALE as i128 * a;
        let ar: i128 = a * radius;
        let zx: i128 = offset_coordinate(oc.x.raw, sa, r.dir.x.raw, u);
        let zy: i128 = offset_coordinate(oc.y.raw, sa, r.dir.y.raw, u);
        let zz: i128 = offset_coordinate(oc.z.raw, sa, r.dir.z.raw, u);
        let point = Vec3::from_raw(
            (self.center.x.raw as i128 + floor_div(zx, sa)) as i64,
            (self.center.y.raw as i128 + floor_div(zy, sa)) as i64,
            (self.center.z.raw as i128 + floor_div(zz, sa)) as i64,
        );
        let outward_normal = Vec3::from_raw(
            floor_div(zx, ar) as i64,
            floor_div(zy, ar) as i64,
            floor_div(zz, ar) as i64,
        );
        let mut rec = HitRecord {
            t: Fixed { raw: root.t },
            p: point,
            normal: outward_normal,
            mat: self.mat,
            front_face: false,
        };
        rec.set_face_normal(r, outward_normal);
        proof {
            lemma_facing_normal_opposes(r@.direction, outward_normal@);
        }
        Some(rec)
    }
}

/// One coordinate of the offset that a record is rounded from: `oc * sa + d
/// * u`.
fn offset_coordinate(oc: i64, sa: i128, d: i64, u: i128) -> (z: i128)
    requires
        -2 * LIMIT <= oc <= 2 * LIMIT,
        0 < sa <= 3_000_000_000_000_000,
        -LIMIT <= d <= LIMIT,
        -NUMER_MAX <= u <= NUMER_MAX,
    ensures
        z == oc * sa + d * u,
{
    proof {
        lemma_product_bound(oc as int, sa as int, 2 * LIMIT, 3_000_000_000_000_000);
        lemma_product_bound(d as int, u as int, LIMIT as int, NUMER_MAX as int);
    }
    oc as i128 * sa + d as i128 * u
}

} // verus!
