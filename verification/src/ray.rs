//! Rays: half-lines `origin + t * direction`.

use vstd::prelude::*;
use crate::arith::floor_div;
use crate::arith::lemma_i64_product;
use crate::fixed::Fixed;
use crate::fixed::LIMIT;
use crate::fixed::SCALE;
use crate::vec3::lemma_norm_sq_positive;
use crate::vec3::Point3;
use crate::vec3::SPAN;
use crate::vec3::Vec3;
use crate::vec3::Vector;

verus! {

/// A ray in raw coordinates.
pub struct RayModel {
    pub origin: Vector,
    pub direction: Vector,
}

impl RayModel {
    /// The point at parameter `t`, itself in raw units: the origin plus
    /// `t / SCALE` times the direction, every coordinate rounded down.
    pub open spec fn at(self, t: int) -> Vector {
        self.origin.plus(self.direction.scale(t))
    }

    /// Whether an intersection test accepts the ray: its coordinates are
    /// within `LIMIT`, and its direction is not the zero vector.
    pub open spec fn valid(self) -> bool {
        &&& self.origin.within(LIMIT as int)
        &&& self.direction.within(LIMIT as int)
        &&& self.direction.norm_sq() > 0
    }
}

/// A ray: an origin and a direction, which need not have unit length.
#[derive(Clone, Copy, Debug, PartialEq, Eq, Structural)]
pub struct Ray {
    pub orig: Point3,
    pub dir: Vec3,
}

impl View for Ray {
    type V = RayModel;

    open spec fn view(&self) -> RayModel {
        RayModel { origin: self.orig@, direction: self.dir@ }
    }
}

impl Ray {
    pub fn new(origin: Point3, direction: Vec3) -> (r: Ray)
        ensures
            r.orig == origin,
            r.dir == direction,
    {
        Ray { orig: origin, dir: direction }
    }

    pub fn origin(&self) -> (p: Point3)
        ensures
            p == self.orig,
    {
        self.orig
    }

    pub fn direction(&self) -> (v: Vec3)
        ensures
            v == self.dir,
    {
        self.dir
    }

    /// Tests [`RayModel::valid`].
    pub fn is_valid(&self) -> (b: bool)
        ensures
            b == self@.valid(),
    {
        let zero = self.dir.x.raw == 0 && self.dir.y.raw == 0 && self.dir.z.raw == 0;
        proof {
            lemma_norm_sq_positive(self.dir@);
        }
        self.orig.is_within(LIMIT) && self.dir.is_within(LIMIT) && !zero
    }

    /// The point at parameter `t`.
    pub fn at(&self, t: Fixed) -> (p: Point3)
        requires
            self@.at(t@).within(SPAN as int),
        ensures
            p@ == self@.at(t@),
    {
        let k: i128 = t.raw as i128;
        proof {
            lemma_i64_product(self.dir.x.raw, t.raw);
            lemma_i64_product(self.dir.y.raw, t.raw);
            lemma_i64_product(self.dir.z.raw, t.raw);
        }
        let x: i128 = self.orig.x.raw as i128 + floor_div(self.dir.x.raw as i128 * k, SCALE as i128);
        let y: i128 = self.orig.y.raw as i128 + floor_div(self.dir.y.raw as i128 * k, SCALE as i128);
        let z: i128 = self.orig.z.raw as i128 + floor_div(self.dir.z.raw as i128 * k, SCALE as i128);
        Vec3 { x: Fixed { raw: x as i64 }, y: Fixed { raw: y as i64 }, z: Fixed { raw: z as i64 } }
    }
}

} // verus!
