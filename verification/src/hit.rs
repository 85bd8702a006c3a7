//! What an intersection test hands back, and the interface of everything
//! that a ray can strike.

use vstd::prelude::*;
use crate::fixed::Fixed;
use crate::fixed::SCALE;
use crate::material::MaterialId;
use crate::ray::Ray;
use crate::ray::RayModel;
use crate::vec3::Point3;
use crate::vec3::SPAN;
use crate::vec3::Vec3;
use crate::vec3::Vector;

verus! {

/// A hit in raw units.
pub struct HitModel {
    pub t: int,
    pub p: Vector,
    pub normal: Vector,
    pub mat: MaterialId,
    pub front_face: bool,
}

/// The normal as a hit record stores it: the outward normal if the ray runs
/// against it, else its opposite.
pub open spec fn facing_normal(direction: Vector, outward: Vector) -> Vector {
    if direction.dot(outward) < 0 {
        outward
    } else {
        outward.neg()
    }
}

/// How far, in raw units, the length of a stored normal may be from one
/// unit and still count as a unit normal.
pub const NORMAL_TOLERANCE: i64 = 5;

impl HitModel {
    /// Whether the normal has unit length up to rounding: its length is
    /// within `NORMAL_TOLERANCE` raw units of `SCALE`.
    pub open spec fn has_unit_normal(self) -> bool {
        (SCALE - NORMAL_TOLERANCE) * (SCALE - NORMAL_TOLERANCE) <= self.normal.norm_sq() <= (SCALE
            + NORMAL_TOLERANCE) * (SCALE + NORMAL_TOLERANCE)
    }

    /// The record with its normal turned to face a ray of the given
    /// direction, and `front_face` set to whether the ray came from outside.
    pub open spec fn face(self, direction: Vector, outward: Vector) -> HitModel {
        HitModel {
            normal: facing_normal(direction, outward),
            front_face: direction.dot(outward) < 0,
            ..self
        }
    }

    /// What holds of every hit of `ray` in `[t_min, t_max]`, whatever was
    /// struck. The parameter lies in the interval. The point lies on the
    /// ray between that parameter and the next, a thousandth on: the
    /// parameter is rounded down, the point is not taken from the rounded
    /// parameter. The normal has unit length up to rounding, never runs
    /// along the ray, and runs strictly against it where the front face was
    /// struck.
    pub open spec fn consistent(self, ray: RayModel, t_min: int, t_max: int) -> bool {
        &&& t_min <= self.t <= t_max
        &&& self.p.between(ray.at(self.t), ray.at(self.t + 1))
        &&& self.has_unit_normal()
        &&& ray.direction.dot(self.normal) <= 0
        &&& self.front_face ==> ray.direction.dot(self.normal) < 0
    }
}

/// Where a ray struck a surface.
#[derive(Clone, Copy, Debug, PartialEq, Eq, Structural)]
pub struct HitRecord {
    /// The ray parameter of the hit, rounded down.
    pub t: Fixed,
    /// Where the ray struck.
    pub p: Point3,
    /// The surface normal at `p`, turned to face the ray.
    pub normal: Vec3,
    /// The material of what was struck.
    pub mat: MaterialId,
    /// Whether the ray came from outside the surface.
    pub front_face: bool,
}

impl View for HitRecord {
    type V = HitModel;

    open spec fn view(&self) -> HitModel {
        HitModel {
            t: self.t@,
            p: self.p@,
            normal: self.normal@,
            mat: self.mat,
            front_face: self.front_face,
        }
    }
}

impl HitRecord {
    /// Stores the normal so that it faces the ray `r`, and records in
    /// `front_face` whether `outward_normal` itself did.
    pub fn set_face_normal(&mut self, r: &Ray, outward_normal: Vec3)
        requires
            r.dir@.within(SPAN as int),
            outward_normal@.within(SPAN as int),
        ensures
            final(self)@ == old(self)@.face(r@.direction, outward_normal@),
    {
        self.front_face = r.dir.dot(&outward_normal) < 0;
        self.normal = if self.front_face {
            outward_normal
        } else {
            outward_normal.neg()
        };
    }
}

/// The dot product with the facing normal is never positive, and is negative
/// exactly where the dot product with the outward normal is not zero.
pub proof fn lemma_facing_normal_opposes(direction: Vector, outward: Vector)
    ensures
        direction.dot(facing_normal(direction, outward)) <= 0,
        direction.dot(outward) < 0 ==> direction.dot(facing_normal(direction, outward)) < 0,
        direction.dot(facing_normal(direction, outward)) == 0 <==> direction.dot(outward) == 0,
{
    assert(direction.dot(outward.neg()) == -direction.dot(outward)) by (nonlinear_arith)
        requires
            direction.dot(outward.neg()) == direction.x * (-outward.x) + direction.y * (-outward.y)
                + direction.z * (-outward.z),
            direction.dot(outward) == direction.x * outward.x + direction.y * outward.y
                + direction.z * outward.z,
    ;
}

/// Whether an intersection test that handed back `res` has said what the
/// model says: no record where there is no hit, and else a record of that
/// very hit.
pub open spec fn realizes(res: Option<HitRecord>, model: Option<HitModel>) -> bool {
    match res {
        Some(rec) => model == Some(rec@),
        None => model is None,
    }
}

/// An intersection test is a function of its arguments: any two results that
/// realize the same model are the same, field by field.
pub proof fn lemma_result_is_determined(
    first: Option<HitRecord>,
    second: Option<HitRecord>,
    model: Option<HitModel>,
)
    requires
        realizes(first, model),
        realizes(second, model),
    ensures
        first == second,
{
    if first is Some {
        let a = first->0;
        let b = second->0;
        assert(a@ == b@);
        assert(a.t@ == b.t@ && a.p@ == b.p@ && a.normal@ == b.normal@);
        assert(a.p.x@ == b.p.x@ && a.p.y@ == b.p.y@ && a.p.z@ == b.p.z@);
        assert(a.normal.x@ == b.normal.x@ && a.normal.y@ == b.normal.y@ && a.normal.z@
            == b.normal.z@);
    }
}

/// Anything that a ray can strike.
pub trait Hit {
    /// Whether the primitive is one that `hit` accepts.
    spec fn valid(&self) -> bool;

    /// The nearest hit of `ray` with a parameter in `[t_min, t_max]`, if
    /// there is one.
    spec fn hit_model(&self, ray: RayModel, t_min: int, t_max: int) -> Option<HitModel>;

    /// Tests the ray against the primitive. The result is a function of the
    /// arguments and the primitive alone, and every record handed back is
    /// consistent with the ray and the interval.
    fn hit(&self, r: &Ray, t_min: Fixed, t_max: Fixed) -> (res: Option<HitRecord>)
        requires
            self.valid(),
            r@.valid(),
        ensures
            realizes(res, self.hit_model(r@, t_min@, t_max@)),
            res matches Some(rec) ==> rec@.consistent(r@, t_min@, t_max@),
    ;
}

} // verus!
