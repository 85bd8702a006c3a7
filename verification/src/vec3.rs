//! Vectors of three fixed-point coordinates, and the integer vectors that
//! model them in contracts.

use vstd::prelude::*;
use crate::arith::lemma_binomial;
use crate::arith::lemma_product_bound;
use crate::fixed::Fixed;
use crate::fixed::SCALE;

verus! {

/// A vector of three integers: the raw coordinates of a [`Vec3`].
pub struct Vector {
    pub x: int,
    pub y: int,
    pub z: int,
}

impl Vector {
    /// The sum of the products of the coordinates. Of two vectors in raw
    /// units it is the dot product in units of `1 / SCALE^2`.
    pub open spec fn dot(self, other: Vector) -> int {
        self.x * other.x + self.y * other.y + self.z * other.z
    }

    /// The squared length.
    pub open spec fn norm_sq(self) -> int {
        self.dot(self)
    }

    pub open spec fn plus(self, other: Vector) -> Vector {
        Vector { x: self.x + other.x, y: self.y + other.y, z: self.z + other.z }
    }

    pub open spec fn minus(self, other: Vector) -> Vector {
        Vector { x: self.x - other.x, y: self.y - other.y, z: self.z - other.z }
    }

    pub open spec fn neg(self) -> Vector {
        Vector { x: -self.x, y: -self.y, z: -self.z }
    }

    /// Every coordinate multiplied by the integer `k`.
    pub open spec fn times(self, k: int) -> Vector {
        Vector { x: self.x * k, y: self.y * k, z: self.z * k }
    }

    /// The fixed-point product with the scalar `k`: every coordinate times
    /// `k / SCALE`, rounded down.
    pub open spec fn scale(self, k: int) -> Vector {
        Vector {
            x: (self.x * k) / (SCALE as int),
            y: (self.y * k) / (SCALE as int),
            z: (self.z * k) / (SCALE as int),
        }
    }

    /// Every coordinate divided by the positive integer `k`, rounded down.
    pub open spec fn over(self, k: int) -> Vector {
        Vector { x: self.x / k, y: self.y / k, z: self.z / k }
    }

    /// Whether every coordinate lies between the same coordinates of `a` and
    /// of `b`, these included, whichever of the two is the larger.
    pub open spec fn between(self, a: Vector, b: Vector) -> bool {
        &&& (a.x <= self.x <= b.x || b.x <= self.x <= a.x)
        &&& (a.y <= self.y <= b.y || b.y <= self.y <= a.y)
        &&& (a.z <= self.z <= b.z || b.z <= self.z <= a.z)
    }

    /// Whether every coordinate has magnitude at most `bound`.
    pub open spec fn within(self, bound: int) -> bool {
        &&& -bound <= self.x <= bound
        &&& -bound <= self.y <= bound
        &&& -bound <= self.z <= bound
    }
}

/// A vector or a point in space, in fixed-point coordinates.
#[derive(Clone, Copy, Debug, PartialEq, Eq, Structural)]
pub struct Vec3 {
    pub x: Fixed,
    pub y: Fixed,
    pub z: Fixed,
}

/// A position in space.
pub type Point3 = Vec3;

impl View for Vec3 {
    type V = Vector;

    open spec fn view(&self) -> Vector {
        Vector { x: self.x@, y: self.y@, z: self.z@ }
    }
}

/// The largest magnitude of a coordinate for which the arithmetic of
/// [`Vec3`] stays inside the machine integers: `2^62 - 1`.
pub const SPAN: i64 = 0x3fff_ffff_ffff_ffff;

impl Vec3 {
    pub fn new(x: Fixed, y: Fixed, z: Fixed) -> (v: Vec3)
        ensures
            v.x == x,
            v.y == y,
            v.z == z,
    {
        Vec3 { x, y, z }
    }

    /// The vector with the given raw coordinates.
    pub fn from_raw(x: i64, y: i64, z: i64) -> (v: Vec3)
        ensures
            v@ == (Vector { x: x as int, y: y as int, z: z as int }),
    {
        Vec3 { x: Fixed { raw: x }, y: Fixed { raw: y }, z: Fixed { raw: z } }
    }

    /// Tests whether every coordinate has magnitude at most `bound`.
    pub fn is_within(&self, bound: i64) -> (b: bool)
        requires
            bound > i64::MIN,
        ensures
            b == self@.within(bound as int),
    {
        -bound <= self.x.raw && self.x.raw <= bound && -bound <= self.y.raw && self.y.raw <= bound
            && -bound <= self.z.raw && self.z.raw <= bound
    }

    /// The exact dot product, in units of `1 / SCALE^2`.
    pub fn dot(&self, other: &Vec3) -> (d: i128)
        requires
            self@.within(SPAN as int),
            other@.within(SPAN as int),
        ensures
            d == self@.dot(other@),
    {
        let ax: i128 = self.x.raw as i128;
        let ay: i128 = self.y.raw as i128;
        let az: i128 = self.z.raw as i128;
        let bx: i128 = other.x.raw as i128;
        let by: i128 = other.y.raw as i128;
        let bz: i128 = other.z.raw as i128;
        proof {
            lemma_product_bound(ax as int, bx as int, SPAN as int, SPAN as int);
            lemma_product_bound(ay as int, by as int, SPAN as int, SPAN as int);
            lemma_product_bound(az as int, bz as int, SPAN as int, SPAN as int);
        }
        ax * bx + ay * by + az * bz
    }

    /// The difference of two vectors.
    pub fn minus(&self, other: &Vec3) -> (v: Vec3)
        requires
            self@.within(SPAN as int),
            other@.within(SPAN as int),
        ensures
            v@ == self@.minus(other@),
    {
        Vec3 {
            x: Fixed { raw: self.x.raw - other.x.raw },
            y: Fixed { raw: self.y.raw - other.y.raw },
            z: Fixed { raw: self.z.raw - other.z.raw },
        }
    }

    /// The opposite vector.
    pub fn neg(&self) -> (v: Vec3)
        requires
            self@.within(SPAN as int),
        ensures
            v@ == self@.neg(),
    {
        Vec3 {
            x: Fixed { raw: -self.x.raw },
            y: Fixed { raw: -self.y.raw },
            z: Fixed { raw: -self.z.raw },
        }
    }
}

/// A vector has positive squared length exactly when it is not zero.
pub proof fn lemma_norm_sq_positive(v: Vector)
    ensures
        v.norm_sq() >= 0,
        (v.norm_sq() > 0) == (v.x != 0 || v.y != 0 || v.z != 0),
{
    assert(v.x * v.x >= 0 && (v.x != 0 ==> v.x * v.x > 0)) by (nonlinear_arith);
    assert(v.y * v.y >= 0 && (v.y != 0 ==> v.y * v.y > 0)) by (nonlinear_arith);
    assert(v.z * v.z >= 0 && (v.z != 0 ==> v.z * v.z > 0)) by (nonlinear_arith);
}

/// The dot product of two bounded vectors is bounded.
pub proof fn lemma_dot_bound(u: Vector, v: Vector, bu: int, bv: int)
    requires
        u.within(bu),
        v.within(bv),
    ensures
        -(3 * (bu * bv)) <= u.dot(v) <= 3 * (bu * bv),
{
    lemma_product_bound(u.x, v.x, bu, bv);
    lemma_product_bound(u.y, v.y, bu, bv);
    lemma_product_bound(u.z, v.z, bu, bv);
}

/// The squared length of `u * s + v * t`, multiplied out.
pub proof fn lemma_combination_norm(u: Vector, v: Vector, s: int, t: int)
    ensures
        u.times(s).plus(v.times(t)).norm_sq() == s * s * u.norm_sq() + 2 * s * t * u.dot(v) + t * t
            * v.norm_sq(),
{
    lemma_binomial(u.x, v.x, s, t);
    lemma_binomial(u.y, v.y, s, t);
    lemma_binomial(u.z, v.z, s, t);
    let ss = s * s;
    let st = 2 * s * t;
    let tt = t * t;
    assert(ss * u.norm_sq() == ss * (u.x * u.x) + ss * (u.y * u.y) + ss * (u.z * u.z))
        by (nonlinear_arith)
        requires
            u.norm_sq() == u.x * u.x + u.y * u.y + u.z * u.z,
    ;
    assert(st * u.dot(v) == st * (u.x * v.x) + st * (u.y * v.y) + st * (u.z * v.z))
        by (nonlinear_arith)
        requires
            u.dot(v) == u.x * v.x + u.y * v.y + u.z * v.z,
    ;
    assert(tt * v.norm_sq() == tt * (v.x * v.x) + tt * (v.y * v.y) + tt * (v.z * v.z))
        by (nonlinear_arith)
        requires
            v.norm_sq() == v.x * v.x + v.y * v.y + v.z * v.z,
    ;
}

/// The square of a dot product is at most the product of the squared
/// lengths.
pub proof fn lemma_cauchy_schwarz(u: Vector, v: Vector)
    ensures
        u.dot(v) * u.dot(v) <= u.norm_sq() * v.norm_sq(),
{
    let a = v.norm_sq();
    let q = u.norm_sq();
    let h = u.dot(v);
    lemma_norm_sq_positive(v);
    lemma_norm_sq_positive(u);
    if a == 0 {
        assert(h == 0) by (nonlinear_arith)
            requires
                h == u.x * v.x + u.y * v.y + u.z * v.z,
                v.x == 0,
                v.y == 0,
                v.z == 0,
        ;
        assert(h * h <= q * a) by (nonlinear_arith)
            requires
                h == 0,
                a == 0,
        ;
    } else {
        // The squared length of u * a - v * h is a * (a * q - h * h).
        let z = u.times(a).plus(v.times(-h));
        lemma_combination_norm(u, v, a, -h);
        lemma_norm_sq_positive(z);
        assert(h * h <= q * a) by (nonlinear_arith)
            requires
                a > 0,
                a * a * q + 2 * a * (-h) * h + (-h) * (-h) * a >= 0,
        ;
    }
}

/// The squared length of a vector and of its opposite are the same.
pub proof fn lemma_neg_keeps_length(v: Vector)
    ensures
        v.neg().norm_sq() == v.norm_sq(),
{
    assert((-v.x) * (-v.x) == v.x * v.x) by (nonlinear_arith);
    assert((-v.y) * (-v.y) == v.y * v.y) by (nonlinear_arith);
    assert((-v.z) * (-v.z) == v.z * v.z) by (nonlinear_arith);
}

} // verus!
