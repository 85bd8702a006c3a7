//! Ray/sphere intersection over fixed-point numbers, verified with Verus.
//!
//! Every scalar is a [`fixed::Fixed`]: an integer count of thousandths. The
//! decisions of an intersection test (is there a root, which root lies in the
//! interval) are taken in exact integer arithmetic. The numbers handed back
//! are rounded to thousandths, each of them once and from the root itself,
//! not from one another: the point lies within two thousandths of the exact
//! crossing and the normal has unit length within five, whatever the radius
//! and however long the direction of the ray.

pub mod arith;
pub mod fixed;
pub mod geometry;
pub mod hit;
pub mod laws;
pub mod material;
pub mod ray;
pub mod sphere;
pub mod surd;
pub mod vec3;
