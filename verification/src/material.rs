//! Handles to shading behaviour.

use vstd::prelude::*;

verus! {

/// The place of a material in the table of materials that the caller keeps.
/// Geometry stores such a handle and passes it on with every hit; it never
/// looks the material up. Any number of primitives and hit records may hold
/// the same handle.
#[derive(Clone, Copy, Debug, PartialEq, Eq, Structural)]
pub struct MaterialId {
    pub index: usize,
}

} // verus!
