//! Fixed-point scalars.

use vstd::prelude::*;

verus! {

/// Raw units per whole unit: a [`Fixed`] counts thousandths.
pub const SCALE: i64 = 1000;

/// The largest magnitude, in raw units, of a coordinate or a radius that an
/// intersection test accepts. It keeps every intermediate product of the
/// quadratic formula inside 128 bits.
pub const LIMIT: i64 = 1_000_000;

/// A real number `raw / SCALE`, held as the integer `raw`.
#[derive(Clone, Copy, Debug, PartialEq, Eq, Structural)]
pub struct Fixed {
    pub raw: i64,
}

impl View for Fixed {
    type V = int;

    /// The number in raw units, as a mathematical integer.
    open spec fn view(&self) -> int {
        self.raw as int
    }
}

impl Fixed {
    /// The number `raw / SCALE`.
    pub fn from_raw(raw: i64) -> (f: Fixed)
        ensures
            f@ == raw,
    {
        Fixed { raw }
    }

    /// The number in raw units.
    pub fn raw(self) -> (raw: i64)
        ensures
            raw == self@,
    {
        self.raw
    }
}

} // verus!
