//! Two-dimensional integer vectors and the arithmetic shared by all phases.

use vstd::prelude::*;

verus! {

/// A point or displacement on the grid.
#[derive(Clone, Copy, Debug, PartialEq, Eq, Structural)]
pub struct Vec2 {
    pub x: i64,
    pub y: i64,
}

/// A two-dimensional quantity of unbounded size, used in specifications.
pub ghost struct IntVec {
    pub x: int,
    pub y: int,
}

impl IntVec {
    /// The quantity with both components zero.
    pub open spec fn zero() -> IntVec {
        IntVec { x: 0, y: 0 }
    }

    /// The sum, component by component.
    pub open spec fn plus(self, other: IntVec) -> IntVec {
        IntVec { x: self.x + other.x, y: self.y + other.y }
    }
}

/// The 64-bit value nearest to `v`.
pub open spec fn saturate(v: int) -> i64 {
    if v < i64::MIN {
        i64::MIN
    } else if v > i64::MAX {
        i64::MAX
    } else {
        v as i64
    }
}

/// Division that rounds toward zero, for a positive divisor.
pub open spec fn trunc_div(a: int, b: int) -> int {
    if a >= 0 {
        a / b
    } else {
        -((-a) / b)
    }
}

impl Vec2 {
    /// The vector with both components zero.
    pub open spec fn spec_zero() -> Vec2 {
        Vec2 { x: 0, y: 0 }
    }

    /// The vector with both components zero.
    #[verifier::when_used_as_spec(spec_zero)]
    pub fn zero() -> (v: Vec2)
        ensures
            v == Vec2::spec_zero(),
    {
        Vec2 { x: 0, y: 0 }
    }

    /// The vector with the given components.
    pub open spec fn spec_new(x: i64, y: i64) -> Vec2 {
        Vec2 { x, y }
    }

    /// The vector with the given components.
    #[verifier::when_used_as_spec(spec_new)]
    pub fn new(x: i64, y: i64) -> (v: Vec2)
        ensures
            v == Vec2::spec_new(x, y),
    {
        Vec2 { x, y }
    }

    /// Both components, saturated.
    pub open spec fn saturated(v: IntVec) -> Vec2 {
        Vec2 { x: saturate(v.x), y: saturate(v.y) }
    }
}

/// Stores a wide value in 64 bits, saturating at the bounds.
pub fn saturate_wide(v: i128) -> (r: i64)
    ensures
        r == saturate(v as int),
{
    if v < i64::MIN as i128 {
        i64::MIN
    } else if v > i64::MAX as i128 {
        i64::MAX
    } else {
        v as i64
    }
}

/// Truncating division of a wide value by a positive divisor.
pub fn divide_wide(a: i128, b: i128) -> (q: i128)
    requires
        b > 0,
    ensures
        q == trunc_div(a as int, b as int),
{
    a / b
}

} // verus!
