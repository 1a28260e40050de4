//! Rectangular regions of the grid and their division into quadrants.

use vstd::prelude::*;
use crate::vector::Vec2;

verus! {

/// The largest coordinate, exclusive, that a region may reach.
pub const MAX_EXTENT: u32 = 0x8000_0000;

/// A region that holds the grid points `(x, y)` with
/// `left <= x < left + width` and `top <= y < top + height`.
///
/// The region is closed on its top and left edges and open on the other two,
/// so that the four quadrants of a region tile it: every point of the region
/// lies in exactly one of them, also a point on a dividing line.
#[derive(Clone, Copy, Debug, PartialEq, Eq, Structural)]
pub struct Bounds {
    pub left: u32,
    pub top: u32,
    pub width: u32,
    pub height: u32,
}

/// The point lies on the grid that regions are taken from.
pub open spec fn in_grid(p: Vec2) -> bool {
    &&& 0 <= p.x < MAX_EXTENT
    &&& 0 <= p.y < MAX_EXTENT
}

impl Bounds {
    /// The region ends within the grid.
    pub open spec fn valid(self) -> bool {
        &&& self.left + self.width <= MAX_EXTENT
        &&& self.top + self.height <= MAX_EXTENT
    }

    /// The point lies in the region.
    pub open spec fn spec_contains(&self, p: Vec2) -> bool {
        &&& self.left <= p.x < self.left + self.width
        &&& self.top <= p.y < self.top + self.height
    }

    /// A region of more than one grid point along some axis can be divided.
    pub open spec fn spec_splittable(&self) -> bool {
        self.width >= 2 || self.height >= 2
    }

    /// The measure by which quadrants are smaller than the region they divide.
    pub open spec fn span(self) -> nat {
        (self.width + self.height) as nat
    }

    /// The quadrant right of the vertical and above the horizontal dividing line.
    pub open spec fn spec_top_right(&self) -> Bounds {
        Bounds {
            left: (self.left + self.width / 2) as u32,
            top: self.top,
            width: (self.width - self.width / 2) as u32,
            height: self.height / 2,
        }
    }

    /// The quadrant left of the vertical and above the horizontal dividing line.
    pub open spec fn spec_top_left(&self) -> Bounds {
        Bounds { left: self.left, top: self.top, width: self.width / 2, height: self.height / 2 }
    }

    /// The quadrant left of the vertical and below the horizontal dividing line.
    pub open spec fn spec_bottom_left(&self) -> Bounds {
        Bounds {
            left: self.left,
            top: (self.top + self.height / 2) as u32,
            width: self.width / 2,
            height: (self.height - self.height / 2) as u32,
        }
    }

    /// The quadrant right of the vertical and below the horizontal dividing line.
    pub open spec fn spec_bottom_right(&self) -> Bounds {
        Bounds {
            left: (self.left + self.width / 2) as u32,
            top: (self.top + self.height / 2) as u32,
            width: (self.width - self.width / 2) as u32,
            height: (self.height - self.height / 2) as u32,
        }
    }

    /// The region of the given size whose top-left corner is the origin.
    pub fn from_origin(width: u32, height: u32) -> (b: Bounds)
        ensures
            b == (Bounds { left: 0, top: 0, width, height }),
    {
        Bounds { left: 0, top: 0, width, height }
    }

    /// Whether the region ends within the grid.
    pub fn is_valid(&self) -> (ok: bool)
        ensures
            ok == self.valid(),
    {
        self.left as u64 + self.width as u64 <= MAX_EXTENT as u64 && self.top as u64
            + self.height as u64 <= MAX_EXTENT as u64
    }

    /// Whether `p` lies in the region.
    #[verifier::when_used_as_spec(spec_contains)]
    pub fn contains(&self, p: Vec2) -> (inside: bool)
        ensures
            inside == self.spec_contains(p),
    {
        self.left as i64 <= p.x && p.x < self.left as i64 + self.width as i64 && self.top as i64
            <= p.y && p.y < self.top as i64 + self.height as i64
    }

    /// Whether the region can be divided into smaller quadrants.
    #[verifier::when_used_as_spec(spec_splittable)]
    pub fn splittable(&self) -> (yes: bool)
        ensures
            yes == self.spec_splittable(),
    {
        self.width >= 2 || self.height >= 2
    }

    /// The quadrant right of the vertical and above the horizontal dividing line.
    #[verifier::when_used_as_spec(spec_top_right)]
    pub fn top_right(&self) -> (q: Bounds)
        requires
            self.valid(),
        ensures
            q == self.spec_top_right(),
    {
        Bounds {
            left: self.left + self.width / 2,
            top: self.top,
            width: self.width - self.width / 2,
            height: self.height / 2,
        }
    }

    /// The quadrant left of the vertical and above the horizontal dividing line.
    #[verifier::when_used_as_spec(spec_top_left)]
    pub fn top_left(&self) -> (q: Bounds)
        ensures
            q == self.spec_top_left(),
    {
        Bounds { left: self.left, top: self.top, width: self.width / 2, height: self.height / 2 }
    }

    /// The quadrant left of the vertical and below the horizontal dividing line.
    #[verifier::when_used_as_spec(spec_bottom_left)]
    pub fn bottom_left(&self) -> (q: Bounds)
        requires
            self.valid(),
        ensures
            q == self.spec_bottom_left(),
    {
        Bounds {
            left: self.left,
            top: self.top + self.height / 2,
            width: self.width / 2,
            height: self.height - self.height / 2,
        }
    }

    /// The quadrant right of the vertical and below the horizontal dividing line.
    #[verifier::when_used_as_spec(spec_bottom_right)]
    pub fn bottom_right(&self) -> (q: Bounds)
        requires
            self.valid(),
        ensures
            q == self.spec_bottom_right(),
    {
        Bounds {
            left: self.left + self.width / 2,
            top: self.top + self.height / 2,
            width: self.width - self.width / 2,
            height: self.height - self.height / 2,
        }
    }
}

/// The quadrants of a valid region are valid, and each is smaller than the
/// region if the region can be divided.
pub proof fn lemma_quadrants_valid(b: Bounds)
    requires
        b.valid(),
    ensures
        b.top_right().valid(),
        b.top_left().valid(),
        b.bottom_left().valid(),
        b.bottom_right().valid(),
        b.splittable() ==> b.top_right().span() < b.span(),
        b.splittable() ==> b.top_left().span() < b.span(),
        b.splittable() ==> b.bottom_left().span() < b.span(),
        b.splittable() ==> b.bottom_right().span() < b.span(),
{
}

/// The four quadrants tile the region: a point of the region lies in exactly
/// one of them, and every point of a quadrant lies in the region.
pub proof fn lemma_quadrants_tile(b: Bounds, p: Vec2)
    requires
        b.valid(),
    ensures
        b.contains(p) <==> (b.top_right().contains(p) || b.top_left().contains(p)
            || b.bottom_left().contains(p) || b.bottom_right().contains(p)),
        !(b.top_right().contains(p) && b.top_left().contains(p)),
        !(b.top_right().contains(p) && b.bottom_left().contains(p)),
        !(b.top_right().contains(p) && b.bottom_right().contains(p)),
        !(b.top_left().contains(p) && b.bottom_left().contains(p)),
        !(b.top_left().contains(p) && b.bottom_right().contains(p)),
        !(b.bottom_left().contains(p) && b.bottom_right().contains(p)),
{
}

/// A region that cannot be divided holds at most one grid point.
pub proof fn lemma_undivided_is_one_point(b: Bounds, p: Vec2, q: Vec2)
    requires
        !b.splittable(),
        b.contains(p),
        b.contains(q),
    ensures
        p == q,
{
}

} // verus!
