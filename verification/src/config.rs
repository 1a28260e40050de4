//! The constants of a run.

use vstd::prelude::*;
use crate::bounds::{Bounds, MAX_EXTENT};
use crate::vector::Vec2;

verus! {

/// A non-negative rational number `num / den`.
#[derive(Clone, Copy, Debug, PartialEq, Eq, Structural)]
pub struct Ratio {
    pub num: u32,
    pub den: u32,
}

/// The constants that a simulation step reads. Lengths are in grid units.
#[derive(Clone, Copy, Debug, PartialEq, Eq, Structural)]
pub struct Config {
    pub gravitational_constant: u64,
    /// A node is taken as one body when its width over its softened distance
    /// is at most this.
    pub opening_angle_theta: Ratio,
    pub softening_length: u32,
    pub domain_width: u32,
    pub domain_height: u32,
    pub timestep: Ratio,
    /// A particle that left the domain comes back at least this far from the
    /// domain's centre,
    pub spawn_radius_min: u32,
    /// and at most this far.
    pub spawn_radius_max: u32,
    /// The velocity of a particle that comes back is its offset from the
    /// centre, turned by a quarter and scaled by this.
    pub spawn_spin: Ratio,
}

impl Config {
    /// The constants are in the ranges that the arithmetic is proved for, and
    /// every point within the larger spawn radius of the centre lies in the
    /// domain.
    pub open spec fn valid(&self) -> bool {
        &&& self.gravitational_constant <= i64::MAX
        &&& self.opening_angle_theta.den > 0
        &&& self.softening_length <= MAX_EXTENT
        &&& self.domain_width <= MAX_EXTENT
        &&& self.domain_height <= MAX_EXTENT
        &&& self.timestep.den > 0
        &&& self.spawn_spin.den > 0
        &&& self.spawn_radius_min <= self.spawn_radius_max
        &&& self.spawn_radius_max <= self.domain_width / 2
        &&& self.domain_width / 2 + self.spawn_radius_max < self.domain_width
        &&& self.spawn_radius_max <= self.domain_height / 2
        &&& self.domain_height / 2 + self.spawn_radius_max < self.domain_height
    }

    /// The region that the simulation takes place in: it starts at the origin.
    pub open spec fn spec_domain(&self) -> Bounds {
        Bounds { left: 0, top: 0, width: self.domain_width, height: self.domain_height }
    }

    /// The centre of the domain, rounded down to the grid.
    pub open spec fn spec_center(&self) -> Vec2 {
        Vec2 { x: (self.domain_width / 2) as i64, y: (self.domain_height / 2) as i64 }
    }

    /// Whether the constants are valid.
    pub fn is_valid(&self) -> (ok: bool)
        ensures
            ok == self.valid(),
    {
        self.gravitational_constant <= i64::MAX as u64 && self.opening_angle_theta.den > 0
            && self.softening_length <= MAX_EXTENT && self.domain_width <= MAX_EXTENT
            && self.domain_height <= MAX_EXTENT && self.timestep.den > 0 && self.spawn_spin.den
            > 0 && self.spawn_radius_min <= self.spawn_radius_max && self.spawn_radius_max
            <= self.domain_width / 2 && (self.domain_width / 2) as u64
            + (self.spawn_radius_max as u64) < self.domain_width as u64 && self.spawn_radius_max
            <= self.domain_height / 2 && (self.domain_height / 2) as u64
            + (self.spawn_radius_max as u64) < self.domain_height as u64
    }

    /// The region that the simulation takes place in.
    #[verifier::when_used_as_spec(spec_domain)]
    pub fn domain(&self) -> (b: Bounds)
        ensures
            b == self.spec_domain(),
    {
        Bounds::from_origin(self.domain_width, self.domain_height)
    }

    /// The centre of the domain.
    #[verifier::when_used_as_spec(spec_center)]
    pub fn center(&self) -> (c: Vec2)
        ensures
            c == self.spec_center(),
    {
        Vec2 { x: (self.domain_width / 2) as i64, y: (self.domain_height / 2) as i64 }
    }
}

} // verus!
