//! The per-particle state that every phase of a step reads or writes.

use vstd::prelude::*;
use crate::vector::Vec2;

verus! {

/// One simulated body.
#[derive(Clone, Copy, Debug, PartialEq, Eq, Structural)]
pub struct Particle {
    /// Positive in a body that is to pull others: one of mass zero is moved
    /// like any other and pulls nothing.
    pub mass: u32,
    pub position: Vec2,
    pub velocity: Vec2,
    /// The acceleration gathered by the most recent force evaluation.
    pub acceleration: Vec2,
    /// The acceleration gathered by the evaluation before that.
    pub acceleration_prev: Vec2,
    /// True until the particle has been through one integration.
    pub is_first_step: bool,
}

/// What the tree and the force evaluation read of a particle.
pub ghost struct Body {
    pub mass: u32,
    pub position: Vec2,
}

impl Particle {
    /// The mass and the position of the particle.
    pub open spec fn body(self) -> Body {
        Body { mass: self.mass, position: self.position }
    }

    /// A particle of the given mass at rest at `position`, not yet integrated.
    pub fn at_rest(mass: u32, position: Vec2) -> (p: Particle)
        ensures
            p == (Particle {
                mass,
                position,
                velocity: Vec2::zero(),
                acceleration: Vec2::zero(),
                acceleration_prev: Vec2::zero(),
                is_first_step: true,
            }),
    {
        Particle {
            mass,
            position,
            velocity: Vec2::zero(),
            acceleration: Vec2::zero(),
            acceleration_prev: Vec2::zero(),
            is_first_step: true,
        }
    }
}

impl Default for Particle {
    /// A particle of mass one at rest at the origin.
    fn default() -> (p: Particle)
        ensures
            p == (Particle {
                mass: 1,
                position: Vec2::zero(),
                velocity: Vec2::zero(),
                acceleration: Vec2::zero(),
                acceleration_prev: Vec2::zero(),
                is_first_step: true,
            }),
    {
        Particle {
            mass: 1,
            position: Vec2::zero(),
            velocity: Vec2::zero(),
            acceleration: Vec2::zero(),
            acceleration_prev: Vec2::zero(),
            is_first_step: true,
        }
    }
}

/// The masses and positions of a particle array.
pub open spec fn bodies(particles: Seq<Particle>) -> Seq<Body> {
    Seq::new(particles.len(), |k: int| particles[k].body())
}

} // verus!
