//! One step of the simulation, and the state that steps advance.

use vstd::prelude::*;
use crate::bounds::Bounds;
use crate::config::Config;
use crate::force::{evaluate_all, field_pass};
use crate::integrate::{
    integrate_all,
    integrate_pass,
    accepts_spawn,
    escaped,
    respawn_escaped,
    respawn_pass,
    spawn_allowed,
    spec_escaped,
};
use crate::particle::{Particle, bodies};
use crate::tree::{QuadNode, QuadTree, canonical, indices, select};
use crate::vector::Vec2;

verus! {

/// The root of the tree over `region` of the particles that lie in it.
pub open spec fn tree_of(region: Bounds, particles: Seq<Particle>) -> QuadNode {
    canonical(
        region,
        bodies(particles),
        select(bodies(particles), indices(particles.len()), region),
    )
}

/// The particles after each has gathered its acceleration from the tree
/// over all of them.
pub open spec fn evaluate_pass(particles: Seq<Particle>, config: Config) -> Seq<Particle> {
    field_pass(particles, tree_of(config.domain(), particles), config)
}

/// The particles after one step: those outside the domain return, every
/// particle gathers its acceleration from the tree over all of them, and
/// every particle is integrated.
pub open spec fn stepped(particles: Seq<Particle>, config: Config, spawns: Seq<Vec2>) -> Seq<
    Particle,
> {
    integrate_pass(
        evaluate_pass(respawn_pass(particles, config, spawns), config),
        config.timestep,
    )
}

/// Advances the particles by one time step.
///
/// The phases run one after the other: every particle outside the domain
/// returns, the particle `k` at the offset `spawns[k]` from the centre; the
/// tree is built over all particles; every particle gathers its acceleration
/// from the finished tree; every particle is integrated. The tree does not
/// outlive the step.
pub fn step(particles: &mut Vec<Particle>, config: &Config, spawns: &Vec<Vec2>)
    requires
        config.valid(),
        old(particles).len() <= u32::MAX,
        spawns.len() == old(particles).len(),
        forall|k: int|
            0 <= k < spawns.len() && spec_escaped(&old(particles)[k], config) ==> spawn_allowed(
                *config,
                #[trigger] spawns[k],
            ),
    ensures
        final(particles)@ == stepped(old(particles)@, *config, spawns@),
{
    respawn_escaped(particles, config, spawns);
    let tree = QuadTree::build(config.domain(), particles);
    evaluate_all(&tree, particles, config);
    integrate_all(particles, config.timestep);
}

/// A step neither makes nor destroys a particle and leaves every mass as it
/// was. After it every particle has been integrated: its acceleration is
/// cleared for the next evaluation and it is past its first step.
pub proof fn lemma_step_keeps_the_population(
    particles: Seq<Particle>,
    config: Config,
    spawns: Seq<Vec2>,
)
    ensures
        stepped(particles, config, spawns).len() == particles.len(),
        forall|k: int|
            0 <= k < particles.len() ==> {
                &&& (#[trigger] stepped(particles, config, spawns)[k]).mass == particles[k].mass
                &&& stepped(particles, config, spawns)[k].acceleration == Vec2::zero()
                &&& !stepped(particles, config, spawns)[k].is_first_step
            },
{
}

/// There is one offset for each particle, and the offset of every particle
/// outside the domain lies within the spawn radii.
pub open spec fn spawns_fit(particles: Seq<Particle>, config: Config, spawns: Seq<Vec2>) -> bool {
    &&& spawns.len() == particles.len()
    &&& forall|k: int|
        0 <= k < spawns.len() && spec_escaped(&particles[k], &config) ==> spawn_allowed(
            config,
            #[trigger] spawns[k],
        )
}

/// Whether the offsets can serve a step of these particles.
pub fn check_spawns(particles: &Vec<Particle>, config: &Config, spawns: &Vec<Vec2>) -> (ok: bool)
    ensures
        ok == spawns_fit(particles@, *config, spawns@),
{
    if spawns.len() != particles.len() {
        return false;
    }
    let mut k: usize = 0;
    while k < spawns.len()
        invariant
            k <= spawns.len(),
            spawns.len() == particles.len(),
            forall|j: int|
                0 <= j < k && spec_escaped(&particles[j], config) ==> spawn_allowed(
                    *config,
                    #[trigger] spawns[j],
                ),
        decreases spawns.len() - k,
    {
        if escaped(&particles[k], config) && !accepts_spawn(config, spawns[k]) {
            return false;
        }
        k = k + 1;
    }
    true
}

/// The particles of a run together with its constants. Its fields are
/// private: a run is made by [`Simulation::new`], which checks the constants
/// and the number of particles, and changed by [`Simulation::step`] alone.
pub struct Simulation {
    particles: Vec<Particle>,
    config: Config,
}

impl View for Simulation {
    type V = Seq<Particle>;

    closed spec fn view(&self) -> Seq<Particle> {
        self.particles@
    }
}

impl Simulation {
    /// The constants are valid and the particles are few enough for a tree.
    /// This holds of every run that [`Simulation::new`] has made.
    pub open spec fn wf(&self) -> bool {
        &&& self.config().valid()
        &&& self@.len() <= u32::MAX
    }

    /// The constants of the run.
    pub closed spec fn spec_config(&self) -> &Config {
        &self.config
    }

    /// The particles of the run.
    pub closed spec fn spec_particles(&self) -> &Vec<Particle> {
        &self.particles
    }

    /// A run of these particles under these constants, if the constants are
    /// valid and there are at most `u32::MAX` particles.
    pub fn new(config: Config, particles: Vec<Particle>) -> (made: Option<Simulation>)
        ensures
            made is Some <==> config.valid() && particles.len() <= u32::MAX,
            made matches Some(simulation) ==> simulation.wf() && simulation@ == particles@
                && *simulation.config() == config,
    {
        if config.is_valid() && particles.len() <= u32::MAX as usize {
            Some(Simulation { particles, config })
        } else {
            None
        }
    }

    /// The constants of the run.
    #[verifier::when_used_as_spec(spec_config)]
    pub fn config(&self) -> (config: &Config)
        ensures
            config == self.spec_config(),
    {
        &self.config
    }

    /// The particles as the last step left them.
    #[verifier::when_used_as_spec(spec_particles)]
    pub fn particles(&self) -> (particles: &Vec<Particle>)
        ensures
            particles == self.spec_particles(),
            particles@ == self@,
    {
        &self.particles
    }

    /// Advances the run by one time step if the offsets fit, and leaves it as
    /// it is if they do not. The phases of a step run in their order, each on
    /// all particles before the next begins.
    pub fn step(&mut self, spawns: &Vec<Vec2>) -> (advanced: bool)
        requires
            old(self).wf(),
        ensures
            final(self).wf(),
            final(self).config() == old(self).config(),
            advanced == spawns_fit(old(self)@, *old(self).config(), spawns@),
            final(self)@ == (if advanced {
                stepped(old(self)@, *old(self).config(), spawns@)
            } else {
                old(self)@
            }),
    {
        if !check_spawns(&self.particles, &self.config, spawns) {
            return false;
        }
        step(&mut self.particles, &self.config, spawns);
        true
    }
}

} // verus!
