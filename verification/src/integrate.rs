//! The integrator, and the return of particles that left the domain.
//!
//! The velocity takes a kick of half the time step times the sum of the last
//! two accelerations; the position then drifts by the new velocity times the
//! time step.
//!
//! The drift is of first order by choice. By the time the position moves,
//! the acceleration of the step has been put aside as the previous one and
//! cleared, so a term of half the acceleration times the squared time step
//! would add nothing; the position update does not carry one.
//!
//! All divisions round toward zero, and a component that leaves the 64-bit
//! range stays at the bound it crossed.

use vstd::prelude::*;
use crate::config::{Config, Ratio};
use crate::particle::Particle;
use crate::vector::{Vec2, divide_wide, saturate, saturate_wide, trunc_div};

verus! {

/// The velocity after the kick. A particle on its first step has no earlier
/// acceleration and keeps its velocity.
pub open spec fn kicked(p: Particle, dt: Ratio) -> Vec2 {
    if p.is_first_step {
        p.velocity
    } else {
        Vec2 {
            x: saturate(
                p.velocity.x + trunc_div(
                    (p.acceleration_prev.x + p.acceleration.x) * dt.num,
                    2 * dt.den,
                ),
            ),
            y: saturate(
                p.velocity.y + trunc_div(
                    (p.acceleration_prev.y + p.acceleration.y) * dt.num,
                    2 * dt.den,
                ),
            ),
        }
    }
}

/// The particle after one integration over the time step `dt`.
pub open spec fn integrated(p: Particle, dt: Ratio) -> Particle {
    let velocity = kicked(p, dt);
    Particle {
        mass: p.mass,
        position: Vec2 {
            x: saturate(p.position.x + trunc_div(velocity.x * dt.num, dt.den as int)),
            y: saturate(p.position.y + trunc_div(velocity.y * dt.num, dt.den as int)),
        },
        velocity,
        acceleration: Vec2::zero(),
        acceleration_prev: p.acceleration,
        is_first_step: false,
    }
}

/// The particles after each has been integrated.
pub open spec fn integrate_pass(particles: Seq<Particle>, dt: Ratio) -> Seq<Particle> {
    Seq::new(particles.len(), |k: int| integrated(particles[k], dt))
}

/// `value + amount * dt.num / divisor`, saturated.
fn advance_component(value: i64, amount: i128, dt_num: u32, divisor: u64) -> (r: i64)
    requires
        divisor > 0,
        -0x1_0000_0000_0000_0000 <= amount <= 0x1_0000_0000_0000_0000,
    ensures
        r == saturate(value + trunc_div(amount * dt_num, divisor as int)),
{
    assert(-0x1_0000_0000_0000_0000 * 0xffff_ffff <= amount * dt_num <= 0x1_0000_0000_0000_0000
        * 0xffff_ffff) by (nonlinear_arith)
        requires
            -0x1_0000_0000_0000_0000 <= amount <= 0x1_0000_0000_0000_0000,
            0 <= dt_num <= 0xffff_ffff,
    ;
    let scaled: i128 = amount * (dt_num as i128);
    let step: i128 = divide_wide(scaled, divisor as i128);
    proof {
        lemma_trunc_div_bounded(scaled as int, divisor as int);
    }
    saturate_wide(value as i128 + step)
}

/// Truncating division does not grow its dividend.
pub proof fn lemma_trunc_div_bounded(a: int, b: int)
    requires
        b > 0,
    ensures
        a >= 0 ==> 0 <= trunc_div(a, b) <= a,
        a <= 0 ==> a <= trunc_div(a, b) <= 0,
{
    if a >= 0 {
        vstd::arithmetic::div_mod::lemma_div_pos_is_pos(a, b);
        vstd::arithmetic::div_mod::lemma_div_nonincreasing(a, b);
    } else {
        vstd::arithmetic::div_mod::lemma_div_pos_is_pos(-a, b);
        vstd::arithmetic::div_mod::lemma_div_nonincreasing(-a, b);
    }
}

/// Advances one particle by the time step `dt`.
///
/// Unless this is the particle's first step, its velocity gains
/// `dt / 2 * (acceleration_prev + acceleration)`. The acceleration is then
/// kept as the previous one and cleared, and the position gains
/// `velocity * dt`.
pub fn integrate(p: &mut Particle, dt: Ratio)
    requires
        dt.den > 0,
    ensures
        *final(p) == integrated(*old(p), dt),
{
    if !p.is_first_step {
        p.velocity =
        Vec2 {
            x: advance_component(
                p.velocity.x,
                p.acceleration_prev.x as i128 + p.acceleration.x as i128,
                dt.num,
                2 * (dt.den as u64),
            ),
            y: advance_component(
                p.velocity.y,
                p.acceleration_prev.y as i128 + p.acceleration.y as i128,
                dt.num,
                2 * (dt.den as u64),
            ),
        };
    } else {
        p.is_first_step = false;
    }
    p.acceleration_prev = p.acceleration;
    p.acceleration = Vec2::zero();
    p.position =
    Vec2 {
        x: advance_component(p.position.x, p.velocity.x as i128, dt.num, dt.den as u64),
        y: advance_component(p.position.y, p.velocity.y as i128, dt.num, dt.den as u64),
    };
}

/// Integrates every particle.
pub fn integrate_all(particles: &mut Vec<Particle>, dt: Ratio)
    requires
        dt.den > 0,
    ensures
        final(particles)@ == integrate_pass(old(particles)@, dt),
{
    let mut i: usize = 0;
    while i < particles.len()
        invariant
            dt.den > 0,
            i <= particles.len(),
            particles.len() == old(particles).len(),
            forall|k: int| 0 <= k < i ==> particles[k] == integrated(old(particles)[k], dt),
            forall|k: int| i <= k < particles.len() ==> particles[k] == old(particles)[k],
        decreases particles.len() - i,
    {
        let mut p = particles[i];
        integrate(&mut p, dt);
        particles[i] = p;
        i = i + 1;
    }
    assert(particles@ =~= integrate_pass(old(particles)@, dt));
}

/// The offset lies within the spawn radii of the run.
pub open spec fn spawn_allowed(config: Config, offset: Vec2) -> bool {
    config.spawn_radius_min * config.spawn_radius_min <= offset.x * offset.x + offset.y
        * offset.y <= config.spawn_radius_max * config.spawn_radius_max
}

/// The particle's position is outside the domain.
pub open spec fn spec_escaped(p: &Particle, config: &Config) -> bool {
    !config.domain().contains(p.position)
}

/// The particle as it returns at `offset` from the centre of the domain: at
/// rest but for a turn about the centre, with no acceleration, and on its
/// first step again.
pub open spec fn respawned(p: Particle, config: Config, offset: Vec2) -> Particle {
    Particle {
        mass: p.mass,
        position: Vec2 {
            x: (config.center().x + offset.x) as i64,
            y: (config.center().y + offset.y) as i64,
        },
        velocity: Vec2 {
            x: saturate(
                trunc_div(-offset.y * config.spawn_spin.num, config.spawn_spin.den as int),
            ),
            y: saturate(trunc_div(offset.x * config.spawn_spin.num, config.spawn_spin.den as int)),
        },
        acceleration: Vec2::zero(),
        acceleration_prev: p.acceleration_prev,
        is_first_step: true,
    }
}

/// The particles after those outside the domain have returned, the particle
/// `k` at the offset `spawns[k]`.
pub open spec fn respawn_pass(particles: Seq<Particle>, config: Config, spawns: Seq<Vec2>) -> Seq<
    Particle,
> {
    Seq::new(
        particles.len(),
        |k: int|
            if spec_escaped(&particles[k], &config) {
                respawned(particles[k], config, spawns[k])
            } else {
                particles[k]
            },
    )
}

/// Whether the particle's position is outside the domain.
#[verifier::when_used_as_spec(spec_escaped)]
pub fn escaped(p: &Particle, config: &Config) -> (out: bool)
    ensures
        out == spec_escaped(p, config),
{
    !config.domain().contains(p.position)
}

/// Whether the offset lies within the spawn radii of the run.
pub fn accepts_spawn(config: &Config, offset: Vec2) -> (ok: bool)
    ensures
        ok == spawn_allowed(*config, offset),
{
    let limit: i64 = config.spawn_radius_max as i64;
    assert(offset.x > limit ==> offset.x * offset.x > limit * limit) by (nonlinear_arith)
        requires
            limit >= 0,
    ;
    assert(offset.x < -limit ==> offset.x * offset.x > limit * limit) by (nonlinear_arith)
        requires
            limit >= 0,
    ;
    assert(offset.y > limit ==> offset.y * offset.y > limit * limit) by (nonlinear_arith)
        requires
            limit >= 0,
    ;
    assert(offset.y < -limit ==> offset.y * offset.y > limit * limit) by (nonlinear_arith)
        requires
            limit >= 0,
    ;
    assert(offset.x * offset.x >= 0 && offset.y * offset.y >= 0) by (nonlinear_arith);
    if offset.x > limit || offset.x < -limit || offset.y > limit || offset.y < -limit {
        return false;
    }
    assert(0 <= offset.x * offset.x <= 0xffff_ffff * 0xffff_ffff) by (nonlinear_arith)
        requires
            -0xffff_ffff <= offset.x <= 0xffff_ffff,
    ;
    assert(0 <= offset.y * offset.y <= 0xffff_ffff * 0xffff_ffff) by (nonlinear_arith)
        requires
            -0xffff_ffff <= offset.y <= 0xffff_ffff,
    ;
    assert(0 <= limit * limit <= 0xffff_ffff * 0xffff_ffff) by (nonlinear_arith)
        requires
            0 <= limit <= 0xffff_ffff,
    ;
    assert(0 <= config.spawn_radius_min * config.spawn_radius_min <= 0xffff_ffff * 0xffff_ffff)
        by (nonlinear_arith)
        requires
            0 <= config.spawn_radius_min <= 0xffff_ffff,
    ;
    let radius: u128 = (offset.x as i128 * offset.x as i128) as u128 + (offset.y as i128
        * offset.y as i128) as u128;
    let low: u128 = (config.spawn_radius_min as u128) * (config.spawn_radius_min as u128);
    let high: u128 = (limit as u128) * (limit as u128);
    low <= radius && radius <= high
}

/// Brings a particle back into the domain at `offset` from its centre.
pub fn respawn(p: &mut Particle, config: &Config, offset: Vec2)
    requires
        config.valid(),
        spawn_allowed(*config, offset),
    ensures
        *final(p) == respawned(*old(p), *config, offset),
        config.domain().contains(final(p).position),
        final(p).position.x - config.center().x == offset.x,
        final(p).position.y - config.center().y == offset.y,
        final(p).is_first_step,
        final(p).acceleration == Vec2::zero(),
{
    let limit: i64 = config.spawn_radius_max as i64;
    assert(offset.x > limit ==> offset.x * offset.x > limit * limit) by (nonlinear_arith)
        requires
            limit >= 0,
    ;
    assert(offset.x < -limit ==> offset.x * offset.x > limit * limit) by (nonlinear_arith)
        requires
            limit >= 0,
    ;
    assert(offset.y > limit ==> offset.y * offset.y > limit * limit) by (nonlinear_arith)
        requires
            limit >= 0,
    ;
    assert(offset.y < -limit ==> offset.y * offset.y > limit * limit) by (nonlinear_arith)
        requires
            limit >= 0,
    ;
    assert(offset.x * offset.x >= 0 && offset.y * offset.y >= 0) by (nonlinear_arith);
    let center = config.center();
    p.position = Vec2 { x: center.x + offset.x, y: center.y + offset.y };
    p.velocity =
    Vec2 {
        x: advance_component(
            0,
            -(offset.y as i128),
            config.spawn_spin.num,
            config.spawn_spin.den as u64,
        ),
        y: advance_component(
            0,
            offset.x as i128,
            config.spawn_spin.num,
            config.spawn_spin.den as u64,
        ),
    };
    p.acceleration = Vec2::zero();
    p.is_first_step = true;
}

/// Brings back every particle that is outside the domain, the particle `k`
/// at the offset `spawns[k]`. Afterwards every particle is in the domain.
pub fn respawn_escaped(particles: &mut Vec<Particle>, config: &Config, spawns: &Vec<Vec2>)
    requires
        config.valid(),
        spawns.len() == old(particles).len(),
        forall|k: int|
            0 <= k < spawns.len() && spec_escaped(&old(particles)[k], config) ==> spawn_allowed(
                *config,
                #[trigger] spawns[k],
            ),
    ensures
        final(particles)@ == respawn_pass(old(particles)@, *config, spawns@),
        forall|k: int|
            0 <= k < final(particles).len() ==> config.domain().contains(
                (#[trigger] final(particles)[k]).position,
            ),
{
    let mut i: usize = 0;
    while i < particles.len()
        invariant
            config.valid(),
            i <= particles.len(),
            particles.len() == old(particles).len(),
            spawns.len() == particles.len(),
            forall|k: int|
                0 <= k < spawns.len() && spec_escaped(&old(particles)[k], config)
                    ==> spawn_allowed(*config, #[trigger] spawns[k]),
            forall|k: int|
                0 <= k < i ==> particles[k] == respawn_pass(
                    old(particles)@,
                    *config,
                    spawns@,
                )[k],
            forall|k: int|
                0 <= k < i ==> config.domain().contains((#[trigger] particles[k]).position),
            forall|k: int| i <= k < particles.len() ==> particles[k] == old(particles)[k],
        decreases particles.len() - i,
    {
        let mut p = particles[i];
        if escaped(&p, config) {
            respawn(&mut p, config, spawns[i]);
            particles[i] = p;
        }
        i = i + 1;
    }
    assert(particles@ =~= respawn_pass(old(particles)@, *config, spawns@));
}

} // verus!
