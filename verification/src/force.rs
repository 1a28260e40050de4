//! The force evaluator: one walk of the tree per particle.
//!
//! A body of mass `m` at separation `r` pulls with
//! `G * m * r / d^3`, where `d` is the integer square root of
//! `|r|^2 + softening^2` and the division rounds toward zero.

use vstd::prelude::*;
use vstd::arithmetic::div_mod::{
    lemma_div_by_multiple,
    lemma_div_is_ordered,
    lemma_fundamental_div_mod,
    lemma_hoist_over_denominator,
};
use crate::bounds::{MAX_EXTENT, in_grid, lemma_quadrants_valid};
use crate::config::Config;
use crate::particle::{Body, Particle, bodies};
use crate::tree::{
    Content,
    QuadNode,
    QuadTree,
    canonical,
    lemma_select_within,
    lemma_sum_partition,
    lemma_totals_bounded,
    mass_at,
    members_within,
    quadrants_of,
    select,
    total_mass,
};
use crate::vector::{IntVec, Vec2, saturate_wide, trunc_div};

verus! {

/// `s` is the largest integer whose square is at most `n`.
pub open spec fn is_floor_sqrt(n: int, s: int) -> bool {
    &&& 0 <= s
    &&& s * s <= n < (s + 1) * (s + 1)
}

/// The integer square root of `n`.
pub open spec fn floor_sqrt(n: int) -> int {
    choose|s: int| is_floor_sqrt(n, s)
}

/// Every natural number has an integer square root.
pub proof fn lemma_floor_sqrt_exists(n: nat)
    ensures
        is_floor_sqrt(n as int, floor_sqrt(n as int)),
    decreases n,
{
    if n == 0 {
        assert(is_floor_sqrt(0, 0));
    } else {
        lemma_floor_sqrt_exists((n - 1) as nat);
        let s = floor_sqrt(n - 1);
        assert((s + 1) * (s + 1) < (s + 2) * (s + 2)) by (nonlinear_arith)
            requires
                0 <= s,
        ;
        if (s + 1) * (s + 1) <= n {
            assert(is_floor_sqrt(n as int, s + 1));
        } else {
            assert(is_floor_sqrt(n as int, s));
        }
    }
}

/// No number has two integer square roots.
pub proof fn lemma_floor_sqrt_unique(n: int, s: int, t: int)
    requires
        is_floor_sqrt(n, s),
        is_floor_sqrt(n, t),
    ensures
        s == t,
{
    assert(s < t ==> (s + 1) * (s + 1) <= t * t) by (nonlinear_arith)
        requires
            0 <= s,
            0 <= t,
    ;
    assert(t < s ==> (t + 1) * (t + 1) <= s * s) by (nonlinear_arith)
        requires
            0 <= s,
            0 <= t,
    ;
}

/// The integer square root.
pub fn isqrt(n: u64) -> (s: u32)
    ensures
        is_floor_sqrt(n as int, s as int),
        s == floor_sqrt(n as int),
{
    let mut low: u64 = 0;
    let mut high: u64 = 0x1_0000_0000;
    while high - low > 1
        invariant
            low < high <= 0x1_0000_0000,
            low * low <= n,
            n < high * high,
        decreases high - low,
    {
        let middle: u64 = low + (high - low) / 2;
        assert(middle * middle <= 0xffff_ffff * 0xffff_ffff) by (nonlinear_arith)
            requires
                0 <= middle <= 0xffff_ffff,
        ;
        if middle * middle <= n {
            low = middle;
        } else {
            high = middle;
        }
    }
    proof {
        lemma_floor_sqrt_unique(n as int, low as int, floor_sqrt(n as int));
    }
    low as u32
}

/// The squared distance between two points, softened.
pub open spec fn dist_sq(config: Config, from: Vec2, to: Vec2) -> int {
    (to.x - from.x) * (to.x - from.x) + (to.y - from.y) * (to.y - from.y)
        + config.softening_length * config.softening_length
}

/// One component of the pull of a mass at separation `r` along that
/// component and softened distance `d`.
pub open spec fn pull(g: int, mass: int, r: int, d: int) -> int {
    if d == 0 {
        0
    } else {
        trunc_div(g * mass * r, d * d * d)
    }
}

/// The acceleration at `from` due to a body of the given mass at `to`.
pub open spec fn attraction(config: Config, mass: int, from: Vec2, to: Vec2) -> IntVec {
    let d = floor_sqrt(dist_sq(config, from, to));
    IntVec {
        x: pull(config.gravitational_constant as int, mass, to.x - from.x, d),
        y: pull(config.gravitational_constant as int, mass, to.y - from.y, d),
    }
}

/// The opening-angle criterion: whether `width / d <= theta`, where `d` is
/// the softened distance between the two points. It is decided exactly, on
/// the squares.
pub open spec fn far_enough(config: Config, width: int, from: Vec2, to: Vec2) -> bool {
    (width * config.opening_angle_theta.den) * (width * config.opening_angle_theta.den) <= (
    config.opening_angle_theta.num * config.opening_angle_theta.num) * dist_sq(config, from, to)
}

impl QuadNode {
    /// The weighted sum of the positions over the mass, rounded down.
    pub open spec fn spec_center_of_mass(&self) -> Vec2 {
        Vec2 {
            x: (self.center_of_mass_weighted_sum.x as int / self.aggregate_mass as int) as i64,
            y: (self.center_of_mass_weighted_sum.y as int / self.aggregate_mass as int) as i64,
        }
    }

    /// The mass-weighted mean position of the particles under the node,
    /// rounded down to the grid. It lies on the grid if the particles do.
    #[verifier::when_used_as_spec(spec_center_of_mass)]
    pub fn center_of_mass(&self) -> (c: Vec2)
        requires
            self.aggregate_mass > 0,
        ensures
            c == self.spec_center_of_mass(),
            self.center_of_mass_weighted_sum.x <= self.aggregate_mass * (MAX_EXTENT - 1)
                && self.center_of_mass_weighted_sum.y <= self.aggregate_mass * (MAX_EXTENT - 1)
                ==> in_grid(c),
    {
        let mass: u128 = self.aggregate_mass as u128;
        proof {
            assert(self.aggregate_mass * (MAX_EXTENT - 1) == (MAX_EXTENT - 1) * mass)
                by (nonlinear_arith)
                requires
                    mass == self.aggregate_mass,
            ;
            if self.center_of_mass_weighted_sum.x <= self.aggregate_mass * (MAX_EXTENT - 1) {
                lemma_div_is_ordered(
                    self.center_of_mass_weighted_sum.x as int,
                    (MAX_EXTENT - 1) * mass,
                    mass as int,
                );
            }
            if self.center_of_mass_weighted_sum.y <= self.aggregate_mass * (MAX_EXTENT - 1) {
                lemma_div_is_ordered(
                    self.center_of_mass_weighted_sum.y as int,
                    (MAX_EXTENT - 1) * mass,
                    mass as int,
                );
            }
            lemma_div_by_multiple((MAX_EXTENT - 1) as int, mass as int);
        }
        Vec2 {
            x: (self.center_of_mass_weighted_sum.x / mass) as i64,
            y: (self.center_of_mass_weighted_sum.y / mass) as i64,
        }
    }
}

/// The acceleration that the walk of `node` gathers for the particle `index`.
///
/// An empty node gives nothing, and so does the leaf of the particle itself.
/// Another leaf pulls as a body of the node's mass at its resident's
/// position. A branch that is far enough pulls as one body of its mass at
/// its centre of mass; any other branch gives the sum of its four quadrants.
pub open spec fn field(node: QuadNode, all: Seq<Body>, index: int, config: Config) -> IntVec
    decreases node,
{
    let target = all[index].position;
    match node.content {
        Content::Empty => IntVec::zero(),
        Content::Occupied(resident) => if resident == index {
            IntVec::zero()
        } else {
            attraction(config, node.aggregate_mass as int, target, all[resident as int].position)
        },
        Content::Branch(quadrants) => if node.aggregate_mass == 0 {
            IntVec::zero()
        } else if far_enough(
            config,
            node.bounds.width as int,
            target,
            node.spec_center_of_mass(),
        ) {
            attraction(config, node.aggregate_mass as int, target, node.spec_center_of_mass())
        } else {
            field(quadrants.top_right, all, index, config).plus(
                field(quadrants.top_left, all, index, config),
            ).plus(field(quadrants.bottom_left, all, index, config)).plus(
                field(quadrants.bottom_right, all, index, config),
            )
        },
    }
}

/// The particle with the gathered acceleration added to its own.
pub open spec fn with_field(p: Particle, gathered: IntVec) -> Particle {
    Particle {
        acceleration: Vec2::saturated(
            IntVec { x: p.acceleration.x + gathered.x, y: p.acceleration.y + gathered.y },
        ),
        ..p
    }
}

proof fn lemma_sqrt_dominates(r: int, rest: int, d: int)
    requires
        0 <= rest,
        is_floor_sqrt(r * r + rest, d),
    ensures
        -d <= r <= d,
{
    assert(r > d ==> r * r >= (d + 1) * (d + 1)) by (nonlinear_arith)
        requires
            0 <= d,
    ;
    assert(r < -d ==> r * r >= (d + 1) * (d + 1)) by (nonlinear_arith)
        requires
            0 <= d,
    ;
}

fn pull_component(g: u64, mass: u64, r: i64, d: u32) -> (a: i128)
    requires
        g <= i64::MAX,
        -(d as int) <= r <= d,
    ensures
        a == pull(g as int, mass as int, r as int, d as int),
        -(g * mass) <= a <= g * mass,
{
    assert(0 <= g * mass <= 0x7fff_ffff_ffff_ffff * 0xffff_ffff_ffff_ffff) by (nonlinear_arith)
        requires
            0 <= g <= 0x7fff_ffff_ffff_ffff,
            0 <= mass <= 0xffff_ffff_ffff_ffff,
    ;
    if d == 0 {
        return 0;
    }
    let magnitude: u128 = if r >= 0 {
        r as u128
    } else {
        (-(r as i128)) as u128
    };
    let weight: u128 = (g as u128) * (mass as u128);
    assert(1 <= d * d <= 0xffff_ffff * 0xffff_ffff) by (nonlinear_arith)
        requires
            1 <= d <= 0xffff_ffff,
    ;
    let square: u128 = (d as u128) * (d as u128);
    assert(d <= square * d <= 0xffff_ffff * 0xffff_ffff * 0xffff_ffff) by (nonlinear_arith)
        requires
            1 <= d <= 0xffff_ffff,
            1 <= square <= 0xffff_ffff * 0xffff_ffff,
    ;
    let cube: u128 = square * (d as u128);
    let whole: u128 = weight / cube;
    let rest: u128 = weight % cube;
    proof {
        lemma_fundamental_div_mod(weight as int, cube as int);
        lemma_hoist_over_denominator(rest * magnitude, whole * magnitude, cube as nat);
        assert(rest * magnitude + whole * magnitude * cube == weight * magnitude)
            by (nonlinear_arith)
            requires
                weight == cube * whole + rest,
        ;
        assert(0 <= whole * magnitude <= weight) by (nonlinear_arith)
            requires
                weight == cube * whole + rest,
                0 <= rest,
                0 <= whole,
                0 <= magnitude <= cube,
        ;
        assert(0 <= rest * magnitude <= 0xffff_ffff * 0xffff_ffff * 0xffff_ffff * 0xffff_ffff)
            by (nonlinear_arith)
            requires
                0 <= rest <= 0xffff_ffff * 0xffff_ffff * 0xffff_ffff,
                0 <= magnitude <= 0xffff_ffff,
        ;
        assert(weight * magnitude <= weight * cube) by (nonlinear_arith)
            requires
                0 <= weight,
                0 <= magnitude <= cube,
        ;
        lemma_div_is_ordered(weight * magnitude, weight * cube, cube as int);
        lemma_div_by_multiple(weight as int, cube as int);
        assert((g * mass) * (-r) == -(g * mass * r)) by (nonlinear_arith);
        assert(r >= 0 ==> g * mass * r >= 0) by (nonlinear_arith)
            requires
                0 <= g * mass,
        ;
        assert(r < 0 ==> g * mass * r <= 0) by (nonlinear_arith)
            requires
                0 <= g * mass,
        ;
        assert(cube == d * d * d);
    }
    let scaled: u128 = whole * magnitude + (rest * magnitude) / cube;
    assert(scaled == (weight * magnitude) / (cube as int));
    if r >= 0 {
        scaled as i128
    } else {
        -(scaled as i128)
    }
}

/// The acceleration at `from` due to a body of the given mass at `to`.
pub fn attract(config: &Config, mass: u64, from: Vec2, to: Vec2) -> (a: (i128, i128))
    requires
        config.valid(),
        in_grid(from),
        in_grid(to),
    ensures
        (IntVec { x: a.0 as int, y: a.1 as int }) == attraction(*config, mass as int, from, to),
        -(config.gravitational_constant * mass) <= a.0 <= config.gravitational_constant * mass,
        -(config.gravitational_constant * mass) <= a.1 <= config.gravitational_constant * mass,
{
    let rx: i64 = to.x - from.x;
    let ry: i64 = to.y - from.y;
    let softening: u64 = config.softening_length as u64;
    assert(0 <= rx * rx <= 0x7fff_ffff * 0x7fff_ffff) by (nonlinear_arith)
        requires
            -0x7fff_ffff <= rx <= 0x7fff_ffff,
    ;
    assert(0 <= ry * ry <= 0x7fff_ffff * 0x7fff_ffff) by (nonlinear_arith)
        requires
            -0x7fff_ffff <= ry <= 0x7fff_ffff,
    ;
    assert(0 <= softening * softening <= 0x8000_0000 * 0x8000_0000) by (nonlinear_arith)
        requires
            0 <= softening <= 0x8000_0000,
    ;
    let square: u64 = (rx * rx) as u64 + (ry * ry) as u64 + softening * softening;
    let d: u32 = isqrt(square);
    proof {
        lemma_sqrt_dominates(rx as int, ry * ry + softening * softening, d as int);
        lemma_sqrt_dominates(ry as int, rx * rx + softening * softening, d as int);
    }
    let ax: i128 = pull_component(config.gravitational_constant, mass, rx, d);
    let ay: i128 = pull_component(config.gravitational_constant, mass, ry, d);
    (ax, ay)
}

/// Whether a node of the given width, seen from `from`, may stand as one
/// body at `to`.
pub fn is_far_enough(config: &Config, width: u32, from: Vec2, to: Vec2) -> (far: bool)
    requires
        config.valid(),
        width <= MAX_EXTENT,
        in_grid(from),
        in_grid(to),
    ensures
        far == far_enough(*config, width as int, from, to),
{
    let rx: i64 = to.x - from.x;
    let ry: i64 = to.y - from.y;
    let softening: u64 = config.softening_length as u64;
    assert(0 <= rx * rx <= 0x7fff_ffff * 0x7fff_ffff) by (nonlinear_arith)
        requires
            -0x7fff_ffff <= rx <= 0x7fff_ffff,
    ;
    assert(0 <= ry * ry <= 0x7fff_ffff * 0x7fff_ffff) by (nonlinear_arith)
        requires
            -0x7fff_ffff <= ry <= 0x7fff_ffff,
    ;
    assert(0 <= softening * softening <= 0x8000_0000 * 0x8000_0000) by (nonlinear_arith)
        requires
            0 <= softening <= 0x8000_0000,
    ;
    let square: u64 = (rx * rx) as u64 + (ry * ry) as u64 + softening * softening;
    let den: u64 = config.opening_angle_theta.den as u64;
    let num: u64 = config.opening_angle_theta.num as u64;
    assert(0 <= width * den <= 0x8000_0000 * 0xffff_ffff) by (nonlinear_arith)
        requires
            0 <= width <= 0x8000_0000,
            0 <= den <= 0xffff_ffff,
    ;
    let reach: u64 = (width as u64) * den;
    assert(0 <= reach * reach <= 0x8000_0000 * 0xffff_ffff * (0x8000_0000 * 0xffff_ffff))
        by (nonlinear_arith)
        requires
            0 <= reach <= 0x8000_0000 * 0xffff_ffff,
    ;
    assert(0 <= num * num <= 0xffff_ffff * 0xffff_ffff) by (nonlinear_arith)
        requires
            0 <= num <= 0xffff_ffff,
    ;
    let angle: u64 = num * num;
    assert(0 <= angle * square <= 0xffff_ffff_ffff_ffff * 0xffff_ffff_ffff_ffff)
        by (nonlinear_arith)
        requires
            0 <= angle <= 0xffff_ffff_ffff_ffff,
            0 <= square <= 0xffff_ffff_ffff_ffff,
    ;
    (reach as u128) * (reach as u128) <= (angle as u128) * (square as u128)
}

/// Walks the node for the particle `index`.
fn field_of(
    node: &QuadNode,
    index: usize,
    particles: &Vec<Particle>,
    config: &Config,
    Ghost(members): Ghost<Seq<usize>>,
) -> (a: (i128, i128))
    requires
        config.valid(),
        node.bounds.valid(),
        index < particles.len(),
        in_grid(particles[index as int].position),
        *node == canonical(node.bounds, bodies(particles@), members),
        members_within(bodies(particles@), members, node.bounds),
        members.len() <= u32::MAX,
    ensures
        (IntVec { x: a.0 as int, y: a.1 as int }) == field(
            *node,
            bodies(particles@),
            index as int,
            *config,
        ),
        -(config.gravitational_constant * node.aggregate_mass) <= a.0
            <= config.gravitational_constant * node.aggregate_mass,
        -(config.gravitational_constant * node.aggregate_mass) <= a.1
            <= config.gravitational_constant * node.aggregate_mass,
    decreases node,
{
    let ghost all = bodies(particles@);
    let target = particles[index].position;
    proof {
        lemma_totals_bounded(all, members, node.bounds);
        assert(members.len() * 0xffff_ffff <= 0xffff_ffff * 0xffff_ffff) by (nonlinear_arith)
            requires
                members.len() <= 0xffff_ffff,
        ;
        assert(total_mass(all, members) * (MAX_EXTENT - 1) <= 0xffff_ffff * 0xffff_ffff * (
        MAX_EXTENT - 1)) by (nonlinear_arith)
            requires
                total_mass(all, members) <= 0xffff_ffff * 0xffff_ffff,
        ;
        assert(0 <= config.gravitational_constant * node.aggregate_mass) by (nonlinear_arith);
    }
    match &node.content {
        Content::Empty => (0, 0),
        Content::Occupied(resident) => {
            if *resident == index {
                (0, 0)
            } else {
                assert(members[0] == *resident);
                attract(config, node.aggregate_mass, target, particles[*resident].position)
            }
        },
        Content::Branch(quadrants) => {
            if node.aggregate_mass == 0 {
                (0, 0)
            } else {
                let center = node.center_of_mass();
                if is_far_enough(config, node.bounds.width, target, center) {
                    attract(config, node.aggregate_mass, target, center)
                } else {
                    let ghost region = node.bounds;
                    proof {
                        assert(node.content == canonical(region, all, members).content);
                        assert(**quadrants == quadrants_of(region, all, members));
                        lemma_quadrants_valid(region);
                        lemma_select_within(all, members, region.top_right());
                        lemma_select_within(all, members, region.top_left());
                        lemma_select_within(all, members, region.bottom_left());
                        lemma_select_within(all, members, region.bottom_right());
                        lemma_sum_partition(all, members, region, mass_at(all));
                        lemma_totals_bounded(
                            all,
                            select(all, members, region.top_right()),
                            region.top_right(),
                        );
                        lemma_totals_bounded(
                            all,
                            select(all, members, region.top_left()),
                            region.top_left(),
                        );
                        lemma_totals_bounded(
                            all,
                            select(all, members, region.bottom_left()),
                            region.bottom_left(),
                        );
                        lemma_totals_bounded(
                            all,
                            select(all, members, region.bottom_right()),
                            region.bottom_right(),
                        );
                    }
                    let a = field_of(
                        &quadrants.top_right,
                        index,
                        particles,
                        config,
                        Ghost(select(all, members, region.top_right())),
                    );
                    let b = field_of(
                        &quadrants.top_left,
                        index,
                        particles,
                        config,
                        Ghost(select(all, members, region.top_left())),
                    );
                    let c = field_of(
                        &quadrants.bottom_left,
                        index,
                        particles,
                        config,
                        Ghost(select(all, members, region.bottom_left())),
                    );
                    let d = field_of(
                        &quadrants.bottom_right,
                        index,
                        particles,
                        config,
                        Ghost(select(all, members, region.bottom_right())),
                    );
                    proof {
                        let g = config.gravitational_constant as int;
                        let ma = quadrants.top_right.aggregate_mass as int;
                        let mb = quadrants.top_left.aggregate_mass as int;
                        let mc = quadrants.bottom_left.aggregate_mass as int;
                        let md = quadrants.bottom_right.aggregate_mass as int;
                        assert(ma + mb + mc + md == node.aggregate_mass);
                        assert(g * ma + g * mb + g * mc + g * md == g * node.aggregate_mass)
                            by (nonlinear_arith)
                            requires
                                ma + mb + mc + md == node.aggregate_mass,
                        ;
                        assert(g * ma >= 0 && g * mb >= 0 && g * mc >= 0 && g * md >= 0)
                            by (nonlinear_arith)
                            requires
                                g >= 0,
                                ma >= 0,
                                mb >= 0,
                                mc >= 0,
                                md >= 0,
                        ;
                        assert(g * node.aggregate_mass <= 0x7fff_ffff_ffff_ffff
                            * 0xffff_ffff_ffff_ffff) by (nonlinear_arith)
                            requires
                                0 <= g <= 0x7fff_ffff_ffff_ffff,
                                0 <= node.aggregate_mass <= 0xffff_ffff_ffff_ffff,
                        ;
                    }
                    (a.0 + b.0 + c.0 + d.0, a.1 + b.1 + c.1 + d.1)
                }
            }
        },
    }
}

/// Adds to the acceleration of the particle `index` what the walk of the
/// tree gathers for it. Nothing else changes.
pub fn accumulate_field(
    tree: &QuadTree,
    index: usize,
    particles: &mut Vec<Particle>,
    config: &Config,
)
    requires
        config.valid(),
        tree.wf(bodies(old(particles)@)),
        index < old(particles).len(),
        in_grid(old(particles)[index as int].position),
    ensures
        final(particles)@ == old(particles)@.update(
            index as int,
            with_field(
                old(particles)[index as int],
                field(*tree.root(), bodies(old(particles)@), index as int, *config),
            ),
        ),
{
    let gathered = field_of(tree.root(), index, particles, config, Ghost(tree@));
    assert(config.gravitational_constant * tree.root().aggregate_mass <= 0x7fff_ffff_ffff_ffff
        * 0xffff_ffff_ffff_ffff) by (nonlinear_arith)
        requires
            0 <= config.gravitational_constant <= 0x7fff_ffff_ffff_ffff,
            0 <= tree.root().aggregate_mass <= 0xffff_ffff_ffff_ffff,
    ;
    let mut p = particles[index];
    p.acceleration =
    Vec2 {
        x: saturate_wide(p.acceleration.x as i128 + gathered.0),
        y: saturate_wide(p.acceleration.y as i128 + gathered.1),
    };
    particles[index] = p;
}

/// The particles after each has gathered its acceleration from the tree
/// with the given root.
pub open spec fn field_pass(particles: Seq<Particle>, root: QuadNode, config: Config) -> Seq<
    Particle,
> {
    Seq::new(
        particles.len(),
        |k: int| with_field(particles[k], field(root, bodies(particles), k, config)),
    )
}

/// Gathers the acceleration of every particle from a tree that was built
/// over these particles. Positions and masses stay as they are.
pub fn evaluate_all(tree: &QuadTree, particles: &mut Vec<Particle>, config: &Config)
    requires
        config.valid(),
        tree.wf(bodies(old(particles)@)),
        forall|k: int|
            0 <= k < old(particles).len() ==> in_grid((#[trigger] old(particles)[k]).position),
    ensures
        final(particles)@ == field_pass(old(particles)@, *tree.root(), *config),
{
    let ghost all = bodies(old(particles)@);
    let mut i: usize = 0;
    while i < particles.len()
        invariant
            config.valid(),
            i <= particles.len(),
            particles.len() == old(particles).len(),
            all == bodies(old(particles)@),
            bodies(particles@) == all,
            tree.wf(all),
            forall|k: int|
                0 <= k < old(particles).len() ==> in_grid(
                    (#[trigger] old(particles)[k]).position,
                ),
            forall|k: int|
                0 <= k < i ==> particles[k] == with_field(
                    old(particles)[k],
                    field(*tree.root(), all, k, *config),
                ),
            forall|k: int| i <= k < particles.len() ==> particles[k] == old(particles)[k],
        decreases particles.len() - i,
    {
        assert(in_grid(old(particles)[i as int].position));
        accumulate_field(tree, i, particles, config);
        assert(bodies(particles@) =~= all);
        i = i + 1;
    }
    assert(particles@ =~= field_pass(old(particles)@, *tree.root(), *config));
}

} // verus!
