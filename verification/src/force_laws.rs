//! When the walk of the tree is exact: it then gives the sum of the pulls of
//! all other particles, each taken by itself.

use vstd::prelude::*;
use crate::bounds::{Bounds, lemma_quadrants_valid};
use crate::config::Config;
use crate::force::{attraction, far_enough, field, with_field};
use crate::particle::{Body, Particle, bodies};
use crate::simulation::evaluate_pass;
use crate::tree::{
    Content,
    QuadNode,
    QuadTree,
    canonical,
    indices,
    lemma_select_within,
    lemma_sum_partition,
    lemma_totals_bounded,
    members_within,
    select,
    sum_by,
    total_mass,
};
use crate::tree_laws::{
    apart,
    lemma_leaf_holds_one,
    lemma_select_apart,
    lemma_select_keeps_all,
};
use crate::vector::IntVec;

verus! {

/// The horizontal pull of each particle on the particle `index`; nothing
/// for that particle itself.
pub open spec fn direct_x(all: Seq<Body>, index: int, config: Config) -> spec_fn(usize) -> int {
    |j: usize|
        if j == index {
            0
        } else {
            attraction(
                config,
                all[j as int].mass as int,
                all[index].position,
                all[j as int].position,
            ).x
        }
}

/// The vertical pull of each particle on the particle `index`.
pub open spec fn direct_y(all: Seq<Body>, index: int, config: Config) -> spec_fn(usize) -> int {
    |j: usize|
        if j == index {
            0
        } else {
            attraction(
                config,
                all[j as int].mass as int,
                all[index].position,
                all[j as int].position,
            ).y
        }
}

/// The acceleration of the particle `index` by pairwise summation over the
/// particles in `members`.
pub open spec fn direct_field(
    all: Seq<Body>,
    members: Seq<usize>,
    index: int,
    config: Config,
) -> IntVec {
    IntVec {
        x: sum_by(members, direct_x(all, index, config)),
        y: sum_by(members, direct_y(all, index, config)),
    }
}

/// Every member has positive mass.
pub open spec fn members_massive(all: Seq<Body>, members: Seq<usize>) -> bool {
    forall|k: int| 0 <= k < members.len() ==> all[#[trigger] members[k] as int].mass > 0
}

/// Seen from the particle `index`, no branch at or below the node is far
/// enough to stand as one body.
pub open spec fn opens_every_branch(
    node: QuadNode,
    all: Seq<Body>,
    index: int,
    config: Config,
) -> bool
    decreases node,
{
    match node.content {
        Content::Branch(quadrants) => {
            &&& !far_enough(
                config,
                node.bounds.width as int,
                all[index].position,
                node.center_of_mass(),
            )
            &&& opens_every_branch(quadrants.top_right, all, index, config)
            &&& opens_every_branch(quadrants.top_left, all, index, config)
            &&& opens_every_branch(quadrants.bottom_left, all, index, config)
            &&& opens_every_branch(quadrants.bottom_right, all, index, config)
        },
        _ => true,
    }
}

proof fn lemma_massive_total(all: Seq<Body>, members: Seq<usize>)
    requires
        members_massive(all, members),
    ensures
        total_mass(all, members) >= members.len(),
    decreases members.len(),
{
    if members.len() > 0 {
        let rest = members.drop_last();
        assert forall|k: int| 0 <= k < rest.len() implies all[#[trigger] rest[k] as int].mass
            > 0 by {
            assert(rest[k] == members[k]);
        }
        lemma_massive_total(all, rest);
        assert(members[members.len() - 1] == members.last());
    }
}

proof fn lemma_select_massive(all: Seq<Body>, members: Seq<usize>, region: Bounds)
    requires
        members_massive(all, members),
    ensures
        members_massive(all, select(all, members, region)),
    decreases members.len(),
{
    if members.len() > 0 {
        let rest = members.drop_last();
        assert forall|k: int| 0 <= k < rest.len() implies all[#[trigger] rest[k] as int].mass
            > 0 by {
            assert(rest[k] == members[k]);
        }
        lemma_select_massive(all, rest, region);
        assert(members[members.len() - 1] == members.last());
    }
}

/// A walk that opens every branch gives the pairwise sum over the members,
/// if no two of them share a position.
pub proof fn lemma_open_walk_is_direct_sum(
    region: Bounds,
    all: Seq<Body>,
    members: Seq<usize>,
    index: int,
    config: Config,
)
    requires
        region.valid(),
        members_within(all, members, region),
        members.len() <= u32::MAX,
        members_massive(all, members),
        apart(all, members),
        opens_every_branch(canonical(region, all, members), all, index, config),
    ensures
        field(canonical(region, all, members), all, index, config) == direct_field(
            all,
            members,
            index,
            config,
        ),
    decreases region.span(),
{
    let node = canonical(region, all, members);
    lemma_leaf_holds_one(region, all, members);
    lemma_totals_bounded(all, members, region);
    lemma_massive_total(all, members);
    assert(members.len() * 0xffff_ffff <= 0xffff_ffff * 0xffff_ffff) by (nonlinear_arith)
        requires
            members.len() <= 0xffff_ffff,
    ;
    if members.len() == 0 {
    } else if members.len() == 1 || !region.splittable() {
        assert(members.len() == 1);
        assert(members.drop_last().len() == 0);
        assert(members.last() == members[0]);
        assert(sum_by(members.drop_last(), direct_x(all, index, config)) == 0);
        assert(sum_by(members.drop_last(), direct_y(all, index, config)) == 0);
        assert(sum_by(members.drop_last(), crate::tree::mass_at(all)) == 0);
        assert(node.aggregate_mass == all[members[0] as int].mass);
    } else {
        lemma_quadrants_valid(region);
        lemma_select_within(all, members, region.top_right());
        lemma_select_within(all, members, region.top_left());
        lemma_select_within(all, members, region.bottom_left());
        lemma_select_within(all, members, region.bottom_right());
        lemma_select_apart(all, members, region.top_right());
        lemma_select_apart(all, members, region.top_left());
        lemma_select_apart(all, members, region.bottom_left());
        lemma_select_apart(all, members, region.bottom_right());
        lemma_select_massive(all, members, region.top_right());
        lemma_select_massive(all, members, region.top_left());
        lemma_select_massive(all, members, region.bottom_left());
        lemma_select_massive(all, members, region.bottom_right());
        lemma_open_walk_is_direct_sum(
            region.top_right(),
            all,
            select(all, members, region.top_right()),
            index,
            config,
        );
        lemma_open_walk_is_direct_sum(
            region.top_left(),
            all,
            select(all, members, region.top_left()),
            index,
            config,
        );
        lemma_open_walk_is_direct_sum(
            region.bottom_left(),
            all,
            select(all, members, region.bottom_left()),
            index,
            config,
        );
        lemma_open_walk_is_direct_sum(
            region.bottom_right(),
            all,
            select(all, members, region.bottom_right()),
            index,
            config,
        );
        lemma_sum_partition(all, members, region, direct_x(all, index, config));
        lemma_sum_partition(all, members, region, direct_y(all, index, config));
    }
}

/// With an opening angle of zero the walk opens every branch.
pub proof fn lemma_zero_angle_opens_every_branch(
    region: Bounds,
    all: Seq<Body>,
    members: Seq<usize>,
    index: int,
    config: Config,
)
    requires
        region.valid(),
        members_within(all, members, region),
        config.opening_angle_theta.num == 0,
        config.opening_angle_theta.den > 0,
    ensures
        opens_every_branch(canonical(region, all, members), all, index, config),
    decreases region.span(),
{
    if members.len() >= 2 && region.splittable() {
        lemma_quadrants_valid(region);
        lemma_select_within(all, members, region.top_right());
        lemma_select_within(all, members, region.top_left());
        lemma_select_within(all, members, region.bottom_left());
        lemma_select_within(all, members, region.bottom_right());
        lemma_zero_angle_opens_every_branch(
            region.top_right(),
            all,
            select(all, members, region.top_right()),
            index,
            config,
        );
        lemma_zero_angle_opens_every_branch(
            region.top_left(),
            all,
            select(all, members, region.top_left()),
            index,
            config,
        );
        lemma_zero_angle_opens_every_branch(
            region.bottom_left(),
            all,
            select(all, members, region.bottom_left()),
            index,
            config,
        );
        lemma_zero_angle_opens_every_branch(
            region.bottom_right(),
            all,
            select(all, members, region.bottom_right()),
            index,
            config,
        );
        assert(region.contains(all[members[0] as int].position));
        let reach = region.width * config.opening_angle_theta.den;
        assert(reach * reach > 0) by (nonlinear_arith)
            requires
                reach == region.width * config.opening_angle_theta.den,
                region.width > 0,
                config.opening_angle_theta.den > 0,
        ;
    }
}

/// Exactness at zero opening angle. With `theta = 0`, what the walk of a
/// tree gathers for a particle is the pairwise sum over the particles in the
/// tree, if they have positive mass and no two of them share a position.
pub proof fn lemma_zero_angle_is_exact(tree: QuadTree, all: Seq<Body>, index: int, config: Config)
    requires
        tree.wf(all),
        members_massive(all, tree@),
        apart(all, tree@),
        config.opening_angle_theta.num == 0,
        config.opening_angle_theta.den > 0,
    ensures
        field(*tree.root(), all, index, config) == direct_field(all, tree@, index, config),
{
    lemma_zero_angle_opens_every_branch(tree.bounds(), all, tree@, index, config);
    lemma_open_walk_is_direct_sum(tree.bounds(), all, tree@, index, config);
}

/// Exactness at zero opening angle, for a whole pass. With `theta = 0`,
/// particles of positive mass that all lie in the domain, no two at the same
/// position, each gain in the evaluation of a step the pairwise sum of the
/// pulls of all the others.
pub proof fn lemma_zero_angle_pass_is_pairwise(particles: Seq<Particle>, config: Config)
    requires
        config.valid(),
        config.opening_angle_theta.num == 0,
        particles.len() <= u32::MAX,
        forall|k: int|
            0 <= k < particles.len() ==> (#[trigger] particles[k]).mass > 0
                && config.domain().contains(particles[k].position),
        forall|a: int, b: int|
            0 <= a < b < particles.len() ==> (#[trigger] particles[a]).position
                != (#[trigger] particles[b]).position,
    ensures
        forall|k: int|
            0 <= k < particles.len() ==> (#[trigger] evaluate_pass(particles, config)[k])
                == with_field(
                particles[k],
                direct_field(bodies(particles), indices(particles.len()), k, config),
            ),
{
    let all = bodies(particles);
    let everyone = indices(particles.len());
    let domain = config.domain();
    assert forall|k: int| 0 <= k < all.len() implies domain.contains(
        (#[trigger] all[k]).position,
    ) by {
        assert(all[k] == particles[k].body());
    }
    lemma_select_keeps_all(all, particles.len(), domain);
    assert(members_within(all, everyone, domain));
    assert(members_massive(all, everyone)) by {
        assert forall|k: int| 0 <= k < everyone.len() implies all[#[trigger] everyone[k] as int]
            .mass > 0 by {
            assert(all[k] == particles[k].body());
        }
    }
    assert(apart(all, everyone)) by {
        assert forall|a: int, b: int|
            0 <= a < b < everyone.len() implies all[#[trigger] everyone[a] as int].position
            != all[#[trigger] everyone[b] as int].position by {
            assert(all[a] == particles[a].body());
            assert(all[b] == particles[b].body());
        }
    }
    assert forall|k: int| 0 <= k < particles.len() implies (#[trigger] evaluate_pass(
        particles,
        config,
    )[k]) == with_field(particles[k], direct_field(all, everyone, k, config)) by {
        lemma_zero_angle_opens_every_branch(domain, all, everyone, k, config);
        lemma_open_walk_is_direct_sum(domain, all, everyone, k, config);
    }
}

/// Two-body reduction. In a tree of two particles at different positions,
/// what the walk gathers for one of them is the pull of the other alone,
/// whatever the opening angle, as long as the walk opens the branches that
/// hold both.
pub proof fn lemma_two_bodies(tree: QuadTree, all: Seq<Body>, config: Config)
    requires
        all.len() == 2,
        tree.wf(all),
        tree@ == seq![0usize, 1usize],
        all[0].position != all[1].position,
        all[0].mass > 0,
        all[1].mass > 0,
        opens_every_branch(*tree.root(), all, 0, config),
    ensures
        field(*tree.root(), all, 0, config) == attraction(
            config,
            all[1].mass as int,
            all[0].position,
            all[1].position,
        ),
{
    let members = tree@;
    lemma_open_walk_is_direct_sum(tree.bounds(), all, members, 0, config);
    let one = members.drop_last();
    assert(one =~= seq![0usize]);
    assert(one.drop_last() =~= Seq::<usize>::empty());
    assert(sum_by(one.drop_last(), direct_x(all, 0, config)) == 0);
    assert(sum_by(one.drop_last(), direct_y(all, 0, config)) == 0);
    assert(sum_by(one, direct_x(all, 0, config)) == 0);
    assert(sum_by(one, direct_y(all, 0, config)) == 0);
    assert(members.last() == 1usize);
}

} // verus!
