//! The quadtree over the particles' positions, and its construction.
//!
//! A tree is described by the region it covers and the particles that were
//! inserted, in order. [`canonical`] is the tree of such a description; the
//! builder's contracts say that the tree it holds is that one.
//!
//! Regions are half-open, so a particle on the edge of the domain or on a
//! line along which a region is divided belongs to exactly one quadrant and
//! reaches a leaf like any other. Division ends at regions of one grid
//! point: particles at the same point share a leaf, which keeps the first of
//! them as its resident and counts all of them in its aggregates. The depth
//! of a tree is therefore bounded by the size of its region.

use vstd::prelude::*;
use crate::bounds::{Bounds, MAX_EXTENT, lemma_quadrants_valid, lemma_quadrants_tile};
use crate::particle::{Body, Particle, bodies};

verus! {

/// What a node holds.
#[derive(Debug, PartialEq, Eq)]
pub enum Content {
    /// No particle.
    Empty,
    /// The particle of this index. In a region that cannot be divided, the
    /// particles that came after it lie at the same point; they count in the
    /// node's aggregates and the first of them stays the resident.
    Occupied(usize),
    /// Four quadrants that tile the node's region.
    Branch(Box<Quadrants>),
}

/// The four children of a branch.
#[derive(Debug, PartialEq, Eq)]
pub struct Quadrants {
    pub top_right: QuadNode,
    pub top_left: QuadNode,
    pub bottom_left: QuadNode,
    pub bottom_right: QuadNode,
}

/// A sum of masses times positions, which outgrows the range of a position.
#[derive(Clone, Copy, Debug, PartialEq, Eq, Structural)]
pub struct Moment {
    pub x: u128,
    pub y: u128,
}

/// A node of the tree with the aggregates of the particles under it.
#[derive(Debug, PartialEq, Eq)]
pub struct QuadNode {
    pub bounds: Bounds,
    /// The sum of the masses of the particles under this node.
    pub aggregate_mass: u64,
    /// The sum of mass times position over those particles. Divided by the
    /// mass it gives the centre of mass.
    pub center_of_mass_weighted_sum: Moment,
    pub content: Content,
}

/// The sum of `f` over the entries of `members`.
pub open spec fn sum_by(members: Seq<usize>, f: spec_fn(usize) -> int) -> int
    decreases members.len(),
{
    if members.len() == 0 {
        0
    } else {
        sum_by(members.drop_last(), f) + f(members.last())
    }
}

/// The entries of `members` whose particle lies in `region`, in order.
pub open spec fn select(all: Seq<Body>, members: Seq<usize>, region: Bounds) -> Seq<usize>
    decreases members.len(),
{
    if members.len() == 0 {
        Seq::empty()
    } else if region.contains(all[members.last() as int].position) {
        select(all, members.drop_last(), region).push(members.last())
    } else {
        select(all, members.drop_last(), region)
    }
}

/// The mass of each particle.
pub open spec fn mass_at(all: Seq<Body>) -> spec_fn(usize) -> int {
    |j: usize| all[j as int].mass as int
}

/// The mass times the horizontal position of each particle.
pub open spec fn moment_x_at(all: Seq<Body>) -> spec_fn(usize) -> int {
    |j: usize| all[j as int].mass * all[j as int].position.x
}

/// The mass times the vertical position of each particle.
pub open spec fn moment_y_at(all: Seq<Body>) -> spec_fn(usize) -> int {
    |j: usize| all[j as int].mass * all[j as int].position.y
}

/// The sum of the masses of the particles in `members`.
pub open spec fn total_mass(all: Seq<Body>, members: Seq<usize>) -> int {
    sum_by(members, mass_at(all))
}

/// The sum of mass times horizontal position over the particles in `members`.
pub open spec fn total_moment_x(all: Seq<Body>, members: Seq<usize>) -> int {
    sum_by(members, moment_x_at(all))
}

/// The sum of mass times vertical position over the particles in `members`.
pub open spec fn total_moment_y(all: Seq<Body>, members: Seq<usize>) -> int {
    sum_by(members, moment_y_at(all))
}

/// Every entry of `members` is a particle that lies in `region`.
pub open spec fn members_within(all: Seq<Body>, members: Seq<usize>, region: Bounds) -> bool {
    forall|k: int|
        0 <= k < members.len() ==> (#[trigger] members[k]) < all.len() && region.contains(
            all[members[k] as int].position,
        )
}

/// The tree over `region` of the particles in `members`.
///
/// A node with no member is empty and one with a single member holds it.
/// A node with more members is a branch whose quadrants are the trees of the
/// members that lie in each, unless its region cannot be divided: then all
/// members lie at one point and the node holds the first of them.
pub open spec fn canonical(region: Bounds, all: Seq<Body>, members: Seq<usize>) -> QuadNode
    decreases region.span(),
{
    QuadNode {
        bounds: region,
        aggregate_mass: total_mass(all, members) as u64,
        center_of_mass_weighted_sum: Moment {
            x: total_moment_x(all, members) as u128,
            y: total_moment_y(all, members) as u128,
        },
        content: if members.len() == 0 {
            Content::Empty
        } else if members.len() == 1 || !region.splittable() {
            Content::Occupied(members[0])
        } else {
            Content::Branch(
                Box::new(
                    Quadrants {
                        top_right: canonical(
                            region.top_right(),
                            all,
                            select(all, members, region.top_right()),
                        ),
                        top_left: canonical(
                            region.top_left(),
                            all,
                            select(all, members, region.top_left()),
                        ),
                        bottom_left: canonical(
                            region.bottom_left(),
                            all,
                            select(all, members, region.bottom_left()),
                        ),
                        bottom_right: canonical(
                            region.bottom_right(),
                            all,
                            select(all, members, region.bottom_right()),
                        ),
                    },
                ),
            )
        },
    }
}

/// The quadrants of the branch over `region` of the particles in `members`.
pub open spec fn quadrants_of(region: Bounds, all: Seq<Body>, members: Seq<usize>) -> Quadrants {
    Quadrants {
        top_right: canonical(region.top_right(), all, select(all, members, region.top_right())),
        top_left: canonical(region.top_left(), all, select(all, members, region.top_left())),
        bottom_left: canonical(
            region.bottom_left(),
            all,
            select(all, members, region.bottom_left()),
        ),
        bottom_right: canonical(
            region.bottom_right(),
            all,
            select(all, members, region.bottom_right()),
        ),
    }
}

/// The indices `0, 1, .., n - 1`.
pub open spec fn indices(n: nat) -> Seq<usize> {
    Seq::new(n, |k: int| k as usize)
}

/// A sum over one more member has one more term.
pub proof fn lemma_sum_push(members: Seq<usize>, index: usize, f: spec_fn(usize) -> int)
    ensures
        sum_by(members.push(index), f) == sum_by(members, f) + f(index),
{
    assert(members.push(index).drop_last() =~= members);
}

/// One more member is selected if it lies in the region and left out if not.
pub proof fn lemma_select_push(all: Seq<Body>, members: Seq<usize>, index: usize, region: Bounds)
    ensures
        select(all, members.push(index), region) == if region.contains(
            all[index as int].position,
        ) {
            select(all, members, region).push(index)
        } else {
            select(all, members, region)
        },
{
    assert(members.push(index).drop_last() =~= members);
}

/// The selected members lie in the region they were selected by, and there
/// are no more of them than there were.
pub proof fn lemma_select_within(all: Seq<Body>, members: Seq<usize>, region: Bounds)
    requires
        forall|k: int| 0 <= k < members.len() ==> (#[trigger] members[k]) < all.len(),
    ensures
        members_within(all, select(all, members, region), region),
        select(all, members, region).len() <= members.len(),
    decreases members.len(),
{
    if members.len() > 0 {
        lemma_select_within(all, members.drop_last(), region);
    }
}

/// The aggregates of members that lie in a valid region fit their fields.
pub proof fn lemma_totals_bounded(all: Seq<Body>, members: Seq<usize>, region: Bounds)
    requires
        region.valid(),
        members_within(all, members, region),
    ensures
        0 <= total_mass(all, members) <= members.len() * 0xffff_ffff,
        0 <= total_moment_x(all, members) <= total_mass(all, members) * (MAX_EXTENT - 1),
        0 <= total_moment_y(all, members) <= total_mass(all, members) * (MAX_EXTENT - 1),
    decreases members.len(),
{
    if members.len() > 0 {
        let rest = members.drop_last();
        let j = members.last();
        assert(members[members.len() - 1] == j);
        lemma_totals_bounded(all, rest, region);
        let mass = all[j as int].mass as int;
        let x = all[j as int].position.x as int;
        let y = all[j as int].position.y as int;
        assert(0 <= mass * x <= mass * (MAX_EXTENT - 1)) by (nonlinear_arith)
            requires
                0 <= mass,
                0 <= x <= MAX_EXTENT - 1,
        ;
        assert(0 <= mass * y <= mass * (MAX_EXTENT - 1)) by (nonlinear_arith)
            requires
                0 <= mass,
                0 <= y <= MAX_EXTENT - 1,
        ;
        assert((total_mass(all, rest) + mass) * (MAX_EXTENT - 1) == total_mass(all, rest) * (
        MAX_EXTENT - 1) + mass * (MAX_EXTENT - 1)) by (nonlinear_arith);
        assert(rest.len() * 0xffff_ffff + 0xffff_ffff == members.len() * 0xffff_ffff)
            by (nonlinear_arith)
            requires
                rest.len() + 1 == members.len(),
        ;
    }
}

/// A sum over the members in a region is the sum of the sums over the
/// members in each of its quadrants.
pub proof fn lemma_sum_partition(
    all: Seq<Body>,
    members: Seq<usize>,
    region: Bounds,
    f: spec_fn(usize) -> int,
)
    requires
        region.valid(),
        members_within(all, members, region),
    ensures
        sum_by(members, f) == sum_by(select(all, members, region.top_right()), f) + sum_by(
            select(all, members, region.top_left()),
            f,
        ) + sum_by(select(all, members, region.bottom_left()), f) + sum_by(
            select(all, members, region.bottom_right()),
            f,
        ),
    decreases members.len(),
{
    if members.len() > 0 {
        let rest = members.drop_last();
        let j = members.last();
        assert(members[members.len() - 1] == j);
        assert(members =~= rest.push(j));
        lemma_sum_partition(all, rest, region, f);
        lemma_quadrants_tile(region, all[j as int].position);
        lemma_select_push(all, rest, j, region.top_right());
        lemma_select_push(all, rest, j, region.top_left());
        lemma_select_push(all, rest, j, region.bottom_left());
        lemma_select_push(all, rest, j, region.bottom_right());
        lemma_sum_push(select(all, rest, region.top_right()), j, f);
        lemma_sum_push(select(all, rest, region.top_left()), j, f);
        lemma_sum_push(select(all, rest, region.bottom_left()), j, f);
        lemma_sum_push(select(all, rest, region.bottom_right()), j, f);
    }
}

impl QuadNode {
    /// An empty node over `bounds`.
    pub fn empty(bounds: Bounds) -> (node: QuadNode)
        ensures
            node == (QuadNode {
                bounds,
                aggregate_mass: 0,
                center_of_mass_weighted_sum: Moment { x: 0, y: 0 },
                content: Content::Empty,
            }),
            forall|all: Seq<Body>| node == canonical(bounds, all, Seq::<usize>::empty()),
    {
        QuadNode {
            bounds,
            aggregate_mass: 0,
            center_of_mass_weighted_sum: Moment { x: 0, y: 0 },
            content: Content::Empty,
        }
    }
}

/// Hands the particle `index` to the quadrant that its position lies in.
fn descend(
    quadrants: &mut Quadrants,
    region: Bounds,
    index: usize,
    particles: &Vec<Particle>,
    Ghost(members): Ghost<Seq<usize>>,
)
    requires
        region.valid(),
        region.splittable(),
        index < particles.len(),
        region.contains(particles[index as int].position),
        *old(quadrants) == quadrants_of(region, bodies(particles@), members),
        members_within(bodies(particles@), members, region),
        members.len() < u32::MAX,
    ensures
        *final(quadrants) == quadrants_of(region, bodies(particles@), members.push(index)),
    decreases region.span(), 0nat,
{
    let position = particles[index].position;
    proof {
        let all = bodies(particles@);
        lemma_quadrants_valid(region);
        lemma_quadrants_tile(region, position);
        lemma_select_push(all, members, index, region.top_right());
        lemma_select_push(all, members, index, region.top_left());
        lemma_select_push(all, members, index, region.bottom_left());
        lemma_select_push(all, members, index, region.bottom_right());
        lemma_select_within(all, members, region.top_right());
        lemma_select_within(all, members, region.top_left());
        lemma_select_within(all, members, region.bottom_left());
        lemma_select_within(all, members, region.bottom_right());
    }
    if quadrants.top_right.bounds.contains(position) {
        insert_into(
            &mut quadrants.top_right,
            index,
            particles,
            Ghost(select(bodies(particles@), members, region.top_right())),
        );
    } else if quadrants.top_left.bounds.contains(position) {
        insert_into(
            &mut quadrants.top_left,
            index,
            particles,
            Ghost(select(bodies(particles@), members, region.top_left())),
        );
    } else if quadrants.bottom_left.bounds.contains(position) {
        insert_into(
            &mut quadrants.bottom_left,
            index,
            particles,
            Ghost(select(bodies(particles@), members, region.bottom_left())),
        );
    } else if quadrants.bottom_right.bounds.contains(position) {
        insert_into(
            &mut quadrants.bottom_right,
            index,
            particles,
            Ghost(select(bodies(particles@), members, region.bottom_right())),
        );
    }
}

/// Adds the particle `index` to the node and to every node below it on the
/// way to the leaf that takes it.
fn insert_into(
    node: &mut QuadNode,
    index: usize,
    particles: &Vec<Particle>,
    Ghost(members): Ghost<Seq<usize>>,
)
    requires
        old(node).bounds.valid(),
        index < particles.len(),
        old(node).bounds.contains(particles[index as int].position),
        *old(node) == canonical(old(node).bounds, bodies(particles@), members),
        members_within(bodies(particles@), members, old(node).bounds),
        members.len() < u32::MAX,
    ensures
        *final(node) == canonical(old(node).bounds, bodies(particles@), members.push(index)),
    decreases old(node).bounds.span(), 1nat,
{
    let region = node.bounds;
    let mass: u32 = particles[index].mass;
    let position = particles[index].position;
    proof {
        let all = bodies(particles@);
        lemma_totals_bounded(all, members, region);
        lemma_sum_push(members, index, mass_at(all));
        lemma_sum_push(members, index, moment_x_at(all));
        lemma_sum_push(members, index, moment_y_at(all));
        assert(members.len() * 0xffff_ffff <= 0xffff_fffe * 0xffff_ffff) by (nonlinear_arith)
            requires
                members.len() <= 0xffff_fffe,
        ;
        assert(total_mass(all, members) * (MAX_EXTENT - 1) <= 0xffff_fffe * 0xffff_ffff * (
        MAX_EXTENT - 1)) by (nonlinear_arith)
            requires
                total_mass(all, members) <= 0xffff_fffe * 0xffff_ffff,
        ;
        assert(0 <= mass * position.x <= 0xffff_ffff * (MAX_EXTENT - 1)) by (nonlinear_arith)
            requires
                0 <= mass <= 0xffff_ffff,
                0 <= position.x <= MAX_EXTENT - 1,
        ;
        assert(0 <= mass * position.y <= 0xffff_ffff * (MAX_EXTENT - 1)) by (nonlinear_arith)
            requires
                0 <= mass <= 0xffff_ffff,
                0 <= position.y <= MAX_EXTENT - 1,
        ;
    }
    node.aggregate_mass = node.aggregate_mass + mass as u64;
    let sum = node.center_of_mass_weighted_sum;
    node.center_of_mass_weighted_sum =
    Moment {
        x: sum.x + (mass as u128) * (position.x as u128),
        y: sum.y + (mass as u128) * (position.y as u128),
    };
    match &mut node.content {
        Content::Empty => {
            node.content = Content::Occupied(index);
        },
        Content::Occupied(resident) => {
            let first: usize = *resident;
            if region.splittable() {
                assert(members =~= Seq::<usize>::empty().push(first));
                let mut quadrants = Quadrants {
                    top_right: QuadNode::empty(region.top_right()),
                    top_left: QuadNode::empty(region.top_left()),
                    bottom_left: QuadNode::empty(region.bottom_left()),
                    bottom_right: QuadNode::empty(region.bottom_right()),
                };
                descend(&mut quadrants, region, first, particles, Ghost(Seq::empty()));
                descend(&mut quadrants, region, index, particles, Ghost(members));
                node.content = Content::Branch(Box::new(quadrants));
            }
        },
        Content::Branch(quadrants) => {
            descend(&mut **quadrants, region, index, particles, Ghost(members));
        },
    }
}

/// A quadtree under construction or built: a root node and, as its view, the
/// particles that were inserted, in order.
pub struct QuadTree {
    root: QuadNode,
    count: u32,
    members: Ghost<Seq<usize>>,
}

impl View for QuadTree {
    type V = Seq<usize>;

    closed spec fn view(&self) -> Seq<usize> {
        self.members@
    }
}

impl QuadTree {
    /// The root node.
    pub closed spec fn spec_root(&self) -> &QuadNode {
        &self.root
    }

    /// The number of particles in the tree.
    pub closed spec fn spec_len(&self) -> usize {
        self.count as usize
    }

    /// The region that the tree covers.
    pub open spec fn bounds(&self) -> Bounds {
        self.spec_root().bounds
    }

    /// The tree is the tree over its region of the particles in its view,
    /// all of which lie in that region.
    pub open spec fn wf(&self, all: Seq<Body>) -> bool {
        &&& self.bounds().valid()
        &&& self@.len() == self.spec_len()
        &&& self@.len() <= u32::MAX
        &&& members_within(all, self@, self.bounds())
        &&& *self.spec_root() == canonical(self.bounds(), all, self@)
    }

    /// A tree over `bounds` that holds no particle.
    pub fn new(bounds: Bounds) -> (tree: QuadTree)
        requires
            bounds.valid(),
        ensures
            tree.bounds() == bounds,
            tree@ == Seq::<usize>::empty(),
            forall|all: Seq<Body>| tree.wf(all),
    {
        QuadTree { root: QuadNode::empty(bounds), count: 0, members: Ghost(Seq::empty()) }
    }

    /// The root node.
    #[verifier::when_used_as_spec(spec_root)]
    pub fn root(&self) -> (node: &QuadNode)
        ensures
            node == self.spec_root(),
    {
        &self.root
    }

    /// The number of particles in the tree.
    #[verifier::when_used_as_spec(spec_len)]
    pub fn len(&self) -> (n: usize)
        ensures
            n == self.spec_len(),
    {
        self.count as usize
    }

    /// Inserts the particle `index` if its position lies in the tree's region
    /// and the tree holds fewer than `u32::MAX` particles; otherwise leaves
    /// the tree as it is. Only the tree changes.
    ///
    /// Every node on the way from the root to the leaf that takes the
    /// particle gains its mass and its mass times position. An empty leaf
    /// takes the particle; an occupied one is divided into four quadrants,
    /// and its resident and the new particle go each to the quadrant that
    /// holds its position.
    pub fn insert(&mut self, index: usize, particles: &Vec<Particle>) -> (inserted: bool)
        requires
            old(self).wf(bodies(particles@)),
            index < particles.len(),
        ensures
            final(self).wf(bodies(particles@)),
            final(self).bounds() == old(self).bounds(),
            inserted == (old(self).bounds().contains(particles[index as int].position) && old(
                self,
            )@.len() < u32::MAX),
            final(self)@ == (if inserted {
                old(self)@.push(index)
            } else {
                old(self)@
            }),
    {
        if self.count == u32::MAX || !self.root.bounds.contains(particles[index].position) {
            return false;
        }
        insert_into(&mut self.root, index, particles, Ghost(self.members@));
        self.members = Ghost(self.members@.push(index));
        self.count = self.count + 1;
        true
    }

    /// The tree over `bounds` of the particles that lie in it, inserted in
    /// the order of their indices.
    pub fn build(bounds: Bounds, particles: &Vec<Particle>) -> (tree: QuadTree)
        requires
            bounds.valid(),
            particles.len() <= u32::MAX,
        ensures
            tree.wf(bodies(particles@)),
            tree.bounds() == bounds,
            tree@ == select(bodies(particles@), indices(particles.len() as nat), bounds),
    {
        let mut tree = QuadTree::new(bounds);
        let mut i: usize = 0;
        while i < particles.len()
            invariant
                i <= particles.len() <= u32::MAX,
                tree.wf(bodies(particles@)),
                tree.bounds() == bounds,
                tree@ == select(bodies(particles@), indices(i as nat), bounds),
            decreases particles.len() - i,
        {
            proof {
                let all = bodies(particles@);
                assert(indices((i + 1) as nat) =~= indices(i as nat).push(i));
                lemma_select_push(all, indices(i as nat), i, bounds);
                assert forall|k: int| 0 <= k < indices(i as nat).len() implies (
                #[trigger] indices(i as nat)[k]) < all.len() by {}
                lemma_select_within(all, indices(i as nat), bounds);
            }
            tree.insert(i, particles);
            i = i + 1;
        }
        tree
    }
}

} // verus!
