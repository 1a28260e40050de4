//! What holds of every tree: conservation of the aggregates, the shape of
//! leaves and the bound on depth, and that a tree is determined by what was
//! inserted.

use vstd::prelude::*;
use crate::bounds::{
    Bounds,
    MAX_EXTENT,
    lemma_quadrants_tile,
    lemma_quadrants_valid,
    lemma_undivided_is_one_point,
};
use crate::particle::{Body, Particle, bodies};
use crate::simulation::tree_of;
use crate::tree::{
    Content,
    QuadNode,
    QuadTree,
    canonical,
    indices,
    lemma_select_push,
    lemma_select_within,
    lemma_sum_partition,
    lemma_totals_bounded,
    mass_at,
    members_within,
    moment_x_at,
    moment_y_at,
    quadrants_of,
    select,
    sum_by,
    total_mass,
    total_moment_x,
    total_moment_y,
};

verus! {

/// The larger of two numbers.
pub open spec fn larger(a: nat, b: nat) -> nat {
    if a >= b {
        a
    } else {
        b
    }
}

/// How often a length can be halved, rounding up, until it is at most one.
pub open spec fn halvings(n: nat) -> nat
    decreases n,
{
    if n <= 1 {
        0
    } else {
        1 + halvings((n - n / 2) as nat)
    }
}

/// No two entries of `members` are particles at the same position.
pub open spec fn apart(all: Seq<Body>, members: Seq<usize>) -> bool {
    forall|a: int, b: int|
        0 <= a < b < members.len() ==> all[#[trigger] members[a] as int].position
            != all[#[trigger] members[b] as int].position
}

impl QuadNode {
    /// The number of branches on the longest way from the node to a leaf.
    pub open spec fn depth(self) -> nat
        decreases self,
    {
        match self.content {
            Content::Branch(quadrants) => 1 + larger(
                larger(quadrants.top_right.depth(), quadrants.top_left.depth()),
                larger(quadrants.bottom_left.depth(), quadrants.bottom_right.depth()),
            ),
            _ => 0,
        }
    }

    /// At every branch at or below the node, the mass and the weighted sums
    /// are the sums of those of its four quadrants.
    pub open spec fn conserves_aggregates(self) -> bool
        decreases self,
    {
        match self.content {
            Content::Branch(quadrants) => {
                &&& self.aggregate_mass == quadrants.top_right.aggregate_mass
                    + quadrants.top_left.aggregate_mass + quadrants.bottom_left.aggregate_mass
                    + quadrants.bottom_right.aggregate_mass
                &&& self.center_of_mass_weighted_sum.x
                    == quadrants.top_right.center_of_mass_weighted_sum.x
                    + quadrants.top_left.center_of_mass_weighted_sum.x
                    + quadrants.bottom_left.center_of_mass_weighted_sum.x
                    + quadrants.bottom_right.center_of_mass_weighted_sum.x
                &&& self.center_of_mass_weighted_sum.y
                    == quadrants.top_right.center_of_mass_weighted_sum.y
                    + quadrants.top_left.center_of_mass_weighted_sum.y
                    + quadrants.bottom_left.center_of_mass_weighted_sum.y
                    + quadrants.bottom_right.center_of_mass_weighted_sum.y
                &&& quadrants.top_right.conserves_aggregates()
                &&& quadrants.top_left.conserves_aggregates()
                &&& quadrants.bottom_left.conserves_aggregates()
                &&& quadrants.bottom_right.conserves_aggregates()
            },
            _ => true,
        }
    }

    /// The number of leaves at or below the node whose resident is `index`.
    pub open spec fn leaves_with(self, index: usize) -> nat
        decreases self,
    {
        match self.content {
            Content::Empty => 0,
            Content::Occupied(resident) => if resident == index {
                1
            } else {
                0
            },
            Content::Branch(quadrants) => quadrants.top_right.leaves_with(index)
                + quadrants.top_left.leaves_with(index) + quadrants.bottom_left.leaves_with(index)
                + quadrants.bottom_right.leaves_with(index),
        }
    }
}

/// Mass conservation. The aggregates of the tree over a region are the sums
/// over the particles in it, and at every branch of the tree they are the
/// sums of the aggregates of the four quadrants.
pub proof fn lemma_mass_conservation(region: Bounds, all: Seq<Body>, members: Seq<usize>)
    requires
        region.valid(),
        members_within(all, members, region),
        members.len() <= u32::MAX,
    ensures
        canonical(region, all, members).aggregate_mass == total_mass(all, members),
        canonical(region, all, members).center_of_mass_weighted_sum.x == total_moment_x(
            all,
            members,
        ),
        canonical(region, all, members).center_of_mass_weighted_sum.y == total_moment_y(
            all,
            members,
        ),
        canonical(region, all, members).conserves_aggregates(),
    decreases region.span(),
{
    lemma_totals_bounded(all, members, region);
    assert(members.len() * 0xffff_ffff <= 0xffff_ffff * 0xffff_ffff) by (nonlinear_arith)
        requires
            members.len() <= 0xffff_ffff,
    ;
    assert(total_mass(all, members) * (MAX_EXTENT - 1) <= 0xffff_ffff * 0xffff_ffff * (MAX_EXTENT
        - 1)) by (nonlinear_arith)
        requires
            total_mass(all, members) <= 0xffff_ffff * 0xffff_ffff,
    ;
    if members.len() >= 2 && region.splittable() {
        lemma_quadrants_valid(region);
        lemma_select_within(all, members, region.top_right());
        lemma_select_within(all, members, region.top_left());
        lemma_select_within(all, members, region.bottom_left());
        lemma_select_within(all, members, region.bottom_right());
        lemma_mass_conservation(region.top_right(), all, select(all, members, region.top_right()));
        lemma_mass_conservation(region.top_left(), all, select(all, members, region.top_left()));
        lemma_mass_conservation(
            region.bottom_left(),
            all,
            select(all, members, region.bottom_left()),
        );
        lemma_mass_conservation(
            region.bottom_right(),
            all,
            select(all, members, region.bottom_right()),
        );
        lemma_sum_partition(all, members, region, mass_at(all));
        lemma_sum_partition(all, members, region, moment_x_at(all));
        lemma_sum_partition(all, members, region, moment_y_at(all));
    }
}

/// Selecting from all indices by a region that holds every particle keeps
/// all of them.
pub proof fn lemma_select_keeps_all(all: Seq<Body>, n: nat, region: Bounds)
    requires
        n <= all.len(),
        forall|k: int| 0 <= k < n ==> region.contains((#[trigger] all[k]).position),
    ensures
        select(all, indices(n), region) == indices(n),
    decreases n,
{
    if n > 0 {
        let shorter = (n - 1) as nat;
        lemma_select_keeps_all(all, shorter, region);
        assert(indices(n).drop_last() =~= indices(shorter));
        assert(indices(shorter).push((n - 1) as usize) =~= indices(n));
    } else {
        assert(indices(n) =~= Seq::<usize>::empty());
    }
}

/// After a build over particles that all lie in the region, the mass of the
/// root is the sum of the masses of all particles, and every branch
/// conserves its aggregates.
pub proof fn lemma_built_tree_conserves_mass(tree: QuadTree, particles: Seq<Particle>)
    requires
        tree.wf(bodies(particles)),
        tree@ == select(bodies(particles), indices(particles.len()), tree.bounds()),
        forall|k: int|
            0 <= k < particles.len() ==> tree.bounds().contains(
                (#[trigger] particles[k]).position,
            ),
    ensures
        tree.root().aggregate_mass == total_mass(bodies(particles), indices(particles.len())),
        tree.root().conserves_aggregates(),
{
    let all = bodies(particles);
    assert forall|k: int| 0 <= k < particles.len() implies tree.bounds().contains(
        (#[trigger] all[k]).position,
    ) by {
        assert(all[k] == particles[k].body());
    }
    lemma_select_keeps_all(all, particles.len(), tree.bounds());
    lemma_mass_conservation(tree.bounds(), all, tree@);
}

/// The tree of a node's members holds them in a leaf only if there is one
/// of them, or if the region cannot be divided and all of them lie at its
/// one point. If no two members share a position, no leaf holds more than
/// one particle.
pub proof fn lemma_leaf_holds_one(region: Bounds, all: Seq<Body>, members: Seq<usize>)
    requires
        members_within(all, members, region),
    ensures
        canonical(region, all, members).content is Empty <==> members.len() == 0,
        canonical(region, all, members).content is Occupied ==> canonical(
            region,
            all,
            members,
        ).content == Content::Occupied(members[0]) && (members.len() == 1 || !region.splittable()),
        canonical(region, all, members).content is Occupied ==> forall|k: int|
            0 <= k < members.len() ==> all[#[trigger] members[k] as int].position
                == all[members[0] as int].position,
        canonical(region, all, members).content is Occupied && apart(all, members)
            ==> members.len() == 1,
{
    if canonical(region, all, members).content is Occupied {
        assert forall|k: int| 0 <= k < members.len() implies all[#[trigger] members[k] as int]
            .position == all[members[0] as int].position by {
            if members.len() > 1 {
                lemma_undivided_is_one_point(
                    region,
                    all[members[k] as int].position,
                    all[members[0] as int].position,
                );
            }
        }
        if apart(all, members) && members.len() > 1 {
            assert(all[members[0] as int].position != all[members[1] as int].position);
        }
    }
}

/// A shorter length is halved no more often than a longer one.
pub proof fn lemma_halvings_monotonic(a: nat, b: nat)
    requires
        a <= b,
    ensures
        halvings(a) <= halvings(b),
    decreases b,
{
    if a > 1 {
        lemma_halvings_monotonic((a - a / 2) as nat, (b - b / 2) as nat);
    }
}

/// The depth of a tree is bounded by the size of its region alone: each
/// level halves the larger side.
pub proof fn lemma_depth_bounded(region: Bounds, all: Seq<Body>, members: Seq<usize>)
    ensures
        canonical(region, all, members).depth() <= halvings(
            larger(region.width as nat, region.height as nat),
        ),
        canonical(region, all, members).depth() <= 32,
    decreases region.span(),
{
    let side = larger(region.width as nat, region.height as nat);
    if members.len() >= 2 && region.splittable() {
        let half = (side - side / 2) as nat;
        lemma_depth_bounded(region.top_right(), all, select(all, members, region.top_right()));
        lemma_depth_bounded(region.top_left(), all, select(all, members, region.top_left()));
        lemma_depth_bounded(region.bottom_left(), all, select(all, members, region.bottom_left()));
        lemma_depth_bounded(
            region.bottom_right(),
            all,
            select(all, members, region.bottom_right()),
        );
        lemma_halvings_monotonic(
            larger(region.top_right().width as nat, region.top_right().height as nat),
            half,
        );
        lemma_halvings_monotonic(
            larger(region.top_left().width as nat, region.top_left().height as nat),
            half,
        );
        lemma_halvings_monotonic(
            larger(region.bottom_left().width as nat, region.bottom_left().height as nat),
            half,
        );
        lemma_halvings_monotonic(
            larger(region.bottom_right().width as nat, region.bottom_right().height as nat),
            half,
        );
    }
    lemma_halvings_monotonic(side, 0xffff_ffff);
    assert(halvings(0xffff_ffff) == 32) by {
        reveal_with_fuel(halvings, 34);
    }
}

/// A member is selected by a region exactly if its particle lies there.
pub proof fn lemma_select_contains(
    all: Seq<Body>,
    members: Seq<usize>,
    region: Bounds,
    index: usize,
)
    ensures
        select(all, members, region).contains(index) <==> members.contains(index)
            && region.contains(all[index as int].position),
    decreases members.len(),
{
    if members.len() > 0 {
        let rest = members.drop_last();
        let last = members.last();
        lemma_select_contains(all, rest, region, index);
        let chosen = select(all, rest, region);
        if members.contains(index) {
            let k = choose|k: int| 0 <= k < members.len() && members[k] == index;
            if k < rest.len() {
                assert(rest[k] == index);
            }
        }
        if rest.contains(index) {
            let k = choose|k: int| 0 <= k < rest.len() && rest[k] == index;
            assert(members[k] == index);
        }
        assert(members[members.len() - 1] == last);
        if region.contains(all[last as int].position) {
            assert(chosen.push(last)[chosen.len() as int] == last);
            if chosen.contains(index) {
                let k = choose|k: int| 0 <= k < chosen.len() && chosen[k] == index;
                assert(chosen.push(last)[k] == index);
            }
            if chosen.push(last).contains(index) {
                let k = choose|k: int|
                    0 <= k < chosen.push(last).len() && chosen.push(last)[k] == index;
                if k < chosen.len() {
                    assert(chosen[k] == index);
                }
            }
        }
    }
}

/// Members that lie apart still do after a selection.
pub proof fn lemma_select_apart(all: Seq<Body>, members: Seq<usize>, region: Bounds)
    requires
        apart(all, members),
    ensures
        apart(all, select(all, members, region)),
    decreases members.len(),
{
    if members.len() > 0 {
        let rest = members.drop_last();
        let last = members.last();
        assert forall|a: int, b: int| 0 <= a < b < rest.len() implies all[#[trigger] rest[a] as int]
            .position != all[#[trigger] rest[b] as int].position by {
            assert(rest[a] == members[a] && rest[b] == members[b]);
        }
        lemma_select_apart(all, rest, region);
        let chosen = select(all, rest, region);
        if region.contains(all[last as int].position) {
            let longer = chosen.push(last);
            assert forall|a: int, b: int|
                0 <= a < b < longer.len() implies all[#[trigger] longer[a] as int].position
                != all[#[trigger] longer[b] as int].position by {
                if b < chosen.len() {
                    assert(longer[a] == chosen[a] && longer[b] == chosen[b]);
                } else {
                    assert(longer[a] == chosen[a]);
                    assert(chosen.contains(chosen[a]));
                    lemma_select_contains(all, rest, region, chosen[a]);
                    let k = choose|k: int| 0 <= k < rest.len() && rest[k] == chosen[a];
                    assert(members[k] == chosen[a]);
                    assert(members[members.len() - 1] == last);
                }
            }
        }
    }
}

/// A particle that is no member is the resident of no leaf.
pub proof fn lemma_absent_has_no_leaf(
    region: Bounds,
    all: Seq<Body>,
    members: Seq<usize>,
    index: usize,
)
    requires
        !members.contains(index),
    ensures
        canonical(region, all, members).leaves_with(index) == 0,
    decreases region.span(),
{
    if members.len() == 0 {
    } else if members.len() == 1 || !region.splittable() {
        assert(members.contains(members[0]));
    } else {
        lemma_select_contains(all, members, region.top_right(), index);
        lemma_select_contains(all, members, region.top_left(), index);
        lemma_select_contains(all, members, region.bottom_left(), index);
        lemma_select_contains(all, members, region.bottom_right(), index);
        lemma_absent_has_no_leaf(
            region.top_right(),
            all,
            select(all, members, region.top_right()),
            index,
        );
        lemma_absent_has_no_leaf(
            region.top_left(),
            all,
            select(all, members, region.top_left()),
            index,
        );
        lemma_absent_has_no_leaf(
            region.bottom_left(),
            all,
            select(all, members, region.bottom_left()),
            index,
        );
        lemma_absent_has_no_leaf(
            region.bottom_right(),
            all,
            select(all, members, region.bottom_right()),
            index,
        );
    }
}

/// Every member has its leaf. Among members that lie apart, each is the
/// resident of exactly one leaf of the tree, also one whose position is on
/// the edge of the region or on a line along which a region is divided.
pub proof fn lemma_member_has_one_leaf(
    region: Bounds,
    all: Seq<Body>,
    members: Seq<usize>,
    index: usize,
)
    requires
        region.valid(),
        members_within(all, members, region),
        apart(all, members),
        members.contains(index),
    ensures
        canonical(region, all, members).leaves_with(index) == 1,
    decreases region.span(),
{
    let k = choose|k: int| 0 <= k < members.len() && members[k] == index;
    lemma_leaf_holds_one(region, all, members);
    if members.len() == 1 || !region.splittable() {
    } else {
        let position = all[index as int].position;
        lemma_quadrants_valid(region);
        lemma_quadrants_tile(region, position);
        lemma_select_contains(all, members, region.top_right(), index);
        lemma_select_contains(all, members, region.top_left(), index);
        lemma_select_contains(all, members, region.bottom_left(), index);
        lemma_select_contains(all, members, region.bottom_right(), index);
        lemma_select_apart(all, members, region.top_right());
        lemma_select_apart(all, members, region.top_left());
        lemma_select_apart(all, members, region.bottom_left());
        lemma_select_apart(all, members, region.bottom_right());
        lemma_select_within(all, members, region.top_right());
        lemma_select_within(all, members, region.top_left());
        lemma_select_within(all, members, region.bottom_left());
        lemma_select_within(all, members, region.bottom_right());
        if region.top_right().contains(position) {
            lemma_member_has_one_leaf(
                region.top_right(),
                all,
                select(all, members, region.top_right()),
                index,
            );
        } else {
            lemma_absent_has_no_leaf(
                region.top_right(),
                all,
                select(all, members, region.top_right()),
                index,
            );
        }
        if region.top_left().contains(position) {
            lemma_member_has_one_leaf(
                region.top_left(),
                all,
                select(all, members, region.top_left()),
                index,
            );
        } else {
            lemma_absent_has_no_leaf(
                region.top_left(),
                all,
                select(all, members, region.top_left()),
                index,
            );
        }
        if region.bottom_left().contains(position) {
            lemma_member_has_one_leaf(
                region.bottom_left(),
                all,
                select(all, members, region.bottom_left()),
                index,
            );
        } else {
            lemma_absent_has_no_leaf(
                region.bottom_left(),
                all,
                select(all, members, region.bottom_left()),
                index,
            );
        }
        if region.bottom_right().contains(position) {
            lemma_member_has_one_leaf(
                region.bottom_right(),
                all,
                select(all, members, region.bottom_right()),
                index,
            );
        } else {
            lemma_absent_has_no_leaf(
                region.bottom_right(),
                all,
                select(all, members, region.bottom_right()),
                index,
            );
        }
    }
}

/// How far a node has come: empty, then occupied, then divided.
pub open spec fn stage(content: Content) -> nat {
    match content {
        Content::Empty => 0,
        Content::Occupied(_) => 1,
        Content::Branch(_) => 2,
    }
}

impl QuadNode {
    /// No node at or below `earlier` has gone back a stage in `self`, the
    /// node over the same region at a later time.
    pub open spec fn grown_from(self, earlier: QuadNode) -> bool
        decreases earlier,
    {
        &&& stage(earlier.content) <= stage(self.content)
        &&& match (earlier.content, self.content) {
            (Content::Branch(before), Content::Branch(after)) => {
                &&& after.top_right.grown_from(before.top_right)
                &&& after.top_left.grown_from(before.top_left)
                &&& after.bottom_left.grown_from(before.bottom_left)
                &&& after.bottom_right.grown_from(before.bottom_right)
            },
            _ => true,
        }
    }

    /// The two nodes cover the same region with the same aggregates, both
    /// are empty, both are leaves or both are branches, and the same holds of
    /// their quadrants.
    pub open spec fn same_aggregates(self, other: QuadNode) -> bool
        decreases self,
    {
        &&& self.bounds == other.bounds
        &&& self.aggregate_mass == other.aggregate_mass
        &&& self.center_of_mass_weighted_sum == other.center_of_mass_weighted_sum
        &&& match (self.content, other.content) {
            (Content::Empty, Content::Empty) => true,
            (Content::Occupied(_), Content::Occupied(_)) => true,
            (Content::Branch(mine), Content::Branch(theirs)) => {
                &&& mine.top_right.same_aggregates(theirs.top_right)
                &&& mine.top_left.same_aggregates(theirs.top_left)
                &&& mine.bottom_left.same_aggregates(theirs.bottom_left)
                &&& mine.bottom_right.same_aggregates(theirs.bottom_right)
            },
            _ => false,
        }
    }
}

/// An insertion takes no node back: an empty node stays empty or becomes
/// occupied, an occupied one stays so or is divided, and a branch stays a
/// branch.
pub proof fn lemma_nodes_never_revert(
    region: Bounds,
    all: Seq<Body>,
    members: Seq<usize>,
    index: usize,
)
    ensures
        canonical(region, all, members.push(index)).grown_from(canonical(region, all, members)),
    decreases region.span(),
{
    if members.len() >= 2 && region.splittable() {
        lemma_select_push(all, members, index, region.top_right());
        lemma_select_push(all, members, index, region.top_left());
        lemma_select_push(all, members, index, region.bottom_left());
        lemma_select_push(all, members, index, region.bottom_right());
        lemma_nodes_never_revert(
            region.top_right(),
            all,
            select(all, members, region.top_right()),
            index,
        );
        lemma_nodes_never_revert(
            region.top_left(),
            all,
            select(all, members, region.top_left()),
            index,
        );
        lemma_nodes_never_revert(
            region.bottom_left(),
            all,
            select(all, members, region.bottom_left()),
            index,
        );
        lemma_nodes_never_revert(
            region.bottom_right(),
            all,
            select(all, members, region.bottom_right()),
            index,
        );
        let quadrants = quadrants_of(region, all, members);
        lemma_grown_from_itself(quadrants.top_right);
        lemma_grown_from_itself(quadrants.top_left);
        lemma_grown_from_itself(quadrants.bottom_left);
        lemma_grown_from_itself(quadrants.bottom_right);
    }
}

proof fn lemma_grown_from_itself(node: QuadNode)
    ensures
        node.grown_from(node),
    decreases node,
{
    match node.content {
        Content::Branch(quadrants) => {
            lemma_grown_from_itself(quadrants.top_right);
            lemma_grown_from_itself(quadrants.top_left);
            lemma_grown_from_itself(quadrants.bottom_left);
            lemma_grown_from_itself(quadrants.bottom_right);
        },
        _ => {},
    }
}

/// How often `index` occurs in `members`.
pub open spec fn occurrences(members: Seq<usize>, index: usize) -> nat
    decreases members.len(),
{
    if members.len() == 0 {
        0
    } else {
        occurrences(members.drop_last(), index) + if members.last() == index {
            1nat
        } else {
            0nat
        }
    }
}

/// The two sequences hold the same particles, in whatever order.
pub open spec fn same_members(first: Seq<usize>, second: Seq<usize>) -> bool {
    forall|index: usize| #[trigger] occurrences(first, index) == occurrences(second, index)
}

proof fn lemma_occurs_somewhere(members: Seq<usize>, index: usize)
    requires
        occurrences(members, index) > 0,
    ensures
        exists|k: int| 0 <= k < members.len() && members[k] == index,
    decreases members.len(),
{
    if members.last() == index {
        assert(members[members.len() - 1] == index);
    } else {
        lemma_occurs_somewhere(members.drop_last(), index);
        let rest = members.drop_last();
        let k = choose|k: int| 0 <= k < rest.len() && rest[k] == index;
        assert(members[k] == index);
    }
}

proof fn lemma_remove_occurrences(members: Seq<usize>, k: int, index: usize)
    requires
        0 <= k < members.len(),
    ensures
        occurrences(members, index) == occurrences(members.remove(k), index) + if members[k]
            == index {
            1nat
        } else {
            0nat
        },
    decreases members.len(),
{
    if k == members.len() - 1 {
        assert(members.remove(k) =~= members.drop_last());
    } else {
        lemma_remove_occurrences(members.drop_last(), k, index);
        assert(members.remove(k).drop_last() =~= members.drop_last().remove(k));
        assert(members.remove(k).last() == members.last());
    }
}

proof fn lemma_remove_sum(members: Seq<usize>, k: int, f: spec_fn(usize) -> int)
    requires
        0 <= k < members.len(),
    ensures
        sum_by(members, f) == sum_by(members.remove(k), f) + f(members[k]),
    decreases members.len(),
{
    if k == members.len() - 1 {
        assert(members.remove(k) =~= members.drop_last());
    } else {
        lemma_remove_sum(members.drop_last(), k, f);
        assert(members.remove(k).drop_last() =~= members.drop_last().remove(k));
        assert(members.remove(k).last() == members.last());
    }
}

/// A sum over members does not depend on their order, nor does their number.
pub proof fn lemma_sum_permuted(first: Seq<usize>, second: Seq<usize>, f: spec_fn(usize) -> int)
    requires
        same_members(first, second),
    ensures
        sum_by(first, f) == sum_by(second, f),
        first.len() == second.len(),
    decreases first.len(),
{
    if first.len() == 0 {
        if second.len() > 0 {
            assert(occurrences(first, second.last()) == occurrences(second, second.last()));
        }
    } else {
        let last = first.last();
        assert(occurrences(first, last) == occurrences(second, last));
        lemma_occurs_somewhere(second, last);
        let k = choose|k: int| 0 <= k < second.len() && second[k] == last;
        let rest = second.remove(k);
        assert forall|index: usize| #[trigger]
            occurrences(first.drop_last(), index) == occurrences(rest, index) by {
            lemma_remove_occurrences(second, k, index);
            assert(occurrences(first, index) == occurrences(second, index));
        }
        lemma_sum_permuted(first.drop_last(), rest, f);
        lemma_remove_sum(second, k, f);
    }
}

proof fn lemma_select_occurrences(
    all: Seq<Body>,
    members: Seq<usize>,
    region: Bounds,
    index: usize,
)
    ensures
        occurrences(select(all, members, region), index) == if region.contains(
            all[index as int].position,
        ) {
            occurrences(members, index)
        } else {
            0
        },
    decreases members.len(),
{
    if members.len() > 0 {
        lemma_select_occurrences(all, members.drop_last(), region, index);
        let chosen = select(all, members.drop_last(), region);
        assert(chosen.push(members.last()).drop_last() =~= chosen);
    }
}

/// Selections from the same members hold the same members.
pub proof fn lemma_select_permuted(
    all: Seq<Body>,
    first: Seq<usize>,
    second: Seq<usize>,
    region: Bounds,
)
    requires
        same_members(first, second),
    ensures
        same_members(select(all, first, region), select(all, second, region)),
{
    assert forall|index: usize| #[trigger]
        occurrences(select(all, first, region), index) == occurrences(
            select(all, second, region),
            index,
        ) by {
        lemma_select_occurrences(all, first, region, index);
        lemma_select_occurrences(all, second, region, index);
        assert(occurrences(first, index) == occurrences(second, index));
    }
}

/// The order of insertion does not reach the aggregates. Two trees over the
/// same region of the same particles, inserted in whatever order, have the
/// same shape and the same mass and weighted sums at every node.
pub proof fn lemma_order_keeps_aggregates(
    region: Bounds,
    all: Seq<Body>,
    first: Seq<usize>,
    second: Seq<usize>,
)
    requires
        same_members(first, second),
    ensures
        canonical(region, all, first).same_aggregates(canonical(region, all, second)),
    decreases region.span(),
{
    lemma_sum_permuted(first, second, mass_at(all));
    lemma_sum_permuted(first, second, moment_x_at(all));
    lemma_sum_permuted(first, second, moment_y_at(all));
    if first.len() >= 2 && region.splittable() {
        lemma_select_permuted(all, first, second, region.top_right());
        lemma_select_permuted(all, first, second, region.top_left());
        lemma_select_permuted(all, first, second, region.bottom_left());
        lemma_select_permuted(all, first, second, region.bottom_right());
        lemma_order_keeps_aggregates(
            region.top_right(),
            all,
            select(all, first, region.top_right()),
            select(all, second, region.top_right()),
        );
        lemma_order_keeps_aggregates(
            region.top_left(),
            all,
            select(all, first, region.top_left()),
            select(all, second, region.top_left()),
        );
        lemma_order_keeps_aggregates(
            region.bottom_left(),
            all,
            select(all, first, region.bottom_left()),
            select(all, second, region.bottom_left()),
        );
        lemma_order_keeps_aggregates(
            region.bottom_right(),
            all,
            select(all, first, region.bottom_right()),
            select(all, second, region.bottom_right()),
        );
    }
}

/// Among particles that lie apart, the order of insertion does not reach
/// the tree at all.
pub proof fn lemma_order_keeps_tree(
    region: Bounds,
    all: Seq<Body>,
    first: Seq<usize>,
    second: Seq<usize>,
)
    requires
        same_members(first, second),
        members_within(all, first, region),
        members_within(all, second, region),
        apart(all, first),
        apart(all, second),
    ensures
        canonical(region, all, first) == canonical(region, all, second),
    decreases region.span(),
{
    lemma_sum_permuted(first, second, mass_at(all));
    lemma_sum_permuted(first, second, moment_x_at(all));
    lemma_sum_permuted(first, second, moment_y_at(all));
    lemma_leaf_holds_one(region, all, first);
    lemma_leaf_holds_one(region, all, second);
    if first.len() == 0 {
    } else if first.len() == 1 || !region.splittable() {
        assert(first.len() == 1 && second.len() == 1);
        assert(occurrences(first.drop_last(), first[0]) == 0);
        assert(occurrences(second.drop_last(), first[0]) == 0);
        assert(occurrences(first, first[0]) == occurrences(second, first[0]));
        assert(first.last() == first[0] && second.last() == second[0]);
        assert(second[0] == first[0]);
    } else {
        lemma_select_permuted(all, first, second, region.top_right());
        lemma_select_permuted(all, first, second, region.top_left());
        lemma_select_permuted(all, first, second, region.bottom_left());
        lemma_select_permuted(all, first, second, region.bottom_right());
        lemma_select_within(all, first, region.top_right());
        lemma_select_within(all, first, region.top_left());
        lemma_select_within(all, first, region.bottom_left());
        lemma_select_within(all, first, region.bottom_right());
        lemma_select_within(all, second, region.top_right());
        lemma_select_within(all, second, region.top_left());
        lemma_select_within(all, second, region.bottom_left());
        lemma_select_within(all, second, region.bottom_right());
        lemma_select_apart(all, first, region.top_right());
        lemma_select_apart(all, first, region.top_left());
        lemma_select_apart(all, first, region.bottom_left());
        lemma_select_apart(all, first, region.bottom_right());
        lemma_select_apart(all, second, region.top_right());
        lemma_select_apart(all, second, region.top_left());
        lemma_select_apart(all, second, region.bottom_left());
        lemma_select_apart(all, second, region.bottom_right());
        lemma_order_keeps_tree(
            region.top_right(),
            all,
            select(all, first, region.top_right()),
            select(all, second, region.top_right()),
        );
        lemma_order_keeps_tree(
            region.top_left(),
            all,
            select(all, first, region.top_left()),
            select(all, second, region.top_left()),
        );
        lemma_order_keeps_tree(
            region.bottom_left(),
            all,
            select(all, first, region.bottom_left()),
            select(all, second, region.bottom_left()),
        );
        lemma_order_keeps_tree(
            region.bottom_right(),
            all,
            select(all, first, region.bottom_right()),
            select(all, second, region.bottom_right()),
        );
    }
}

/// Determinism. Two trees over the same region that hold the same
/// particles, inserted in the same order, are equal node for node.
pub proof fn lemma_tree_is_determined(first: QuadTree, second: QuadTree, all: Seq<Body>)
    requires
        first.wf(all),
        second.wf(all),
        first.bounds() == second.bounds(),
        first@ == second@,
    ensures
        first.root() == second.root(),
{
}

/// The tree of a snapshot depends on the masses and positions alone.
pub proof fn lemma_snapshot_determines_tree(
    region: Bounds,
    first: Seq<Particle>,
    second: Seq<Particle>,
)
    requires
        bodies(first) == bodies(second),
    ensures
        tree_of(region, first) == tree_of(region, second),
{
    assert(first.len() == bodies(first).len());
    assert(second.len() == bodies(second).len());
}

} // verus!
