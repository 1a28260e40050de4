use barnes_hut::bounds::Bounds;
use barnes_hut::particle::Particle;
use barnes_hut::tree::{Content, QuadNode, QuadTree};
use barnes_hut::vector::Vec2;

fn body(mass: u32, x: i64, y: i64) -> Particle {
    Particle::at_rest(mass, Vec2::new(x, y))
}

fn check_conservation(node: &QuadNode) {
    if let Content::Branch(q) = &node.content {
        assert_eq!(
            node.aggregate_mass,
            q.top_right.aggregate_mass
                + q.top_left.aggregate_mass
                + q.bottom_left.aggregate_mass
                + q.bottom_right.aggregate_mass
        );
        assert_eq!(
            node.center_of_mass_weighted_sum.x,
            q.top_right.center_of_mass_weighted_sum.x
                + q.top_left.center_of_mass_weighted_sum.x
                + q.bottom_left.center_of_mass_weighted_sum.x
                + q.bottom_right.center_of_mass_weighted_sum.x
        );
        assert_eq!(
            node.center_of_mass_weighted_sum.y,
            q.top_right.center_of_mass_weighted_sum.y
                + q.top_left.center_of_mass_weighted_sum.y
                + q.bottom_left.center_of_mass_weighted_sum.y
                + q.bottom_right.center_of_mass_weighted_sum.y
        );
        check_conservation(&q.top_right);
        check_conservation(&q.top_left);
        check_conservation(&q.bottom_left);
        check_conservation(&q.bottom_right);
    }
}

fn residents(node: &QuadNode, out: &mut Vec<usize>) {
    match &node.content {
        Content::Empty => {}
        Content::Occupied(j) => out.push(*j),
        Content::Branch(q) => {
            residents(&q.top_right, out);
            residents(&q.top_left, out);
            residents(&q.bottom_left, out);
            residents(&q.bottom_right, out);
        }
    }
}

fn depth(node: &QuadNode) -> u32 {
    match &node.content {
        Content::Branch(q) => {
            1 + depth(&q.top_right)
                .max(depth(&q.top_left))
                .max(depth(&q.bottom_left))
                .max(depth(&q.bottom_right))
        }
        _ => 0,
    }
}

fn scattered() -> Vec<Particle> {
    let mut particles = Vec::new();
    let mut state: u64 = 12345;
    for k in 0..200u32 {
        state = state.wrapping_mul(6364136223846793005).wrapping_add(1442695040888963407);
        let x = ((state >> 33) % 512) as i64;
        state = state.wrapping_mul(6364136223846793005).wrapping_add(1442695040888963407);
        let y = ((state >> 33) % 512) as i64;
        particles.push(body(1 + k % 7, x, y));
    }
    particles
}

#[test]
fn new_tree_is_one_empty_leaf() {
    let tree = QuadTree::new(Bounds::from_origin(512, 512));
    assert_eq!(tree.len(), 0);
    assert_eq!(tree.root().content, Content::Empty);
    assert_eq!(tree.root().aggregate_mass, 0);
    assert_eq!(tree.root().bounds, Bounds { left: 0, top: 0, width: 512, height: 512 });
}

#[test]
fn first_particle_occupies_the_root() {
    let particles = vec![body(3, 10, 20)];
    let mut tree = QuadTree::new(Bounds::from_origin(512, 512));
    assert!(tree.insert(0, &particles));
    assert_eq!(tree.len(), 1);
    assert_eq!(tree.root().content, Content::Occupied(0));
    assert_eq!(tree.root().aggregate_mass, 3);
    assert_eq!(tree.root().center_of_mass_weighted_sum.x, 30);
    assert_eq!(tree.root().center_of_mass_weighted_sum.y, 60);
}

#[test]
fn second_particle_splits_the_leaf() {
    let particles = vec![body(3, 10, 20), body(5, 300, 400)];
    let tree = QuadTree::build(Bounds::from_origin(512, 512), &particles);
    let root = tree.root();
    assert_eq!(root.aggregate_mass, 8);
    assert_eq!(root.center_of_mass_weighted_sum.x, 3 * 10 + 5 * 300);
    assert_eq!(root.center_of_mass_weighted_sum.y, 3 * 20 + 5 * 400);
    match &root.content {
        Content::Branch(q) => {
            assert_eq!(q.top_right.bounds, Bounds { left: 256, top: 0, width: 256, height: 256 });
            assert_eq!(q.top_left.bounds, Bounds { left: 0, top: 0, width: 256, height: 256 });
            assert_eq!(q.bottom_left.bounds, Bounds { left: 0, top: 256, width: 256, height: 256 });
            assert_eq!(
                q.bottom_right.bounds,
                Bounds { left: 256, top: 256, width: 256, height: 256 }
            );
            assert_eq!(q.top_left.content, Content::Occupied(0));
            assert_eq!(q.top_left.aggregate_mass, 3);
            assert_eq!(q.bottom_right.content, Content::Occupied(1));
            assert_eq!(q.bottom_right.aggregate_mass, 5);
            assert_eq!(q.bottom_right.center_of_mass_weighted_sum.x, 1500);
            assert_eq!(q.top_right.content, Content::Empty);
            assert_eq!(q.bottom_left.content, Content::Empty);
        }
        other => panic!("the root should be a branch, not {:?}", other),
    }
}

#[test]
fn close_particles_split_until_apart() {
    let particles = vec![body(1, 0, 0), body(1, 1, 0)];
    let tree = QuadTree::build(Bounds::from_origin(512, 512), &particles);
    assert_eq!(depth(tree.root()), 9);
    let mut found = Vec::new();
    residents(tree.root(), &mut found);
    found.sort();
    assert_eq!(found, vec![0, 1]);
    check_conservation(tree.root());
}

#[test]
fn mass_is_conserved_at_every_branch() {
    let particles = scattered();
    let tree = QuadTree::build(Bounds::from_origin(512, 512), &particles);
    let total: u64 = particles.iter().map(|p| p.mass as u64).sum();
    let moment_x: u128 = particles.iter().map(|p| p.mass as u128 * p.position.x as u128).sum();
    let moment_y: u128 = particles.iter().map(|p| p.mass as u128 * p.position.y as u128).sum();
    assert_eq!(tree.len(), particles.len());
    assert_eq!(tree.root().aggregate_mass, total);
    assert_eq!(tree.root().center_of_mass_weighted_sum.x, moment_x);
    assert_eq!(tree.root().center_of_mass_weighted_sum.y, moment_y);
    check_conservation(tree.root());
}

#[test]
fn mass_is_conserved_while_the_tree_is_built() {
    let particles = scattered();
    let mut tree = QuadTree::new(Bounds::from_origin(512, 512));
    let mut total: u64 = 0;
    for k in 0..particles.len() {
        assert!(tree.insert(k, &particles));
        total += particles[k].mass as u64;
        assert_eq!(tree.root().aggregate_mass, total);
        check_conservation(tree.root());
    }
}

#[test]
fn every_particle_has_one_leaf_and_every_leaf_one_particle() {
    let mut particles = scattered();
    particles.sort_by_key(|p| (p.position.x, p.position.y));
    particles.dedup_by_key(|p| (p.position.x, p.position.y));
    let tree = QuadTree::build(Bounds::from_origin(512, 512), &particles);
    let mut found = Vec::new();
    residents(tree.root(), &mut found);
    found.sort();
    let expected: Vec<usize> = (0..particles.len()).collect();
    assert_eq!(found, expected);
}

#[test]
fn depth_is_bounded_by_the_size_of_the_region() {
    let particles = scattered();
    let tree = QuadTree::build(Bounds::from_origin(512, 512), &particles);
    assert!(depth(tree.root()) <= 9);
    let wide = QuadTree::build(Bounds::from_origin(0x8000_0000, 0x8000_0000), &particles);
    assert!(depth(wide.root()) <= 31);
}

#[test]
fn building_twice_gives_the_same_tree() {
    let particles = scattered();
    let first = QuadTree::build(Bounds::from_origin(512, 512), &particles);
    let second = QuadTree::build(Bounds::from_origin(512, 512), &particles);
    assert_eq!(first.root(), second.root());
    let mut moving = particles.clone();
    for p in moving.iter_mut() {
        p.velocity = Vec2::new(7, -7);
        p.acceleration = Vec2::new(1, 2);
        p.is_first_step = false;
    }
    let third = QuadTree::build(Bounds::from_origin(512, 512), &moving);
    assert_eq!(first.root(), third.root());
}

#[test]
fn particle_on_the_left_edge_has_a_leaf() {
    let particles = vec![body(2, 0, 100), body(3, 400, 100)];
    let tree = QuadTree::build(Bounds::from_origin(512, 512), &particles);
    assert_eq!(tree.len(), 2);
    let mut found = Vec::new();
    residents(tree.root(), &mut found);
    found.sort();
    assert_eq!(found, vec![0, 1]);
    match &tree.root().content {
        Content::Branch(q) => {
            assert_eq!(q.top_left.content, Content::Occupied(0));
            assert_eq!(q.top_right.content, Content::Occupied(1));
        }
        other => panic!("the root should be a branch, not {:?}", other),
    }
}

#[test]
fn particle_on_a_dividing_line_goes_right_and_down() {
    let particles =
        vec![body(1, 256, 256), body(1, 255, 255), body(1, 256, 255), body(1, 255, 256)];
    let tree = QuadTree::build(Bounds::from_origin(512, 512), &particles);
    match &tree.root().content {
        Content::Branch(q) => {
            assert_eq!(q.bottom_right.content, Content::Occupied(0));
            assert_eq!(q.top_left.content, Content::Occupied(1));
            assert_eq!(q.top_right.content, Content::Occupied(2));
            assert_eq!(q.bottom_left.content, Content::Occupied(3));
        }
        other => panic!("the root should be a branch, not {:?}", other),
    }
    check_conservation(tree.root());
}

#[test]
fn particle_outside_the_region_is_not_inserted() {
    let particles = vec![
        body(1, 512, 10),
        body(1, 10, 512),
        body(1, -1, 10),
        body(1, 10, -1),
        body(4, 511, 511),
    ];
    let mut tree = QuadTree::new(Bounds::from_origin(512, 512));
    assert!(!tree.insert(0, &particles));
    assert!(!tree.insert(1, &particles));
    assert!(!tree.insert(2, &particles));
    assert!(!tree.insert(3, &particles));
    assert_eq!(tree.len(), 0);
    assert_eq!(tree.root().content, Content::Empty);
    assert_eq!(tree.root().aggregate_mass, 0);
    assert!(tree.insert(4, &particles));
    assert_eq!(tree.root().content, Content::Occupied(4));
    let built = QuadTree::build(Bounds::from_origin(512, 512), &particles);
    assert_eq!(built.root(), tree.root());
}

#[test]
fn coincident_particles_share_one_leaf() {
    let particles =
        vec![body(2, 100, 100), body(3, 100, 100), body(4, 100, 100), body(1, 101, 100)];
    let tree = QuadTree::build(Bounds::from_origin(512, 512), &particles);
    assert_eq!(tree.len(), 4);
    assert_eq!(tree.root().aggregate_mass, 10);
    assert_eq!(depth(tree.root()), 9);
    let mut found = Vec::new();
    residents(tree.root(), &mut found);
    found.sort();
    assert_eq!(found, vec![0, 3]);
    check_conservation(tree.root());
    let mut node = tree.root();
    while let Content::Branch(q) = &node.content {
        node = if q.top_right.bounds.contains(Vec2::new(100, 100)) {
            &q.top_right
        } else if q.top_left.bounds.contains(Vec2::new(100, 100)) {
            &q.top_left
        } else if q.bottom_left.bounds.contains(Vec2::new(100, 100)) {
            &q.bottom_left
        } else {
            &q.bottom_right
        };
    }
    assert_eq!(node.content, Content::Occupied(0));
    assert_eq!(node.aggregate_mass, 9);
    assert_eq!(node.center_of_mass_weighted_sum.x, 900);
    assert_eq!(node.bounds, Bounds { left: 100, top: 100, width: 1, height: 1 });
}

#[test]
fn odd_sizes_are_tiled_without_gaps() {
    let region = Bounds { left: 3, top: 5, width: 7, height: 5 };
    let quadrants =
        [region.top_right(), region.top_left(), region.bottom_left(), region.bottom_right()];
    assert_eq!(quadrants[0], Bounds { left: 6, top: 5, width: 4, height: 2 });
    assert_eq!(quadrants[1], Bounds { left: 3, top: 5, width: 3, height: 2 });
    assert_eq!(quadrants[2], Bounds { left: 3, top: 7, width: 3, height: 3 });
    assert_eq!(quadrants[3], Bounds { left: 6, top: 7, width: 4, height: 3 });
    for x in 0..14 {
        for y in 0..14 {
            let p = Vec2::new(x, y);
            let hits = quadrants.iter().filter(|q| q.contains(p)).count();
            assert_eq!(hits, if region.contains(p) { 1 } else { 0 });
        }
    }
}

#[test]
fn region_of_one_point_cannot_be_divided() {
    assert!(!Bounds { left: 9, top: 9, width: 1, height: 1 }.splittable());
    assert!(!Bounds { left: 9, top: 9, width: 0, height: 1 }.splittable());
    assert!(Bounds { left: 9, top: 9, width: 2, height: 1 }.splittable());
    assert!(Bounds { left: 9, top: 9, width: 1, height: 2 }.splittable());
    assert!(Bounds { left: 0, top: 0, width: 0x8000_0000, height: 0x8000_0000 }.is_valid());
    assert!(!Bounds { left: 1, top: 0, width: 0x8000_0000, height: 1 }.is_valid());
    assert!(!Bounds { left: 0, top: 0xffff_ffff, width: 1, height: 0xffff_ffff }.is_valid());
}

#[test]
fn insertion_order_does_not_change_the_tree() {
    let mut particles = scattered();
    particles.sort_by_key(|p| (p.position.x, p.position.y));
    particles.dedup_by_key(|p| (p.position.x, p.position.y));
    let mut forward = QuadTree::new(Bounds::from_origin(512, 512));
    let mut backward = QuadTree::new(Bounds::from_origin(512, 512));
    for k in 0..particles.len() {
        assert!(forward.insert(k, &particles));
        assert!(backward.insert(particles.len() - 1 - k, &particles));
    }
    assert_eq!(forward.root(), backward.root());
}

#[test]
fn insertion_order_does_not_change_the_aggregates() {
    let particles =
        vec![body(2, 100, 100), body(3, 100, 100), body(4, 300, 100), body(1, 101, 100)];
    let mut forward = QuadTree::new(Bounds::from_origin(512, 512));
    let mut backward = QuadTree::new(Bounds::from_origin(512, 512));
    for k in 0..particles.len() {
        assert!(forward.insert(k, &particles));
        assert!(backward.insert(particles.len() - 1 - k, &particles));
    }
    let mut a = forward.root();
    let mut b = backward.root();
    loop {
        assert_eq!(a.bounds, b.bounds);
        assert_eq!(a.aggregate_mass, b.aggregate_mass);
        assert_eq!(a.center_of_mass_weighted_sum, b.center_of_mass_weighted_sum);
        match (&a.content, &b.content) {
            (Content::Branch(x), Content::Branch(y)) => {
                let mine = [&x.top_right, &x.top_left, &x.bottom_left, &x.bottom_right];
                let theirs = [&y.top_right, &y.top_left, &y.bottom_left, &y.bottom_right];
                for k in 0..4 {
                    assert_eq!(mine[k].aggregate_mass, theirs[k].aggregate_mass);
                    if mine[k].bounds.contains(Vec2::new(100, 100)) {
                        a = mine[k];
                        b = theirs[k];
                    }
                }
            }
            (Content::Occupied(first), Content::Occupied(second)) => {
                assert_eq!((*first, *second), (0, 1));
                assert_eq!(a.aggregate_mass, 5);
                break;
            }
            (x, y) => panic!("the shapes differ: {:?} and {:?}", x, y),
        }
    }
}

#[test]
fn nodes_go_from_empty_to_occupied_to_branch() {
    let particles = vec![body(1, 10, 10), body(1, 300, 10), body(1, 20, 20)];
    let mut tree = QuadTree::new(Bounds::from_origin(512, 512));
    assert_eq!(tree.root().content, Content::Empty);
    tree.insert(0, &particles);
    assert_eq!(tree.root().content, Content::Occupied(0));
    tree.insert(1, &particles);
    match &tree.root().content {
        Content::Branch(q) => {
            assert_eq!(q.top_left.content, Content::Occupied(0));
            assert_eq!(q.bottom_left.content, Content::Empty);
        }
        other => panic!("the root should be a branch, not {:?}", other),
    }
    tree.insert(2, &particles);
    match &tree.root().content {
        Content::Branch(q) => {
            assert!(matches!(q.top_left.content, Content::Branch(_)));
            assert_eq!(q.top_right.content, Content::Occupied(1));
            assert_eq!(q.top_left.aggregate_mass, 2);
        }
        other => panic!("the root should be a branch, not {:?}", other),
    }
}
