use barnes_hut::bounds::Bounds;
use barnes_hut::config::{Config, Ratio};
use barnes_hut::force::{accumulate_field, attract, evaluate_all, is_far_enough, isqrt};
use barnes_hut::particle::Particle;
use barnes_hut::tree::{Content, QuadTree};
use barnes_hut::vector::Vec2;

fn config(g: u64, softening: u32, theta: Ratio) -> Config {
    Config {
        gravitational_constant: g,
        opening_angle_theta: theta,
        softening_length: softening,
        domain_width: 512,
        domain_height: 512,
        timestep: Ratio { num: 1, den: 2 },
        spawn_radius_min: 20,
        spawn_radius_max: 100,
        spawn_spin: Ratio { num: 1, den: 100 },
    }
}

fn body(mass: u32, x: i64, y: i64) -> Particle {
    Particle::at_rest(mass, Vec2::new(x, y))
}

fn cloud(count: u32) -> Vec<Particle> {
    let mut particles: Vec<Particle> = Vec::new();
    let mut state: u64 = 99;
    while (particles.len() as u32) < count {
        state = state.wrapping_mul(6364136223846793005).wrapping_add(1442695040888963407);
        let x = ((state >> 33) % 512) as i64;
        state = state.wrapping_mul(6364136223846793005).wrapping_add(1442695040888963407);
        let y = ((state >> 33) % 512) as i64;
        if particles.iter().all(|p| p.position != Vec2::new(x, y)) {
            particles.push(body(1 + (state >> 40) as u32 % 50, x, y));
        }
    }
    particles
}

fn pairwise(config: &Config, particles: &Vec<Particle>, index: usize) -> (i128, i128) {
    let mut sum = (0i128, 0i128);
    for j in 0..particles.len() {
        if j != index {
            let a = attract(
                config,
                particles[j].mass as u64,
                particles[index].position,
                particles[j].position,
            );
            sum = (sum.0 + a.0, sum.1 + a.1);
        }
    }
    sum
}

#[test]
fn isqrt_rounds_down() {
    assert_eq!(isqrt(0), 0);
    assert_eq!(isqrt(1), 1);
    assert_eq!(isqrt(3), 1);
    assert_eq!(isqrt(4), 2);
    assert_eq!(isqrt(15), 3);
    assert_eq!(isqrt(16), 4);
    assert_eq!(isqrt(17), 4);
    assert_eq!(isqrt(1_000_000), 1000);
    assert_eq!(isqrt(999_999), 999);
    assert_eq!(isqrt(0xffff_fffe_0000_0001), 0xffff_ffff);
    assert_eq!(isqrt(0xffff_fffe_0000_0000), 0xffff_fffe);
    assert_eq!(isqrt(u64::MAX), 0xffff_ffff);
}

#[test]
fn attraction_follows_the_inverse_square() {
    let c = config(1000, 0, Ratio { num: 3, den: 5 });
    assert_eq!(attract(&c, 10, Vec2::new(0, 0), Vec2::new(3, 4)), (240, 320));
    assert_eq!(attract(&c, 10, Vec2::new(3, 4), Vec2::new(0, 0)), (-240, -320));
    assert_eq!(attract(&c, 10, Vec2::new(100, 100), Vec2::new(103, 96)), (240, -320));
    assert_eq!(attract(&c, 20, Vec2::new(0, 0), Vec2::new(3, 4)), (480, 640));
    assert_eq!(attract(&c, 10, Vec2::new(0, 0), Vec2::new(6, 8)), (60, 80));
    assert_eq!(attract(&c, 0, Vec2::new(0, 0), Vec2::new(6, 8)), (0, 0));
}

#[test]
fn attraction_is_softened() {
    let c = config(2197, 12, Ratio { num: 3, den: 5 });
    assert_eq!(attract(&c, 2, Vec2::new(0, 0), Vec2::new(3, 4)), (6, 8));
    assert_eq!(attract(&c, 2, Vec2::new(5, 5), Vec2::new(5, 5)), (0, 0));
    let hard = config(2197, 0, Ratio { num: 3, den: 5 });
    assert_eq!(attract(&hard, 2, Vec2::new(5, 5), Vec2::new(5, 5)), (0, 0));
    assert_eq!(attract(&hard, 2, Vec2::new(5, 5), Vec2::new(6, 5)), (4394, 0));
}

#[test]
fn attraction_rounds_toward_zero() {
    let c = config(1, 0, Ratio { num: 3, den: 5 });
    assert_eq!(attract(&c, 1, Vec2::new(0, 0), Vec2::new(3, 4)), (0, 0));
    assert_eq!(attract(&c, 1, Vec2::new(3, 4), Vec2::new(0, 0)), (0, 0));
    assert_eq!(attract(&c, 124, Vec2::new(3, 4), Vec2::new(0, 0)), (-2, -3));
    assert_eq!(attract(&c, 124, Vec2::new(0, 0), Vec2::new(3, 4)), (2, 3));
}

#[test]
fn attraction_of_the_largest_values_fits() {
    let c = config(i64::MAX as u64, 0, Ratio { num: 3, den: 5 });
    let far = 0x7fff_ffffi64;
    let weight = (i64::MAX as u128) * (u64::MAX as u128);
    let expected = (weight / ((far as u128) * (far as u128))) as i128;
    assert_eq!(expected, 36893488181778841618);
    assert_eq!(attract(&c, u64::MAX, Vec2::new(0, 0), Vec2::new(far, 0)), (expected, 0));
    assert_eq!(attract(&c, u64::MAX, Vec2::new(far, far), Vec2::new(far, 0)), (0, -expected));
    assert_eq!(
        attract(&c, u64::MAX, Vec2::new(0, 0), Vec2::new(1, 0)),
        (weight as i128, 0)
    );
}

#[test]
fn opening_criterion_compares_width_to_distance() {
    let fifth = config(1, 0, Ratio { num: 1, den: 5 });
    assert!(is_far_enough(&fifth, 10, Vec2::new(0, 0), Vec2::new(30, 40)));
    assert!(!is_far_enough(&fifth, 11, Vec2::new(0, 0), Vec2::new(30, 40)));
    let sixth = config(1, 0, Ratio { num: 1, den: 6 });
    assert!(!is_far_enough(&sixth, 10, Vec2::new(0, 0), Vec2::new(30, 40)));
    let zero = config(1, 0, Ratio { num: 0, den: 1 });
    assert!(!is_far_enough(&zero, 1, Vec2::new(0, 0), Vec2::new(30, 40)));
    assert!(is_far_enough(&zero, 0, Vec2::new(0, 0), Vec2::new(30, 40)));
    let softened = config(1, 120, Ratio { num: 1, den: 13 });
    assert!(is_far_enough(&softened, 10, Vec2::new(0, 0), Vec2::new(30, 40)));
    assert!(!is_far_enough(&softened, 11, Vec2::new(0, 0), Vec2::new(30, 40)));
    let at_the_body = config(1, 0, Ratio { num: 1000, den: 1 });
    assert!(!is_far_enough(&at_the_body, 2, Vec2::new(7, 7), Vec2::new(7, 7)));
}

#[test]
fn lone_particle_feels_nothing() {
    let c = config(1_000_000, 7, Ratio { num: 3, den: 5 });
    let mut particles = vec![body(5, 100, 100)];
    particles[0].acceleration = Vec2::new(3, -4);
    let tree = QuadTree::build(c.domain(), &particles);
    accumulate_field(&tree, 0, &mut particles, &c);
    assert_eq!(particles[0].acceleration, Vec2::new(3, -4));
}

#[test]
fn empty_tree_gives_nothing() {
    let c = config(1_000_000, 7, Ratio { num: 3, den: 5 });
    let mut particles = vec![body(5, 100, 100)];
    let tree = QuadTree::new(c.domain());
    accumulate_field(&tree, 0, &mut particles, &c);
    assert_eq!(particles[0], body(5, 100, 100));
}

#[test]
fn two_bodies_feel_each_other_alone() {
    for theta in [Ratio { num: 0, den: 1 }, Ratio { num: 3, den: 5 }, Ratio { num: 1, den: 1 }] {
        let c = config(1_000_000, 7, theta);
        let mut particles = vec![body(3, 100, 100), body(5, 130, 140)];
        let tree = QuadTree::build(c.domain(), &particles);
        evaluate_all(&tree, &mut particles, &c);
        let d = isqrt(30 * 30 + 40 * 40 + 7 * 7) as i64;
        assert_eq!(d, 50);
        assert_eq!(
            particles[0].acceleration,
            Vec2::new(1_000_000 * 5 * 30 / (d * d * d), 1_000_000 * 5 * 40 / (d * d * d))
        );
        assert_eq!(
            particles[1].acceleration,
            Vec2::new(-(1_000_000 * 3 * 30 / (d * d * d)), -(1_000_000 * 3 * 40 / (d * d * d)))
        );
        assert_eq!(particles[0].acceleration, Vec2::new(1200, 1600));
        assert_eq!(particles[1].acceleration, Vec2::new(-720, -960));
    }
}

#[test]
fn field_is_added_to_the_acceleration() {
    let c = config(1_000_000, 7, Ratio { num: 3, den: 5 });
    let mut particles = vec![body(3, 100, 100), body(5, 130, 140)];
    particles[0].acceleration = Vec2::new(-200, 400);
    particles[0].velocity = Vec2::new(9, 9);
    let tree = QuadTree::build(c.domain(), &particles);
    accumulate_field(&tree, 0, &mut particles, &c);
    assert_eq!(particles[0].acceleration, Vec2::new(1000, 2000));
    assert_eq!(particles[0].velocity, Vec2::new(9, 9));
    assert_eq!(particles[0].position, Vec2::new(100, 100));
    assert_eq!(particles[1], body(5, 130, 140));
}

#[test]
fn acceleration_saturates() {
    let c = config(1_000_000, 7, Ratio { num: 3, den: 5 });
    let mut particles = vec![body(3, 100, 100), body(5, 130, 140)];
    particles[0].acceleration = Vec2::new(i64::MAX - 1000, i64::MIN);
    particles[1].acceleration = Vec2::new(i64::MIN + 700, i64::MAX);
    let tree = QuadTree::build(c.domain(), &particles);
    evaluate_all(&tree, &mut particles, &c);
    assert_eq!(particles[0].acceleration, Vec2::new(i64::MAX, i64::MIN + 1600));
    assert_eq!(particles[1].acceleration, Vec2::new(i64::MIN, i64::MAX - 960));
}

#[test]
fn zero_opening_angle_is_pairwise_summation() {
    let c = config(1_000_000_000_000, 7, Ratio { num: 0, den: 1 });
    let mut particles = cloud(120);
    let before = particles.clone();
    let tree = QuadTree::build(c.domain(), &particles);
    evaluate_all(&tree, &mut particles, &c);
    for k in 0..particles.len() {
        let expected = pairwise(&c, &before, k);
        assert_eq!(particles[k].acceleration.x as i128, expected.0);
        assert_eq!(particles[k].acceleration.y as i128, expected.1);
        assert_eq!(particles[k].position, before[k].position);
        assert_eq!(particles[k].mass, before[k].mass);
    }
}

#[test]
fn distant_cluster_pulls_as_one_body() {
    let mut particles = vec![body(1, 10, 10), body(2, 400, 400), body(4, 410, 400)];
    let coarse = config(1_000_000, 7, Ratio { num: 2, den: 5 });
    let tree = QuadTree::build(coarse.domain(), &particles);
    match &tree.root().content {
        Content::Branch(q) => {
            assert_eq!(q.bottom_right.aggregate_mass, 6);
            assert_eq!(q.bottom_right.center_of_mass(), Vec2::new(406, 400));
        }
        other => panic!("the root should be a branch, not {:?}", other),
    }
    accumulate_field(&tree, 0, &mut particles, &coarse);
    assert_eq!(
        attract(&coarse, 6, Vec2::new(10, 10), Vec2::new(406, 400)),
        (13, 13)
    );
    assert_eq!(particles[0].acceleration, Vec2::new(13, 13));

    let mut again = vec![body(1, 10, 10), body(2, 400, 400), body(4, 410, 400)];
    let exact = config(1_000_000, 7, Ratio { num: 0, den: 1 });
    accumulate_field(&tree, 0, &mut again, &exact);
    assert_eq!(again[0].acceleration, Vec2::new(4 + 9, 4 + 8));
}

#[test]
fn finer_angle_opens_more_branches() {
    let particles = vec![body(1, 10, 10), body(2, 400, 400), body(4, 410, 400)];
    let tree = QuadTree::build(Bounds::from_origin(512, 512), &particles);
    let mut wide = particles.clone();
    accumulate_field(&tree, 0, &mut wide, &config(1_000_000, 7, Ratio { num: 3, den: 100 }));
    assert_eq!(wide[0].acceleration, Vec2::new(13, 13));
    let mut narrow = particles.clone();
    accumulate_field(&tree, 0, &mut narrow, &config(1_000_000, 7, Ratio { num: 2, den: 100 }));
    assert_eq!(narrow[0].acceleration, Vec2::new(13, 12));
}

#[test]
fn particle_on_the_edge_pulls_and_is_pulled() {
    let c = config(1_000_000, 0, Ratio { num: 3, den: 5 });
    let mut particles = vec![body(2, 0, 100), body(3, 300, 100), body(1, 256, 256)];
    let before = particles.clone();
    let tree = QuadTree::build(c.domain(), &particles);
    evaluate_all(&tree, &mut particles, &c);
    assert_eq!(particles[0].acceleration.x as i128, pairwise(&c, &before, 0).0);
    assert_eq!(particles[1].acceleration.x as i128, pairwise(&c, &before, 1).0);
    assert_eq!(isqrt(44 * 44 + 156 * 156), 162);
    assert_eq!(isqrt(256 * 256 + 156 * 156), 299);
    assert_eq!(
        particles[1].acceleration.x,
        -(1_000_000 * 2 * 300 / (300 * 300 * 300)) - 1_000_000 * 44 / (162 * 162 * 162)
    );
    assert_eq!(
        particles[0].acceleration.x,
        1_000_000 * 3 * 300 / (300 * 300 * 300) + 1_000_000 * 256 / (299 * 299 * 299)
    );
    assert_eq!(particles[1].acceleration.x, -32);
    assert_eq!(particles[0].acceleration.x, 42);
    assert_eq!(particles[2].acceleration.y as i128, pairwise(&c, &before, 2).1);
}

#[test]
fn coincident_particles_pull_together() {
    let c = config(1_000_000, 0, Ratio { num: 0, den: 1 });
    let mut particles = vec![body(2, 100, 100), body(3, 100, 100), body(1, 130, 140)];
    let tree = QuadTree::build(c.domain(), &particles);
    evaluate_all(&tree, &mut particles, &c);
    assert_eq!(particles[2].acceleration, Vec2::new(-(1_000_000 * 5 * 30 / 125_000), -1600));
    assert_eq!(particles[0].acceleration, Vec2::new(1_000_000 * 30 / 125_000, 320));
    assert_eq!(particles[1].acceleration, Vec2::new(240, 320));
}

#[test]
fn wide_angle_takes_both_bodies_as_one() {
    let c = config(1_000_000, 7, Ratio { num: 100, den: 1 });
    let mut particles = vec![body(3, 100, 100), body(5, 130, 140)];
    let tree = QuadTree::build(c.domain(), &particles);
    assert_eq!(tree.root().aggregate_mass, 8);
    assert_eq!(tree.root().center_of_mass(), Vec2::new(118, 125));
    accumulate_field(&tree, 0, &mut particles, &c);
    let d = isqrt(18 * 18 + 25 * 25 + 7 * 7) as i64;
    assert_eq!(d, 31);
    assert_eq!(
        particles[0].acceleration,
        Vec2::new(1_000_000 * 8 * 18 / (d * d * d), 1_000_000 * 8 * 25 / (d * d * d))
    );
    assert_eq!(particles[0].acceleration, Vec2::new(4833, 6713));
}
