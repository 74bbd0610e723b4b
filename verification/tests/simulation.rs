use n_body_sim::body::{bounds, random_mass, side, Boundary, Place};
use n_body_sim::nbodies::{first_pair, next_pair, tree_of_tick};
use n_body_sim::octant::{octant_of, with_octant};
use n_body_sim::octtree::OctTree;
use n_body_sim::walk::Visit;
use rand::rngs::StdRng;
use rand::{Rng, SeedableRng};

const XMAX: f64 = 1920.;
const YMAX: f64 = 1080.;
const ZMAX: f64 = 800.;
const G: f64 = 6.67e-11;
const SOFTENING: f64 = 10.;
const DT: f64 = 5.;
const DEPTH: u32 = 10;

type V3 = [f64; 3];

#[derive(Clone, Copy, Debug, PartialEq)]
struct Body {
    pos: V3,
    vel: V3,
    mass: f64,
}

fn sub(a: V3, b: V3) -> V3 {
    [a[0] - b[0], a[1] - b[1], a[2] - b[2]]
}

fn add(a: V3, b: V3) -> V3 {
    [a[0] + b[0], a[1] + b[1], a[2] + b[2]]
}

fn scale(a: V3, s: f64) -> V3 {
    [a[0] * s, a[1] * s, a[2] * s]
}

fn sum_sqrs(a: V3) -> f64 {
    a[0] * a[0] + a[1] * a[1] + a[2] * a[2]
}

fn get_scalar(delta: V3) -> f64 {
    let distance = (sum_sqrs(delta) + SOFTENING * SOFTENING).sqrt();
    1.0 / (distance * distance * distance)
}

fn random_bodies(n: usize, seed: u64) -> Vec<Body> {
    let mut rng = StdRng::seed_from_u64(seed);
    (0..n)
        .map(|_| Body {
            pos: [rng.gen_range(0.0..XMAX), rng.gen_range(0.0..YMAX), rng.gen_range(0.0..ZMAX)],
            vel: [0.; 3],
            mass: random_mass(&mut rng) as f64,
        })
        .collect()
}

fn key_of(pos: V3) -> u64 {
    let mut key = 0;
    let mut center = [XMAX / 2., YMAX / 2., ZMAX / 2.];
    let mut quarter = XMAX / 4.;
    for level in 0..DEPTH {
        let below = [pos[0] < center[0], pos[1] < center[1], pos[2] < center[2]];
        key = with_octant(key, level, octant_of(below[0], below[1], below[2]));
        for axis in 0..3 {
            center[axis] += if below[axis] { -quarter } else { quarter };
        }
        quarter /= 2.;
    }
    key
}

struct MassTree {
    tree: OctTree,
    total_mass: Vec<f64>,
    center_mass: Vec<V3>,
}

fn mass_tree(bodies: &[Body]) -> Option<MassTree> {
    let keys: Vec<u64> = bodies.iter().map(|b| key_of(b.pos)).collect();
    let built = tree_of_tick(&keys, DEPTH)?;
    let mut total_mass = vec![0.; built.tree.len()];
    let mut center_mass = vec![[0.; 3]; built.tree.len()];
    for u in &built.updates {
        let body = bodies[u.entry.body];
        let n = u.node;
        center_mass[n] = scale(
            add(scale(center_mass[n], total_mass[n]), scale(body.pos, body.mass)),
            1. / (total_mass[n] + body.mass),
        );
        total_mass[n] += body.mass;
    }
    Some(MassTree { tree: built.tree, total_mass, center_mass })
}

fn tree_acceleration(t: &MassTree, target: usize, bodies: &[Body], theta: f64) -> V3 {
    let mut acceleration = [0.; 3];
    let mut stack = t.tree.start_walk();
    while let Some(&n) = stack.last() {
        let delta = sub(t.center_mass[n], bodies[target].pos);
        let half_width = XMAX / 2. / (1u64 << t.tree.nodes[n].depth) as f64;
        let far = half_width * half_width < theta * theta * sum_sqrs(delta);
        if t.tree.update_body(&mut stack, target, far) == Visit::Accept {
            acceleration = add(acceleration, scale(delta, G * t.total_mass[n] * get_scalar(delta)));
        }
    }
    acceleration
}

fn naive_velocity_changes(bodies: &[Body]) -> Vec<V3> {
    let mut changes = vec![[0.; 3]; bodies.len()];
    let mut pair = first_pair(bodies.len());
    while let Some(p) = pair {
        let delta = sub(bodies[p.first].pos, bodies[p.second].pos);
        let s = get_scalar(delta);
        changes[p.first] = sub(changes[p.first], scale(delta, bodies[p.second].mass * s * G));
        changes[p.second] = add(changes[p.second], scale(delta, bodies[p.first].mass * s * G));
        pair = next_pair(bodies.len(), p);
    }
    changes
}

fn bound_axis(pos: &mut f64, vel: &mut f64, max: f64, policy: Boundary) {
    let correction = bounds(policy, side(*pos < 0., *pos > max));
    match correction.place {
        Place::Stay => {}
        Place::AtZero => *pos = 0.,
        Place::AtMax => *pos = max,
    }
    if correction.flip {
        *vel *= -1.;
    }
}

fn apply_bounds(body: &mut Body, policy: Boundary) {
    let max = [XMAX, YMAX, ZMAX];
    for axis in 0..3 {
        bound_axis(&mut body.pos[axis], &mut body.vel[axis], max[axis], policy);
    }
}

fn step_with_tree(bodies: &mut [Body], theta: f64) {
    let tree = match mass_tree(bodies) {
        Some(tree) => tree,
        None => return,
    };
    let accelerations: Vec<V3> =
        (0..bodies.len()).map(|i| tree_acceleration(&tree, i, bodies, theta)).collect();
    for (body, a) in bodies.iter_mut().zip(accelerations) {
        body.vel = add(body.vel, scale(a, DT));
        body.pos = add(body.pos, scale(body.vel, DT));
        apply_bounds(body, Boundary::Reflect);
    }
}

fn step_naive(bodies: &mut [Body]) {
    if first_pair(bodies.len()).is_none() {
        return;
    }
    let changes = naive_velocity_changes(bodies);
    for (body, dv) in bodies.iter_mut().zip(changes) {
        body.vel = add(body.vel, dv);
        body.pos = add(body.pos, scale(body.vel, DT));
        apply_bounds(body, Boundary::Reflect);
    }
}

fn close(a: f64, b: f64) -> bool {
    (a - b).abs() <= 1e-6 * a.abs().max(b.abs())
}

#[test]
fn a_single_body_is_left_alone() {
    let start = Body { pos: [10., 20., 30.], vel: [0.1, -0.2, 0.25], mass: 7. };
    let mut bodies = vec![start];
    for _ in 0..10 {
        step_naive(&mut bodies);
        step_with_tree(&mut bodies, 0.5);
    }
    assert_eq!(bodies, vec![start]);
}

#[test]
fn no_bodies_no_work() {
    let mut bodies: Vec<Body> = Vec::new();
    step_naive(&mut bodies);
    step_with_tree(&mut bodies, 0.5);
    assert!(bodies.is_empty());
    assert!(mass_tree(&bodies).is_none());
}

#[test]
fn two_bodies_pull_each_other_equally() {
    let bodies = vec![
        Body { pos: [0., 0., 0.], vel: [0.; 3], mass: 10. },
        Body { pos: [100., 0., 0.], vel: [0.; 3], mass: 10. },
    ];
    let changes = naive_velocity_changes(&bodies);
    assert!(changes[0][0] > 0.);
    assert_eq!(changes[0][0], -changes[1][0]);
    assert_eq!(changes[0][1], 0.);
    assert_eq!(changes[0][2], 0.);
    let expected = 100. * 10. * G / (100f64 * 100. + 100.).powf(1.5);
    assert!(close(changes[0][0], expected));
}

#[test]
fn full_descent_agrees_with_the_pairwise_step() {
    for seed in 0..20 {
        let bodies = random_bodies(8, seed);
        let tree = mass_tree(&bodies).unwrap();
        let naive = naive_velocity_changes(&bodies);
        for i in 0..bodies.len() {
            let a = tree_acceleration(&tree, i, &bodies, 0.);
            for axis in 0..3 {
                assert!(close(a[axis], naive[i][axis]), "{} against {}", a[axis], naive[i][axis]);
            }
        }
    }
}

#[test]
fn the_root_aggregates_every_body() {
    for seed in 0..20 {
        let bodies = random_bodies(50, seed);
        let tree = mass_tree(&bodies).unwrap();
        let total: f64 = bodies.iter().map(|b| b.mass).sum();
        assert_eq!(tree.total_mass[0], total);
        assert_eq!(tree.tree.nodes[0].num_bodies, bodies.len());
        for axis in 0..3 {
            let weighted: f64 = bodies.iter().map(|b| b.pos[axis] * b.mass).sum();
            assert!(close(tree.center_mass[0][axis], weighted / total));
        }
        for (n, node) in tree.tree.nodes.iter().enumerate() {
            if let Some(f) = node.first_child {
                let mass: f64 = (0..8).map(|k| tree.total_mass[f + k]).sum();
                assert_eq!(tree.total_mass[n], mass);
            }
        }
    }
}

#[test]
fn a_far_cell_stands_for_its_bodies() {
    let bodies = random_bodies(200, 7);
    let tree = mass_tree(&bodies).unwrap();
    for target in 0..bodies.len() {
        let mut stack = tree.tree.start_walk();
        let mut others = 0;
        let mut accepted_self = 0;
        while let Some(&n) = stack.last() {
            let delta = sub(tree.center_mass[n], bodies[target].pos);
            let half_width = XMAX / 2. / (1u64 << tree.tree.nodes[n].depth) as f64;
            let far = half_width * half_width < 0.25 * sum_sqrs(delta);
            if tree.tree.update_body(&mut stack, target, far) == Visit::Accept {
                others += tree.tree.nodes[n].num_bodies;
                if key_of(bodies[target].pos) & ((1 << (3 * tree.tree.nodes[n].depth)) - 1)
                    == path_to(&tree.tree, n)
                {
                    accepted_self += 1;
                }
            }
        }
        assert_eq!(others, bodies.len() - 1 + accepted_self);
        assert!(accepted_self <= 1);
    }
}

fn path_to(tree: &OctTree, mut n: usize) -> u64 {
    let mut path = 0;
    while n != 0 {
        let p = tree.nodes[n].parent;
        let octant = (n - tree.nodes[p].first_child.unwrap()) as u64;
        path |= octant << (3 * tree.nodes[p].depth);
        n = p;
    }
    path
}

#[test]
fn a_body_beyond_the_wall_is_put_back_and_turned() {
    let mut body = Body { pos: [XMAX + 10., 500., 400.], vel: [0.2, 0.1, -0.1], mass: 5. };
    apply_bounds(&mut body, Boundary::Reflect);
    assert_eq!(body.pos, [XMAX, 500., 400.]);
    assert_eq!(body.vel, [-0.2, 0.1, -0.1]);
    let mut low = Body { pos: [3., -1., 900.], vel: [0.2, -0.1, 0.1], mass: 5. };
    apply_bounds(&mut low, Boundary::Reflect);
    assert_eq!(low.pos, [3., 0., ZMAX]);
    assert_eq!(low.vel, [0.2, 0.1, -0.1]);
}

#[test]
fn a_body_beyond_the_wall_comes_back_on_the_other_side() {
    let mut body = Body { pos: [XMAX + 10., -2., 400.], vel: [0.2, -0.1, -0.1], mass: 5. };
    apply_bounds(&mut body, Boundary::Wrap);
    assert_eq!(body.pos, [0., YMAX, 400.]);
    assert_eq!(body.vel, [0.2, -0.1, -0.1]);
}

#[test]
fn both_steps_keep_the_bodies_in_the_world() {
    let mut naive = random_bodies(30, 3);
    let mut tree = naive.clone();
    for _ in 0..20 {
        step_naive(&mut naive);
        step_with_tree(&mut tree, 0.5);
    }
    for body in naive.iter().chain(tree.iter()) {
        assert!((0. ..=XMAX).contains(&body.pos[0]));
        assert!((0. ..=YMAX).contains(&body.pos[1]));
        assert!((0. ..=ZMAX).contains(&body.pos[2]));
    }
}
