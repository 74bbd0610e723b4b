use n_body_sim::body::{
    bounds, random_mass, side, Boundary, Correction, Place, Side, MASS_BOUND, MASS_MIN,
};
use n_body_sim::nbodies::{first_pair, next_pair, tree_of_tick, Pair};
use rand::rngs::StdRng;
use rand::SeedableRng;

fn all_pairs(n: usize) -> Vec<(usize, usize)> {
    let mut out = Vec::new();
    let mut p = first_pair(n);
    while let Some(pair) = p {
        out.push((pair.first, pair.second));
        p = next_pair(n, pair);
    }
    out
}

#[test]
fn naive_self_test() {
    assert_eq!(first_pair(1), None);
    assert!(all_pairs(1).is_empty());
}

#[test]
fn no_pairs_without_bodies() {
    assert_eq!(first_pair(0), None);
    assert!(all_pairs(0).is_empty());
}

#[test]
fn two_bodies_make_one_pair() {
    assert_eq!(first_pair(2), Some(Pair { first: 0, second: 1 }));
    assert_eq!(next_pair(2, Pair { first: 0, second: 1 }), None);
    assert_eq!(all_pairs(2), vec![(0, 1)]);
}

#[test]
fn pairs_of_four_in_order() {
    assert_eq!(all_pairs(4), vec![(0, 1), (0, 2), (0, 3), (1, 2), (1, 3), (2, 3)]);
    assert_eq!(next_pair(4, Pair { first: 0, second: 3 }), Some(Pair { first: 1, second: 2 }));
    assert_eq!(next_pair(4, Pair { first: 2, second: 3 }), None);
}

#[test]
fn every_pair_comes_once() {
    for n in 0..40usize {
        let pairs = all_pairs(n);
        assert_eq!(pairs.len(), n * n.saturating_sub(1) / 2);
        let mut expected = Vec::new();
        for i in 0..n {
            for j in i + 1..n {
                expected.push((i, j));
            }
        }
        assert_eq!(pairs, expected);
    }
}

#[test]
fn masses_lie_in_their_range() {
    assert_eq!(MASS_MIN, 1);
    assert_eq!(MASS_BOUND, 100);
    let mut rng = StdRng::seed_from_u64(2024);
    let draws: Vec<u32> = (0..2000).map(|_| random_mass(&mut rng)).collect();
    assert!(draws.iter().all(|&m| (1..100).contains(&m)));
    assert!(draws.iter().any(|&m| m != draws[0]));
}

#[test]
fn equal_seeds_give_equal_masses() {
    let mut a = StdRng::seed_from_u64(99);
    let mut b = StdRng::seed_from_u64(99);
    let mut c = StdRng::seed_from_u64(100);
    let from_a: Vec<u32> = (0..200).map(|_| random_mass(&mut a)).collect();
    let from_b: Vec<u32> = (0..200).map(|_| random_mass(&mut b)).collect();
    let from_c: Vec<u32> = (0..200).map(|_| random_mass(&mut c)).collect();
    assert_eq!(from_a, from_b);
    assert_ne!(from_a, from_c);
}

#[test]
fn bounds_test() {
    for policy in [Boundary::Reflect, Boundary::Wrap] {
        let correction = bounds(policy, side(false, true));
        assert_ne!(correction.place, Place::Stay);
        let correction = bounds(policy, side(true, false));
        assert_ne!(correction.place, Place::Stay);
    }
}

#[test]
fn reflection_puts_the_body_on_the_wall_it_crossed() {
    assert_eq!(side(false, true), Side::Above);
    assert_eq!(
        bounds(Boundary::Reflect, Side::Above),
        Correction { place: Place::AtMax, flip: true }
    );
    assert_eq!(
        bounds(Boundary::Reflect, Side::Below),
        Correction { place: Place::AtZero, flip: true }
    );
    assert_eq!(
        bounds(Boundary::Reflect, Side::Within),
        Correction { place: Place::Stay, flip: false }
    );
}

#[test]
fn wrapping_puts_the_body_on_the_opposite_wall() {
    let stays = Correction { place: Place::Stay, flip: false };
    let to_zero = Correction { place: Place::AtZero, flip: false };
    let to_max = Correction { place: Place::AtMax, flip: false };
    assert_eq!(bounds(Boundary::Wrap, Side::Above), to_zero);
    assert_eq!(bounds(Boundary::Wrap, Side::Below), to_max);
    assert_eq!(bounds(Boundary::Wrap, Side::Within), stays);
}

#[test]
fn sides_of_an_axis() {
    assert_eq!(side(false, false), Side::Within);
    assert_eq!(side(true, false), Side::Below);
    assert_eq!(side(false, true), Side::Above);
    assert_eq!(side(true, true), Side::Below);
}

#[test]
fn a_tick_needs_two_bodies() {
    assert!(tree_of_tick(&vec![], 10).is_none());
    assert!(tree_of_tick(&vec![5], 10).is_none());
    let built = tree_of_tick(&vec![5, 6], 10).unwrap();
    assert_eq!(built.tree.nodes[0].num_bodies, 2);
    assert_eq!(built.updates.len(), 4);
}
