use rand::SeedableRng;
use rrt::collab::{BoxObstacle, FreePredicate, Sampler, UniformSampler};
use rrt::geom::{distance_squared, square_len};
use rrt::{dual_rrt_connect, smooth_path};

// One planning-space unit is 1_000_000 ticks.
const UNIT: i64 = 1_000_000;

fn square_obstacle() -> BoxObstacle {
    BoxObstacle { center: vec![0, 0], half_extent: UNIT }
}

fn plane_sampler(seed: u64) -> UniformSampler {
    UniformSampler::new(vec![-2 * UNIT, -2 * UNIT], vec![2 * UNIT, 2 * UNIT], seed)
}

#[test]
fn lib_it_works() {
    let obstacle = square_obstacle();
    let mut sampler = plane_sampler(12);
    let mut result = dual_rrt_connect(
        &vec![-12 * UNIT / 10, 0],
        &vec![12 * UNIT / 10, 0],
        &obstacle,
        &mut sampler,
        2 * UNIT / 10,
        1000,
    )
    .unwrap();
    assert!(result.len() >= 4);
    let mut rng = rand::rngs::StdRng::seed_from_u64(34);
    smooth_path(&mut result, &obstacle, 2 * UNIT / 10, 100, &mut rng);
    assert!(result.len() >= 3);
}

#[test]
fn feasible_scenario_path_avoids_obstacle() {
    let obstacle = square_obstacle();
    let mut sampler = plane_sampler(7);
    let start = vec![-12 * UNIT / 10, 0];
    let goal = vec![12 * UNIT / 10, 0];
    let step = 2 * UNIT / 10;
    let path = dual_rrt_connect(&start, &goal, &obstacle, &mut sampler, step, 1000).unwrap();
    assert!(path.len() >= 4);
    assert_eq!(path[0], start);
    assert_eq!(path[path.len() - 1], goal);
    for p in &path {
        // no waypoint lies strictly inside the square
        assert!(p[0].abs() >= UNIT || p[1].abs() >= UNIT);
    }
}

#[test]
fn consecutive_waypoints_within_step_except_bridge() {
    let obstacle = square_obstacle();
    let mut sampler = plane_sampler(99);
    let step = 2 * UNIT / 10;
    let path = dual_rrt_connect(
        &vec![-12 * UNIT / 10, 0],
        &vec![12 * UNIT / 10, 0],
        &obstacle,
        &mut sampler,
        step,
        1000,
    )
    .unwrap();
    let mut over_step: usize = 0;
    for w in path.windows(2) {
        if distance_squared(&w[0], &w[1]) > square_len(step) {
            over_step += 1;
        }
    }
    assert!(over_step <= 1);
}

#[test]
fn infeasible_goal_exhausts_budget() {
    let obstacle = square_obstacle();
    let mut sampler = plane_sampler(5);
    let result = dual_rrt_connect(
        &vec![-12 * UNIT / 10, 0],
        &vec![0, 0],
        &obstacle,
        &mut sampler,
        2 * UNIT / 10,
        1000,
    );
    assert_eq!(result, Err("failed".to_string()));
}

#[test]
fn smooth_path_short_input_unchanged() {
    let obstacle = square_obstacle();
    let mut rng = rand::rngs::StdRng::seed_from_u64(1);
    let mut path = vec![vec![0i64, 0], vec![5 * UNIT, 0]];
    let copy = path.clone();
    smooth_path(&mut path, &obstacle, UNIT, 50, &mut rng);
    assert_eq!(path, copy);
}

#[test]
fn smooth_path_collapses_free_line() {
    // an obstacle far away from the path: every shortcut is feasible
    let obstacle = BoxObstacle { center: vec![900_000_000, 900_000_000], half_extent: 1000 };
    let mut rng = rand::rngs::StdRng::seed_from_u64(2);
    let mut path = vec![
        vec![0i64, 0],
        vec![100, 0],
        vec![200, 0],
        vec![300, 0],
        vec![400, 0],
    ];
    smooth_path(&mut path, &obstacle, UNIT, 100, &mut rng);
    assert_eq!(path, vec![vec![0i64, 0], vec![400, 0]]);
}

/// Checks that `out` is `inp` with zero or more waypoints removed,
/// preserving order.
fn assert_ordered_subsequence(out: &[Vec<i64>], inp: &[Vec<i64>]) {
    let mut j = 0usize;
    for p in out {
        while j < inp.len() && &inp[j] != p {
            j += 1;
        }
        assert!(j < inp.len(), "output waypoint missing or out of order");
        j += 1;
    }
}

#[test]
fn smooth_path_three_waypoints_collapse_deterministically() {
    // an obstacle far away from the path: the only possible shortcut
    // (first to last waypoint) always succeeds, whatever the seed
    let obstacle = BoxObstacle { center: vec![900_000_000, 900_000_000], half_extent: 1000 };
    for seed in 0..10u64 {
        let mut rng = rand::rngs::StdRng::seed_from_u64(seed);
        let mut path = vec![vec![0i64, 0], vec![50, 50], vec![100, 0]];
        smooth_path(&mut path, &obstacle, UNIT, 1, &mut rng);
        assert_eq!(path, vec![vec![0i64, 0], vec![100, 0]]);
    }
}

#[test]
fn smooth_path_never_grows_and_keeps_endpoints() {
    let obstacle = square_obstacle();
    let mut sampler = plane_sampler(21);
    let step = 2 * UNIT / 10;
    let start = vec![-12 * UNIT / 10, 0];
    let goal = vec![12 * UNIT / 10, 0];
    let mut path = dual_rrt_connect(&start, &goal, &obstacle, &mut sampler, step, 1000).unwrap();
    let unsmoothed = path.clone();
    let mut rng = rand::rngs::StdRng::seed_from_u64(3);
    smooth_path(&mut path, &obstacle, step, 100, &mut rng);
    assert!(path.len() <= unsmoothed.len());
    assert!(path.len() >= 2);
    assert_eq!(path[0], start);
    assert_eq!(path[path.len() - 1], goal);
    // the smoothed path only removes waypoints: order is preserved
    assert_ordered_subsequence(&path, &unsmoothed);
    for p in &path {
        assert!(p[0].abs() >= UNIT || p[1].abs() >= UNIT);
    }
}

#[test]
fn box_obstacle_decides_exactly() {
    let obstacle = BoxObstacle { center: vec![0, 0], half_extent: 10 };
    assert!(!obstacle.is_free(&vec![5, 5]));
    assert!(!obstacle.is_free(&vec![-9, 9]));
    assert!(obstacle.is_free(&vec![10, 0]));
    assert!(obstacle.is_free(&vec![0, -10]));
    assert!(obstacle.is_free(&vec![11, 11]));
    // a configuration of another dimension is never inside the box
    assert!(obstacle.is_free(&vec![0]));
}

#[test]
fn uniform_sampler_stays_in_bounds() {
    let mut sampler = UniformSampler::new(vec![-50, 0, 7], vec![50, 0, 9], 77);
    for _ in 0..100 {
        let q = sampler.sample();
        assert_eq!(q.len(), 3);
        assert!(-50 <= q[0] && q[0] <= 50);
        assert_eq!(q[1], 0);
        assert!(7 <= q[2] && q[2] <= 9);
    }
}

#[test]
fn uniform_sampler_is_reproducible() {
    let mut s1 = UniformSampler::new(vec![-2 * UNIT, -2 * UNIT], vec![2 * UNIT, 2 * UNIT], 123);
    let mut s2 = UniformSampler::new(vec![-2 * UNIT, -2 * UNIT], vec![2 * UNIT, 2 * UNIT], 123);
    for _ in 0..20 {
        assert_eq!(s1.sample(), s2.sample());
    }
}

#[test]
fn node_starts_parentless() {
    let n = rrt::Node::new(vec![1i64, 2]);
    assert!(n.parent_index.is_none());
    assert_eq!(n.data, vec![1, 2]);
}
