use rrt::collab::{BoxObstacle, UniformSampler};
use rrt::geom::{distance_squared, isqrt};
use rrt::rrtstar::{rrtstar, Node, RRTStarError, Tree};

// One planning-space unit is 1_000_000 ticks.
const UNIT: i64 = 1_000_000;

fn square_obstacle() -> BoxObstacle {
    BoxObstacle { center: vec![0, 0], half_extent: UNIT }
}

fn plane_sampler(seed: u64) -> UniformSampler {
    UniformSampler::new(vec![-2 * UNIT, -2 * UNIT], vec![2 * UNIT, 2 * UNIT], seed)
}

#[test]
fn rrtstar_it_works() {
    let obstacle = square_obstacle();
    let mut sampler = plane_sampler(11);
    let result = rrtstar(
        &vec![-12 * UNIT / 10, 0],
        &vec![12 * UNIT / 10, 0],
        &obstacle,
        &mut sampler,
        2 * UNIT / 10,
        1000,
        5 * UNIT / 10,
        false,
    )
    .unwrap();
    assert!(result.vertices.len() >= 1);
}

#[test]
fn rrtstar_reaches_goal_with_feasible_path() {
    let obstacle = square_obstacle();
    let mut sampler = plane_sampler(4);
    let start = vec![-12 * UNIT / 10, 0];
    let goal = vec![12 * UNIT / 10, 0];
    let tree = rrtstar(
        &start,
        &goal,
        &obstacle,
        &mut sampler,
        2 * UNIT / 10,
        1000,
        5 * UNIT / 10,
        true,
    )
    .unwrap();
    let goal_index = tree.goal_index.expect("goal must be registered");
    assert_eq!(tree.vertices[goal_index].data, goal);
    // the chain from the goal vertex back to the root is finite, ends at
    // the start, and stays outside the obstacle
    let chain = tree.get_until_root(goal_index);
    assert!(chain.len() >= 1);
    assert_eq!(chain[chain.len() - 1], start);
    for p in &chain {
        assert!(p[0].abs() >= UNIT || p[1].abs() >= UNIT);
    }
}

#[test]
fn rrtstar_costs_dominate_parent_chains() {
    let obstacle = square_obstacle();
    let mut sampler = plane_sampler(8);
    let tree = rrtstar(
        &vec![-12 * UNIT / 10, 0],
        &vec![12 * UNIT / 10, 0],
        &obstacle,
        &mut sampler,
        2 * UNIT / 10,
        400,
        5 * UNIT / 10,
        false,
    )
    .unwrap();
    assert_eq!(tree.vertices[0].weight, 0);
    assert!(tree.vertices[0].parent_index.is_none());
    for i in 1..tree.vertices.len() {
        let p = tree.vertices[i].parent_index.expect("non-root vertices have parents");
        let edge = isqrt(distance_squared(&tree.vertices[p].data, &tree.vertices[i].data));
        // recorded costs strictly increase along edges and dominate the
        // parent's cost plus the edge cost
        assert!(tree.vertices[p].weight < tree.vertices[i].weight);
        assert!(tree.vertices[i].weight >= tree.vertices[p].weight + edge);
        // and dominate the recomputed sum of edge costs up to the root
        let mut cur = i;
        let mut sum: u128 = 0;
        while let Some(parent) = tree.vertices[cur].parent_index {
            sum += isqrt(distance_squared(&tree.vertices[parent].data, &tree.vertices[cur].data));
            cur = parent;
        }
        assert!(sum <= tree.vertices[i].weight);
    }
}

#[test]
fn rrtstar_unreachable_goal_reports_error() {
    let obstacle = square_obstacle();
    let mut sampler = plane_sampler(6);
    let result = rrtstar(
        &vec![-12 * UNIT / 10, 0],
        &vec![0, 0],
        &obstacle,
        &mut sampler,
        2 * UNIT / 10,
        300,
        5 * UNIT / 10,
        true,
    );
    match result {
        Err(e) => assert_eq!(e, RRTStarError::MaxItersReached),
        Ok(_) => panic!("the goal sits inside the obstacle; the budget must run out"),
    }
}

#[test]
fn rrtstar_error_message() {
    let e = RRTStarError::MaxItersReached;
    assert_eq!(
        e.message(),
        "Failed to find a path within the maximum number of iterations"
    );
}

#[test]
fn tree_default_is_empty_two_dimensional() {
    let t = Tree::default();
    assert_eq!(t.vertices.len(), 0);
    assert!(t.goal_index.is_none());
    assert_eq!(t.dim, 2);
}

#[test]
fn weighted_node_starts_parentless() {
    let n: Node<Vec<i64>, u128> = Node::new(vec![3i64, 4], 25);
    assert!(n.parent_index.is_none());
    assert_eq!(n.data, vec![3, 4]);
    assert_eq!(n.weight, 25);
}
