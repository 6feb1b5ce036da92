use rrt::geom::{distance_squared, isqrt, square_len, steer};

#[test]
fn isqrt_small_values() {
    assert_eq!(isqrt(0), 0);
    assert_eq!(isqrt(1), 1);
    assert_eq!(isqrt(3), 1);
    assert_eq!(isqrt(4), 2);
    assert_eq!(isqrt(15), 3);
    assert_eq!(isqrt(16), 4);
    assert_eq!(isqrt(24), 4);
    assert_eq!(isqrt(25), 5);
}

#[test]
fn isqrt_large_values() {
    assert_eq!(isqrt(1u128 << 126), 1u128 << 63);
    assert_eq!(isqrt((1u128 << 126) - 1), (1u128 << 63) - 1);
    assert_eq!(isqrt(1_000_000_000_000), 1_000_000);
}

#[test]
fn distance_squared_exact() {
    let a = vec![0i64, 0];
    let b = vec![3i64, 4];
    assert_eq!(distance_squared(&a, &b), 25);
    assert_eq!(distance_squared(&b, &a), 25);
    assert_eq!(distance_squared(&a, &a), 0);
    let c = vec![-1_000_000i64, 2_000_000, -3_000_000];
    let d = vec![1_000_000i64, -2_000_000, 3_000_000];
    assert_eq!(
        distance_squared(&c, &d),
        4_000_000_000_000u128 + 16_000_000_000_000 + 36_000_000_000_000
    );
}

#[test]
fn square_len_exact() {
    assert_eq!(square_len(1), 1);
    assert_eq!(square_len(200_000), 40_000_000_000);
}

#[test]
fn steer_returns_target_when_close() {
    let from = vec![0i64, 0];
    let toward = vec![3i64, 4];
    // squared distance 25 is below 10 * 10, so the target comes back as is
    let q = steer(&from, &toward, 10);
    assert_eq!(q, toward);
}

#[test]
fn steer_exact_truncated_step() {
    let from = vec![0i64, 0];
    let toward = vec![30i64, 40];
    // squared distance 2500, isqrt 50, divisor 51: offsets 300/51 and 400/51
    let q = steer(&from, &toward, 10);
    assert_eq!(q, vec![5, 7]);
    assert!(distance_squared(&from, &q) <= 100);
}

#[test]
fn steer_never_overshoots() {
    let from = vec![-1_200_000i64, 0];
    let toward = vec![1_200_000i64, 900_000];
    let step = 200_000i64;
    let q = steer(&from, &toward, step);
    assert!(distance_squared(&from, &q) <= square_len(step));
    // componentwise the result stays between the endpoints
    for i in 0..2 {
        let lo = from[i].min(toward[i]);
        let hi = from[i].max(toward[i]);
        assert!(lo <= q[i] && q[i] <= hi);
    }
}
