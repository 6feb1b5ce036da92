//! Exact geometry over fixed-point configurations.
//!
//! A configuration is a `Vec<i64>` of coordinates in integer ticks, each
//! within `[-COORD_LIMIT, COORD_LIMIT]`. Squared Euclidean distances are
//! computed exactly in `u128`, and distances themselves are represented by
//! the integer square-root floor, so all contracts are exact statements
//! about integers.

use vstd::prelude::*;

verus! {

use vstd::arithmetic::div_mod::{
    lemma_div_by_multiple,
    lemma_div_is_ordered,
    lemma_div_pos_is_pos,
    lemma_fundamental_div_mod,
    lemma_mod_bound,
};
use vstd::arithmetic::mul::{lemma_mul_inequality, lemma_mul_nonnegative};

/// Largest magnitude a coordinate may have (2^30 ticks). The bound keeps
/// every squared distance below 2^126, so sums of squares never overflow
/// `u128` for any vector length that fits in memory.
pub const COORD_LIMIT: i64 = 0x4000_0000;

/// Upper bound on any squared distance between well-formed configurations
/// (2^126); inputs to `isqrt` must stay at or below it.
pub const SQUARE_RANGE: u128 = 0x4000_0000_0000_0000_0000_0000_0000_0000;

pub open spec fn wf_coord(x: i64) -> bool {
    -COORD_LIMIT <= x <= COORD_LIMIT
}

/// A well-formed configuration: every coordinate within the fixed-point range.
pub open spec fn wf_config(q: Seq<i64>) -> bool {
    forall|i: int| 0 <= i < q.len() ==> wf_coord(#[trigger] q[i])
}

pub open spec fn sq(x: int) -> int {
    x * x
}

/// Sum of squared coordinate differences over the first `n` coordinates.
pub open spec fn dist_sq_upto(a: Seq<i64>, b: Seq<i64>, n: int) -> int
    decreases n,
{
    if n <= 0 {
        0
    } else {
        dist_sq_upto(a, b, n - 1) + sq(a[n - 1] - b[n - 1])
    }
}

/// Exact squared Euclidean distance between two configurations of equal length.
pub open spec fn dist_sq(a: Seq<i64>, b: Seq<i64>) -> int {
    dist_sq_upto(a, b, a.len() as int)
}

pub proof fn lemma_dist_sq_upto_nonneg(a: Seq<i64>, b: Seq<i64>, n: int)
    ensures
        dist_sq_upto(a, b, n) >= 0,
    decreases n,
{
    if n > 0 {
        lemma_dist_sq_upto_nonneg(a, b, n - 1);
        assert(sq(a[n - 1] - b[n - 1]) >= 0) by (nonlinear_arith);
    }
}

pub proof fn lemma_dist_sq_upto_bound(a: Seq<i64>, b: Seq<i64>, n: int)
    requires
        wf_config(a),
        wf_config(b),
        0 <= n,
        n <= a.len(),
        n <= b.len(),
    ensures
        dist_sq_upto(a, b, n) <= n * 0x4000_0000_0000_0000,
    decreases n,
{
    if n <= 0 {
    } else {
        lemma_dist_sq_upto_bound(a, b, n - 1);
        assert(sq(a[n - 1] - b[n - 1]) <= 0x4000_0000_0000_0000) by (nonlinear_arith)
            requires
                -0x4000_0000 <= a[n - 1] <= 0x4000_0000,
                -0x4000_0000 <= b[n - 1] <= 0x4000_0000;
        assert((n - 1) * 0x4000_0000_0000_0000 + 0x4000_0000_0000_0000 == n * 0x4000_0000_0000_0000)
            by (nonlinear_arith);
    }
}

/// The squared distance between two well-formed configurations never
/// exceeds `SQUARE_RANGE`.
pub proof fn lemma_dist_sq_in_range(a: Seq<i64>, b: Seq<i64>)
    requires
        wf_config(a),
        wf_config(b),
        a.len() == b.len(),
        a.len() <= 0x1_0000_0000_0000_0000,
    ensures
        0 <= dist_sq(a, b) <= SQUARE_RANGE,
{
    lemma_dist_sq_upto_nonneg(a, b, a.len() as int);
    lemma_dist_sq_upto_bound(a, b, a.len() as int);
    assert(a.len() * 0x4000_0000_0000_0000 <= 0x1_0000_0000_0000_0000 * 0x4000_0000_0000_0000)
        by (nonlinear_arith)
        requires
            a.len() <= 0x1_0000_0000_0000_0000;
}

/// Computes the exact squared Euclidean distance between `a` and `b`.
pub fn distance_squared(a: &Vec<i64>, b: &Vec<i64>) -> (r: u128)
    requires
        a@.len() == b@.len(),
        wf_config(a@),
        wf_config(b@),
    ensures
        r == dist_sq(a@, b@),
{
    let mut acc: u128 = 0;
    let mut i: usize = 0;
    while i < a.len()
        invariant
            a@.len() == b@.len(),
            wf_config(a@),
            wf_config(b@),
            0 <= i <= a@.len(),
            acc == dist_sq_upto(a@, b@, i as int),
            acc <= i * 0x4000_0000_0000_0000,
        decreases a@.len() - i,
    {
        let d: i128 = a[i] as i128 - b[i] as i128;
        assert(0 <= d * d <= 0x4000_0000_0000_0000) by (nonlinear_arith)
            requires
                -0x8000_0000 <= d <= 0x8000_0000;
        let s: u128 = (d * d) as u128;
        proof {
            assert((i + 1) * 0x4000_0000_0000_0000 == i * 0x4000_0000_0000_0000
                + 0x4000_0000_0000_0000) by (nonlinear_arith);
            assert(i * 0x4000_0000_0000_0000 <= 0xffff_ffff_ffff_ffff * 0x4000_0000_0000_0000)
                by (nonlinear_arith)
                requires
                    0 <= i <= 0xffff_ffff_ffff_ffff;
        }
        acc = acc + s;
        i = i + 1;
    }
    proof {
        lemma_dist_sq_upto_nonneg(a@, b@, a@.len() as int);
    }
    acc
}

/// `r` is the integer square-root floor of `n`.
pub open spec fn is_sqrt_floor(n: int, r: int) -> bool {
    &&& 0 <= r
    &&& r * r <= n
    &&& n < (r + 1) * (r + 1)
}

/// The integer square-root floor of `n` (meaningful for `n >= 0`).
pub open spec fn sqrt_floor(n: int) -> int {
    choose|r: int| is_sqrt_floor(n, r)
}

pub proof fn lemma_sqrt_floor_unique(n: int, r1: int, r2: int)
    requires
        is_sqrt_floor(n, r1),
        is_sqrt_floor(n, r2),
    ensures
        r1 == r2,
{
    if r1 < r2 {
        assert((r1 + 1) * (r1 + 1) <= r2 * r2) by (nonlinear_arith)
            requires
                0 <= r1 < r2;
    }
    if r2 < r1 {
        assert((r2 + 1) * (r2 + 1) <= r1 * r1) by (nonlinear_arith)
            requires
                0 <= r2 < r1;
    }
}

/// Knowing a concrete square-root floor witness pins down `sqrt_floor`.
pub proof fn lemma_sqrt_floor_of(n: int, r: int)
    requires
        is_sqrt_floor(n, r),
    ensures
        sqrt_floor(n) == r,
        is_sqrt_floor(n, sqrt_floor(n)),
{
    assert(is_sqrt_floor(n, sqrt_floor(n))) by {
        assert(exists|x: int| is_sqrt_floor(n, x));
    }
    lemma_sqrt_floor_unique(n, sqrt_floor(n), r);
}

/// Every nonnegative integer has a square-root floor.
pub proof fn lemma_sqrt_floor_exists(n: int)
    requires
        0 <= n,
    ensures
        is_sqrt_floor(n, sqrt_floor(n)),
    decreases n,
{
    if n == 0 {
        assert(is_sqrt_floor(0, 0)) by (nonlinear_arith);
        lemma_sqrt_floor_of(0, 0);
    } else {
        lemma_sqrt_floor_exists(n - 1);
        let r = sqrt_floor(n - 1);
        if n < (r + 1) * (r + 1) {
            assert(is_sqrt_floor(n, r));
            lemma_sqrt_floor_of(n, r);
        } else {
            assert(n == (r + 1) * (r + 1));
            assert(n < (r + 2) * (r + 2)) by (nonlinear_arith)
                requires
                    0 <= r,
                    n == (r + 1) * (r + 1);
            assert(is_sqrt_floor(n, r + 1));
            lemma_sqrt_floor_of(n, r + 1);
        }
    }
}

/// The cost of the edge between two configurations: the integer floor of
/// their Euclidean distance.
pub open spec fn edge_cost(a: Seq<i64>, b: Seq<i64>) -> int {
    sqrt_floor(dist_sq(a, b))
}

/// Edge costs between well-formed configurations are nonnegative, bounded,
/// and positive between distinct configurations.
pub proof fn lemma_edge_cost_bounds(a: Seq<i64>, b: Seq<i64>)
    requires
        wf_config(a),
        wf_config(b),
        a.len() == b.len(),
        a.len() <= 0x1_0000_0000_0000_0000,
    ensures
        0 <= edge_cost(a, b) <= 0x8000_0000_0000_0000,
        a != b ==> 1 <= edge_cost(a, b),
{
    lemma_dist_sq_in_range(a, b);
    let n = dist_sq(a, b);
    lemma_sqrt_floor_exists(n);
    let r = sqrt_floor(n);
    assert(r <= 0x8000_0000_0000_0000) by (nonlinear_arith)
        requires
            0 <= r,
            r * r <= n,
            n <= 0x4000_0000_0000_0000_0000_0000_0000_0000;
    if a != b {
        if n == 0 {
            lemma_dist_sq_upto_zero(a, b, a.len() as int);
            assert(a =~= b);
        }
        assert(1 <= n);
        assert(1 <= r) by (nonlinear_arith)
            requires
                0 <= r,
                1 <= n,
                n < (r + 1) * (r + 1);
    }
}

/// Integer square root (floor) by binary search.
pub fn isqrt(n: u128) -> (r: u128)
    requires
        n <= SQUARE_RANGE,
    ensures
        is_sqrt_floor(n as int, r as int),
        r == sqrt_floor(n as int),
{
    let mut lo: u128 = 0;
    let mut hi: u128 = 0x8000_0000_0000_0001;
    proof {
        assert(n < 0x8000_0000_0000_0001 * 0x8000_0000_0000_0001) by (nonlinear_arith)
            requires
                n <= 0x4000_0000_0000_0000_0000_0000_0000_0000;
    }
    while lo + 1 < hi
        invariant
            lo < hi <= 0x8000_0000_0000_0001,
            lo * lo <= n,
            n < hi * hi,
        decreases hi - lo,
    {
        let mid: u128 = lo + (hi - lo) / 2;
        assert(lo < mid < hi);
        assert(mid * mid <= 0x8000_0000_0000_0001 * 0x8000_0000_0000_0001) by (nonlinear_arith)
            requires
                0 <= mid <= 0x8000_0000_0000_0001;
        if mid * mid <= n {
            lo = mid;
        } else {
            hi = mid;
        }
    }
    proof {
        assert(hi == lo + 1);
        lemma_sqrt_floor_of(n as int, lo as int);
    }
    lo
}

/// Copies a configuration; the planners store owned copies of every
/// inserted point.
pub fn clone_config(q: &Vec<i64>) -> (r: Vec<i64>)
    ensures
        r@ == q@,
{
    let r = q.clone();
    proof {
        assert forall|i: int| 0 <= i < q@.len() implies r@[i] == q@[i] by {
            assert(cloned::<i64>(q@[i], r@[i]));
        }
        assert(r@ =~= q@);
    }
    r
}

/// For plain coordinate vectors the deep view and the view coincide.
pub proof fn lemma_config_deep_view(v: Vec<i64>)
    ensures
        v.deep_view() == v@,
{
    assert(v.deep_view() =~= v@);
}

/// The square of a positive step length, computed without overflow.
pub fn square_len(s: i64) -> (r: u128)
    requires
        0 < s,
    ensures
        r == s * s,
{
    proof {
        assert((s as u128) * (s as u128) <= 0x4000_0000_0000_0000_0000_0000_0000_0000)
            by (nonlinear_arith)
            requires
                0 < s <= 0x7fff_ffff_ffff_ffff;
    }
    (s as u128) * (s as u128)
}

/// Two configurations at squared distance zero are equal.
pub proof fn lemma_dist_sq_upto_zero(a: Seq<i64>, b: Seq<i64>, n: int)
    requires
        dist_sq_upto(a, b, n) == 0,
    ensures
        forall|j: int| 0 <= j < n ==> a[j] == b[j],
    decreases n,
{
    if n > 0 {
        lemma_dist_sq_upto_nonneg(a, b, n - 1);
        assert(sq(a[n - 1] - b[n - 1]) >= 0) by (nonlinear_arith);
        assert(sq(a[n - 1] - b[n - 1]) == 0);
        assert(a[n - 1] == b[n - 1]) by (nonlinear_arith)
            requires
                (a[n - 1] - b[n - 1]) * (a[n - 1] - b[n - 1]) == 0;
        lemma_dist_sq_upto_zero(a, b, n - 1);
    }
}

/// Equal configurations are at squared distance zero.
pub proof fn lemma_dist_sq_upto_self(a: Seq<i64>, b: Seq<i64>, n: int)
    requires
        forall|j: int| 0 <= j < n ==> a[j] == b[j],
    ensures
        dist_sq_upto(a, b, n) == 0,
    decreases n,
{
    if n > 0 {
        lemma_dist_sq_upto_self(a, b, n - 1);
        assert(sq(a[n - 1] - b[n - 1]) == 0) by (nonlinear_arith)
            requires
                a[n - 1] == b[n - 1];
    }
}

/// `dist_sq_upto` only reads the first `n` entries of its second argument.
pub proof fn lemma_dist_sq_upto_agree(a: Seq<i64>, b1: Seq<i64>, b2: Seq<i64>, n: int)
    requires
        forall|j: int| 0 <= j < n ==> b1[j] == b2[j],
    ensures
        dist_sq_upto(a, b1, n) == dist_sq_upto(a, b2, n),
    decreases n,
{
    if n > 0 {
        lemma_dist_sq_upto_agree(a, b1, b2, n - 1);
    }
}

/// Squared distance is symmetric.
pub proof fn lemma_dist_sq_upto_sym(a: Seq<i64>, b: Seq<i64>, n: int)
    ensures
        dist_sq_upto(a, b, n) == dist_sq_upto(b, a, n),
    decreases n,
{
    if n > 0 {
        lemma_dist_sq_upto_sym(a, b, n - 1);
        assert(sq(a[n - 1] - b[n - 1]) == sq(b[n - 1] - a[n - 1])) by (nonlinear_arith);
    }
}

/// The truncated offset a coordinate moves by when steering: `(x * s) / dd`,
/// for a coordinate gap `x`, step bound `s`, and distance stand-in `dd`.
pub open spec fn steer_offset(x: int, s: int, dd: int) -> int {
    (x * s) / dd
}

/// One steered coordinate: move `from` toward `toward` by the truncated
/// offset for gap `|toward - from|`.
pub open spec fn steer_coord(f: int, t: int, s: int, dd: int) -> int {
    if t >= f {
        f + steer_offset(t - f, s, dd)
    } else {
        f - steer_offset(f - t, s, dd)
    }
}

pub proof fn lemma_steer_offset(x: int, s: int, dd: int)
    requires
        0 <= x,
        0 < s < dd,
    ensures
        0 <= steer_offset(x, s, dd) <= x,
        sq(steer_offset(x, s, dd)) * (dd * dd) <= sq(x) * (s * s),
{
    let o = steer_offset(x, s, dd);
    lemma_mul_nonnegative(x, s);
    lemma_div_pos_is_pos(x * s, dd);
    assert(x * s <= x * dd) by (nonlinear_arith)
        requires
            0 <= x,
            s < dd;
    lemma_div_is_ordered(x * s, x * dd, dd);
    lemma_div_by_multiple(x, dd);
    assert(o <= x);
    lemma_fundamental_div_mod(x * s, dd);
    lemma_mod_bound(x * s, dd);
    assert(dd * o <= x * s);
    lemma_mul_nonnegative(dd, o);
    assert((dd * o) * (dd * o) <= (x * s) * (x * s)) by (nonlinear_arith)
        requires
            0 <= dd * o,
            dd * o <= x * s;
    assert(o * o * (dd * dd) <= x * x * (s * s)) by (nonlinear_arith)
        requires
            (dd * o) * (dd * o) <= (x * s) * (x * s);
    assert(sq(o) == o * o);
    assert(sq(x) == x * x);
}

/// `q` is exactly what steering from `from` toward `toward` with step
/// bound `s` produces: the target itself when it is strictly within one
/// step (by squared distance), and otherwise the truncated-division move,
/// which never travels farther than `s` and never leaves the bounding box
/// of the two endpoints.
pub open spec fn steered(from: Seq<i64>, toward: Seq<i64>, s: int, q: Seq<i64>) -> bool {
    &&& q.len() == from.len()
    &&& (dist_sq(from, toward) < s * s ==> q == toward)
    &&& (dist_sq(from, toward) >= s * s ==> forall|i: int| 0 <= i < q.len() ==> #[trigger] q[i] as int == steer_coord(
        from[i] as int,
        toward[i] as int,
        s,
        sqrt_floor(dist_sq(from, toward)) + 1,
    ))
    &&& dist_sq(from, q) <= s * s
    &&& forall|i: int| 0 <= i < q.len() ==> (from[i] <= #[trigger] q[i] <= toward[i] || toward[i]
        <= q[i] <= from[i])
}

/// The steered configuration, as a function of the endpoints and the step
/// bound: the target itself when it is strictly within one step, otherwise
/// the truncated-division move.
pub open spec fn steer_seq(from: Seq<i64>, toward: Seq<i64>, s: int) -> Seq<i64> {
    if dist_sq(from, toward) < s * s {
        toward
    } else {
        Seq::new(
            from.len(),
            |i: int| steer_coord(
                from[i] as int,
                toward[i] as int,
                s,
                sqrt_floor(dist_sq(from, toward)) + 1,
            ) as i64,
        )
    }
}

/// A configuration satisfying `steered` is exactly `steer_seq`.
pub proof fn lemma_steered_is_steer_seq(from: Seq<i64>, toward: Seq<i64>, s: int, q: Seq<i64>)
    requires
        steered(from, toward, s, q),
    ensures
        q == steer_seq(from, toward, s),
{
    if dist_sq(from, toward) >= s * s {
        let r = steer_seq(from, toward, s);
        assert forall|i: int| 0 <= i < q.len() implies q[i] == r[i] by {
            assert(q[i] as int == steer_coord(
                from[i] as int,
                toward[i] as int,
                s,
                sqrt_floor(dist_sq(from, toward)) + 1,
            ));
        }
        assert(q =~= r);
    }
}

/// Steering is a function: the endpoints and the step bound determine the
/// steered configuration.
pub proof fn lemma_steered_unique(from: Seq<i64>, toward: Seq<i64>, s: int, q1: Seq<i64>, q2: Seq<i64>)
    requires
        steered(from, toward, s, q1),
        steered(from, toward, s, q2),
    ensures
        q1 == q2,
{
    if dist_sq(from, toward) >= s * s {
        assert forall|i: int| 0 <= i < q1.len() implies q1[i] == q2[i] by {
            assert(q1[i] as int == q2[i] as int);
        }
        assert(q1 =~= q2);
    }
}

/// Steering: computes the unique configuration `q` with
/// `steered(from@, toward@, max_step as int, q@)`.
pub fn steer(from: &Vec<i64>, toward: &Vec<i64>, max_step: i64) -> (q: Vec<i64>)
    requires
        from@.len() == toward@.len(),
        wf_config(from@),
        wf_config(toward@),
        0 < max_step,
    ensures
        steered(from@, toward@, max_step as int, q@),
        wf_config(q@),
{
    let len = from.len();
    let dsq: u128 = distance_squared(from, toward);
    proof {
        lemma_dist_sq_in_range(from@, toward@);
        assert((max_step as u128) * (max_step as u128)
            <= 0x4000_0000_0000_0000_0000_0000_0000_0000) by (nonlinear_arith)
            requires
                0 < max_step <= 0x7fff_ffff_ffff_ffff;
    }
    let step_sq: u128 = (max_step as u128) * (max_step as u128);
    if dsq < step_sq {
        let q = toward.clone();
        proof {
            assert forall|i: int| 0 <= i < q@.len() implies q@[i] == toward@[i] by {
                assert(cloned::<i64>(toward@[i], q@[i]));
            }
            assert(q@ =~= toward@);
            lemma_dist_sq_upto_agree(from@, toward@, q@, from@.len() as int);
        }
        return q;
    }
    let d: u128 = isqrt(dsq);
    proof {
        assert(d <= 0x8000_0000_0000_0000) by (nonlinear_arith)
            requires
                0 <= d,
                d * d <= 0x4000_0000_0000_0000_0000_0000_0000_0000;
        // the step is strictly below the distance stand-in dd = d + 1
        assert(max_step <= d) by (nonlinear_arith)
            requires
                0 <= d,
                0 < max_step,
                max_step * max_step <= dsq,
                dsq < (d + 1) * (d + 1);
    }
    let dd: u128 = d + 1;
    let ghost s: int = max_step as int;
    let mut q: Vec<i64> = Vec::new();
    let mut i: usize = 0;
    while i < len
        invariant
            len == from@.len(),
            from@.len() == toward@.len(),
            wf_config(from@),
            wf_config(toward@),
            0 < max_step,
            s == max_step as int,
            dd as int == sqrt_floor(dist_sq(from@, toward@)) + 1,
            max_step < dd,
            dd <= 0x8000_0000_0000_0001,
            0 <= i <= len,
            q@.len() == i,
            forall|j: int| 0 <= j < i ==> #[trigger] q@[j] as int == steer_coord(
                from@[j] as int,
                toward@[j] as int,
                s,
                dd as int,
            ),
            forall|j: int| 0 <= j < i ==> (from@[j] <= #[trigger] q@[j] <= toward@[j]
                || toward@[j] <= q@[j] <= from@[j]),
            (dd * dd) * dist_sq_upto(from@, q@, i as int) <= (s * s) * dist_sq_upto(
                from@,
                toward@,
                i as int,
            ),
        decreases len - i,
    {
        let fi = from[i];
        let ti = toward[i];
        let diff: i128 = ti as i128 - fi as i128;
        let xm: u128 = if diff >= 0 {
            diff as u128
        } else {
            (-diff) as u128
        };
        assert(xm <= 0x8000_0000);
        proof {
            assert(xm * (max_step as u128) <= 0x4000_0000_0000_0000_0000_0000)
                by (nonlinear_arith)
                requires
                    0 <= xm <= 0x8000_0000,
                    0 < max_step <= 0x7fff_ffff_ffff_ffff;
        }
        let om: u128 = xm * (max_step as u128) / dd;
        proof {
            lemma_steer_offset(xm as int, s, dd as int);
        }
        let oi: i64 = om as i64;
        let qi: i64 = if diff >= 0 {
            fi + oi
        } else {
            fi - oi
        };
        let ghost q_old = q@;
        q.push(qi);
        proof {
            let n = i as int;
            assert(q@ =~= q_old.push(qi));
            lemma_dist_sq_upto_agree(from@, q_old, q@, n);
            let uq = dist_sq_upto(from@, q_old, n);
            let ut = dist_sq_upto(from@, toward@, n);
            let x = xm as int;
            let o = om as int;
            assert(qi as int == steer_coord(fi as int, ti as int, s, dd as int));
            assert(sq(from@[n] - q@[n]) == sq(o)) by (nonlinear_arith)
                requires
                    from@[n] == fi,
                    q@[n] == qi,
                    qi == fi + o || qi == fi - o;
            assert(sq(from@[n] - toward@[n]) == sq(x)) by (nonlinear_arith)
                requires
                    from@[n] == fi,
                    toward@[n] == ti,
                    x == ti - fi || x == fi - ti;
            assert((dd * dd) * dist_sq_upto(from@, q@, n + 1) <= (s * s) * dist_sq_upto(
                from@,
                toward@,
                n + 1,
            )) by (nonlinear_arith)
                requires
                    dist_sq_upto(from@, q@, n + 1) == uq + sq(from@[n] - q@[n]),
                    dist_sq_upto(from@, toward@, n + 1) == ut + sq(from@[n] - toward@[n]),
                    sq(from@[n] - q@[n]) == sq(o),
                    sq(from@[n] - toward@[n]) == sq(x),
                    (dd * dd) * uq <= (s * s) * ut,
                    sq(o) * ((dd as int) * (dd as int)) <= sq(x) * (s * s);
        }
        i = i + 1;
    }
    proof {
        let dq = dist_sq(from@, q@);
        let dt = dist_sq(from@, toward@);
        lemma_dist_sq_upto_nonneg(from@, q@, from@.len() as int);
        assert(dt < (dd as int) * (dd as int));
        assert(dq <= s * s) by (nonlinear_arith)
            requires
                ((dd as int) * (dd as int)) * dq <= (s * s) * dt,
                dt < (dd as int) * (dd as int),
                0 < s,
                0 < dd,
                0 <= dq,
                s < dd;
    }
    q
}

} // verus!
