//! Caller-supplied collaborators of the planners: the feasibility predicate
//! and the random configuration sampler, as traits whose executable methods
//! agree exactly with their specification functions; plus one concrete
//! implementation of each, enough to pose planning problems.

use vstd::prelude::*;

use crate::geom::{wf_config, wf_coord};
use crate::rng::{rand_coord, rng_from_seed};

verus! {

/// A feasibility (collision) predicate over configurations. The executable
/// decision must agree with the pure specification `free` on every input,
/// so the predicate is a pure function of the configuration.
pub trait FreePredicate {
    /// Which configurations count as collision-free.
    spec fn free(&self, q: Seq<i64>) -> bool;

    /// Decides feasibility, exactly as `free` states.
    fn is_free(&self, q: &Vec<i64>) -> (b: bool)
        ensures
            b == self.free(q@),
    ;
}

/// A random source of configurations of a fixed dimension. Which
/// configuration comes back is left open; every sample is well-formed, of
/// the sampler's dimension, and within the sampler's own range.
pub trait Sampler {
    /// The sampler's internal consistency condition.
    spec fn inv(&self) -> bool;

    /// The dimension of sampled configurations.
    spec fn dim(&self) -> int;

    /// Which configurations this sampler can produce.
    spec fn in_range(&self, q: Seq<i64>) -> bool;

    fn sample(&mut self) -> (q: Vec<i64>)
        requires
            old(self).inv(),
        ensures
            final(self).inv(),
            final(self).dim() == old(self).dim(),
            q@.len() == old(self).dim(),
            wf_config(q@),
            old(self).in_range(q@),
    ;
}

/// `q` lies strictly inside the axis-aligned box around `c` with
/// half-extent `h` on every axis (only meaningful when the lengths match).
pub open spec fn inside_box(c: Seq<i64>, h: int, q: Seq<i64>) -> bool {
    &&& q.len() == c.len()
    &&& forall|i: int| 0 <= i < q.len() ==> -h < #[trigger] q[i] - c[i] < h
}

/// An axis-aligned box obstacle: a configuration is free unless it lies
/// strictly inside the box.
pub struct BoxObstacle {
    pub center: Vec<i64>,
    pub half_extent: i64,
}

impl FreePredicate for BoxObstacle {
    open spec fn free(&self, q: Seq<i64>) -> bool {
        !inside_box(self.center@, self.half_extent as int, q)
    }

    fn is_free(&self, q: &Vec<i64>) -> (b: bool) {
        if q.len() != self.center.len() {
            return true;
        }
        let mut i: usize = 0;
        while i < q.len()
            invariant
                q@.len() == self.center@.len(),
                0 <= i <= q@.len(),
                forall|j: int| 0 <= j < i ==> -(self.half_extent as int) < #[trigger] q@[j]
                    - self.center@[j] < self.half_extent as int,
            decreases q@.len() - i,
        {
            let d: i128 = q[i] as i128 - self.center[i] as i128;
            let h: i128 = self.half_extent as i128;
            if d <= -h || d >= h {
                return true;
            }
            i = i + 1;
        }
        false
    }
}

/// Samples each coordinate independently and uniformly from a fixed
/// per-axis interval, using a deterministically seeded generator.
pub struct UniformSampler {
    low: Vec<i64>,
    high: Vec<i64>,
    rng: rand::rngs::StdRng,
}

impl UniformSampler {
    /// The per-axis lower bounds.
    pub closed spec fn lows(&self) -> Seq<i64> {
        self.low@
    }

    /// The per-axis upper bounds.
    pub closed spec fn highs(&self) -> Seq<i64> {
        self.high@
    }

    pub fn new(low: Vec<i64>, high: Vec<i64>, seed: u64) -> (s: UniformSampler)
        requires
            low@.len() == high@.len(),
            forall|i: int| 0 <= i < low@.len() ==> wf_coord(#[trigger] low@[i]) && wf_coord(
                high@[i],
            ) && low@[i] <= high@[i],
        ensures
            s.inv(),
            s.dim() == low@.len(),
            s.lows() == low@,
            s.highs() == high@,
    {
        UniformSampler { low, high, rng: rng_from_seed(seed) }
    }
}

impl Sampler for UniformSampler {
    closed spec fn inv(&self) -> bool {
        &&& self.low@.len() == self.high@.len()
        &&& forall|i: int| 0 <= i < self.low@.len() ==> wf_coord(#[trigger] self.low@[i])
            && wf_coord(self.high@[i]) && self.low@[i] <= self.high@[i]
    }

    closed spec fn dim(&self) -> int {
        self.low@.len() as int
    }

    /// Every sampled coordinate lies in its configured interval.
    open spec fn in_range(&self, q: Seq<i64>) -> bool {
        &&& q.len() == self.lows().len()
        &&& forall|i: int| 0 <= i < q.len() ==> self.lows()[i] <= #[trigger] q[i]
            <= self.highs()[i]
    }

    fn sample(&mut self) -> (q: Vec<i64>) {
        let mut q: Vec<i64> = Vec::new();
        let mut i: usize = 0;
        while i < self.low.len()
            invariant
                self.inv(),
                self.low@ == old(self).low@,
                self.high@ == old(self).high@,
                0 <= i <= self.low@.len(),
                q@.len() == i,
                forall|j: int| 0 <= j < i ==> wf_coord(#[trigger] q@[j]),
                forall|j: int| 0 <= j < i ==> self.low@[j] <= #[trigger] q@[j] <= self.high@[j],
            decreases self.low@.len() - i,
        {
            let lo = self.low[i];
            let hi = self.high[i];
            let v = rand_coord(&mut self.rng, lo, hi);
            q.push(v);
            i = i + 1;
        }
        q
    }
}

} // verus!
