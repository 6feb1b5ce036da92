//! Cost-optimizing single-tree planner: grows one tree from the start,
//! attaches each new node to the cheapest parent in its neighborhood, and
//! rewires neighbors through the new node whenever that lowers their
//! recorded cost. Costs are integer floors of Euclidean distances, so cost
//! accounting is exact: every recorded cost strictly exceeds its parent's,
//! and rewiring only ever lowers recorded costs.

use vstd::prelude::*;

use crate::collab::{FreePredicate, Sampler};
use crate::geom::{
    clone_config, dist_sq, distance_squared, edge_cost, isqrt, lemma_dist_sq_in_range,
    lemma_dist_sq_upto_self, lemma_edge_cost_bounds, lemma_sqrt_floor_of, square_len, steer,
    wf_config,
};

pub use crate::smooth_path;

verus! {

/// Marker for the types this planner accepts as cost weights.
pub trait Weight {}

impl Weight for u128 {}

/// Node that contains user data and its accumulated cost.
#[derive(Debug, Clone)]
pub struct Node<T, W: Weight> {
    pub parent_index: Option<usize>,
    pub data: T,
    pub weight: W,
}

impl<T, W: Weight> Node<T, W> {
    /// A fresh node with no parent.
    pub fn new(data: T, weight: W) -> (n: Node<T, W>)
        ensures
            n.parent_index is None,
            n.data == data,
            n.weight == weight,
    {
        Node { parent_index: None, data, weight }
    }
}

/// Upper bound on any single edge cost between well-formed configurations;
/// recorded costs stay below the vertex count times this bound, which keeps
/// all cost arithmetic inside `u128`.
pub const EDGE_COST_BOUND: u128 = 0x8000_0000_0000_0000;

/// The cost-annotated search tree: an arena of nodes with parent links and
/// recorded costs, plus the index of the goal vertex once the goal has been
/// reached.
#[derive(Debug)]
pub struct Tree {
    pub vertices: Vec<Node<Vec<i64>, u128>>,
    pub goal_index: Option<usize>,
    pub dim: usize,
}

/// Node `i` is the registered goal vertex of `t`.
pub open spec fn is_goal_vertex(t: Tree, i: int) -> bool {
    t.goal_index matches Some(g) && g == i
}

/// Every vertex except the root and the registered goal vertex is feasible
/// (the root and the goal are inserted without consulting the predicate).
pub open spec fn nodes_free_except_goal<P: FreePredicate>(t: Tree, pred: P) -> bool {
    forall|i: int| 1 <= i < t.vertices@.len() && !is_goal_vertex(t, i) ==> pred.free(
        (#[trigger] t.vertices@[i]).data@,
    )
}

impl Tree {
    /// Well-formedness: nonempty; the root (index 0) is parentless with
    /// cost zero; every other node has a parent whose recorded cost is
    /// strictly smaller, with the recorded cost at least the parent's plus
    /// the (positive) edge cost; configurations are well-formed and of the
    /// tree's dimension; recorded costs are bounded by the vertex count
    /// times the largest possible edge cost; and the goal reference, if
    /// set, is in range.
    pub open spec fn wf(self) -> bool {
        &&& 1 <= self.vertices@.len() <= usize::MAX
        &&& self.vertices@[0].parent_index is None
        &&& self.vertices@[0].weight == 0
        &&& forall|i: int| 0 <= i < self.vertices@.len() ==> (#[trigger] self.vertices@[i]).data@.len() == self.dim && wf_config(self.vertices@[i].data@)
        &&& forall|i: int| 1 <= i < self.vertices@.len() ==> ((#[trigger] self.vertices@[i]).parent_index matches Some(p) && 0 <= p < self.vertices@.len())
        &&& forall|i: int| 1 <= i < self.vertices@.len() ==> ((#[trigger] self.vertices@[i]).parent_index matches Some(p) ==> self.vertices@[p as int].weight < self.vertices@[i].weight && self.vertices@[i].weight >= self.vertices@[p as int].weight + edge_cost(self.vertices@[p as int].data@, self.vertices@[i].data@) && 1 <= edge_cost(self.vertices@[p as int].data@, self.vertices@[i].data@))
        &&& forall|i: int| 0 <= i < self.vertices@.len() ==> (#[trigger] self.vertices@[i]).weight <= self.vertices@.len() * EDGE_COST_BOUND
        &&& (self.goal_index matches Some(g) ==> g < self.vertices@.len())
    }

    /// An empty tree of the given dimension.
    fn new(dim: usize) -> (t: Tree)
        ensures
            t.vertices@.len() == 0,
            t.goal_index is None,
            t.dim == dim,
    {
        Tree { vertices: Vec::new(), goal_index: None, dim }
    }

    /// Appends a copy of `q` with the given recorded cost; returns its index.
    fn add_vertex(&mut self, q: &Vec<i64>, weight: u128) -> (idx: usize)
        requires
            q@.len() == old(self).dim,
            wf_config(q@),
        ensures
            idx == old(self).vertices@.len(),
            final(self).vertices@.len() == old(self).vertices@.len() + 1,
            final(self).vertices@.len() <= usize::MAX,
            forall|j: int| 0 <= j < old(self).vertices@.len() ==> final(self).vertices@[j]
                == old(self).vertices@[j],
            final(self).vertices@[idx as int].parent_index is None,
            final(self).vertices@[idx as int].data@ == q@,
            final(self).vertices@[idx as int].weight == weight,
            final(self).goal_index == old(self).goal_index,
            final(self).dim == old(self).dim,
    {
        self.vertices.push(Node::new(clone_config(q), weight));
        let index = self.vertices.len() - 1;
        index
    }

    /// Makes `q1_index` the parent of `q2_index`.
    fn add_edge(&mut self, q1_index: usize, q2_index: usize)
        requires
            q2_index < old(self).vertices@.len(),
        ensures
            final(self).vertices@.len() == old(self).vertices@.len(),
            forall|j: int| 0 <= j < old(self).vertices@.len() && j != q2_index
                ==> final(self).vertices@[j] == old(self).vertices@[j],
            final(self).vertices@[q2_index as int].parent_index == Some(q1_index),
            final(self).vertices@[q2_index as int].data
                == old(self).vertices@[q2_index as int].data,
            final(self).vertices@[q2_index as int].weight
                == old(self).vertices@[q2_index as int].weight,
            final(self).goal_index == old(self).goal_index,
            final(self).dim == old(self).dim,
    {
        let node = vstd::std_specs::vec::vec_index_mut(&mut self.vertices, q2_index);
        node.parent_index = Some(q1_index);
    }

    /// Detaches `q_index` from its parent.
    fn remove_edge(&mut self, q_index: usize)
        requires
            q_index < old(self).vertices@.len(),
        ensures
            final(self).vertices@.len() == old(self).vertices@.len(),
            forall|j: int| 0 <= j < old(self).vertices@.len() && j != q_index
                ==> final(self).vertices@[j] == old(self).vertices@[j],
            final(self).vertices@[q_index as int].parent_index is None,
            final(self).vertices@[q_index as int].data == old(self).vertices@[q_index as int].data,
            final(self).vertices@[q_index as int].weight
                == old(self).vertices@[q_index as int].weight,
            final(self).goal_index == old(self).goal_index,
            final(self).dim == old(self).dim,
    {
        let node = vstd::std_specs::vec::vec_index_mut(&mut self.vertices, q_index);
        node.parent_index = None;
    }

    /// Overwrites the recorded cost of `q_index`.
    fn set_weight(&mut self, q_index: usize, weight: u128)
        requires
            q_index < old(self).vertices@.len(),
        ensures
            final(self).vertices@.len() == old(self).vertices@.len(),
            forall|j: int| 0 <= j < old(self).vertices@.len() && j != q_index
                ==> final(self).vertices@[j] == old(self).vertices@[j],
            final(self).vertices@[q_index as int].parent_index
                == old(self).vertices@[q_index as int].parent_index,
            final(self).vertices@[q_index as int].data == old(self).vertices@[q_index as int].data,
            final(self).vertices@[q_index as int].weight == weight,
            final(self).goal_index == old(self).goal_index,
            final(self).dim == old(self).dim,
    {
        let node = vstd::std_specs::vec::vec_index_mut(&mut self.vertices, q_index);
        node.weight = weight;
    }

    /// Index of a stored configuration closest to `q` (squared distance).
    fn get_nearest_index(&self, q: &Vec<i64>) -> (idx: usize)
        requires
            self.wf(),
            q@.len() == self.dim,
            wf_config(q@),
        ensures
            idx < self.vertices@.len(),
            forall|j: int| 0 <= j < self.vertices@.len() ==> dist_sq(
                self.vertices@[idx as int].data@,
                q@,
            ) <= dist_sq((#[trigger] self.vertices@[j]).data@, q@),
    {
        let mut best: usize = 0;
        let mut best_d: u128 = distance_squared(&self.vertices[0].data, q);
        let mut j: usize = 1;
        while j < self.vertices.len()
            invariant
                self.wf(),
                q@.len() == self.dim,
                wf_config(q@),
                1 <= j <= self.vertices@.len(),
                best < j,
                best_d == dist_sq(self.vertices@[best as int].data@, q@),
                forall|k: int| 0 <= k < j ==> best_d <= dist_sq(
                    (#[trigger] self.vertices@[k]).data@,
                    q@,
                ),
            decreases self.vertices@.len() - j,
        {
            let d = distance_squared(&self.vertices[j].data, q);
            if d < best_d {
                best = j;
                best_d = d;
            }
            j = j + 1;
        }
        best
    }

    /// Configurations along the strict ancestor chain of `index`: its
    /// parent first, then the grandparent, and so on up to the root. The
    /// queried node itself is not included.
    pub fn get_until_root(&self, index: usize) -> (nodes: Vec<Vec<i64>>)
        requires
            self.wf(),
            index < self.vertices@.len(),
        ensures
            nodes.deep_view() == ancestor_datas(self.vertices@, index as int),
    {
        let mut nodes: Vec<Vec<i64>> = Vec::new();
        let mut cur_index = index;
        loop
            invariant
                self.wf(),
                cur_index < self.vertices@.len(),
                nodes.deep_view() + ancestor_datas(self.vertices@, cur_index as int)
                    == ancestor_datas(self.vertices@, index as int),
            ensures
                nodes.deep_view() == ancestor_datas(self.vertices@, index as int),
            decreases self.vertices@[cur_index as int].weight,
        {
            match self.vertices[cur_index].parent_index {
                None => {
                    proof {
                        assert(ancestor_datas(self.vertices@, cur_index as int) =~= Seq::empty());
                        assert(nodes.deep_view() =~= nodes.deep_view() + Seq::empty());
                    }
                    break;
                },
                Some(parent_index) => {
                    proof {
                        let vs = self.vertices@;
                        let c = cur_index as int;
                        assert(ancestor_datas(vs, c) == seq![vs[parent_index as int].data@]
                            + ancestor_datas(vs, parent_index as int));
                    }
                    let ghost nodes_old = nodes.deep_view();
                    cur_index = parent_index;
                    nodes.push(clone_config(&self.vertices[cur_index].data));
                    proof {
                        let vs = self.vertices@;
                        crate::geom::lemma_config_deep_view(nodes@[nodes@.len() - 1]);
                        assert(nodes.deep_view() =~= nodes_old.push(vs[cur_index as int].data@));
                        assert(nodes.deep_view() + ancestor_datas(vs, cur_index as int)
                            =~= ancestor_datas(vs, index as int));
                    }
                },
            }
        }
        nodes
    }
}

/// The longest edge either planner step can create: the step length or the
/// magnitude of the neighborhood radius, whichever is larger.
pub open spec fn max_edge_span(s: int, r: int) -> int {
    let ra = if r >= 0 {
        r
    } else {
        -r
    };
    if s >= ra {
        s
    } else {
        ra
    }
}

/// Every parent-child edge of the tree spans at most `s` (by squared
/// distance).
pub open spec fn edges_span_within(t: Tree, s: int) -> bool {
    forall|i: int| 1 <= i < t.vertices@.len() ==> ((#[trigger] t.vertices@[i]).parent_index
        matches Some(p) ==> dist_sq(t.vertices@[p as int].data@, t.vertices@[i].data@) <= s * s)
}

/// Once the goal is registered, the tree holds a feasible configuration
/// strictly within one step of the goal (the candidate that reached it).
pub open spec fn goal_witnessed<P: FreePredicate>(t: Tree, pred: P, goal: Seq<i64>, s: int) -> bool {
    t.goal_index is Some ==> exists|i: int| 0 <= i < t.vertices@.len() && pred.free(
        (#[trigger] t.vertices@[i]).data@,
    ) && dist_sq(t.vertices@[i].data@, goal) < s * s
}

/// What rewiring one neighbor through the new vertex `nw` of the tree
/// `vs_old` decides: when the route through `nw` is strictly cheaper than
/// the neighbor's recorded cost, the neighbor is reparented to `nw` with
/// its recorded cost lowered to that route's cost; otherwise it is left
/// untouched.
pub open spec fn rewire_outcome(
    vs_old: Seq<Node<Vec<i64>, u128>>,
    nw: int,
    before: Node<Vec<i64>, u128>,
    after: Node<Vec<i64>, u128>,
) -> bool {
    let through = vs_old[nw].weight + edge_cost(vs_old[nw].data@, before.data@);
    if through < before.weight {
        &&& after.parent_index == Some(nw as usize)
        &&& after.data == before.data
        &&& after.weight as int == through
    } else {
        after == before
    }
}

/// The whole effect of one rewiring pass: vertices outside the near set
/// are untouched, and each near vertex ends exactly as `rewire_outcome`
/// states. (Opaque so that callers that do not inspect it stay cheap to
/// verify; reveal it where the detail matters.)
#[verifier::opaque]
pub open spec fn rewire_effect(
    vs_old: Seq<Node<Vec<i64>, u128>>,
    nw: int,
    near: Seq<usize>,
    vs_new: Seq<Node<Vec<i64>, u128>>,
) -> bool {
    &&& forall|j: int| 0 <= j < vs_old.len() && !near.contains(j as usize) ==> vs_new[j]
        == vs_old[j]
    &&& forall|k: int| 0 <= k < near.len() ==> rewire_outcome(
        vs_old,
        nw,
        vs_old[(#[trigger] near[k]) as int],
        vs_new[near[k] as int],
    )
}

impl Tree {
    /// Indices of all stored configurations within `radius` of `q_new`
    /// (inclusive, by squared distance), in increasing order.
    fn get_nearest_neighbours(&self, q_new: &Vec<i64>, radius: i64) -> (res: Vec<usize>)
        requires
            self.wf(),
            q_new@.len() == self.dim,
            wf_config(q_new@),
        ensures
            forall|k: int| 0 <= k < res@.len() ==> (#[trigger] res@[k]) < self.vertices@.len()
                && dist_sq(self.vertices@[res@[k] as int].data@, q_new@) <= (radius as int) * (
            radius as int),
            forall|k1: int, k2: int| 0 <= k1 < k2 < res@.len() ==> res@[k1] < res@[k2],
            forall|j: int| 0 <= j < self.vertices@.len() && dist_sq(
                (#[trigger] self.vertices@[j]).data@,
                q_new@,
            ) <= (radius as int) * (radius as int) ==> res@.contains(j as usize),
    {
        proof {
            assert(0 <= (radius as i128) * (radius as i128) <= 0x4000_0000_0000_0000_0000_0000_0000_0000)
                by (nonlinear_arith)
                requires
                    -0x8000_0000_0000_0000 <= radius <= 0x7fff_ffff_ffff_ffff;
        }
        let rsq: u128 = ((radius as i128) * (radius as i128)) as u128;
        let mut res: Vec<usize> = Vec::new();
        let mut j: usize = 0;
        while j < self.vertices.len()
            invariant
                self.wf(),
                q_new@.len() == self.dim,
                wf_config(q_new@),
                0 <= j <= self.vertices@.len(),
                rsq == (radius as int) * (radius as int),
                forall|k: int| 0 <= k < res@.len() ==> (#[trigger] res@[k]) < j && dist_sq(
                    self.vertices@[res@[k] as int].data@,
                    q_new@,
                ) <= (radius as int) * (radius as int),
                forall|k1: int, k2: int| 0 <= k1 < k2 < res@.len() ==> res@[k1] < res@[k2],
                forall|i: int| 0 <= i < j && dist_sq((#[trigger] self.vertices@[i]).data@, q_new@)
                    <= (radius as int) * (radius as int) ==> res@.contains(i as usize),
            decreases self.vertices@.len() - j,
        {
            let d = distance_squared(&self.vertices[j].data, q_new);
            let ghost res_old = res@;
            if d <= rsq {
                res.push(j);
            }
            proof {
                assert forall|i: int| 0 <= i < j + 1 && dist_sq(
                    (#[trigger] self.vertices@[i]).data@,
                    q_new@,
                ) <= (radius as int) * (radius as int) implies res@.contains(i as usize) by {
                    if i < j {
                        assert(res_old.contains(i as usize));
                        let w = choose|w: int| 0 <= w < res_old.len() && res_old[w] == i as usize;
                        assert(res@[w] == i as usize);
                    } else {
                        assert(res@[res@.len() - 1] == j);
                    }
                }
            }
            j = j + 1;
        }
        res
    }

    /// The cost of reaching `q` through vertex `idx`: the vertex's recorded
    /// cost plus the edge cost from it to `q`.
    fn cost_through(&self, idx: usize, q: &Vec<i64>) -> (c: u128)
        requires
            self.wf(),
            idx < self.vertices@.len(),
            q@.len() == self.dim,
            wf_config(q@),
        ensures
            c == self.vertices@[idx as int].weight + edge_cost(
                self.vertices@[idx as int].data@,
                q@,
            ),
            c <= (self.vertices@.len() + 1) * EDGE_COST_BOUND,
            self.vertices@[idx as int].data@ != q@ ==> c >= self.vertices@[idx as int].weight + 1,
    {
        let dsq = distance_squared(&self.vertices[idx].data, q);
        proof {
            lemma_dist_sq_in_range(self.vertices@[idx as int].data@, q@);
        }
        let e = isqrt(dsq);
        proof {
            lemma_sqrt_floor_of(dsq as int, e as int);
            lemma_edge_cost_bounds(self.vertices@[idx as int].data@, q@);
            let len = self.vertices@.len() as int;
            let w = self.vertices@[idx as int].weight as int;
            assert(w + e <= len * EDGE_COST_BOUND + EDGE_COST_BOUND);
            assert(len * EDGE_COST_BOUND + EDGE_COST_BOUND == (len + 1) * EDGE_COST_BOUND)
                by (nonlinear_arith);
            assert((len + 1) * EDGE_COST_BOUND
                <= 0x1_0000_0000_0000_0001 * 0x8000_0000_0000_0000) by (nonlinear_arith)
                requires
                    0 <= len <= 0x1_0000_0000_0000_0000;
        }
        self.vertices[idx].weight + e
    }

    /// Chooses the parent for the candidate `q_new` among the nearest
    /// vertex and the whole near set: whichever minimizes recorded cost
    /// plus edge cost to the candidate. Returns that vertex's index and
    /// the minimized cost.
    fn choose_parent(&self, near: &Vec<usize>, nearest_index: usize, q_new: &Vec<i64>) -> (r: (
        usize,
        u128,
    ))
        requires
            self.wf(),
            nearest_index < self.vertices@.len(),
            q_new@.len() == self.dim,
            wf_config(q_new@),
            forall|k: int| 0 <= k < near@.len() ==> (#[trigger] near@[k]) < self.vertices@.len(),
        ensures
            r.0 < self.vertices@.len(),
            r.0 == nearest_index || near@.contains(r.0),
            r.1 == self.vertices@[r.0 as int].weight + edge_cost(
                self.vertices@[r.0 as int].data@,
                q_new@,
            ),
            r.1 <= self.vertices@[nearest_index as int].weight + edge_cost(
                self.vertices@[nearest_index as int].data@,
                q_new@,
            ),
            forall|k: int| 0 <= k < near@.len() ==> r.1 <= self.vertices@[(#[trigger] near@[k]) as int].weight
                + edge_cost(self.vertices@[near@[k] as int].data@, q_new@),
    {
        let mut min_index = nearest_index;
        let mut min_cost = self.cost_through(nearest_index, q_new);
        let mut k: usize = 0;
        while k < near.len()
            invariant
                self.wf(),
                nearest_index < self.vertices@.len(),
                q_new@.len() == self.dim,
                wf_config(q_new@),
                forall|i: int| 0 <= i < near@.len() ==> (#[trigger] near@[i])
                    < self.vertices@.len(),
                0 <= k <= near@.len(),
                min_index < self.vertices@.len(),
                min_index == nearest_index || near@.contains(min_index),
                min_cost == self.vertices@[min_index as int].weight + edge_cost(
                    self.vertices@[min_index as int].data@,
                    q_new@,
                ),
                min_cost <= self.vertices@[nearest_index as int].weight + edge_cost(
                    self.vertices@[nearest_index as int].data@,
                    q_new@,
                ),
                forall|i: int| 0 <= i < k ==> min_cost <= self.vertices@[(#[trigger] near@[i]) as int].weight
                    + edge_cost(self.vertices@[near@[i] as int].data@, q_new@),
            decreases near@.len() - k,
        {
            let cand = near[k];
            let cost = self.cost_through(cand, q_new);
            if cost < min_cost {
                min_index = cand;
                min_cost = cost;
                proof {
                    assert(near@[k as int] == cand);
                    assert(near@.contains(cand));
                }
            }
            k = k + 1;
        }
        (min_index, min_cost)
    }

    /// Inserts a copy of `q` as a child of `parent` with the given
    /// recorded cost, which must be exactly the parent's recorded cost
    /// plus the edge cost.
    fn attach_new(&mut self, q: &Vec<i64>, parent: usize, cost: u128) -> (idx: usize)
        requires
            old(self).wf(),
            parent < old(self).vertices@.len(),
            q@.len() == old(self).dim,
            wf_config(q@),
            old(self).vertices@[parent as int].data@ != q@,
            cost == old(self).vertices@[parent as int].weight + edge_cost(
                old(self).vertices@[parent as int].data@,
                q@,
            ),
        ensures
            final(self).wf(),
            idx == old(self).vertices@.len(),
            final(self).vertices@.len() == old(self).vertices@.len() + 1,
            forall|j: int| 0 <= j < old(self).vertices@.len() ==> final(self).vertices@[j]
                == old(self).vertices@[j],
            final(self).vertices@[idx as int].parent_index == Some(parent),
            final(self).vertices@[idx as int].data@ == q@,
            final(self).vertices@[idx as int].weight == cost,
            final(self).goal_index == old(self).goal_index,
            final(self).dim == old(self).dim,
    {
        proof {
            lemma_edge_cost_bounds(old(self).vertices@[parent as int].data@, q@);
        }
        let new_index = self.add_vertex(q, cost);
        self.add_edge(parent, new_index);
        proof {
            let vs = self.vertices@;
            let len = vs.len() as int;
            let n = new_index as int;
            assert(len * EDGE_COST_BOUND == (len - 1) * EDGE_COST_BOUND + EDGE_COST_BOUND)
                by (nonlinear_arith);
            assert forall|i: int| 1 <= i < len implies ((#[trigger] vs[i]).parent_index
                matches Some(p) && 0 <= p < len) by {
                if i < n {
                    assert(vs[i] == old(self).vertices@[i]);
                }
            }
            assert forall|i: int| 1 <= i < len implies ((#[trigger] vs[i]).parent_index
                matches Some(p) ==> vs[p as int].weight < vs[i].weight && vs[i].weight
                >= vs[p as int].weight + edge_cost(vs[p as int].data@, vs[i].data@) && 1
                <= edge_cost(vs[p as int].data@, vs[i].data@)) by {
                if i < n {
                    assert(vs[i] == old(self).vertices@[i]);
                } else {
                    assert(vs[n].data@ == q@);
                    assert(vs[parent as int] == old(self).vertices@[parent as int]);
                }
            }
            assert forall|i: int| 0 <= i < len implies (#[trigger] vs[i]).weight <= len
                * EDGE_COST_BOUND by {
                if i < n {
                    assert(vs[i] == old(self).vertices@[i]);
                    assert((len - 1) * EDGE_COST_BOUND <= len * EDGE_COST_BOUND)
                        by (nonlinear_arith)
                        requires
                            1 <= len;
                } else {
                    assert(vs[parent as int] == old(self).vertices@[parent as int]);
                }
            }
        }
        new_index
    }

    /// One rewiring decision: if reaching the vertex `near_index` through
    /// the freshly inserted node at `new_index` is strictly cheaper than
    /// its recorded cost, reparent it to the new node at that cost;
    /// otherwise leave it untouched.
    fn rewire_one(&mut self, near_index: usize, new_index: usize)
        requires
            old(self).wf(),
            old(self).vertices@.len() >= 1,
            new_index == old(self).vertices@.len() - 1,
            near_index < new_index,
            forall|j: int| 0 <= j < new_index ==> (#[trigger] old(self).vertices@[j]).data@ != old(
                self,
            ).vertices@[new_index as int].data@,
        ensures
            final(self).wf(),
            final(self).dim == old(self).dim,
            final(self).goal_index == old(self).goal_index,
            final(self).vertices@.len() == old(self).vertices@.len(),
            forall|j: int| 0 <= j < old(self).vertices@.len() && j != near_index
                ==> final(self).vertices@[j] == old(self).vertices@[j],
            final(self).vertices@[near_index as int].data
                == old(self).vertices@[near_index as int].data,
            final(self).vertices@[near_index as int].weight
                <= old(self).vertices@[near_index as int].weight,
            rewire_outcome(
                old(self).vertices@,
                new_index as int,
                old(self).vertices@[near_index as int],
                final(self).vertices@[near_index as int],
            ),
    {
        let new_potential_cost = self.cost_through(new_index, &self.vertices[near_index].data);
        if new_potential_cost < self.vertices[near_index].weight {
            let ghost prev = *self;
            self.remove_edge(near_index);
            self.add_edge(new_index, near_index);
            self.set_weight(near_index, new_potential_cost);
            proof {
                let vs = self.vertices@;
                let len = vs.len() as int;
                let ni = near_index as int;
                let nw = new_index as int;
                assert(edge_cost(vs[nw].data@, vs[ni].data@) == edge_cost(
                    prev.vertices@[nw].data@,
                    prev.vertices@[ni].data@,
                ));
                assert(1 <= edge_cost(vs[nw].data@, vs[ni].data@)) by {
                    lemma_edge_cost_bounds(prev.vertices@[nw].data@, prev.vertices@[ni].data@);
                }
                assert forall|i: int| 1 <= i < len implies ((#[trigger] vs[i]).parent_index
                    matches Some(p) ==> vs[p as int].weight < vs[i].weight && vs[i].weight
                    >= vs[p as int].weight + edge_cost(vs[p as int].data@, vs[i].data@) && 1
                    <= edge_cost(vs[p as int].data@, vs[i].data@)) by {
                    if i != ni {
                        assert(vs[i] == prev.vertices@[i]);
                        let p = vs[i].parent_index->0;
                        assert(edge_cost(vs[p as int].data@, vs[i].data@) == edge_cost(
                            prev.vertices@[p as int].data@,
                            prev.vertices@[i].data@,
                        ));
                        assert(vs[p as int].weight <= prev.vertices@[p as int].weight);
                    }
                }
            }
        }
    }

    /// Rewires the near set through the freshly inserted node at
    /// `new_index`: any neighbor that would be cheaper to reach through the
    /// new node is reparented to it with its recorded cost lowered. No
    /// recorded cost ever increases. Vertices outside the near set are
    /// untouched, and each near vertex ends exactly as `rewire_outcome`
    /// states.
    pub fn rewire(&mut self, near: &Vec<usize>, new_index: usize)
        requires
            old(self).wf(),
            old(self).vertices@.len() >= 1,
            new_index == old(self).vertices@.len() - 1,
            forall|j: int| 0 <= j < new_index ==> (#[trigger] old(self).vertices@[j]).data@ != old(
                self,
            ).vertices@[new_index as int].data@,
            forall|k: int| 0 <= k < near@.len() ==> (#[trigger] near@[k]) < new_index,
            forall|k1: int, k2: int| 0 <= k1 < k2 < near@.len() ==> near@[k1] < near@[k2],
        ensures
            final(self).wf(),
            final(self).dim == old(self).dim,
            final(self).goal_index == old(self).goal_index,
            final(self).vertices@.len() == old(self).vertices@.len(),
            forall|j: int| 0 <= j < old(self).vertices@.len() ==> (
            #[trigger] final(self).vertices@[j]).data == old(self).vertices@[j].data,
            forall|j: int| 0 <= j < old(self).vertices@.len() ==> (
            #[trigger] final(self).vertices@[j]).weight <= old(self).vertices@[j].weight,
            final(self).vertices@[new_index as int] == old(self).vertices@[new_index as int],
            final(self).vertices@[0] == old(self).vertices@[0],
            rewire_effect(old(self).vertices@, new_index as int, near@, final(self).vertices@),
    {
        let mut k: usize = 0;
        while k < near.len()
            invariant
                self.wf(),
                self.dim == old(self).dim,
                self.goal_index == old(self).goal_index,
                self.vertices@.len() == old(self).vertices@.len(),
                new_index == self.vertices@.len() - 1,
                forall|i: int| 0 <= i < near@.len() ==> (#[trigger] near@[i]) < new_index,
                forall|j: int| 0 <= j < old(self).vertices@.len() ==> (
                #[trigger] self.vertices@[j]).data == old(self).vertices@[j].data,
                forall|j: int| 0 <= j < old(self).vertices@.len() ==> (
                #[trigger] self.vertices@[j]).weight <= old(self).vertices@[j].weight,
                self.vertices@[new_index as int] == old(self).vertices@[new_index as int],
                self.vertices@[0] == old(self).vertices@[0],
                forall|j: int| 0 <= j < new_index ==> (#[trigger] self.vertices@[j]).data@
                    != self.vertices@[new_index as int].data@,
                0 <= k <= near@.len(),
                forall|k1: int, k2: int| 0 <= k1 < k2 < near@.len() ==> near@[k1] < near@[k2],
                forall|j: int| 0 <= j < self.vertices@.len() && !near@.subrange(
                    0,
                    k as int,
                ).contains(j as usize) ==> self.vertices@[j] == old(self).vertices@[j],
                forall|i: int| 0 <= i < k ==> rewire_outcome(
                    old(self).vertices@,
                    new_index as int,
                    old(self).vertices@[(#[trigger] near@[i]) as int],
                    self.vertices@[near@[i] as int],
                ),
            decreases near@.len() - k,
        {
            let near_index = near[k];
            proof {
                if near@.subrange(0, k as int).contains(near_index) {
                    let i = choose|i: int| 0 <= i < k && near@.subrange(0, k as int)[i]
                        == near_index;
                    assert(near@[i] == near@[k as int]);
                }
                assert(self.vertices@[near_index as int] == old(self).vertices@[near_index as int]);
            }
            let ghost at_entry = *self;
            self.rewire_one(near_index, new_index);
            proof {
                let sub1 = near@.subrange(0, k as int + 1);
                assert(sub1 =~= near@.subrange(0, k as int).push(near@[k as int]));
                assert forall|j: int| 0 <= j < self.vertices@.len() && !sub1.contains(j as usize)
                    implies self.vertices@[j] == old(self).vertices@[j] by {
                    assert(sub1[k as int] == near@[k as int]);
                    if near@.subrange(0, k as int).contains(j as usize) {
                        let i = choose|i: int| 0 <= i < k && near@.subrange(0, k as int)[i] == (j
                        as usize);
                        assert(sub1[i] == j as usize);
                    }
                }
                assert(rewire_outcome(
                    old(self).vertices@,
                    new_index as int,
                    old(self).vertices@[near_index as int],
                    self.vertices@[near_index as int],
                )) by {
                    assert(at_entry.vertices@[new_index as int]
                        == old(self).vertices@[new_index as int]);
                    assert(at_entry.vertices@[near_index as int]
                        == old(self).vertices@[near_index as int]);
                }
                assert forall|i: int| 0 <= i < k + 1 implies rewire_outcome(
                    old(self).vertices@,
                    new_index as int,
                    old(self).vertices@[(#[trigger] near@[i]) as int],
                    self.vertices@[near@[i] as int],
                ) by {
                    if i < k {
                        assert(near@[i] < near@[k as int]);
                    }
                }
            }
            k = k + 1;
        }
        proof {
            assert(near@.subrange(0, near@.len() as int) =~= near@);
            reveal(rewire_effect);
            assert(rewire_effect(old(self).vertices@, new_index as int, near@, self.vertices@));
        }
    }

    /// One whole growth step around a fresh feasible candidate: insert it
    /// under the cheapest parent among the nearest vertex and its
    /// neighborhood, then rewire the neighborhood through it. Every edge
    /// this creates spans at most the step length or the neighborhood
    /// radius, so the tree's edge-span bound is preserved.
    #[verifier::rlimit(100)]
    fn insert_candidate(
        &mut self,
        q_new: &Vec<i64>,
        nearest_index: usize,
        extend_length: i64,
        neighbourhood_radius: i64,
    ) -> (new_index: usize)
        requires
            old(self).wf(),
            nearest_index < old(self).vertices@.len(),
            q_new@.len() == old(self).dim,
            wf_config(q_new@),
            0 < extend_length,
            forall|j: int| 0 <= j < old(self).vertices@.len() ==> (
            #[trigger] old(self).vertices@[j]).data@ != q_new@,
            dist_sq(old(self).vertices@[nearest_index as int].data@, q_new@) <= extend_length
                * extend_length,
            edges_span_within(
                *old(self),
                max_edge_span(extend_length as int, neighbourhood_radius as int),
            ),
        ensures
            final(self).wf(),
            final(self).dim == old(self).dim,
            final(self).goal_index == old(self).goal_index,
            new_index == old(self).vertices@.len(),
            final(self).vertices@.len() == old(self).vertices@.len() + 1,
            forall|j: int| 0 <= j < old(self).vertices@.len() ==> (
            #[trigger] final(self).vertices@[j]).data == old(self).vertices@[j].data,
            final(self).vertices@[new_index as int].data@ == q_new@,
            final(self).vertices@[0] == old(self).vertices@[0],
            edges_span_within(
                *final(self),
                max_edge_span(extend_length as int, neighbourhood_radius as int),
            ),
    {
        let ghost b = max_edge_span(extend_length as int, neighbourhood_radius as int);
        proof {
            assert((extend_length as int) * (extend_length as int) <= b * b) by (nonlinear_arith)
                requires
                    0 < extend_length as int <= b;
            assert((neighbourhood_radius as int) * (neighbourhood_radius as int) <= b * b)
                by (nonlinear_arith)
                requires
                    -b <= neighbourhood_radius as int <= b,
                    0 <= b;
        }
        let near = self.get_nearest_neighbours(q_new, neighbourhood_radius);
        let choice = self.choose_parent(&near, nearest_index, q_new);
        let ghost t0 = *self;
        let new_index = self.attach_new(q_new, choice.0, choice.1);
        proof {
            let vs = self.vertices@;
            let n = new_index as int;
            if near@.contains(choice.0) {
                let k = choose|k: int| 0 <= k < near@.len() && near@[k] == choice.0;
                assert(dist_sq(t0.vertices@[choice.0 as int].data@, q_new@) <= (
                neighbourhood_radius as int) * (neighbourhood_radius as int));
            }
            assert forall|i: int| 1 <= i < vs.len() implies ((#[trigger] vs[i]).parent_index
                matches Some(p) ==> dist_sq(vs[p as int].data@, vs[i].data@) <= b * b) by {
                if i < n {
                    assert(vs[i] == t0.vertices@[i]);
                    let p = vs[i].parent_index->0;
                    assert(vs[p as int] == t0.vertices@[p as int]);
                } else {
                    assert(vs[n].data@ == q_new@);
                    assert(vs[choice.0 as int] == t0.vertices@[choice.0 as int]);
                }
            }
        }
        let ghost t1 = *self;
        self.rewire(&near, new_index);
        proof {
            reveal(rewire_effect);
            let vs = self.vertices@;
            assert forall|i: int| 1 <= i < vs.len() implies ((#[trigger] vs[i]).parent_index
                matches Some(p) ==> dist_sq(vs[p as int].data@, vs[i].data@) <= b * b) by {
                if vs[i] == t1.vertices@[i] {
                    let p = vs[i].parent_index->0;
                    assert(vs[p as int].data == t1.vertices@[p as int].data);
                } else {
                    assert(near@.contains(i as usize));
                    let k = choose|k: int| 0 <= k < near@.len() && near@[k] == i as usize;
                    assert(rewire_outcome(
                        t1.vertices@,
                        new_index as int,
                        t1.vertices@[near@[k] as int],
                        vs[near@[k] as int],
                    ));
                    assert(vs[i].parent_index == Some(new_index));
                    assert(vs[i].data == t1.vertices@[i].data);
                    assert(dist_sq(t0.vertices@[i].data@, q_new@) <= (neighbourhood_radius as int)
                        * (neighbourhood_radius as int));
                    crate::geom::lemma_dist_sq_upto_sym(
                        t0.vertices@[i].data@,
                        q_new@,
                        t0.vertices@[i].data@.len() as int,
                    );
                }
            }
        }
        new_index
    }
}

/// Configurations along the strict ancestor chain of node `i` in `vs`:
/// parent first, root last; empty for the root itself. Chains are finite
/// because a well-formed tree's recorded costs strictly decrease toward
/// the root.
pub open spec fn ancestor_datas(vs: Seq<Node<Vec<i64>, u128>>, i: int) -> Seq<Seq<i64>>
    decreases vs[i].weight,
{
    if 0 <= i < vs.len() {
        match vs[i].parent_index {
            None => Seq::empty(),
            Some(p) => if 0 <= p < vs.len() && vs[p as int].weight < vs[i].weight {
                seq![vs[p as int].data@] + ancestor_datas(vs, p as int)
            } else {
                Seq::empty()
            },
        }
    } else {
        Seq::empty()
    }
}

/// The sum of edge costs along the current parent chain from node `i` up
/// to the root.
pub open spec fn chain_cost(vs: Seq<Node<Vec<i64>, u128>>, i: int) -> int
    decreases vs[i].weight,
{
    if 0 <= i < vs.len() {
        match vs[i].parent_index {
            None => 0,
            Some(p) => if 0 <= p < vs.len() && vs[p as int].weight < vs[i].weight {
                chain_cost(vs, p as int) + edge_cost(vs[p as int].data@, vs[i].data@)
            } else {
                0
            },
        }
    } else {
        0
    }
}

/// In a well-formed tree, every recorded cost is an upper bound on the sum
/// of edge costs along the node's current parent chain to the root, and
/// that sum is nonnegative. (Rewiring lowers recorded costs without
/// propagating to descendants, so the recorded cost of a node whose
/// ancestor was later rewired may strictly exceed its chain sum.)
pub proof fn lemma_recorded_cost_bounds_chain(t: Tree, i: int)
    requires
        t.wf(),
        0 <= i < t.vertices@.len(),
    ensures
        0 <= chain_cost(t.vertices@, i) <= t.vertices@[i].weight,
    decreases t.vertices@[i].weight,
{
    let vs = t.vertices@;
    if i != 0 {
        let p = vs[i].parent_index->0;
        assert(vs[p as int].weight < vs[i].weight);
        lemma_recorded_cost_bounds_chain(t, p as int);
    }
}

/// Where every recorded cost is exactly its parent's recorded cost plus
/// the edge cost, recorded costs equal the sums of edge costs along the
/// parent chains. This is how every vertex is inserted and how every
/// rewired vertex is updated; it can stop holding for a vertex whose
/// ancestor was rewired to a cheaper cost afterward, because rewiring does
/// not propagate to descendants — such a vertex keeps its older, larger
/// recorded cost, and only the bound of
/// `lemma_recorded_cost_bounds_chain` remains.
pub proof fn lemma_exact_costs_equal_chain(t: Tree, i: int)
    requires
        t.wf(),
        0 <= i < t.vertices@.len(),
        forall|j: int| 1 <= j < t.vertices@.len() ==> ((#[trigger] t.vertices@[j]).parent_index
            matches Some(p) ==> t.vertices@[j].weight == t.vertices@[p as int].weight + edge_cost(
            t.vertices@[p as int].data@,
            t.vertices@[j].data@,
        )),
    ensures
        chain_cost(t.vertices@, i) == t.vertices@[i].weight,
    decreases t.vertices@[i].weight,
{
    let vs = t.vertices@;
    if i != 0 {
        let p = vs[i].parent_index->0;
        assert(vs[p as int].weight < vs[i].weight);
        lemma_exact_costs_equal_chain(t, p as int);
    }
}

/// The planner's failure: the iteration budget ran out before the goal was
/// reached (reported only when reaching the goal was required).
#[derive(Debug, PartialEq, Eq, Structural)]
pub enum RRTStarError {
    MaxItersReached,
}

impl RRTStarError {
    /// A human-readable description of the error.
    pub fn message(&self) -> (s: &'static str)
        ensures
            s@ == "Failed to find a path within the maximum number of iterations"@,
    {
        "Failed to find a path within the maximum number of iterations"
    }
}

/// What the planner returns on success: the whole tree, whose `goal_index`
/// is set once the goal has been reached.
pub type RRTStarResult = Result<Tree, RRTStarError>;

/// Cost-optimizing single-tree search from `start` toward `goal`. Each
/// iteration draws a random sample, steers from the nearest stored node
/// toward it, and, if the candidate is feasible and new, inserts it under
/// the cheapest parent in its neighborhood, then rewires neighbors through
/// it wherever that lowers their recorded cost. When a candidate lands
/// within one step of the goal, the goal itself is registered as a vertex
/// (without consulting the predicate, exactly once). With
/// `stop_when_reach_goal` the search returns as soon as the goal is
/// registered and reports failure if the budget runs out first; otherwise
/// it always returns the tree after the full budget, goal or no goal.
#[verifier::rlimit(100)]
pub fn rrtstar<P: FreePredicate, S: Sampler>(
    start: &Vec<i64>,
    goal: &Vec<i64>,
    is_collision_free: &P,
    random_sample: &mut S,
    extend_length: i64,
    max_iters: usize,
    neighbourhood_radius: i64,
    stop_when_reach_goal: bool,
) -> (result: RRTStarResult)
    requires
        start@.len() == goal@.len(),
        wf_config(start@),
        wf_config(goal@),
        0 < extend_length,
        old(random_sample).inv(),
        old(random_sample).dim() == start@.len(),
    ensures
        final(random_sample).inv(),
        final(random_sample).dim() == old(random_sample).dim(),
        !stop_when_reach_goal ==> result is Ok,
        result matches Err(e) ==> e == RRTStarError::MaxItersReached && stop_when_reach_goal,
        result matches Ok(tree) ==> ({
            &&& tree.wf()
            &&& tree.dim == start@.len()
            &&& tree.vertices@[0].data@ == start@
            &&& tree.vertices@.len() <= max_iters + 2
            &&& nodes_free_except_goal(tree, *is_collision_free)
            &&& edges_span_within(
                tree,
                max_edge_span(extend_length as int, neighbourhood_radius as int),
            )
            &&& goal_witnessed(tree, *is_collision_free, goal@, extend_length as int)
            &&& (stop_when_reach_goal ==> tree.goal_index is Some)
            &&& (stop_when_reach_goal ==> (tree.goal_index matches Some(g) && g
                == tree.vertices@.len() - 1))
            &&& (tree.goal_index matches Some(g) ==> tree.vertices@[g as int].data@ == goal@)
        }),
{
    let dim = start.len();
    let mut tree = Tree::new(dim);
    tree.add_vertex(start, 0);
    proof {
        assert(1 * EDGE_COST_BOUND == EDGE_COST_BOUND) by (nonlinear_arith);
        assert(tree.wf());
    }
    let mut goal_reached = false;
    let mut it: usize = 0;
    while it < max_iters
        invariant
            tree.wf(),
            tree.dim == dim,
            dim == start@.len(),
            start@.len() == goal@.len(),
            wf_config(start@),
            wf_config(goal@),
            0 < extend_length,
            tree.vertices@[0].data@ == start@,
            it <= max_iters,
            tree.vertices@.len() <= 1 + it + (if tree.goal_index is Some {
                1int
            } else {
                0int
            }),
            nodes_free_except_goal(tree, *is_collision_free),
            edges_span_within(
                tree,
                max_edge_span(extend_length as int, neighbourhood_radius as int),
            ),
            goal_witnessed(tree, *is_collision_free, goal@, extend_length as int),
            goal_reached == (tree.goal_index is Some),
            tree.goal_index matches Some(g) ==> tree.vertices@[g as int].data@ == goal@,
            goal_reached ==> !stop_when_reach_goal,
            random_sample.inv(),
            random_sample.dim() == old(random_sample).dim(),
            random_sample.dim() == dim,
        decreases max_iters - it,
    {
        let q_rand = random_sample.sample();
        let nearest_index = tree.get_nearest_index(&q_rand);
        let q_new = steer(&tree.vertices[nearest_index].data, &q_rand, extend_length);
        if !is_collision_free.is_free(&q_new) {
            it = it + 1;
            continue;
        }
        // A configuration already stored would only add a zero-length
        // edge; skip it so recorded costs stay strictly increasing along
        // parent chains.
        let dup_index = tree.get_nearest_index(&q_new);
        let dup_d = distance_squared(&tree.vertices[dup_index].data, &q_new);
        if dup_d == 0 {
            it = it + 1;
            continue;
        }
        proof {
            assert forall|j: int| 0 <= j < tree.vertices@.len() implies (
            #[trigger] tree.vertices@[j]).data@ != q_new@ by {
                if tree.vertices@[j].data@ == q_new@ {
                    lemma_dist_sq_upto_self(tree.vertices@[j].data@, q_new@, q_new@.len() as int);
                }
            }
        }
        let ghost before_grow = tree;
        let new_index = tree.insert_candidate(
            &q_new,
            nearest_index,
            extend_length,
            neighbourhood_radius,
        );
        proof {
            assert forall|i: int| 1 <= i < tree.vertices@.len() && !is_goal_vertex(tree, i)
                implies is_collision_free.free((#[trigger] tree.vertices@[i]).data@) by {
                if i == new_index as int {
                    assert(tree.vertices@[i].data@ == q_new@);
                } else {
                    assert(tree.vertices@[i].data == before_grow.vertices@[i].data);
                    assert(is_goal_vertex(before_grow, i) == is_goal_vertex(tree, i));
                }
            }
            if tree.goal_index is Some {
                let w = choose|w: int| 0 <= w < before_grow.vertices@.len()
                    && is_collision_free.free((#[trigger] before_grow.vertices@[w]).data@)
                    && dist_sq(before_grow.vertices@[w].data@, goal@) < (extend_length as int) * (
                extend_length as int);
                assert(tree.vertices@[w].data == before_grow.vertices@[w].data);
                assert(goal_witnessed(tree, *is_collision_free, goal@, extend_length as int));
            }
        }
        if !goal_reached {
            let gd = distance_squared(&q_new, goal);
            let step_sq = square_len(extend_length);
            if gd < step_sq {
                if gd == 0 {
                    proof {
                        crate::geom::lemma_dist_sq_upto_zero(q_new@, goal@, q_new@.len() as int);
                        assert(q_new@ =~= goal@);
                    }
                    tree.goal_index = Some(new_index);
                } else {
                    proof {
                        if tree.vertices@[new_index as int].data@ == goal@ {
                            lemma_dist_sq_upto_self(q_new@, goal@, q_new@.len() as int);
                        }
                    }
                    let goal_cost = tree.cost_through(new_index, goal);
                    let ghost before_goal = tree;
                    let g_index = tree.attach_new(goal, new_index, goal_cost);
                    proof {
                        let b = max_edge_span(extend_length as int, neighbourhood_radius as int);
                        assert((extend_length as int) * (extend_length as int) <= b * b)
                            by (nonlinear_arith)
                            requires
                                0 < extend_length as int <= b;
                        let vs = tree.vertices@;
                        let g = g_index as int;
                        assert forall|i: int| 1 <= i < vs.len() implies ((
                        #[trigger] vs[i]).parent_index matches Some(p) ==> dist_sq(
                            vs[p as int].data@,
                            vs[i].data@,
                        ) <= b * b) by {
                            if i < g {
                                assert(vs[i] == before_goal.vertices@[i]);
                                let p = vs[i].parent_index->0;
                                assert(vs[p as int] == before_goal.vertices@[p as int]);
                            } else {
                                assert(vs[g].data@ == goal@);
                                assert(vs[new_index as int].data@ == q_new@);
                            }
                        }
                    }
                    tree.goal_index = Some(g_index);
                }
                goal_reached = true;
                proof {
                    // the candidate itself witnesses the goal contact
                    assert(is_collision_free.free(
                        tree.vertices@[new_index as int].data@,
                    ));
                    assert(dist_sq(tree.vertices@[new_index as int].data@, goal@) < (
                    extend_length as int) * (extend_length as int));
                }
                if stop_when_reach_goal {
                    return Ok(tree);
                }
            }
        }
        it = it + 1;
    }
    if !stop_when_reach_goal {
        return Ok(tree);
    }
    Err(RRTStarError::MaxItersReached)
}

impl Default for Tree {
    /// An empty two-dimensional tree.
    fn default() -> (t: Tree)
        ensures
            t.vertices@.len() == 0,
            t.goal_index is None,
            t.dim == 2,
    {
        Tree { vertices: Vec::new(), goal_index: None, dim: 2 }
    }
}

} // verus!
