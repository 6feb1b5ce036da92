//! Sampling-based motion planning over fixed-point configuration spaces:
//! bidirectional RRT-Connect, randomized path shortcutting, and RRT* with
//! neighborhood rewiring. Coordinates are integer ticks, so every geometric
//! claim in the contracts is exact.

pub mod collab;
pub mod geom;
mod rng;
pub mod rrtstar;

use vstd::prelude::*;

use crate::collab::{FreePredicate, Sampler};
use crate::geom::{clone_config, dist_sq, distance_squared, square_len, steer, steer_seq, steered, wf_config};
use vstd::string::StringExecFns;

verus! {

/// Outcome of one tree-growth step toward a target configuration.
enum ExtendStatus {
    Reached(usize),
    Advanced(usize),
    Trapped,
}

/// Which endpoint a tree is rooted at. The label survives the per-iteration
/// tree swaps of the bidirectional search.
#[derive(Clone, Copy, PartialEq, Eq, Structural)]
enum Role {
    Start,
    Goal,
}

/// Node that contains user data.
#[derive(Debug, Clone)]
pub struct Node<T> {
    pub parent_index: Option<usize>,
    pub data: T,
}

impl<T> Node<T> {
    /// A fresh node with no parent.
    pub fn new(data: T) -> (n: Node<T>)
        ensures
            n.parent_index is None,
            n.data == data,
    {
        Node { parent_index: None, data }
    }
}

/// A search tree: an append-only arena of nodes, each holding one
/// configuration and an optional parent, rooted at the node inserted first.
struct Tree {
    vertices: Vec<Node<Vec<i64>>>,
    role: Role,
    dim: usize,
}

impl Tree {
    /// Structural well-formedness: nonempty, the root (index 0) has no
    /// parent, every other node points to an earlier node, and every stored
    /// configuration is well-formed and of the tree's dimension.
    spec fn wf(self) -> bool {
        &&& 1 <= self.vertices@.len()
        &&& self.vertices@[0].parent_index is None
        &&& forall|i: int| 1 <= i < self.vertices@.len() ==> ((#[trigger] self.vertices@[i]).parent_index matches Some(p) && 0 <= p < i)
        &&& forall|i: int| 0 <= i < self.vertices@.len() ==> (#[trigger] self.vertices@[i]).data@.len() == self.dim && wf_config(self.vertices@[i].data@)
    }

    /// Every edge spans at most `s` (by squared distance).
    spec fn edges_within(self, s: int) -> bool {
        forall|i: int| 1 <= i < self.vertices@.len() ==> ((#[trigger] self.vertices@[i]).parent_index matches Some(p) ==> dist_sq(self.vertices@[p as int].data@, self.vertices@[i].data@) <= s * s)
    }

    /// Every node but the root holds a feasible configuration.
    spec fn interior_free<P: FreePredicate>(self, pred: P) -> bool {
        forall|i: int| 1 <= i < self.vertices@.len() ==> pred.free((#[trigger] self.vertices@[i]).data@)
    }

    /// An empty tree for the given role and dimension.
    fn new(role: Role, dim: usize) -> (t: Tree)
        ensures
            t.vertices@.len() == 0,
            t.role == role,
            t.dim == dim,
    {
        Tree { vertices: Vec::new(), role, dim }
    }

    /// Appends a copy of `q` as a new parentless node and returns its index.
    fn add_vertex(&mut self, q: &Vec<i64>) -> (idx: usize)
        requires
            q@.len() == old(self).dim,
            wf_config(q@),
        ensures
            idx == old(self).vertices@.len(),
            final(self).vertices@.len() == old(self).vertices@.len() + 1,
            forall|j: int| 0 <= j < old(self).vertices@.len() ==> final(self).vertices@[j]
                == old(self).vertices@[j],
            final(self).vertices@[idx as int].parent_index is None,
            final(self).vertices@[idx as int].data@ == q@,
            final(self).vertices@.len() <= usize::MAX,
            final(self).role == old(self).role,
            final(self).dim == old(self).dim,
    {
        self.vertices.push(Node::new(clone_config(q)));
        let index = self.vertices.len() - 1;
        index
    }

    /// Makes `q1_index` the parent of `q2_index`.
    fn add_edge(&mut self, q1_index: usize, q2_index: usize)
        requires
            q2_index < old(self).vertices@.len(),
        ensures
            final(self).vertices@.len() == old(self).vertices@.len(),
            forall|j: int| 0 <= j < old(self).vertices@.len() && j != q2_index
                ==> final(self).vertices@[j] == old(self).vertices@[j],
            final(self).vertices@[q2_index as int].parent_index == Some(q1_index),
            final(self).vertices@[q2_index as int].data
                == old(self).vertices@[q2_index as int].data,
            final(self).role == old(self).role,
            final(self).dim == old(self).dim,
    {
        let node = vstd::std_specs::vec::vec_index_mut(&mut self.vertices, q2_index);
        node.parent_index = Some(q1_index);
    }

    /// Index of a stored configuration closest to `q` (squared distance).
    fn get_nearest_index(&self, q: &Vec<i64>) -> (idx: usize)
        requires
            self.wf(),
            q@.len() == self.dim,
            wf_config(q@),
        ensures
            idx < self.vertices@.len(),
            forall|j: int| 0 <= j < self.vertices@.len() ==> dist_sq(
                self.vertices@[idx as int].data@,
                q@,
            ) <= dist_sq((#[trigger] self.vertices@[j]).data@, q@),
    {
        let mut best: usize = 0;
        let mut best_d: u128 = distance_squared(&self.vertices[0].data, q);
        let mut j: usize = 1;
        while j < self.vertices.len()
            invariant
                self.wf(),
                q@.len() == self.dim,
                wf_config(q@),
                1 <= j <= self.vertices@.len(),
                best < j,
                best_d == dist_sq(self.vertices@[best as int].data@, q@),
                forall|k: int| 0 <= k < j ==> best_d <= dist_sq(
                    (#[trigger] self.vertices@[k]).data@,
                    q@,
                ),
            decreases self.vertices@.len() - j,
        {
            let d = distance_squared(&self.vertices[j].data, q);
            if d < best_d {
                best = j;
                best_d = d;
            }
            j = j + 1;
        }
        best
    }

    /// Configurations along the strict ancestor chain of `index`: its
    /// parent first, then the grandparent, and so on up to the root. The
    /// queried node itself is not included.
    fn get_until_root(&self, index: usize) -> (nodes: Vec<Vec<i64>>)
        requires
            self.wf(),
            index < self.vertices@.len(),
        ensures
            nodes.deep_view() == ancestor_datas(self.vertices@, index as int),
    {
        let mut nodes: Vec<Vec<i64>> = Vec::new();
        let mut cur_index = index;
        loop
            invariant
                self.wf(),
                cur_index < self.vertices@.len(),
                nodes.deep_view() + ancestor_datas(self.vertices@, cur_index as int)
                    == ancestor_datas(self.vertices@, index as int),
            ensures
                nodes.deep_view() == ancestor_datas(self.vertices@, index as int),
            decreases cur_index,
        {
            match self.vertices[cur_index].parent_index {
                None => {
                    proof {
                        assert(ancestor_datas(self.vertices@, cur_index as int) =~= Seq::empty());
                        assert(nodes.deep_view() =~= nodes.deep_view() + Seq::empty());
                    }
                    break;
                },
                Some(parent_index) => {
                    proof {
                        let vs = self.vertices@;
                        let c = cur_index as int;
                        assert(ancestor_datas(vs, c) == seq![vs[parent_index as int].data@]
                            + ancestor_datas(vs, parent_index as int));
                    }
                    let ghost nodes_old = nodes.deep_view();
                    cur_index = parent_index;
                    nodes.push(clone_config(&self.vertices[cur_index].data));
                    proof {
                        let vs = self.vertices@;
                        crate::geom::lemma_config_deep_view(nodes@[nodes@.len() - 1]);
                        assert(nodes.deep_view() =~= nodes_old.push(vs[cur_index as int].data@));
                        assert(nodes.deep_view() + ancestor_datas(vs, cur_index as int)
                            =~= ancestor_datas(vs, index as int));
                    }
                },
            }
        }
        nodes
    }
}

/// `p` is the index of a stored configuration nearest to `q` (there may be
/// ties; any witness qualifies).
spec fn nearest_from(vs: Seq<Node<Vec<i64>>>, q: Seq<i64>, p: int) -> bool {
    &&& 0 <= p < vs.len()
    &&& forall|j: int| 0 <= j < vs.len() ==> dist_sq(vs[p].data@, q) <= dist_sq(
        (#[trigger] vs[j]).data@,
        q,
    )
}

/// Growing toward `target` is stuck: steering from a nearest stored node
/// yields an infeasible candidate.
spec fn growth_blocked<P: FreePredicate>(
    vs: Seq<Node<Vec<i64>>>,
    target: Seq<i64>,
    s: int,
    pred: P,
) -> bool {
    exists|p: int| #[trigger] nearest_from(vs, target, p) && (forall|c: Seq<i64>|
        steered(vs[p].data@, target, s, c) ==> !pred.free(c))
}

/// The node was created by one growth step of the tree `old_vs` toward
/// `target`: its parent is a nearest node of `old_vs` and its
/// configuration is the steered candidate.
spec fn grew_from_nearest(
    old_vs: Seq<Node<Vec<i64>>>,
    target: Seq<i64>,
    s: int,
    node: Node<Vec<i64>>,
) -> bool {
    &&& node.parent_index matches Some(p)
    &&& nearest_from(old_vs, target, node.parent_index->0 as int)
    &&& steered(old_vs[node.parent_index->0 as int].data@, target, s, node.data@)
}

impl Tree {
    /// One growth step toward `q_target`: steer from the nearest stored
    /// node, and insert the steered candidate if it is feasible. No
    /// infeasible configuration is ever inserted.
    fn extend<P: FreePredicate>(
        &mut self,
        q_target: &Vec<i64>,
        extend_length: i64,
        is_free: &P,
    ) -> (st: ExtendStatus)
        requires
            old(self).wf(),
            old(self).edges_within(extend_length as int),
            old(self).interior_free(*is_free),
            q_target@.len() == old(self).dim,
            wf_config(q_target@),
            0 < extend_length,
        ensures
            final(self).wf(),
            final(self).edges_within(extend_length as int),
            final(self).interior_free(*is_free),
            final(self).dim == old(self).dim,
            final(self).role == old(self).role,
            old(self).vertices@.len() <= final(self).vertices@.len(),
            forall|j: int| 0 <= j < old(self).vertices@.len() ==> final(self).vertices@[j]
                == old(self).vertices@[j],
            st matches ExtendStatus::Trapped ==> final(self).vertices@ == old(self).vertices@
                && growth_blocked(old(self).vertices@, q_target@, extend_length as int, *is_free),
            st matches ExtendStatus::Reached(i) ==> i == old(self).vertices@.len()
                && final(self).vertices@.len() == old(self).vertices@.len() + 1
                && is_free.free(final(self).vertices@[i as int].data@)
                && grew_from_nearest(
                    old(self).vertices@,
                    q_target@,
                    extend_length as int,
                    final(self).vertices@[i as int],
                )
                && dist_sq(final(self).vertices@[i as int].data@, q_target@)
                    < extend_length * extend_length,
            st matches ExtendStatus::Advanced(i) ==> i == old(self).vertices@.len()
                && final(self).vertices@.len() == old(self).vertices@.len() + 1
                && final(self).vertices@.len() <= usize::MAX
                && is_free.free(final(self).vertices@[i as int].data@)
                && grew_from_nearest(
                    old(self).vertices@,
                    q_target@,
                    extend_length as int,
                    final(self).vertices@[i as int],
                )
                && dist_sq(final(self).vertices@[i as int].data@, q_target@)
                    >= extend_length * extend_length,
    {
        let nearest_index = self.get_nearest_index(q_target);
        let q_new = steer(&self.vertices[nearest_index].data, q_target, extend_length);
        if is_free.is_free(&q_new) {
            let new_index = self.add_vertex(&q_new);
            self.add_edge(nearest_index, new_index);
            proof {
                let vs = self.vertices@;
                let n = new_index as int;
                assert forall|i: int| 1 <= i < vs.len() implies ((#[trigger] vs[i]).parent_index
                    matches Some(p) && 0 <= p < i) by {
                    if i < n {
                        assert(vs[i] == old(self).vertices@[i]);
                    }
                }
                assert forall|i: int| 1 <= i < vs.len() implies ((#[trigger] vs[i]).parent_index
                    matches Some(p) ==> dist_sq(vs[p as int].data@, vs[i].data@)
                        <= (extend_length as int) * (extend_length as int)) by {
                    if i < n {
                        assert(vs[i] == old(self).vertices@[i]);
                    } else {
                        assert(vs[n].data@ == q_new@);
                        assert(vs[nearest_index as int].data@
                            == old(self).vertices@[nearest_index as int].data@);
                    }
                }
            }
            proof {
                assert(self.vertices@[new_index as int].data@ == q_new@);
                assert(grew_from_nearest(
                    old(self).vertices@,
                    q_target@,
                    extend_length as int,
                    self.vertices@[new_index as int],
                ));
            }
            let dsq = distance_squared(&q_new, q_target);
            let step_sq = square_len(extend_length);
            if dsq < step_sq {
                return ExtendStatus::Reached(new_index);
            }
            return ExtendStatus::Advanced(new_index);
        }
        proof {
            assert(nearest_from(self.vertices@, q_target@, nearest_index as int));
            assert forall|c: Seq<i64>| steered(
                self.vertices@[nearest_index as int].data@,
                q_target@,
                extend_length as int,
                c,
            ) implies !is_free.free(c) by {
                crate::geom::lemma_steered_unique(
                    self.vertices@[nearest_index as int].data@,
                    q_target@,
                    extend_length as int,
                    c,
                    q_new@,
                );
            }
        }
        ExtendStatus::Trapped
    }

    /// Repeats `extend` toward the same target until it either reaches it
    /// or gets stuck; intermediate advances are absorbed.
    fn connect<P: FreePredicate>(
        &mut self,
        q_target: &Vec<i64>,
        extend_length: i64,
        is_free: &P,
    ) -> (st: ExtendStatus)
        requires
            old(self).wf(),
            old(self).edges_within(extend_length as int),
            old(self).interior_free(*is_free),
            q_target@.len() == old(self).dim,
            wf_config(q_target@),
            0 < extend_length,
        ensures
            final(self).wf(),
            final(self).edges_within(extend_length as int),
            final(self).interior_free(*is_free),
            final(self).dim == old(self).dim,
            final(self).role == old(self).role,
            old(self).vertices@.len() <= final(self).vertices@.len(),
            forall|j: int| 0 <= j < old(self).vertices@.len() ==> final(self).vertices@[j]
                == old(self).vertices@[j],
            !(st matches ExtendStatus::Advanced(i)),
            st matches ExtendStatus::Trapped ==> growth_blocked(
                final(self).vertices@,
                q_target@,
                extend_length as int,
                *is_free,
            ),
            st matches ExtendStatus::Reached(i) ==> 1 <= i && i < final(self).vertices@.len()
                && is_free.free(final(self).vertices@[i as int].data@)
                && dist_sq(final(self).vertices@[i as int].data@, q_target@)
                    < extend_length * extend_length,
    {
        loop
            invariant
                self.wf(),
                self.edges_within(extend_length as int),
                self.interior_free(*is_free),
                self.dim == old(self).dim,
                self.role == old(self).role,
                old(self).vertices@.len() <= self.vertices@.len(),
                forall|j: int| 0 <= j < old(self).vertices@.len() ==> self.vertices@[j]
                    == old(self).vertices@[j],
                q_target@.len() == self.dim,
                wf_config(q_target@),
                0 < extend_length,
            decreases usize::MAX - self.vertices@.len(),
        {
            match self.extend(q_target, extend_length, is_free) {
                ExtendStatus::Trapped => {
                    return ExtendStatus::Trapped;
                },
                ExtendStatus::Reached(index) => {
                    return ExtendStatus::Reached(index);
                },
                ExtendStatus::Advanced(_) => {},
            }
        }
    }
}

/// All consecutive pairs of `p` are at squared distance at most `s * s`,
/// except possibly the pair starting at index `j`.
pub open spec fn pairs_within_except(p: Seq<Seq<i64>>, s: int, j: int) -> bool {
    forall|k: int| 0 <= k < p.len() - 1 && k != j ==> dist_sq(#[trigger] p[k], p[k + 1]) <= s * s
}

/// What the bidirectional search promises of a returned path: it runs from
/// `s0` to `g0` through well-formed configurations of `s0`'s dimension,
/// every waypoint strictly between the endpoints is feasible, and every
/// consecutive pair is within one step except possibly the single pair
/// where the two trees were bridged.
pub open spec fn valid_path<P: FreePredicate>(
    p: Seq<Seq<i64>>,
    pred: P,
    s0: Seq<i64>,
    g0: Seq<i64>,
    s: int,
) -> bool {
    &&& p.len() >= 2
    &&& p[0] == s0
    &&& p[p.len() - 1] == g0
    &&& forall|k: int| 0 <= k < p.len() ==> wf_config(#[trigger] p[k]) && p[k].len() == s0.len()
    &&& forall|k: int| 0 < k < p.len() - 1 ==> pred.free(#[trigger] p[k])
    &&& exists|j: int| 0 <= j < p.len() - 1 && #[trigger] pairs_within_except(p, s, j) && bridged(
        pred,
        p[j],
        p[j + 1],
        s,
    )
}

/// Reversing a path preserves validity, with the endpoints swapped.
#[verifier::rlimit(100)]
proof fn lemma_valid_path_reverse<P: FreePredicate>(
    p: Seq<Seq<i64>>,
    rp: Seq<Seq<i64>>,
    pred: P,
    s0: Seq<i64>,
    g0: Seq<i64>,
    s: int,
)
    requires
        valid_path(p, pred, s0, g0, s),
        rp.len() == p.len(),
        forall|k: int| 0 <= k < p.len() ==> #[trigger] rp[k] == p[p.len() - 1 - k],
        s0.len() == g0.len(),
    ensures
        valid_path(rp, pred, g0, s0, s),
{
    let n = p.len() as int;
    let j = choose|j: int| 0 <= j < n - 1 && #[trigger] pairs_within_except(p, s, j) && bridged(
        pred,
        p[j],
        p[j + 1],
        s,
    );
    let j2 = n - 2 - j;
    let c = choose|c: Seq<Seq<i64>>| #[trigger] free_shortcut(pred, c, s) && c.len() <= 4 && c[0]
        == p[j] && c[c.len() - 1] == p[j + 1];
    lemma_free_shortcut_reverse(pred, c, s);
    assert(rp[j2] == p[j + 1] && rp[j2 + 1] == p[j]);
    assert(bridged(pred, rp[j2], rp[j2 + 1], s));
    assert forall|k: int| 0 <= k < n - 1 && k != j2 implies dist_sq(#[trigger] rp[k], rp[k + 1])
        <= s * s by {
        let m = n - 2 - k;
        assert(rp[k] == p[m + 1]);
        assert(rp[k + 1] == p[m]);
        assert(dist_sq(p[m], p[m + 1]) <= s * s);
        crate::geom::lemma_dist_sq_upto_sym(p[m], p[m + 1], p[m].len() as int);
    }
    assert(0 <= j2 < n - 1 && pairs_within_except(rp, s, j2) && bridged(pred, rp[j2], rp[j2 + 1], s));
}

/// Reverse of a path, element by element.
fn reversed_path(v: &Vec<Vec<i64>>) -> (r: Vec<Vec<i64>>)
    ensures
        r@.len() == v@.len(),
        forall|k: int| 0 <= k < v@.len() ==> #[trigger] r.deep_view()[k] == v.deep_view()[v@.len()
            - 1 - k],
{
    let mut r: Vec<Vec<i64>> = Vec::new();
    let mut i: usize = v.len();
    while i > 0
        invariant
            i <= v@.len(),
            r@.len() == v@.len() - i,
            forall|k: int| 0 <= k < r@.len() ==> #[trigger] r.deep_view()[k]
                == v.deep_view()[v@.len() - 1 - k],
        decreases i,
    {
        i = i - 1;
        let ghost prev = r.deep_view();
        r.push(clone_config(&v[i]));
        proof {
            assert forall|k: int| 0 <= k < r@.len() implies #[trigger] r.deep_view()[k]
                == v.deep_view()[v@.len() - 1 - k] by {
                if k < r@.len() - 1 {
                    assert(r.deep_view()[k] == prev[k]);
                } else {
                    crate::geom::lemma_config_deep_view(r@[k]);
                    crate::geom::lemma_config_deep_view(v@[i as int]);
                }
            }
        }
    }
    r
}

/// The concatenation of the reversed start-side ancestor chain with the
/// goal-side ancestor chain is a valid path between the two roots.
#[verifier::rlimit(100)]
proof fn lemma_bridge_valid<P: FreePredicate>(
    tree_a: Tree,
    tree_b: Tree,
    new_index: int,
    reach_index: int,
    pred: P,
    s: int,
    p: Seq<Seq<i64>>,
)
    requires
        tree_a.wf(),
        tree_b.wf(),
        tree_a.edges_within(s),
        tree_b.edges_within(s),
        tree_a.interior_free(pred),
        tree_b.interior_free(pred),
        tree_a.dim == tree_b.dim,
        1 <= new_index < tree_a.vertices@.len(),
        1 <= reach_index < tree_b.vertices@.len(),
        0 < s,
        dist_sq(
            tree_b.vertices@[reach_index].data@,
            tree_a.vertices@[new_index].data@,
        ) < s * s,
        p.len() == ancestor_datas(tree_a.vertices@, new_index).len() + ancestor_datas(
            tree_b.vertices@,
            reach_index,
        ).len(),
        forall|k: int| 0 <= k < ancestor_datas(tree_a.vertices@, new_index).len()
            ==> #[trigger] p[k] == ancestor_datas(tree_a.vertices@, new_index)[ancestor_datas(
            tree_a.vertices@,
            new_index,
        ).len() - 1 - k],
        forall|k: int| ancestor_datas(tree_a.vertices@, new_index).len() <= k < p.len()
            ==> #[trigger] p[k] == ancestor_datas(tree_b.vertices@, reach_index)[k
            - ancestor_datas(tree_a.vertices@, new_index).len()],
    ensures
        valid_path(p, pred, tree_a.vertices@[0].data@, tree_b.vertices@[0].data@, s),
{
    lemma_ancestor_datas(tree_a, pred, s, new_index);
    lemma_ancestor_datas(tree_b, pred, s, reach_index);
    let a = ancestor_datas(tree_a.vertices@, new_index);
    let b = ancestor_datas(tree_b.vertices@, reach_index);
    let pa = a.len() as int;
    let n = p.len() as int;
    let root_a = tree_a.vertices@[0].data@;
    let root_b = tree_b.vertices@[0].data@;
    assert(p[0] == a[pa - 1]);
    assert(p[0] == root_a);
    assert(p[n - 1] == b[b.len() - 1]);
    assert(p[n - 1] == root_b);
    assert forall|k: int| 0 <= k < n implies wf_config(#[trigger] p[k]) && p[k].len()
        == tree_a.dim by {
        if k < pa {
            assert(p[k] == a[pa - 1 - k]);
        } else {
            assert(p[k] == b[k - pa]);
        }
    }
    assert forall|k: int| 0 < k < n - 1 implies pred.free(#[trigger] p[k]) by {
        if k < pa {
            assert(p[k] == a[pa - 1 - k]);
            assert(pa - 1 - k < a.len() - 1);
        } else {
            assert(p[k] == b[k - pa]);
            assert(k - pa < b.len() - 1);
        }
    }
    assert forall|k: int| 0 <= k < n - 1 && k != pa - 1 implies dist_sq(
        #[trigger] p[k],
        p[k + 1],
    ) <= s * s by {
        if k < pa - 1 {
            let m = pa - 2 - k;
            assert(p[k] == a[m + 1]);
            assert(p[k + 1] == a[m]);
            assert(dist_sq(a[m], a[m + 1]) <= s * s);
            crate::geom::lemma_dist_sq_upto_sym(a[m], a[m + 1], a[m].len() as int);
        } else {
            assert(p[k] == b[k - pa]);
            assert(p[k + 1] == b[k + 1 - pa]);
        }
    }
    assert(pairs_within_except(p, s, pa - 1));
    let qa = tree_a.vertices@[new_index].data@;
    let qb = tree_b.vertices@[reach_index].data@;
    let c = seq![a[0], qa, qb, b[0]];
    assert(dist_sq(c[0], c[1]) <= s * s) by {
        crate::geom::lemma_dist_sq_upto_sym(qa, a[0], qa.len() as int);
    }
    assert(dist_sq(c[1], c[2]) <= s * s) by {
        crate::geom::lemma_dist_sq_upto_sym(qb, qa, qb.len() as int);
    }
    assert(dist_sq(c[2], c[3]) <= s * s);
    assert(free_shortcut(pred, c, s));
    assert(c[0] == p[pa - 1] && c[c.len() - 1] == p[pa]);
    assert(bridged(pred, p[pa - 1], p[pa], s));
}

/// Assembles the bridged path once the two trees touch: the ancestors of
/// the freshly inserted node (reversed) followed by the ancestors of the
/// reached node, reversed once more if the second tree is the start-rooted
/// one, so the result always runs from the start root to the goal root.
fn bridge_path<P: FreePredicate>(
    tree_a: &Tree,
    tree_b: &Tree,
    new_index: usize,
    reach_index: usize,
    is_free: &P,
    extend_length: i64,
) -> (path: Vec<Vec<i64>>)
    requires
        tree_a.wf(),
        tree_b.wf(),
        tree_a.edges_within(extend_length as int),
        tree_b.edges_within(extend_length as int),
        tree_a.interior_free(*is_free),
        tree_b.interior_free(*is_free),
        tree_a.dim == tree_b.dim,
        1 <= new_index < tree_a.vertices@.len(),
        1 <= reach_index < tree_b.vertices@.len(),
        0 < extend_length,
        tree_a.role != tree_b.role,
        dist_sq(
            tree_b.vertices@[reach_index as int].data@,
            tree_a.vertices@[new_index as int].data@,
        ) < extend_length * extend_length,
    ensures
        valid_path(
            path.deep_view(),
            *is_free,
            if tree_a.role == Role::Start {
                tree_a.vertices@[0].data@
            } else {
                tree_b.vertices@[0].data@
            },
            if tree_a.role == Role::Start {
                tree_b.vertices@[0].data@
            } else {
                tree_a.vertices@[0].data@
            },
            extend_length as int,
        ),
{
    let a_anc = tree_a.get_until_root(new_index);
    let b_anc = tree_b.get_until_root(reach_index);
    let mut path = reversed_path(&a_anc);
    let ghost ra = path.deep_view();
    let mut b_tail = b_anc;
    path.append(&mut b_tail);
    proof {
        let pa = ra.len() as int;
        let a = ancestor_datas(tree_a.vertices@, new_index as int);
        let b = ancestor_datas(tree_b.vertices@, reach_index as int);
        let p = path.deep_view();
        assert forall|k: int| 0 <= k < a.len() implies #[trigger] p[k] == a[a.len() - 1 - k] by {
            assert(p[k] == ra[k]);
        }
        assert forall|k: int| a.len() <= k < p.len() implies #[trigger] p[k] == b[k - a.len()] by {
            assert(p[k] == b[k - pa]);
        }
        lemma_bridge_valid(
            *tree_a,
            *tree_b,
            new_index as int,
            reach_index as int,
            *is_free,
            extend_length as int,
            p,
        );
    }
    if tree_b.role == Role::Start {
        let rev = reversed_path(&path);
        proof {
            lemma_valid_path_reverse(
                path.deep_view(),
                rev.deep_view(),
                *is_free,
                tree_a.vertices@[0].data@,
                tree_b.vertices@[0].data@,
                extend_length as int,
            );
        }
        return rev;
    }
    path
}

/// Searches for a feasible path from `start` to `goal` by growing one tree
/// from each endpoint, alternately extending one tree toward a random
/// sample and trying to connect the other to the newly inserted node. On
/// success the returned waypoint sequence satisfies `valid_path`; after
/// `num_max_try` iterations without a bridge, the search reports failure.
pub fn dual_rrt_connect<P: FreePredicate, S: Sampler>(
    start: &Vec<i64>,
    goal: &Vec<i64>,
    is_free: &P,
    random_sample: &mut S,
    extend_length: i64,
    num_max_try: usize,
) -> (result: Result<Vec<Vec<i64>>, String>)
    requires
        start@.len() == goal@.len(),
        wf_config(start@),
        wf_config(goal@),
        0 < extend_length,
        old(random_sample).inv(),
        old(random_sample).dim() == start@.len(),
    ensures
        final(random_sample).inv(),
        final(random_sample).dim() == old(random_sample).dim(),
        result matches Ok(path) ==> valid_path(
            path.deep_view(),
            *is_free,
            start@,
            goal@,
            extend_length as int,
        ),
        result matches Err(e) ==> e@ == "failed"@,
        num_max_try == 0 ==> result is Err,
{
    let dim = start.len();
    let mut tree_a = Tree::new(Role::Start, dim);
    let mut tree_b = Tree::new(Role::Goal, dim);
    tree_a.add_vertex(start);
    tree_b.add_vertex(goal);
    let mut it: usize = 0;
    while it < num_max_try
        invariant
            tree_a.wf(),
            tree_b.wf(),
            tree_a.edges_within(extend_length as int),
            tree_b.edges_within(extend_length as int),
            tree_a.interior_free(*is_free),
            tree_b.interior_free(*is_free),
            tree_a.dim == dim,
            tree_b.dim == dim,
            dim == start@.len(),
            start@.len() == goal@.len(),
            wf_config(start@),
            wf_config(goal@),
            0 < extend_length,
            tree_a.role != tree_b.role,
            tree_a.role == Role::Start ==> tree_a.vertices@[0].data@ == start@,
            tree_a.role == Role::Goal ==> tree_a.vertices@[0].data@ == goal@,
            tree_b.role == Role::Start ==> tree_b.vertices@[0].data@ == start@,
            tree_b.role == Role::Goal ==> tree_b.vertices@[0].data@ == goal@,
            random_sample.inv(),
            random_sample.dim() == old(random_sample).dim(),
            random_sample.dim() == dim,
        decreases num_max_try - it,
    {
        let q_rand = random_sample.sample();
        let status = tree_a.extend(&q_rand, extend_length, is_free);
        let maybe_new: Option<usize> = match status {
            ExtendStatus::Trapped => None,
            ExtendStatus::Advanced(i) => Some(i),
            ExtendStatus::Reached(i) => Some(i),
        };
        if let Some(new_index) = maybe_new {
            let q_new = clone_config(&tree_a.vertices[new_index].data);
            match tree_b.connect(&q_new, extend_length, is_free) {
                ExtendStatus::Reached(reach_index) => {
                    let path = bridge_path(
                        &tree_a,
                        &tree_b,
                        new_index,
                        reach_index,
                        is_free,
                        extend_length,
                    );
                    return Ok(path);
                },
                _ => {},
            }
        }
        let tmp = tree_a;
        tree_a = tree_b;
        tree_b = tmp;
        it = it + 1;
    }
    Err(String::from_str("failed"))
}

/// A well-formed path: every waypoint is a well-formed configuration of the
/// same dimension as the first.
pub open spec fn wf_path(p: Seq<Seq<i64>>) -> bool {
    forall|k: int| 0 <= k < p.len() ==> wf_config(#[trigger] p[k]) && p[k].len() == p[0].len()
}

/// `q` is one of the waypoints of `orig`.
pub open spec fn from_original(orig: Seq<Seq<i64>>, q: Seq<i64>) -> bool {
    exists|m: int| 0 <= m < orig.len() && q == #[trigger] orig[m]
}

/// `c` witnesses a feasible shortcut: a chain of configurations whose
/// consecutive members are within one step of each other and whose interior
/// members are all feasible.
pub open spec fn free_shortcut<P: FreePredicate>(pred: P, c: Seq<Seq<i64>>, s: int) -> bool {
    &&& c.len() >= 2
    &&& forall|k: int| 0 <= k < c.len() ==> (#[trigger] c[k]).len() == c[0].len()
    &&& forall|k: int| 0 <= k < c.len() - 1 ==> dist_sq(#[trigger] c[k], c[k + 1]) <= s * s
    &&& forall|k: int| 0 < k < c.len() - 1 ==> pred.free(#[trigger] c[k])
}

/// The two waypoints are linked by a feasible chain of at most four
/// configurations: how the two trees' meeting point is crossed.
pub open spec fn bridged<P: FreePredicate>(pred: P, a: Seq<i64>, b: Seq<i64>, s: int) -> bool {
    exists|c: Seq<Seq<i64>>| #[trigger] free_shortcut(pred, c, s) && c.len() <= 4 && c[0] == a
        && c[c.len() - 1] == b
}

/// Reversing a feasible shortcut chain yields a feasible shortcut chain
/// with the endpoints swapped.
proof fn lemma_free_shortcut_reverse<P: FreePredicate>(pred: P, c: Seq<Seq<i64>>, s: int)
    requires
        free_shortcut(pred, c, s),
    ensures
        free_shortcut(pred, c.reverse(), s),
        c.reverse().len() == c.len(),
        c.reverse()[0] == c[c.len() - 1],
        c.reverse()[c.len() - 1] == c[0],
{
    let r = c.reverse();
    let n = c.len() as int;
    assert forall|k: int| 0 <= k < n - 1 implies dist_sq(#[trigger] r[k], r[k + 1]) <= s * s by {
        let m = n - 2 - k;
        assert(r[k] == c[m + 1]);
        assert(r[k + 1] == c[m]);
        assert(dist_sq(c[m], c[m + 1]) <= s * s);
        crate::geom::lemma_dist_sq_upto_sym(c[m], c[m + 1], c[m].len() as int);
    }
}

/// Every member of the chain stays componentwise between the chain's two
/// endpoints: the chain follows the straight segment between them.
pub open spec fn chain_between(c: Seq<Seq<i64>>) -> bool {
    forall|k: int, i: int| 0 <= k < c.len() && 0 <= i < c[0].len() ==> (c[0][i]
        <= #[trigger] c[k][i] <= c[c.len() - 1][i] || c[c.len() - 1][i] <= c[k][i] <= c[0][i])
}

/// The pair `(a, b)` of consecutive smoothed waypoints is accounted for:
/// either it was already an adjacent pair of the original path, or a
/// feasible chain of short steps along the straight segment leads from `a`
/// to `b`.
pub open spec fn pair_explained<P: FreePredicate>(
    pred: P,
    orig: Seq<Seq<i64>>,
    a: Seq<i64>,
    b: Seq<i64>,
    s: int,
) -> bool {
    ||| exists|m: int| 0 <= m < orig.len() - 1 && #[trigger] orig[m] == a && orig[m + 1] == b
    ||| exists|c: Seq<Seq<i64>>| #[trigger] free_shortcut(pred, c, s) && chain_between(c)
        && c.len() >= 2 && c[0] == a && c[c.len() - 1] == b
}

/// `m` maps the waypoints of `p` to strictly increasing positions of `q`.
pub open spec fn maps_into(m: Seq<int>, p: Seq<Seq<i64>>, q: Seq<Seq<i64>>) -> bool {
    &&& m.len() == p.len()
    &&& forall|k: int| 0 <= k < m.len() ==> 0 <= #[trigger] m[k] < q.len() && p[k] == q[m[k]]
    &&& forall|k: int| 0 <= k < m.len() - 1 ==> #[trigger] m[k] < m[k + 1]
}

/// `p` is an order-preserving subsequence of `q`: `q` with zero or more
/// waypoints removed.
pub open spec fn is_subsequence_of(p: Seq<Seq<i64>>, q: Seq<Seq<i64>>) -> bool {
    exists|m: Seq<int>| #[trigger] maps_into(m, p, q)
}

/// Whether the straight steered walk from `base` toward `to` arrives: each
/// step moves to the steered candidate, requires it to be feasible, and
/// gives up on a step that stops getting closer to the target (possible
/// only through truncation); arrival is coming strictly within one step.
pub open spec fn walk_arrives<P: FreePredicate>(
    pred: P,
    base: Seq<i64>,
    to: Seq<i64>,
    s: int,
) -> bool
    decreases dist_sq(base, to),
{
    if dist_sq(base, to) < s * s {
        true
    } else {
        let q = steer_seq(base, to, s);
        if pred.free(q) && 0 <= dist_sq(q, to) < dist_sq(base, to) {
            walk_arrives(pred, q, to, s)
        } else {
            false
        }
    }
}

/// Walks from `from` straight toward `to` in steps of at most
/// `extend_length`, probing feasibility of every intermediate step: the
/// executable counterpart of `walk_arrives`, deciding it exactly. On
/// arrival, the probed points witness a feasible straight-segment chain
/// from `from` to `to`.
fn shortcut_reachable<P: FreePredicate>(
    from: &Vec<i64>,
    to: &Vec<i64>,
    extend_length: i64,
    is_free: &P,
) -> (ok: bool)
    requires
        wf_config(from@),
        wf_config(to@),
        from@.len() == to@.len(),
        0 < extend_length,
    ensures
        ok == walk_arrives(*is_free, from@, to@, extend_length as int),
        ok ==> exists|c: Seq<Seq<i64>>| #[trigger] free_shortcut(*is_free, c, extend_length as int)
            && chain_between(c) && c.len() >= 2 && c[0] == from@ && c[c.len() - 1] == to@,
{
    let mut base_point = clone_config(from);
    let ghost mut trail: Seq<Seq<i64>> = seq![base_point@];
    let step_sq = square_len(extend_length);
    loop
        invariant
            wf_config(from@),
            wf_config(to@),
            wf_config(base_point@),
            from@.len() == to@.len(),
            base_point@.len() == from@.len(),
            0 < extend_length,
            step_sq == (extend_length as int) * (extend_length as int),
            trail.len() >= 1,
            trail[0] == from@,
            trail[trail.len() - 1] == base_point@,
            forall|k: int| 0 <= k < trail.len() ==> (#[trigger] trail[k]).len() == from@.len(),
            forall|k: int, i: int| 0 <= k < trail.len() && 0 <= i < from@.len() ==> (from@[i]
                <= #[trigger] trail[k][i] <= to@[i] || to@[i] <= trail[k][i] <= from@[i]),
            forall|k: int| 0 <= k < trail.len() - 1 ==> dist_sq(#[trigger] trail[k], trail[k + 1])
                <= (extend_length as int) * (extend_length as int),
            forall|k: int| 0 < k < trail.len() ==> is_free.free(#[trigger] trail[k]),
            walk_arrives(*is_free, base_point@, to@, extend_length as int) == walk_arrives(
                *is_free,
                from@,
                to@,
                extend_length as int,
            ),
        decreases dist_sq(base_point@, to@),
    {
        let dsq = distance_squared(&base_point, to);
        if dsq < step_sq {
            proof {
                trail = trail.push(to@);
                assert(trail[trail.len() - 1] == to@);
                assert(free_shortcut(*is_free, trail, extend_length as int));
                assert(chain_between(trail));
            }
            return true;
        }
        let check_point = steer(&base_point, to, extend_length);
        proof {
            crate::geom::lemma_steered_is_steer_seq(
                base_point@,
                to@,
                extend_length as int,
                check_point@,
            );
        }
        if !is_free.is_free(&check_point) {
            return false;
        }
        let new_dsq = distance_squared(&check_point, to);
        if new_dsq >= dsq {
            // Truncated steering no longer gets closer to the target, so
            // this shortcut attempt cannot arrive; give it up.
            return false;
        }
        proof {
            trail = trail.push(check_point@);
            assert forall|k: int, i: int| 0 <= k < trail.len() && 0 <= i < from@.len() implies (
            from@[i] <= #[trigger] trail[k][i] <= to@[i] || to@[i] <= trail[k][i]
                <= from@[i]) by {
                if k == trail.len() - 1 {
                    assert(base_point@[i] <= check_point@[i] <= to@[i] || to@[i]
                        <= check_point@[i] <= base_point@[i]);
                    assert(from@[i] <= base_point@[i] <= to@[i] || to@[i] <= base_point@[i]
                        <= from@[i]);
                }
            }
        }
        base_point = check_point;
    }
}

/// Removes the waypoints strictly between `ind1` and `ind2`, collapsing a
/// found shortcut, and maintains the smoothing invariants against the
/// original path `orig`.
#[verifier::rlimit(100)]
fn collapse_segment<P: FreePredicate>(
    path: &mut Vec<Vec<i64>>,
    ind1: usize,
    ind2: usize,
    is_free: &P,
    extend_length: i64,
    Ghost(orig): Ghost<Seq<Seq<i64>>>,
)
    requires
        0 < extend_length,
        ind1 + 2 <= ind2 < old(path)@.len(),
        wf_path(orig),
        3 <= old(path)@.len() <= orig.len(),
        wf_path(old(path).deep_view()),
        old(path).deep_view()[0] == orig[0],
        old(path).deep_view()[old(path)@.len() - 1] == orig[orig.len() - 1],
        forall|k: int| 0 <= k < old(path)@.len() ==> from_original(
            orig,
            #[trigger] old(path).deep_view()[k],
        ),
        forall|k: int| 0 <= k < old(path)@.len() - 1 ==> pair_explained(
            *is_free,
            orig,
            #[trigger] old(path).deep_view()[k],
            old(path).deep_view()[k + 1],
            extend_length as int,
        ),
        exists|c: Seq<Seq<i64>>| #[trigger] free_shortcut(*is_free, c, extend_length as int)
            && chain_between(c) && c.len() >= 2 && c[0] == old(path).deep_view()[ind1 as int]
            && c[c.len() - 1] == old(path).deep_view()[ind2 as int],
    ensures
        final(path)@.len() == old(path)@.len() - (ind2 - ind1 - 1),
        2 <= final(path)@.len() < old(path)@.len(),
        wf_path(final(path).deep_view()),
        final(path).deep_view()[0] == orig[0],
        final(path).deep_view()[final(path)@.len() - 1] == orig[orig.len() - 1],
        forall|k: int| 0 <= k < final(path)@.len() ==> from_original(
            orig,
            #[trigger] final(path).deep_view()[k],
        ),
        forall|k: int| 0 <= k < final(path)@.len() - 1 ==> pair_explained(
            *is_free,
            orig,
            #[trigger] final(path).deep_view()[k],
            final(path).deep_view()[k + 1],
            extend_length as int,
        ),
        forall|k: int| 0 <= k <= ind1 ==> #[trigger] final(path).deep_view()[k]
            == old(path).deep_view()[k],
        forall|k: int| ind1 < k < final(path)@.len() ==> #[trigger] final(path).deep_view()[k]
            == old(path).deep_view()[k + (ind2 - ind1 - 1)],
{
    let ghost pre = path.deep_view();
    let removed = ind2 - ind1 - 1;
    let mut r: usize = 0;
    while r < removed
        invariant
            removed == ind2 - ind1 - 1,
            ind1 + 2 <= ind2 <= pre.len(),
            0 <= r <= removed,
            path@.len() == pre.len() - r,
            forall|k: int| 0 <= k <= ind1 ==> #[trigger] path.deep_view()[k] == pre[k],
            forall|k: int| ind1 < k < path@.len() ==> #[trigger] path.deep_view()[k] == pre[k + r],
        decreases removed - r,
    {
        let ghost before = path.deep_view();
        path.remove(ind1 + 1);
        proof {
            assert forall|k: int| 0 <= k < path@.len() implies #[trigger] path.deep_view()[k] == (
            if k <= ind1 {
                pre[k]
            } else {
                pre[k + r + 1]
            }) by {
                if k <= ind1 {
                    assert(path.deep_view()[k] == before[k]);
                } else {
                    assert(path.deep_view()[k] == before[k + 1]);
                }
            }
        }
        r = r + 1;
    }
    proof {
        let p = path.deep_view();
        let n = p.len() as int;
        assert(n == pre.len() - removed);
        assert(p[n - 1] == pre[pre.len() - 1]);
        assert forall|k: int| 0 <= k < n implies from_original(orig, #[trigger] p[k]) by {
            if k <= ind1 {
                assert(p[k] == pre[k]);
            } else {
                assert(p[k] == pre[k + removed]);
            }
        }
        assert forall|k: int| 0 <= k < n implies wf_config(#[trigger] p[k]) && p[k].len()
            == p[0].len() by {
            if k <= ind1 {
                assert(p[k] == pre[k]);
            } else {
                assert(p[k] == pre[k + removed]);
            }
        }
        assert forall|k: int| 0 <= k < n - 1 implies pair_explained(
            *is_free,
            orig,
            #[trigger] p[k],
            p[k + 1],
            extend_length as int,
        ) by {
            if k < ind1 {
                assert(p[k] == pre[k] && p[k + 1] == pre[k + 1]);
            } else if k == ind1 {
                assert(p[k] == pre[ind1 as int]);
                assert(p[k + 1] == pre[ind2 as int]);
            } else {
                assert(p[k] == pre[k + removed] && p[k + 1] == pre[k + 1 + removed]);
            }
        }
    }
}

/// Randomized path shortcutting: repeatedly picks two non-adjacent waypoint
/// indices at random and, if a feasible straight walk of short steps leads
/// from the first to the second, removes everything strictly between them.
/// The result is an order-preserving subsequence of the input with the
/// endpoints kept, and every new adjacency is justified by a feasible chain
/// of short steps that stays on the straight segment between the two
/// waypoints it joins. Paths of fewer than three waypoints are returned
/// unchanged; smoothing stops early once only the endpoints remain. With
/// exactly three waypoints the index draws are forced, so a positive budget
/// collapses the path to its endpoints whenever the walk between them
/// arrives.
#[verifier::rlimit(100)]
pub fn smooth_path<P: FreePredicate>(
    path: &mut Vec<Vec<i64>>,
    is_free: &P,
    extend_length: i64,
    num_max_try: usize,
    rng: &mut rand::rngs::StdRng,
)
    requires
        0 < extend_length,
        wf_path(old(path).deep_view()),
    ensures
        final(path)@.len() <= old(path)@.len(),
        old(path)@.len() < 3 ==> final(path)@ == old(path)@,
        old(path)@.len() >= 3 ==> final(path)@.len() >= 2,
        old(path)@.len() >= 1 ==> final(path)@.len() >= 1 && final(path).deep_view()[0]
            == old(path).deep_view()[0] && final(path).deep_view()[final(path)@.len() - 1]
            == old(path).deep_view()[old(path)@.len() - 1],
        wf_path(final(path).deep_view()),
        forall|k: int| 0 <= k < final(path)@.len() ==> from_original(
            old(path).deep_view(),
            #[trigger] final(path).deep_view()[k],
        ),
        forall|k: int| 0 <= k < final(path)@.len() - 1 ==> pair_explained(
            *is_free,
            old(path).deep_view(),
            #[trigger] final(path).deep_view()[k],
            final(path).deep_view()[k + 1],
            extend_length as int,
        ),
        is_subsequence_of(final(path).deep_view(), old(path).deep_view()),
        old(path)@.len() == 3 && num_max_try > 0 && walk_arrives(
            *is_free,
            old(path).deep_view()[0],
            old(path).deep_view()[2],
            extend_length as int,
        ) ==> final(path)@.len() == 2,
{
    let ghost orig = path.deep_view();
    let ghost mut idxmap: Seq<int> = Seq::new(orig.len(), |i: int| i);
    proof {
        assert(maps_into(idxmap, path.deep_view(), orig));
        assert(is_subsequence_of(path.deep_view(), orig));
        assert forall|k: int| 0 <= k < path@.len() implies from_original(
            orig,
            #[trigger] path.deep_view()[k],
        ) by {
            assert(path.deep_view()[k] == orig[k]);
        }
        assert forall|k: int| 0 <= k < path@.len() - 1 implies pair_explained(
            *is_free,
            orig,
            #[trigger] path.deep_view()[k],
            path.deep_view()[k + 1],
            extend_length as int,
        ) by {
            assert(orig[k] == path.deep_view()[k] && orig[k + 1] == path.deep_view()[k + 1]);
        }
    }
    if path.len() < 3 {
        return;
    }
    let mut t: usize = 0;
    while t < num_max_try
        invariant
            0 < extend_length,
            orig == old(path).deep_view(),
            orig.len() == old(path)@.len(),
            wf_path(orig),
            orig.len() >= 3,
            3 <= path@.len() <= orig.len(),
            wf_path(path.deep_view()),
            path.deep_view()[0] == orig[0],
            path.deep_view()[path@.len() - 1] == orig[orig.len() - 1],
            forall|k: int| 0 <= k < path@.len() ==> from_original(
                orig,
                #[trigger] path.deep_view()[k],
            ),
            forall|k: int| 0 <= k < path@.len() - 1 ==> pair_explained(
                *is_free,
                orig,
                #[trigger] path.deep_view()[k],
                path.deep_view()[k + 1],
                extend_length as int,
            ),
            maps_into(idxmap, path.deep_view(), orig),
            orig.len() == 3 ==> path.deep_view() == orig,
            t > 0 && orig.len() == 3 ==> !walk_arrives(*is_free, orig[0], orig[2], extend_length as int),
        decreases num_max_try - t,
    {
        let len = path.len();
        let ind1 = crate::rng::rand_index(rng, 0, len - 2);
        let ind2 = crate::rng::rand_index(rng, ind1 + 2, len);
        proof {
            crate::geom::lemma_config_deep_view(path@[ind1 as int]);
            crate::geom::lemma_config_deep_view(path@[ind2 as int]);
            assert(path@[ind1 as int]@ == path.deep_view()[ind1 as int]);
            assert(path@[ind2 as int]@ == path.deep_view()[ind2 as int]);
        }
        let ghost pre = path.deep_view();
        if shortcut_reachable(&path[ind1], &path[ind2], extend_length, is_free) {
            collapse_segment(path, ind1, ind2, is_free, extend_length, Ghost(orig));
            proof {
                let m_old = idxmap;
                idxmap = idxmap.subrange(0, ind1 as int + 1) + idxmap.subrange(
                    ind2 as int,
                    idxmap.len() as int,
                );
                lemma_collapse_map(
                    m_old,
                    idxmap,
                    pre,
                    path.deep_view(),
                    orig,
                    ind1 as int,
                    ind2 as int,
                );
            }
            if path.len() == 2 {
                proof {
                    assert(is_subsequence_of(path.deep_view(), orig));
                }
                return;
            }
        }
        t = t + 1;
    }
    proof {
        assert(is_subsequence_of(path.deep_view(), orig));
    }
}

/// Collapsing a segment of the path collapses the index map the same way
/// and keeps it an order-preserving map into the original path.
proof fn lemma_collapse_map(
    m_old: Seq<int>,
    m_new: Seq<int>,
    pre: Seq<Seq<i64>>,
    p: Seq<Seq<i64>>,
    orig: Seq<Seq<i64>>,
    ind1: int,
    ind2: int,
)
    requires
        maps_into(m_old, pre, orig),
        0 <= ind1,
        ind1 + 2 <= ind2 < pre.len(),
        p.len() == pre.len() - (ind2 - ind1 - 1),
        forall|k: int| 0 <= k <= ind1 ==> #[trigger] p[k] == pre[k],
        forall|k: int| ind1 < k < p.len() ==> #[trigger] p[k] == pre[k + (ind2 - ind1 - 1)],
        m_new == m_old.subrange(0, ind1 + 1) + m_old.subrange(ind2, m_old.len() as int),
    ensures
        maps_into(m_new, p, orig),
{
    let removed = ind2 - ind1 - 1;
    assert forall|k: int| 0 <= k < m_new.len() implies 0 <= #[trigger] m_new[k] < orig.len()
        && p[k] == orig[m_new[k]] by {
        if k <= ind1 {
            assert(m_new[k] == m_old[k]);
            assert(p[k] == pre[k]);
        } else {
            assert(m_new[k] == m_old[k + removed]);
            assert(p[k] == pre[k + removed]);
        }
    }
    assert forall|k: int| 0 <= k < m_new.len() - 1 implies #[trigger] m_new[k] < m_new[k + 1] by {
        if k < ind1 {
            assert(m_new[k] == m_old[k] && m_new[k + 1] == m_old[k + 1]);
        } else if k == ind1 {
            assert(m_new[k] == m_old[ind1]);
            assert(m_new[k + 1] == m_old[ind2]);
            lemma_map_increasing(m_old, ind1, ind2);
        } else {
            assert(m_new[k] == m_old[k + removed] && m_new[k + 1] == m_old[k + 1 + removed]);
        }
    }
}

/// A strictly increasing adjacent order extends to any two positions.
proof fn lemma_map_increasing(m: Seq<int>, a: int, b: int)
    requires
        forall|k: int| 0 <= k < m.len() - 1 ==> #[trigger] m[k] < m[k + 1],
        0 <= a < b < m.len(),
    ensures
        m[a] < m[b],
    decreases b - a,
{
    if a + 1 < b {
        lemma_map_increasing(m, a + 1, b);
    }
}

/// Configurations along the strict ancestor chain of node `i` in `vs`:
/// parent first, root last; empty for the root itself.
spec fn ancestor_datas(vs: Seq<Node<Vec<i64>>>, i: int) -> Seq<Seq<i64>>
    decreases i,
{
    if 0 <= i < vs.len() {
        match vs[i].parent_index {
            None => Seq::empty(),
            Some(p) => if 0 <= p < i {
                seq![vs[p as int].data@] + ancestor_datas(vs, p as int)
            } else {
                Seq::empty()
            },
        }
    } else {
        Seq::empty()
    }
}

/// In a well-formed tree whose edges span at most `s` and whose non-root
/// nodes are all feasible, the ancestor chain of any non-root node is a
/// nonempty sequence of well-formed configurations that starts next to the
/// node, steps by at most `s`, ends at the root, and is feasible except
/// possibly at the root.
proof fn lemma_ancestor_datas<P: FreePredicate>(t: Tree, pred: P, s: int, i: int)
    requires
        t.wf(),
        t.edges_within(s),
        t.interior_free(pred),
        0 <= i < t.vertices@.len(),
    ensures
        ({
            let a = ancestor_datas(t.vertices@, i);
            &&& i == 0 ==> a.len() == 0
            &&& i >= 1 ==> a.len() >= 1
            &&& i >= 1 ==> a[a.len() - 1] == t.vertices@[0].data@
            &&& i >= 1 ==> dist_sq(t.vertices@[i].data@, a[0]) <= s * s
            &&& forall|k: int| 0 <= k < a.len() ==> wf_config(#[trigger] a[k]) && a[k].len()
                == t.dim
            &&& forall|k: int| 0 <= k < a.len() - 1 ==> dist_sq(#[trigger] a[k], a[k + 1]) <= s * s
            &&& forall|k: int| 0 <= k < a.len() - 1 ==> pred.free(#[trigger] a[k])
        }),
    decreases i,
{
    let vs = t.vertices@;
    let a = ancestor_datas(vs, i);
    if i >= 1 {
        let p = vs[i].parent_index->0;
        let b = ancestor_datas(vs, p as int);
        assert(a =~= seq![vs[p as int].data@] + b);
        crate::geom::lemma_dist_sq_upto_sym(vs[p as int].data@, vs[i].data@, vs[i].data@.len() as int);
        assert(dist_sq(vs[i].data@, a[0]) <= s * s);
        lemma_ancestor_datas(t, pred, s, p as int);
        if p == 0 {
            assert(a.len() == 1);
        } else {
            assert(a[a.len() - 1] == b[b.len() - 1]);
            assert(dist_sq(a[0], a[1]) == dist_sq(vs[p as int].data@, b[0]));
        }
    }
}

} // verus!
