//! The sampling tree planner: incrementally grows a tree of fixed-point
//! positions toward randomly or goal-biased sampled targets, using a
//! bounded steering step and the grid's traversability test.
//!
//! Positions are carried in thousandths of a cell, as are the step size
//! (expand distance) and the path discretization resolution.

use vstd::prelude::*;
use rand::Rng;
use crate::maps::gridmap::Gridmap;
use crate::maps::gridmap::INSCRIBED_INFLATED_OBSTACLE;
use crate::planners::planner_base::Planner;
use crate::planners::planner_common::MotionPlan;
use crate::planners::planner_common::l2_sq_fp;
use crate::planners::planner_common::l2_dist_fp;
use crate::planners::planner_common::is_isqrt;
use crate::planners::planner_common::get_l2_cost_fp;
use crate::planners::planner_common::lemma_isqrt_ge;
use crate::planners::planner_common::lemma_l2_dist_fp_is;
use crate::planners::planner_common::lemma_l2_dist_fp_unique;
use crate::planners::planner_common::lemma_isqrt_le_iff;

verus! {

broadcast use vstd::seq_lib::lemma_seq_contains_after_push;

/// Positions handed to the planner stay within this many fixed-point
/// units, comfortably past any cell of a grid with 32-bit cell indices.
pub const SPAN_LIMIT: i64 = 4500000000000;

/// Relies on rand's `Rng::gen_range` on `0..n`: it returns a uniformly
/// distributed value of the range, and panics only when the range is
/// empty.
#[verifier::external_body]
fn rand_below(n: u64) -> (r: u64)
    requires
        n >= 1,
    ensures
        r < n,
{
    rand::thread_rng().gen_range(0..n)
}

/// A tree node: a fixed-point position and the fine-grained sub-path taken
/// to reach it from its parent.
pub struct Node2D {
    pub pos: (i64, i64),
    pub path: Vec<(i64, i64)>,
}

impl Node2D {
    /// A node at the given position, with an empty sub-path.
    fn new(pos: (i64, i64)) -> (r: Node2D)
        ensures
            r.pos == pos,
            r.path@.len() == 0,
    {
        Node2D { pos, path: Vec::new() }
    }
}

impl Clone for Node2D {
    /// Cloning keeps the position and the sub-path.
    fn clone(&self) -> (r: Self)
        ensures
            r.pos == self.pos,
            r.path@ == self.path@,
    {
        let mut path: Vec<(i64, i64)> = Vec::new();
        let mut i: usize = 0;
        while i < self.path.len()
            invariant
                i <= self.path@.len(),
                path@ == self.path@.subrange(0, i as int),
            decreases self.path.len() - i,
        {
            path.push(self.path[i]);
            proof {
                assert(path@ =~= self.path@.subrange(0, i as int + 1));
            }
            i += 1;
        }
        proof {
            assert(path@ =~= self.path@);
        }
        Node2D { pos: self.pos, path }
    }
}

/// The growing search tree: an ordered sequence of nodes and, for each
/// node, the index of its parent (absent at the root). A node's parent
/// always precedes it, so parent walks terminate.
pub struct Tree {
    pub nodes: Vec<Node2D>,
    pub parents: Vec<Option<usize>>,
}

impl Tree {
    /// Parent links match the nodes and point strictly backwards.
    pub open spec fn wf(&self) -> bool {
        &&& self.parents@.len() == self.nodes@.len()
        &&& forall|i: int|
            0 <= i < self.parents@.len() && (#[trigger] self.parents@[i]) is Some
                ==> self.parents@[i]->0 < i
    }

    /// An empty tree.
    fn new() -> (r: Tree)
        ensures
            r.wf(),
            r.nodes@.len() == 0,
    {
        Tree { nodes: Vec::new(), parents: Vec::new() }
    }

    /// The parent index of the node at `idx`, or nothing at a root.
    fn get_parents(&self, idx: &usize) -> (r: Option<usize>)
        requires
            *idx < self.parents@.len(),
        ensures
            r == self.parents@[*idx as int],
    {
        self.parents[*idx]
    }

    /// Append a node with the given parent, which must already be in the
    /// tree.
    fn add_node(&mut self, cell: &Node2D, parent: Option<usize>)
        requires
            old(self).wf(),
            parent is Some ==> parent->0 < old(self).nodes@.len(),
        ensures
            final(self).wf(),
            final(self).nodes@.len() == old(self).nodes@.len() + 1,
            final(self).parents@ == old(self).parents@.push(parent),
            forall|i: int|
                0 <= i < old(self).nodes@.len() ==> #[trigger] final(self).nodes@[i] == old(
                    self,
                ).nodes@[i],
            final(self).nodes@[old(self).nodes@.len() as int].pos == cell.pos,
            final(self).nodes@[old(self).nodes@.len() as int].path@ == cell.path@,
    {
        self.nodes.push(cell.clone());
        self.parents.push(parent);
    }

    /// The node at `idx`.
    fn get_node(&self, idx: usize) -> (r: &Node2D)
        requires
            idx < self.nodes@.len(),
        ensures
            *r == self.nodes@[idx as int],
    {
        &self.nodes[idx]
    }

    /// The index of the tree node nearest (by Euclidean distance) to the
    /// given node; ties go to the earliest node. Asking this of an empty
    /// tree is a contract violation: the root is inserted before any scan.
    fn get_nearest_node_idx(&self, cell_from: &Node2D) -> (r: usize)
        requires
            self.nodes@.len() >= 1,
            forall|i: int|
                0 <= i < self.nodes@.len() ==> -SPAN_LIMIT <= (#[trigger] self.nodes@[i]).pos.0
                    <= SPAN_LIMIT && -SPAN_LIMIT <= self.nodes@[i].pos.1 <= SPAN_LIMIT,
            -SPAN_LIMIT <= cell_from.pos.0 <= SPAN_LIMIT,
            -SPAN_LIMIT <= cell_from.pos.1 <= SPAN_LIMIT,
        ensures
            r < self.nodes@.len(),
            forall|j: int|
                0 <= j < self.nodes@.len() ==> l2_sq_fp(self.nodes@[r as int].pos, cell_from.pos)
                    <= l2_sq_fp((#[trigger] self.nodes@[j]).pos, cell_from.pos),
            forall|j: int|
                0 <= j < r ==> l2_sq_fp((#[trigger] self.nodes@[j]).pos, cell_from.pos) > l2_sq_fp(
                    self.nodes@[r as int].pos,
                    cell_from.pos,
                ),
    {
        let mut best: usize = 0;
        let mut best_d: i128 = sq_dist_fp(self.nodes[0].pos, cell_from.pos);
        let mut j: usize = 1;
        while j < self.nodes.len()
            invariant
                best < j <= self.nodes@.len(),
                forall|i: int|
                    0 <= i < self.nodes@.len() ==> -SPAN_LIMIT <= (#[trigger] self.nodes@[i]).pos.0
                        <= SPAN_LIMIT && -SPAN_LIMIT <= self.nodes@[i].pos.1 <= SPAN_LIMIT,
                -SPAN_LIMIT <= cell_from.pos.0 <= SPAN_LIMIT,
                -SPAN_LIMIT <= cell_from.pos.1 <= SPAN_LIMIT,
                best_d == l2_sq_fp(self.nodes@[best as int].pos, cell_from.pos),
                forall|q: int|
                    0 <= q < j ==> best_d <= l2_sq_fp(
                        (#[trigger] self.nodes@[q]).pos,
                        cell_from.pos,
                    ),
                forall|q: int|
                    0 <= q < best ==> l2_sq_fp((#[trigger] self.nodes@[q]).pos, cell_from.pos)
                        > best_d,
            decreases self.nodes.len() - j,
        {
            let d = sq_dist_fp(self.nodes[j].pos, cell_from.pos);
            if d < best_d {
                best = j;
                best_d = d;
            }
            j += 1;
        }
        best
    }
}

/// The squared Euclidean distance of two fixed-point points, exactly.
fn sq_dist_fp(a: (i64, i64), b: (i64, i64)) -> (r: i128)
    requires
        -SPAN_LIMIT <= a.0 <= SPAN_LIMIT,
        -SPAN_LIMIT <= a.1 <= SPAN_LIMIT,
        -SPAN_LIMIT <= b.0 <= SPAN_LIMIT,
        -SPAN_LIMIT <= b.1 <= SPAN_LIMIT,
    ensures
        r == l2_sq_fp(a, b),
{
    let dx: i128 = (a.0 as i128) - (b.0 as i128);
    let dy: i128 = (a.1 as i128) - (b.1 as i128);
    proof {
        assert(0 <= dx * dx < 0x10000000000000000000000000 && 0 <= dy * dy
            < 0x10000000000000000000000000) by (nonlinear_arith)
            requires
                -9000000000000 <= dx <= 9000000000000,
                -9000000000000 <= dy <= 9000000000000,
        ;
    }
    dx * dx + dy * dy
}

/// The points of `v` in reverse order.
fn reverse_points(v: &Vec<(i64, i64)>) -> (r: Vec<(i64, i64)>)
    ensures
        r@.len() == v@.len(),
        forall|q: int| 0 <= q < v@.len() ==> r@[q] == v@[v@.len() - 1 - q],
{
    let mut r: Vec<(i64, i64)> = Vec::new();
    let n = v.len();
    let mut m: usize = 0;
    while m < n
        invariant
            m <= n,
            n == v@.len(),
            r@.len() == m,
            forall|q: int| 0 <= q < m ==> r@[q] == v@[n - 1 - q],
        decreases n - m,
    {
        r.push(v[n - 1 - m]);
        m += 1;
    }
    r
}

/// The per-axis sub-step of the steering walk from `from` toward `to`:
/// one resolution unit scaled by each axis's share of the bearing,
/// truncated toward zero (and zero when the points coincide).
pub open spec fn steer_sub(from: (i64, i64), to: (i64, i64), res: int) -> (int, int) {
    let d = l2_dist_fp(from, to);
    if d <= 0 {
        (0, 0)
    } else {
        let dx = to.0 as int - from.0 as int;
        let dy = to.1 as int - from.1 as int;
        let qx = res * (if dx >= 0 { dx } else { -dx }) / d;
        let qy = res * (if dy >= 0 { dy } else { -dy }) / d;
        ((if dx >= 0 { qx } else { -qx }), (if dy >= 0 { qy } else { -qy }))
    }
}

/// How many sub-steps the steering walk takes: enough to cover the step
/// size or the distance to the target, whichever is smaller.
pub open spec fn steer_iters(from: (i64, i64), to: (i64, i64), expand: int, res: int) -> int {
    let d = l2_dist_fp(from, to);
    (if expand <= d {
        expand
    } else {
        d
    }) / res
}

/// Where the steering walk ends, before any snap onto the target.
pub open spec fn steer_walk_end(from: (i64, i64), to: (i64, i64), expand: int, res: int) -> (
    int,
    int,
) {
    let s = steer_sub(from, to, res);
    let k = steer_iters(from, to, expand, res);
    (from.0 + k * s.0, from.1 + k * s.1)
}

/// Whether the walk ends within one resolution unit of the target, in
/// which case the steered node snaps onto it exactly.
pub open spec fn steer_snaps(from: (i64, i64), to: (i64, i64), expand: int, res: int) -> bool {
    let w = steer_walk_end(from, to, expand, res);
    let ddx = to.0 - w.0;
    let ddy = to.1 - w.1;
    ddx * ddx + ddy * ddy < (res + 1) * (res + 1)
}

/// The exact position a steering step produces.
pub open spec fn steer_pos(from: (i64, i64), to: (i64, i64), expand: int, res: int) -> (int, int) {
    if steer_snaps(from, to, expand, res) {
        (to.0 as int, to.1 as int)
    } else {
        steer_walk_end(from, to, expand, res)
    }
}

/// The walked share of one axis never exceeds that axis's full extent:
/// both the step count and the sub-step are rounded down.
proof fn lemma_steer_step_bound(dxa: int, d: int, res: int, tmp: int, iters: int, q: int)
    requires
        d >= 1,
        res >= 1,
        0 <= tmp <= d,
        iters == tmp / res,
        dxa >= 0,
        q == res * dxa / d,
    ensures
        0 <= iters,
        0 <= q,
        iters * q <= dxa,
    decreases 0int,
{
    vstd::arithmetic::div_mod::lemma_fundamental_div_mod(tmp, res);
    vstd::arithmetic::div_mod::lemma_mod_pos_bound(tmp, res);
    vstd::arithmetic::div_mod::lemma_fundamental_div_mod(res * dxa, d);
    vstd::arithmetic::div_mod::lemma_mod_pos_bound(res * dxa, d);
    assert(0 <= iters && res * iters <= tmp) by (nonlinear_arith)
        requires
            tmp == res * iters + tmp % res,
            0 <= tmp % res < res,
            0 <= tmp,
            res >= 1,
    ;
    assert(0 <= q && d * q <= res * dxa) by (nonlinear_arith)
        requires
            res * dxa == d * q + (res * dxa) % d,
            0 <= (res * dxa) % d < d,
            res >= 1,
            dxa >= 0,
            d >= 1,
    ;
    assert(iters * q <= dxa) by (nonlinear_arith)
        requires
            0 <= iters,
            0 <= q,
            d >= 1,
            res >= 1,
            dxa >= 0,
            res * iters <= tmp,
            tmp <= d,
            d * q <= res * dxa,
    ;
}

/// Steering never moves away from the target: the steered position is no
/// farther from `to` than `from` is.
proof fn lemma_steer_monotone(from: (i64, i64), to: (i64, i64), expand: int, res: int)
    requires
        res >= 1,
        expand >= 1,
    ensures
        ({
            let w = steer_pos(from, to, expand, res);
            (to.0 - w.0) * (to.0 - w.0) + (to.1 - w.1) * (to.1 - w.1) <= l2_sq_fp(from, to)
        }),
{
    lemma_l2_dist_fp_is(from, to);
    let d = l2_dist_fp(from, to);
    let dx = to.0 as int - from.0 as int;
    let dy = to.1 as int - from.1 as int;
    assert(l2_sq_fp(from, to) == (from.0 as int - to.0 as int) * (from.0 as int - to.0 as int) + (
    from.1 as int - to.1 as int) * (from.1 as int - to.1 as int));
    assert(l2_sq_fp(from, to) == dx * dx + dy * dy) by (nonlinear_arith)
        requires
            l2_sq_fp(from, to) == (from.0 as int - to.0 as int) * (from.0 as int - to.0 as int) + (
            from.1 as int - to.1 as int) * (from.1 as int - to.1 as int),
            dx == to.0 as int - from.0 as int,
            dy == to.1 as int - from.1 as int,
    ;
    if steer_snaps(from, to, expand, res) {
        assert(dx * dx + dy * dy >= 0) by (nonlinear_arith);
        let w = steer_pos(from, to, expand, res);
        assert(w == (to.0 as int, to.1 as int));
        assert((to.0 - w.0) * (to.0 - w.0) + (to.1 - w.1) * (to.1 - w.1) == 0);
    } else {
        let w = steer_walk_end(from, to, expand, res);
        assert(steer_pos(from, to, expand, res) == w);
        if d <= 0 {
            // a zero distance means both extents are zero
            assert(d == 0);
            assert(is_isqrt(l2_sq_fp(from, to), 0));
            assert(dx == 0 && dy == 0) by (nonlinear_arith)
                requires
                    dx * dx + dy * dy < (0 + 1) * (0 + 1),
                    l2_sq_fp(from, to) == dx * dx + dy * dy,
                    l2_sq_fp(from, to) < 1,
            ;
            assert(w == (from.0 as int, from.1 as int));
            assert((to.0 - w.0) == 0 && (to.1 - w.1) == 0);
        } else {
            let tmp = if expand <= d {
                expand
            } else {
                d
            };
            let iters = steer_iters(from, to, expand, res);
            let dxa = if dx >= 0 {
                dx
            } else {
                -dx
            };
            let dya = if dy >= 0 {
                dy
            } else {
                -dy
            };
            let qx = res * dxa / d;
            let qy = res * dya / d;
            lemma_steer_step_bound(dxa, d, res, tmp, iters, qx);
            lemma_steer_step_bound(dya, d, res, tmp, iters, qy);
            // per axis the remaining extent shrank in magnitude
            assert((to.0 - w.0) * (to.0 - w.0) <= dx * dx && (to.1 - w.1) * (to.1 - w.1) <= dy
                * dy) by (nonlinear_arith)
                requires
                    w.0 == from.0 + iters * (if dx >= 0 { qx } else { -qx }),
                    w.1 == from.1 + iters * (if dy >= 0 { qy } else { -qy }),
                    dx == to.0 - from.0,
                    dy == to.1 - from.1,
                    dxa == (if dx >= 0 { dx } else { -dx }),
                    dya == (if dy >= 0 { dy } else { -dy }),
                    0 <= iters * qx <= dxa,
                    0 <= iters * qy <= dya,
                    0 <= iters,
                    0 <= qx,
                    0 <= qy,
            ;
        }
    }
}

/// The sampling tree planner.
pub struct RRTPlanner {
    pub start: (u32, u32),
    pub goal: (u32, u32),
    pub gridmap: Gridmap,
    pub start_fp: (i64, i64),
    pub goal_fp: (i64, i64),
    pub max_iter: usize,
    pub goal_sample_rate: u32,
    pub expand_dist: i64,
    pub path_resolution: i64,
}

impl RRTPlanner {
    /// Set the iteration budget, the goal bias (a percentage), the step
    /// size and the path discretization resolution (both in thousandths of
    /// a cell).
    pub fn set_parameters(
        &mut self,
        max_iter: usize,
        goal_sample_rate: u32,
        expand_dist: i64,
        path_resolution: i64,
    )
        requires
            old(self).inv(),
            1 <= expand_dist <= 1000000000,
            1 <= path_resolution <= 1000000000,
        ensures
            final(self).inv(),
            final(self).max_iter == max_iter,
            final(self).goal_sample_rate == goal_sample_rate,
            final(self).expand_dist == expand_dist,
            final(self).path_resolution == path_resolution,
            final(self).gridmap == old(self).gridmap,
            final(self).start == old(self).start,
            final(self).goal == old(self).goal,
            final(self).start_fp == old(self).start_fp,
            final(self).goal_fp == old(self).goal_fp,
    {
        self.goal_sample_rate = goal_sample_rate;
        self.expand_dist = expand_dist;
        self.max_iter = max_iter;
        self.path_resolution = path_resolution;
    }

    /// Sample a target node: with the configured goal bias return the goal
    /// position, otherwise draw uniform random fixed-point positions within
    /// the grid until one is traversable. After a large fixed number of
    /// fruitless draws the goal position is returned, so sampling always
    /// terminates even on a fully blocked map. The goal is drawn with
    /// probability `goal_sample_rate` in 100, so a bias of 100 always
    /// yields the goal.
    pub fn sample(&self) -> (r: Node2D)
        requires
            self.inv(),
        ensures
            r.pos == self.goal_fp || (0 <= r.pos.0 < self.gridmap.spec_width() * 1000 && 0
                <= r.pos.1 < self.gridmap.spec_height() * 1000
                && self.gridmap.spec_traversable_fp_xy(
                r.pos.0 as int,
                r.pos.1 as int,
                INSCRIBED_INFLATED_OBSTACLE,
            )),
            self.goal_sample_rate >= 100 ==> r.pos == self.goal_fp,
            r.path@.len() == 0,
    {
        let roll = rand_below(100);
        if roll as u32 >= self.goal_sample_rate {
            let w_span: u64 = (self.gridmap.get_width() as u64) * 1000;
            let h_span: u64 = (self.gridmap.get_height() as u64) * 1000;
            let mut attempts: u32 = 0;
            while attempts < 1000000
                invariant
                    self.inv(),
                    roll < 100,
                    roll as u32 >= self.goal_sample_rate,
                    w_span == self.gridmap.spec_width() * 1000,
                    h_span == self.gridmap.spec_height() * 1000,
                    1 <= w_span <= 4294967295000,
                    1 <= h_span <= 4294967295000,
                decreases 1000000 - attempts,
            {
                let x = rand_below(w_span) as i64;
                let y = rand_below(h_span) as i64;
                if self.gridmap.xy_is_traversable_fp(&(x, y), &INSCRIBED_INFLATED_OBSTACLE) {
                    return Node2D::new((x, y));
                }
                attempts += 1;
            }
            Node2D::new(self.goal_fp)
        } else {
            Node2D::new(self.goal_fp)
        }
    }

    /// The index of the tree node nearest to the sampled node.
    pub fn get_nearest_node_idx(&self, tree: &Tree, v_samp: &Node2D) -> (r: usize)
        requires
            tree.nodes@.len() >= 1,
            forall|i: int|
                0 <= i < tree.nodes@.len() ==> -SPAN_LIMIT <= (#[trigger] tree.nodes@[i]).pos.0
                    <= SPAN_LIMIT && -SPAN_LIMIT <= tree.nodes@[i].pos.1 <= SPAN_LIMIT,
            -SPAN_LIMIT <= v_samp.pos.0 <= SPAN_LIMIT,
            -SPAN_LIMIT <= v_samp.pos.1 <= SPAN_LIMIT,
        ensures
            r < tree.nodes@.len(),
            forall|j: int|
                0 <= j < tree.nodes@.len() ==> l2_sq_fp(tree.nodes@[r as int].pos, v_samp.pos)
                    <= l2_sq_fp((#[trigger] tree.nodes@[j]).pos, v_samp.pos),
            forall|j: int|
                0 <= j < r ==> l2_sq_fp((#[trigger] tree.nodes@[j]).pos, v_samp.pos) > l2_sq_fp(
                    tree.nodes@[r as int].pos,
                    v_samp.pos,
                ),
    {
        tree.get_nearest_node_idx(v_samp)
    }

    /// Steer from `v_x` toward `v_y`: advance in sub-steps of the
    /// configured resolution along the straight bearing, for at most
    /// enough sub-steps to cover the step size or the distance to `v_y`
    /// (whichever is smaller), and snap to `v_y` exactly when the walk
    /// ends within one resolution unit of it. The returned node's
    /// position and recorded sub-path are exactly the walk of
    /// [`steer_pos`]: consecutive sub-path points stay within one
    /// resolution unit per axis, the result never moves away from the
    /// target, and it stays within the step size of `v_x` unless it
    /// reached `v_y`.
    pub fn steer(&self, v_x: &Node2D, v_y: &Node2D) -> (r: Node2D)
        requires
            self.inv(),
            -SPAN_LIMIT <= v_x.pos.0 <= SPAN_LIMIT,
            -SPAN_LIMIT <= v_x.pos.1 <= SPAN_LIMIT,
            -SPAN_LIMIT <= v_y.pos.0 <= SPAN_LIMIT,
            -SPAN_LIMIT <= v_y.pos.1 <= SPAN_LIMIT,
        ensures
            r.pos.0 as int == steer_pos(
                v_x.pos,
                v_y.pos,
                self.expand_dist as int,
                self.path_resolution as int,
            ).0,
            r.pos.1 as int == steer_pos(
                v_x.pos,
                v_y.pos,
                self.expand_dist as int,
                self.path_resolution as int,
            ).1,
            r.path@.len() == steer_iters(
                v_x.pos,
                v_y.pos,
                self.expand_dist as int,
                self.path_resolution as int,
            ) + 1 + (if steer_snaps(
                v_x.pos,
                v_y.pos,
                self.expand_dist as int,
                self.path_resolution as int,
            ) {
                1int
            } else {
                0int
            }),
            forall|j: int|
                0 <= j <= steer_iters(
                    v_x.pos,
                    v_y.pos,
                    self.expand_dist as int,
                    self.path_resolution as int,
                ) ==> ((#[trigger] r.path@[j]).0 as int == v_x.pos.0 + j * steer_sub(
                    v_x.pos,
                    v_y.pos,
                    self.path_resolution as int,
                ).0 && r.path@[j].1 as int == v_x.pos.1 + j * steer_sub(
                    v_x.pos,
                    v_y.pos,
                    self.path_resolution as int,
                ).1),
            r.path@.len() >= 1,
            r.path@[0] == v_x.pos,
            r.path@[r.path@.len() - 1] == r.pos,
            forall|j: int|
                0 <= j < r.path@.len() - 1 ==> (-(self.path_resolution as int) <= (
                #[trigger] r.path@[j + 1]).0 - r.path@[j].0 <= self.path_resolution && -(
                self.path_resolution as int) <= r.path@[j + 1].1 - r.path@[j].1
                    <= self.path_resolution),
            l2_sq_fp(r.pos, v_y.pos) <= l2_sq_fp(v_x.pos, v_y.pos),
            r.pos == v_y.pos || (-(self.expand_dist as int) <= r.pos.0 - v_x.pos.0
                <= self.expand_dist && -(self.expand_dist as int) <= r.pos.1 - v_x.pos.1
                <= self.expand_dist),
            -SPAN_LIMIT - 1000000000 <= r.pos.0 <= SPAN_LIMIT + 1000000000,
            -SPAN_LIMIT - 1000000000 <= r.pos.1 <= SPAN_LIMIT + 1000000000,
    {
        let ghost exp_i = self.expand_dist as int;
        let ghost res_i = self.path_resolution as int;
        let ghost s_sub = steer_sub(v_x.pos, v_y.pos, res_i);
        let ghost n_it = steer_iters(v_x.pos, v_y.pos, exp_i, res_i);

        let mut v_new = Node2D::new(v_x.pos);
        let dist_to_y = get_l2_cost_fp(v_new.pos, v_y.pos);
        v_new.path.push(v_new.pos);
        proof {
            lemma_l2_dist_fp_unique(v_x.pos, v_y.pos, dist_to_y as int);
        }

        let tmp_expand_dist: i64 = if self.expand_dist <= dist_to_y {
            self.expand_dist
        } else {
            dist_to_y
        };
        let expand_itr: usize = ((tmp_expand_dist as u64) / (self.path_resolution as u64)) as usize;
        proof {
            vstd::arithmetic::div_mod::lemma_fundamental_div_mod(
                tmp_expand_dist as int,
                self.path_resolution as int,
            );
            vstd::arithmetic::div_mod::lemma_mod_pos_bound(
                tmp_expand_dist as int,
                self.path_resolution as int,
            );
            assert((expand_itr as int) * (self.path_resolution as int) <= tmp_expand_dist as int)
                by (nonlinear_arith)
                requires
                    tmp_expand_dist as int == (self.path_resolution as int) * (expand_itr as int) + (
                    tmp_expand_dist as int) % (self.path_resolution as int),
                    (tmp_expand_dist as int) % (self.path_resolution as int) >= 0,
            ;
            assert(expand_itr as int == n_it);
        }

        if expand_itr > 0 {
            let dxl = v_y.pos.0 - v_x.pos.0;
            let dyl = v_y.pos.1 - v_x.pos.1;
            let adx: u64 = if dxl >= 0 {
                dxl as u64
            } else {
                (-dxl) as u64
            };
            let ady: u64 = if dyl >= 0 {
                dyl as u64
            } else {
                (-dyl) as u64
            };
            proof {
                let dxi = v_x.pos.0 as int - v_y.pos.0 as int;
                let dyi = v_x.pos.1 as int - v_y.pos.1 as int;
                assert(l2_sq_fp(v_x.pos, v_y.pos) == dxi * dxi + dyi * dyi);
                assert((adx as int) * (adx as int) == dxi * dxi && (ady as int) * (ady as int)
                    == dyi * dyi && dxi * dxi <= dxi * dxi + dyi * dyi && dyi * dyi <= dxi * dxi
                    + dyi * dyi) by (nonlinear_arith)
                    requires
                        adx as int == (if dxi >= 0 { dxi } else { -dxi }),
                        ady as int == (if dyi >= 0 { dyi } else { -dyi }),
                ;
                lemma_isqrt_ge(l2_sq_fp(v_x.pos, v_y.pos), dist_to_y as int, adx as int);
                lemma_isqrt_ge(l2_sq_fp(v_x.pos, v_y.pos), dist_to_y as int, ady as int);
            }
            let res_u: u64 = self.path_resolution as u64;
            let dist_u: u128 = dist_to_y as u128;
            proof {
                assert(dist_to_y >= 1) by {
                    if dist_to_y == 0 {
                        assert(tmp_expand_dist == 0);
                        assert(expand_itr == 0);
                    }
                }
                assert((res_u as int) * (adx as int) <= (res_u as int) * (dist_to_y as int)
                    && (res_u as int) * (ady as int) <= (res_u as int) * (dist_to_y as int))
                    by (nonlinear_arith)
                    requires
                        0 <= adx <= dist_to_y,
                        0 <= ady <= dist_to_y,
                        res_u >= 0,
                ;
                vstd::arithmetic::div_mod::lemma_div_is_ordered(
                    (res_u as int) * (adx as int),
                    (res_u as int) * (dist_to_y as int),
                    dist_to_y as int,
                );
                vstd::arithmetic::div_mod::lemma_div_is_ordered(
                    (res_u as int) * (ady as int),
                    (res_u as int) * (dist_to_y as int),
                    dist_to_y as int,
                );
                vstd::arithmetic::div_mod::lemma_div_multiples_vanish(
                    res_u as int,
                    dist_to_y as int,
                );
                assert((dist_to_y as int) * (res_u as int) == (res_u as int) * (dist_to_y as int))
                    by (nonlinear_arith);
                assert((res_u as int) * (adx as int) < 0x100000000000000000000 && (res_u as int) * (
                ady as int) < 0x100000000000000000000) by (nonlinear_arith)
                    requires
                        0 <= res_u <= 1000000000,
                        0 <= adx <= 9000000000000,
                        0 <= ady <= 9000000000000,
                ;
            }
            let qx: u64 = (((res_u as u128) * (adx as u128)) / dist_u) as u64;
            let qy: u64 = (((res_u as u128) * (ady as u128)) / dist_u) as u64;
            let sx: i64 = if dxl >= 0 {
                qx as i64
            } else {
                -(qx as i64)
            };
            let sy: i64 = if dyl >= 0 {
                qy as i64
            } else {
                -(qy as i64)
            };
            proof {
                // the exec sub-step is the specification's sub-step
                assert(sx as int == s_sub.0 && sy as int == s_sub.1);
            }
            let ghost tmp_i = tmp_expand_dist as int;
            let mut k: usize = 0;
            while k < expand_itr
                invariant
                    1 <= self.path_resolution <= 1000000000,
                    res_i == self.path_resolution as int,
                    tmp_i == tmp_expand_dist as int,
                    0 <= tmp_i <= self.expand_dist,
                    tmp_i <= 1000000000,
                    k <= expand_itr,
                    (expand_itr as int) * res_i <= tmp_i,
                    sx as int == s_sub.0,
                    sy as int == s_sub.1,
                    -res_i <= sx as int <= res_i,
                    -res_i <= sy as int <= res_i,
                    -SPAN_LIMIT <= v_x.pos.0 <= SPAN_LIMIT,
                    -SPAN_LIMIT <= v_x.pos.1 <= SPAN_LIMIT,
                    (k as int) * res_i <= tmp_i,
                    -((k as int) * res_i) <= v_new.pos.0 - v_x.pos.0 <= (k as int) * res_i,
                    -((k as int) * res_i) <= v_new.pos.1 - v_x.pos.1 <= (k as int) * res_i,
                    v_new.pos.0 as int == v_x.pos.0 + (k as int) * (sx as int),
                    v_new.pos.1 as int == v_x.pos.1 + (k as int) * (sy as int),
                    v_new.path@.len() == k + 1,
                    v_new.path@[0] == v_x.pos,
                    v_new.path@[v_new.path@.len() - 1] == v_new.pos,
                    forall|j: int|
                        0 <= j <= k ==> ((#[trigger] v_new.path@[j]).0 as int == v_x.pos.0 + j * (
                        sx as int) && v_new.path@[j].1 as int == v_x.pos.1 + j * (sy as int)),
                decreases expand_itr - k,
            {
                proof {
                    assert((k as int + 1) * res_i == (k as int) * res_i + res_i && (k as int + 1)
                        * res_i <= (expand_itr as int) * res_i) by (nonlinear_arith)
                        requires
                            k as int + 1 <= expand_itr as int,
                            res_i >= 0,
                    ;
                    assert((k as int + 1) * (sx as int) == (k as int) * (sx as int) + sx as int
                        && (k as int + 1) * (sy as int) == (k as int) * (sy as int) + sy as int)
                        by (nonlinear_arith);
                }
                let nx = v_new.pos.0 + sx;
                let ny = v_new.pos.1 + sy;
                v_new.pos = (nx, ny);
                v_new.path.push(v_new.pos);
                k += 1;
            }
            proof {
                assert(v_new.pos.0 as int == steer_walk_end(v_x.pos, v_y.pos, exp_i, res_i).0
                    && v_new.pos.1 as int == steer_walk_end(v_x.pos, v_y.pos, exp_i, res_i).1);
                assert(forall|j: int|
                    0 <= j <= n_it ==> ((#[trigger] v_new.path@[j]).0 as int == v_x.pos.0 + j
                        * s_sub.0 && v_new.path@[j].1 as int == v_x.pos.1 + j * s_sub.1));
            }
        } else {
            proof {
                assert(n_it == 0);
                assert(0 * s_sub.0 == 0 && 0 * s_sub.1 == 0) by (nonlinear_arith);
                assert(v_new.pos.0 as int == steer_walk_end(v_x.pos, v_y.pos, exp_i, res_i).0
                    && v_new.pos.1 as int == steer_walk_end(v_x.pos, v_y.pos, exp_i, res_i).1);
            }
        }

        let ghost wend = steer_walk_end(v_x.pos, v_y.pos, exp_i, res_i);
        let dist_remaining = get_l2_cost_fp(v_new.pos, v_y.pos);
        proof {
            lemma_isqrt_le_iff(
                l2_sq_fp(v_new.pos, v_y.pos),
                dist_remaining as int,
                res_i,
            );
            // the snap test matches the specification's snap condition
            assert(l2_sq_fp(v_new.pos, v_y.pos) == (v_y.pos.0 - wend.0) * (v_y.pos.0 - wend.0) + (
            v_y.pos.1 - wend.1) * (v_y.pos.1 - wend.1)) by (nonlinear_arith)
                requires
                    v_new.pos.0 as int == wend.0,
                    v_new.pos.1 as int == wend.1,
                    l2_sq_fp(v_new.pos, v_y.pos) == (v_new.pos.0 as int - v_y.pos.0 as int) * (
                    v_new.pos.0 as int - v_y.pos.0 as int) + (v_new.pos.1 as int
                        - v_y.pos.1 as int) * (v_new.pos.1 as int - v_y.pos.1 as int),
            ;
            assert((dist_remaining <= self.path_resolution) == steer_snaps(
                v_x.pos,
                v_y.pos,
                exp_i,
                res_i,
            ));
        }
        if dist_remaining <= self.path_resolution {
            v_new.path.push(v_y.pos);
            v_new.pos = v_y.pos;
            proof {
                // the final snap segment also stays within one resolution
                // unit per axis
                assert(-(res_i) <= v_y.pos.0 - wend.0 <= res_i && -(res_i) <= v_y.pos.1 - wend.1
                    <= res_i) by (nonlinear_arith)
                    requires
                        (v_y.pos.0 - wend.0) * (v_y.pos.0 - wend.0) + (v_y.pos.1 - wend.1) * (
                        v_y.pos.1 - wend.1) < (res_i + 1) * (res_i + 1),
                        res_i >= 1,
                ;
            }
        }
        proof {
            lemma_steer_monotone(v_x.pos, v_y.pos, exp_i, res_i);
            let w = steer_pos(v_x.pos, v_y.pos, exp_i, res_i);
            assert(l2_sq_fp(v_new.pos, v_y.pos) == (v_y.pos.0 - w.0) * (v_y.pos.0 - w.0) + (
            v_y.pos.1 - w.1) * (v_y.pos.1 - w.1)) by (nonlinear_arith)
                requires
                    v_new.pos.0 as int == w.0,
                    v_new.pos.1 as int == w.1,
                    l2_sq_fp(v_new.pos, v_y.pos) == (v_new.pos.0 as int - v_y.pos.0 as int) * (
                    v_new.pos.0 as int - v_y.pos.0 as int) + (v_new.pos.1 as int
                        - v_y.pos.1 as int) * (v_new.pos.1 as int - v_y.pos.1 as int),
            ;
            // consecutive sub-path points differ by one sub-step, which is
            // bounded by the resolution on each axis
            assert forall|j: int| 0 <= j < v_new.path@.len() - 1 implies (-(res_i) <= (
            #[trigger] v_new.path@[j + 1]).0 - v_new.path@[j].0 <= res_i && -(res_i)
                <= v_new.path@[j + 1].1 - v_new.path@[j].1 <= res_i) by {
                if j < n_it {
                    assert((j + 1) * s_sub.0 == j * s_sub.0 + s_sub.0 && (j + 1) * s_sub.1 == j
                        * s_sub.1 + s_sub.1) by (nonlinear_arith);
                    assert(-(res_i) <= s_sub.0 <= res_i && -(res_i) <= s_sub.1 <= res_i) by {
                        if n_it > 0 {
                        } else {
                            assert(s_sub == steer_sub(v_x.pos, v_y.pos, res_i));
                        }
                    }
                }
            }
        }
        v_new
    }

    /// Walk parent links from the newest tree node back to the root,
    /// collecting node positions; the goal position comes first, the root's
    /// position last. Also returns, for specification purposes, the tree
    /// index of the node behind each collected position.
    pub fn generate_path(&self, tree: &Tree) -> (r: (Vec<(i64, i64)>, Ghost<Seq<int>>))
        requires
            tree.wf(),
            tree.nodes@.len() >= 1,
        ensures
            r.0@.len() >= 2,
            r.0@[0] == self.goal_fp,
            r.1@.len() == r.0@.len() - 1,
            forall|q: int|
                0 <= q < r.1@.len() ==> 0 <= #[trigger] r.1@[q] < tree.nodes@.len() && r.0@[q + 1]
                    == tree.nodes@[r.1@[q]].pos && (q < r.1@.len() - 1 ==> tree.parents@[r.1@[q]]
                    is Some) && (q == r.1@.len() - 1 ==> tree.parents@[r.1@[q]] is None),
            r.1@[0] == tree.nodes@.len() - 1,
            forall|q: int|
                0 <= q < r.1@.len() - 1 ==> tree.parents@[#[trigger] r.1@[q]] is Some && r.1@[q
                    + 1] == tree.parents@[r.1@[q]]->0,
    {
        let mut path: Vec<(i64, i64)> = Vec::new();
        let ghost mut idxs: Seq<int> = Seq::empty();
        path.push(self.goal_fp);
        let mut cur_idx: usize = tree.nodes.len() - 1;
        loop
            invariant
                tree.wf(),
                tree.nodes@.len() >= 1,
                cur_idx < tree.nodes@.len(),
                path@.len() >= 1,
                path@[0] == self.goal_fp,
                idxs.len() == path@.len() - 1,
                forall|q: int|
                    0 <= q < idxs.len() ==> 0 <= #[trigger] idxs[q] < tree.nodes@.len() && path@[q
                        + 1] == tree.nodes@[idxs[q]].pos && tree.parents@[idxs[q]] is Some,
                idxs.len() >= 1 ==> idxs[0] == tree.nodes@.len() - 1,
                forall|q: int|
                    0 <= q < idxs.len() - 1 ==> tree.parents@[#[trigger] idxs[q]] is Some && idxs[q
                        + 1] == tree.parents@[idxs[q]]->0,
                idxs.len() == 0 ==> cur_idx as int == tree.nodes@.len() - 1,
                idxs.len() >= 1 ==> (tree.parents@[idxs[idxs.len() - 1]] is Some && cur_idx as int
                    == tree.parents@[idxs[idxs.len() - 1]]->0),
            ensures
                tree.parents@[cur_idx as int] is None,
                cur_idx < tree.nodes@.len(),
                path@.len() >= 1,
                path@[0] == self.goal_fp,
                idxs.len() == path@.len() - 1,
                forall|q: int|
                    0 <= q < idxs.len() ==> 0 <= #[trigger] idxs[q] < tree.nodes@.len() && path@[q
                        + 1] == tree.nodes@[idxs[q]].pos && tree.parents@[idxs[q]] is Some,
                idxs.len() >= 1 ==> idxs[0] == tree.nodes@.len() - 1,
                forall|q: int|
                    0 <= q < idxs.len() - 1 ==> tree.parents@[#[trigger] idxs[q]] is Some && idxs[q
                        + 1] == tree.parents@[idxs[q]]->0,
                idxs.len() == 0 ==> cur_idx as int == tree.nodes@.len() - 1,
                idxs.len() >= 1 ==> (tree.parents@[idxs[idxs.len() - 1]] is Some && cur_idx as int
                    == tree.parents@[idxs[idxs.len() - 1]]->0),
            decreases cur_idx,
        {
            match tree.get_parents(&cur_idx) {
                Some(p) => {
                    path.push(tree.get_node(cur_idx).pos);
                    proof {
                        idxs = idxs.push(cur_idx as int);
                    }
                    cur_idx = p;
                },
                None => {
                    break ;
                },
            }
        }
        path.push(tree.get_node(cur_idx).pos);
        proof {
            idxs = idxs.push(cur_idx as int);
        }
        (path, Ghost(idxs))
    }

    /// The positions of every node the tree holds, in insertion order.
    pub fn generate_closed_list(&self, tree: &Tree) -> (r: Vec<(i64, i64)>)
        ensures
            r@.len() == tree.nodes@.len(),
            forall|k: int| 0 <= k < r@.len() ==> r@[k] == (#[trigger] tree.nodes@[k]).pos,
    {
        let mut closed_list: Vec<(i64, i64)> = Vec::new();
        let mut i: usize = 0;
        while i < tree.nodes.len()
            invariant
                i <= tree.nodes@.len(),
                closed_list@.len() == i,
                forall|k: int| 0 <= k < i ==> closed_list@[k] == (#[trigger] tree.nodes@[k]).pos,
            decreases tree.nodes.len() - i,
        {
            closed_list.push(tree.nodes[i].pos);
            i += 1;
        }
        closed_list
    }
}

impl Planner for RRTPlanner {
    open spec fn inv(&self) -> bool {
        &&& self.gridmap.wf()
        &&& self.gridmap.spec_in_map(self.start)
        &&& self.gridmap.spec_in_map(self.goal)
        &&& self.start_fp.0 as int == self.start.0 as int * 1000
        &&& self.start_fp.1 as int == self.start.1 as int * 1000
        &&& self.goal_fp.0 as int == self.goal.0 as int * 1000
        &&& self.goal_fp.1 as int == self.goal.1 as int * 1000
        &&& 1 <= self.expand_dist <= 1000000000
        &&& 1 <= self.path_resolution <= 1000000000
    }

    open spec fn grid_of(&self) -> Gridmap {
        self.gridmap
    }

    open spec fn start_of(&self) -> (u32, u32) {
        self.start
    }

    open spec fn goal_of(&self) -> (u32, u32) {
        self.goal
    }

    open spec fn fresh_defaults(&self) -> bool {
        &&& self.max_iter == 500
        &&& self.goal_sample_rate == 5
        &&& self.expand_dist == 2000
        &&& self.path_resolution == 1000
    }

    open spec fn plan_ok(&self, plan: &MotionPlan) -> bool {
        &&& plan.path@.len() == 0
        &&& plan.closed_list@.len() == 0
        &&& plan.closed_list_fp@.len() >= 1
        &&& plan.closed_list_fp@.len() <= self.max_iter + 1
        &&& plan.closed_list_fp@[0] == self.start_fp
        &&& forall|k: int|
            1 <= k < plan.closed_list_fp@.len() ==> self.gridmap.spec_traversable_fp_xy(
                (#[trigger] plan.closed_list_fp@[k]).0 as int,
                plan.closed_list_fp@[k].1 as int,
                INSCRIBED_INFLATED_OBSTACLE,
            )
        &&& (plan.path_fp@.len() > 0 ==> plan.path_fp@.len() >= 2 && plan.path_fp@[0]
            == self.start_fp && plan.path_fp@[plan.path_fp@.len() - 1] == self.goal_fp && (forall|
            k: int,
        |
            1 <= k < plan.path_fp@.len() - 1 ==> self.gridmap.spec_traversable_fp_xy(
                (#[trigger] plan.path_fp@[k]).0 as int,
                plan.path_fp@[k].1 as int,
                INSCRIBED_INFLATED_OBSTACLE,
            )))
        // under full goal bias the run is deterministic: with at least one
        // iteration and the goal within one step of the start, a path is
        // found
        &&& ((self.max_iter >= 1 && self.goal_sample_rate >= 100 && l2_sq_fp(
            self.start_fp,
            self.goal_fp,
        ) <= self.expand_dist * self.expand_dist) ==> plan.path_fp@.len() >= 2)
    }

    fn new(gridmap: &Gridmap) -> (r: RRTPlanner) {
        RRTPlanner {
            start: (0, 0),
            goal: (0, 0),
            gridmap: gridmap.clone(),
            start_fp: (0, 0),
            goal_fp: (0, 0),
            max_iter: 500,
            goal_sample_rate: 5,
            expand_dist: 2000,
            path_resolution: 1000,
        }
    }

    fn generate_plan(&self) -> (r: MotionPlan) {
        let ghost gm = self.gridmap;
        let mut path_fp: Vec<(i64, i64)> = Vec::new();
        let mut found = false;

        let mut tree = Tree::new();
        let root = Node2D::new(self.start_fp);
        tree.add_node(&root, None);
        proof {
            assert(self.start_fp.0 as int <= 4294967295000 && self.start_fp.1 as int
                <= 4294967295000);
        }

        let ghost special = self.max_iter >= 1 && self.goal_sample_rate >= 100 && l2_sq_fp(
            self.start_fp,
            self.goal_fp,
        ) <= self.expand_dist * self.expand_dist;
        let mut i: usize = 0;
        while i < self.max_iter
            invariant_except_break
                tree.nodes@.len() <= i + 1,
                i == 0 ==> tree.nodes@.len() == 1,
            invariant
                self.inv(),
                gm == self.gridmap,
                tree.wf(),
                tree.nodes@.len() >= 1,
                i <= self.max_iter,
                special == (self.max_iter >= 1 && self.goal_sample_rate >= 100 && l2_sq_fp(
                    self.start_fp,
                    self.goal_fp,
                ) <= self.expand_dist * self.expand_dist),
                special ==> (found || i == 0),
                tree.parents@[0] is None,
                forall|c: int|
                    1 <= c < tree.parents@.len() ==> (#[trigger] tree.parents@[c]) is Some,
                tree.nodes@[0].pos == self.start_fp,
                forall|c: int|
                    1 <= c < tree.nodes@.len() ==> gm.spec_traversable_fp_xy(
                        (#[trigger] tree.nodes@[c]).pos.0 as int,
                        tree.nodes@[c].pos.1 as int,
                        INSCRIBED_INFLATED_OBSTACLE,
                    ),
                forall|c: int|
                    0 <= c < tree.nodes@.len() ==> -SPAN_LIMIT <= (#[trigger] tree.nodes@[c]).pos.0
                        <= SPAN_LIMIT && -SPAN_LIMIT <= tree.nodes@[c].pos.1 <= SPAN_LIMIT,
                !found ==> path_fp@.len() == 0,
                found ==> (path_fp@.len() >= 2 && path_fp@[0] == self.start_fp
                    && path_fp@[path_fp@.len() - 1] == self.goal_fp && (forall|k: int|
                    1 <= k < path_fp@.len() - 1 ==> gm.spec_traversable_fp_xy(
                        (#[trigger] path_fp@[k]).0 as int,
                        path_fp@[k].1 as int,
                        INSCRIBED_INFLATED_OBSTACLE,
                    ))),
            ensures
                tree.nodes@.len() <= self.max_iter + 1,
                special ==> found,
            decreases self.max_iter - i,
        {
            let v_rand = self.sample();
            proof {
                if v_rand.pos != self.goal_fp {
                    assert(v_rand.pos.0 < gm.spec_width() * 1000 <= 4294967295000);
                }
            }
            let v_nearest_idx = tree.get_nearest_node_idx(&v_rand);
            let v_new = self.steer(tree.get_node(v_nearest_idx), &v_rand);

            if self.gridmap.xy_is_traversable_fp(&v_new.pos, &INSCRIBED_INFLATED_OBSTACLE) {
                proof {
                    gm.lemma_traversable_fp_bounds(
                        v_new.pos.0 as int,
                        v_new.pos.1 as int,
                        INSCRIBED_INFLATED_OBSTACLE,
                    );
                }
                tree.add_node(&v_new, Some(v_nearest_idx));
            }

            let last_idx = tree.nodes.len() - 1;
            let d_goal = get_l2_cost_fp(tree.get_node(last_idx).pos, self.goal_fp);
            proof {
                if special && i == 0 {
                    // every draw yields the goal, the root is the nearest
                    // node, and steering never moves away from the goal, so
                    // the newest node is within one step of it
                    assert(v_rand.pos == self.goal_fp);
                    assert(v_nearest_idx == 0);
                    assert(l2_sq_fp(tree.nodes@[last_idx as int].pos, self.goal_fp) <= (
                    self.expand_dist as int) * (self.expand_dist as int));
                    lemma_isqrt_le_iff(
                        l2_sq_fp(tree.nodes@[last_idx as int].pos, self.goal_fp),
                        d_goal as int,
                        self.expand_dist as int,
                    );
                    assert((self.expand_dist as int) * (self.expand_dist as int) < (
                    self.expand_dist as int + 1) * (self.expand_dist as int + 1))
                        by (nonlinear_arith)
                        requires self.expand_dist >= 1;
                    assert(d_goal <= self.expand_dist);
                }
            }
            if d_goal <= self.expand_dist {
                let (walk, widx) = self.generate_path(&tree);
                path_fp = reverse_points(&walk);
                proof {
                    let n = walk@.len();
                    let ids = widx@;
                    assert(path_fp@[path_fp@.len() - 1] == walk@[0]);
                    // the walk ends at the only parentless node: the root
                    let c_last = ids[n - 2];
                    assert(tree.parents@[c_last] is None);
                    assert(c_last == 0);
                    assert(walk@[n - 1] == tree.nodes@[0].pos);
                    assert(path_fp@[0] == self.start_fp);
                    assert forall|k: int| 1 <= k < path_fp@.len() - 1 implies gm
                        .spec_traversable_fp_xy(
                        (#[trigger] path_fp@[k]).0 as int,
                        path_fp@[k].1 as int,
                        INSCRIBED_INFLATED_OBSTACLE,
                    ) by {
                        let j = n - 1 - k;
                        assert(path_fp@[k] == walk@[j]);
                        let c = ids[j - 1];
                        assert(walk@[j] == tree.nodes@[c].pos);
                        assert(tree.parents@[c] is Some);
                        assert(c >= 1);
                    }
                }
                found = true;
                break ;
            }
            i += 1;
        }

        let closed_list_fp = self.generate_closed_list(&tree);
        proof {
            if special {
                assert(found);
            }
            assert(closed_list_fp@[0] == tree.nodes@[0].pos);
            assert forall|k: int| 1 <= k < closed_list_fp@.len() implies gm.spec_traversable_fp_xy(
                (#[trigger] closed_list_fp@[k]).0 as int,
                closed_list_fp@[k].1 as int,
                INSCRIBED_INFLATED_OBSTACLE,
            ) by {
                assert(closed_list_fp@[k] == tree.nodes@[k].pos);
            }
        }
        MotionPlan::new_fp(path_fp, closed_list_fp)
    }

    fn update_gridmap(&mut self, gridmap: &Gridmap) -> (r: bool) {
        if gridmap.xy_in_map(self.start) && gridmap.xy_in_map(self.goal) {
            self.gridmap = gridmap.clone();
            true
        } else {
            false
        }
    }

    fn update_start(&mut self, start: (u32, u32)) -> (r: bool) {
        if self.gridmap.xy_in_map(start) {
            self.start = start;
            self.start_fp = ((start.0 as i64) * 1000, (start.1 as i64) * 1000);
            true
        } else {
            false
        }
    }

    fn update_goal(&mut self, goal: (u32, u32)) -> (r: bool) {
        if self.gridmap.xy_in_map(goal) {
            self.goal = goal;
            self.goal_fp = ((goal.0 as i64) * 1000, (goal.1 as i64) * 1000);
            true
        } else {
            false
        }
    }
}

} // verus!
