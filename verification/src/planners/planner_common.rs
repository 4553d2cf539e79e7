//! Shared planner building blocks: the motion-plan value type, neighbor
//! expansion, path reconstruction from parent links, and integer cost
//! arithmetic.
//!
//! Costs are Euclidean distances scaled by 100 and truncated to integers,
//! so an orthogonal step costs 100 and a diagonal step costs 141.
//! Continuous-space positions are carried in thousandths of a cell.

use vstd::prelude::*;
use crate::maps::gridmap::Gridmap;
use crate::maps::gridmap::INSCRIBED_INFLATED_OBSTACLE;

verus! {

broadcast use vstd::seq_lib::lemma_seq_contains_after_push;

/// Contains the path from start to goal and the list of visited cells.
/// Discrete planners fill `path` and `closed_list`; the sampling planner
/// fills the fixed-point fields `path_fp` and `closed_list_fp`, whose
/// coordinates are in thousandths of a cell.
pub struct MotionPlan {
    pub path: Vec<(u32, u32)>,
    pub path_fp: Vec<(i64, i64)>,
    pub closed_list: Vec<(u32, u32)>,
    pub closed_list_fp: Vec<(i64, i64)>,
}

impl MotionPlan {
    /// A plan produced by a discrete planner.
    pub fn new(path: Vec<(u32, u32)>, closed_list: Vec<(u32, u32)>) -> (r: MotionPlan)
        ensures
            r.path == path,
            r.closed_list == closed_list,
            r.path_fp@.len() == 0,
            r.closed_list_fp@.len() == 0,
    {
        MotionPlan { path, path_fp: Vec::new(), closed_list, closed_list_fp: Vec::new() }
    }

    /// A plan produced by the sampling planner, in fixed-point coordinates.
    pub fn new_fp(path_fp: Vec<(i64, i64)>, closed_list_fp: Vec<(i64, i64)>) -> (r: MotionPlan)
        ensures
            r.path_fp == path_fp,
            r.closed_list_fp == closed_list_fp,
            r.path@.len() == 0,
            r.closed_list@.len() == 0,
    {
        MotionPlan { path: Vec::new(), path_fp, closed_list: Vec::new(), closed_list_fp }
    }
}

/// Two cells are 8-connected: they differ by at most one in each axis and
/// are not the same cell.
pub open spec fn adjacent8(a: (u32, u32), b: (u32, u32)) -> bool {
    let dx = a.0 as int - b.0 as int;
    let dy = a.1 as int - b.1 as int;
    -1 <= dx <= 1 && -1 <= dy <= 1 && !(dx == 0 && dy == 0)
}

/// Two cells are 4-connected: 8-connected and aligned on one axis.
pub open spec fn adjacent4(a: (u32, u32), b: (u32, u32)) -> bool {
    adjacent8(a, b) && (a.0 == b.0 || a.1 == b.1)
}

/// A start-to-goal sequence of cells: consecutive cells are 8-connected,
/// every cell after the start is traversable at the default ceiling, and the
/// start lies within the map.
pub open spec fn is_path_seq(
    g: Gridmap,
    s: Seq<(u32, u32)>,
    start: (u32, u32),
    goal: (u32, u32),
) -> bool {
    &&& s.len() >= 1
    &&& s[0] == start
    &&& s[s.len() - 1] == goal
    &&& g.spec_in_map(start)
    &&& forall|k: int| 0 <= k < s.len() - 1 ==> adjacent8(#[trigger] s[k], s[k + 1])
    &&& forall|k: int|
        1 <= k < s.len() ==> g.spec_traversable(#[trigger] s[k], INSCRIBED_INFLATED_OBSTACLE)
}

/// The goal can be reached from the start through 8-connected traversable
/// cells.
pub open spec fn reachable8(g: Gridmap, start: (u32, u32), goal: (u32, u32)) -> bool {
    exists|s: Seq<(u32, u32)>| is_path_seq(g, s, start, goal)
}

/// What a discrete planner promises of its motion plan.
///
/// The path is non-empty exactly when the goal is reachable; a non-empty
/// path is a valid start-to-goal cell sequence; the closed list holds
/// in-map, reachable cells without repetition; and when no path exists the
/// closed list is exactly the set of cells reachable from the start.
pub open spec fn plan_valid(
    g: Gridmap,
    start: (u32, u32),
    goal: (u32, u32),
    plan: MotionPlan,
) -> bool {
    &&& (plan.path@.len() == 0 <==> !reachable8(g, start, goal))
    &&& (plan.path@.len() > 0 ==> is_path_seq(g, plan.path@, start, goal))
    &&& plan.closed_list@.no_duplicates()
    &&& forall|k: int|
        0 <= k < plan.closed_list@.len() ==> g.spec_in_map(#[trigger] plan.closed_list@[k])
    &&& forall|k: int|
        0 <= k < plan.closed_list@.len() ==> reachable8(g, start, #[trigger] plan.closed_list@[k])
    &&& (plan.path@.len() == 0 ==> forall|c: (u32, u32)|
        reachable8(g, start, c) ==> plan.closed_list@.contains(c))
}

/// Law: whenever a discrete planner returns a non-empty path, that path
/// starts at the start cell and ends at the goal cell.
pub proof fn lemma_plan_path_endpoints(
    g: Gridmap,
    start: (u32, u32),
    goal: (u32, u32),
    plan: MotionPlan,
)
    requires
        plan_valid(g, start, goal, plan),
        plan.path@.len() > 0,
    ensures
        plan.path@[0] == start,
        plan.path@[plan.path@.len() - 1] == goal,
{
}

/// Law: a discrete planner's closed list holds each expanded cell at most
/// once.
pub proof fn lemma_closed_list_unique(
    g: Gridmap,
    start: (u32, u32),
    goal: (u32, u32),
    plan: MotionPlan,
)
    requires
        plan_valid(g, start, goal, plan),
    ensures
        plan.closed_list@.no_duplicates(),
{
}

/// Law: any two valid plans for the same grid, start and goal — whichever
/// planner variants produced them — agree on whether a path exists.
pub proof fn lemma_plans_agree_on_existence(
    g: Gridmap,
    start: (u32, u32),
    goal: (u32, u32),
    p1: MotionPlan,
    p2: MotionPlan,
)
    requires
        plan_valid(g, start, goal, p1),
        plan_valid(g, start, goal, p2),
    ensures
        p1.path@.len() == 0 <==> p2.path@.len() == 0,
{
}

/// Floor of the square root: `r * r <= n < (r + 1) * (r + 1)`.
pub open spec fn is_isqrt(n: int, r: int) -> bool {
    r >= 0 && r * r <= n && n < (r + 1) * (r + 1)
}

/// The floor square root is unique.
pub proof fn lemma_isqrt_unique(n: int, a: int, b: int)
    requires
        is_isqrt(n, a),
        is_isqrt(n, b),
    ensures
        a == b,
{
    assert(a == b) by (nonlinear_arith)
        requires
            a >= 0,
            b >= 0,
            a * a <= n,
            n < (a + 1) * (a + 1),
            b * b <= n,
            n < (b + 1) * (b + 1),
    ;
}

/// Floor square root of a 128-bit integer below 2^100, by binary search.
fn isqrt_u128(n: u128) -> (r: u64)
    requires
        (n as int) < 0x10000000000000000000000000,
    ensures
        is_isqrt(n as int, r as int),
        r <= 0x4000000000000,
{
    let mut lo: u64 = 0;
    let mut hi: u64 = 0x4000000000000;
    proof {
        assert((0x4000000000000 as int) * 0x4000000000000 == 0x10000000000000000000000000)
            by (nonlinear_arith);
    }
    while lo + 1 < hi
        invariant
            lo < hi,
            hi <= 0x4000000000000,
            (lo as int) * (lo as int) <= n as int,
            (n as int) < (hi as int) * (hi as int),
        decreases hi - lo,
    {
        let mid: u64 = lo + (hi - lo) / 2;
        assert(lo < mid < hi);
        proof {
            assert((mid as int) * (mid as int) <= 0x10000000000000000000000000)
                by (nonlinear_arith)
                requires mid <= 0x4000000000000;
        }
        let sq: u128 = (mid as u128) * (mid as u128);
        if sq <= n {
            lo = mid;
        } else {
            hi = mid;
        }
    }
    proof {
        assert(hi == lo + 1);
    }
    lo
}

/// Every non-negative integer has a floor square root.
pub proof fn lemma_isqrt_exists(n: int)
    requires
        n >= 0,
    ensures
        exists|r: int| #[trigger] is_isqrt(n, r),
    decreases n,
{
    if n == 0 {
        assert(is_isqrt(0, 0));
    } else {
        lemma_isqrt_exists(n - 1);
        let r0 = choose|r: int| #[trigger] is_isqrt(n - 1, r);
        if (r0 + 1) * (r0 + 1) <= n {
            assert(n < (r0 + 2) * (r0 + 2)) by (nonlinear_arith)
                requires
                    r0 >= 0,
                    n - 1 < (r0 + 1) * (r0 + 1),
            ;
            assert(is_isqrt(n, r0 + 1));
        } else {
            assert(is_isqrt(n, r0));
        }
    }
}

/// The scaled Euclidean cost between two cells, as a function: the floor
/// square root of `l2_sq`. [`get_l2_cost`] computes exactly this value.
pub open spec fn l2_cost_spec(pos_1: (u32, u32), pos_2: (u32, u32)) -> int {
    choose|r: int| #[trigger] is_isqrt(l2_sq(pos_1, pos_2), r)
}

/// `l2_cost_spec` satisfies the floor-square-root characterization, and is
/// therefore non-negative.
pub proof fn lemma_l2_cost_spec_is(pos_1: (u32, u32), pos_2: (u32, u32))
    ensures
        is_isqrt(l2_sq(pos_1, pos_2), l2_cost_spec(pos_1, pos_2)),
        l2_cost_spec(pos_1, pos_2) >= 0,
{
    let dx = pos_1.0 as int - pos_2.0 as int;
    let dy = pos_1.1 as int - pos_2.1 as int;
    assert(10000 * (dx * dx + dy * dy) >= 0) by (nonlinear_arith);
    lemma_isqrt_exists(l2_sq(pos_1, pos_2));
}

/// Any floor square root of `l2_sq` is `l2_cost_spec`.
pub proof fn lemma_l2_cost_spec_unique(pos_1: (u32, u32), pos_2: (u32, u32), r: int)
    requires
        is_isqrt(l2_sq(pos_1, pos_2), r),
    ensures
        r == l2_cost_spec(pos_1, pos_2),
{
    lemma_l2_cost_spec_is(pos_1, pos_2);
    lemma_isqrt_unique(l2_sq(pos_1, pos_2), r, l2_cost_spec(pos_1, pos_2));
}

/// The cost of the first `k` edges of a cell sequence.
pub open spec fn prefix_cost(s: Seq<(u32, u32)>, k: int) -> int
    decreases k,
{
    if k <= 0 {
        0
    } else {
        prefix_cost(s, k - 1) + l2_cost_spec(s[k - 1], s[k])
    }
}

/// The cost of a cell path: the sum of the scaled Euclidean costs of its
/// edges.
pub open spec fn path_cost(s: Seq<(u32, u32)>) -> int {
    prefix_cost(s, s.len() - 1)
}

/// The scaled squared Euclidean distance between two cells:
/// `10000 * (dx * dx + dy * dy)`.
pub open spec fn l2_sq(pos_1: (u32, u32), pos_2: (u32, u32)) -> int {
    let dx = pos_1.0 as int - pos_2.0 as int;
    let dy = pos_1.1 as int - pos_2.1 as int;
    10000 * (dx * dx + dy * dy)
}

/// Squares of absolute differences below 2^32 stay below 2^64, and their
/// scaled sum matches `l2_sq` and stays below 2^100.
proof fn lemma_l2_sq_bounds(dxi: int, dyi: int, dx: int, dy: int)
    requires
        dx == (if dxi >= 0 { dxi } else { -dxi }),
        dy == (if dyi >= 0 { dyi } else { -dyi }),
        dx < 0x100000000,
        dy < 0x100000000,
    ensures
        dx * dx == dxi * dxi,
        dy * dy == dyi * dyi,
        0 <= dx * dx < 0x10000000000000000,
        0 <= dy * dy < 0x10000000000000000,
        10000 * (dx * dx + dy * dy) < 0x10000000000000000000000000,
{
    assert(dx * dx == dxi * dxi && dy * dy == dyi * dyi) by (nonlinear_arith)
        requires
            dx == (if dxi >= 0 { dxi } else { -dxi }),
            dy == (if dyi >= 0 { dyi } else { -dyi }),
    ;
    assert(0 <= dx * dx < 0x10000000000000000 && 0 <= dy * dy < 0x10000000000000000 && 10000 * (dx
        * dx + dy * dy) < 0x10000000000000000000000000) by (nonlinear_arith)
        requires
            0 <= dx < 0x100000000,
            0 <= dy < 0x100000000,
    ;
}

/// Get the Euclidean (L2) distance between two cells, scaled by 100 and
/// truncated, giving two decimal places of precision in integer arithmetic.
/// The result `r` is the floor square root of `10000 * (dx^2 + dy^2)`.
pub fn get_l2_cost(pos_1: (u32, u32), pos_2: (u32, u32)) -> (r: u64)
    ensures
        is_isqrt(l2_sq(pos_1, pos_2), r as int),
        r <= 0x4000000000000,
{
    let dx: u64 = if pos_1.0 >= pos_2.0 {
        (pos_1.0 - pos_2.0) as u64
    } else {
        (pos_2.0 - pos_1.0) as u64
    };
    let dy: u64 = if pos_1.1 >= pos_2.1 {
        (pos_1.1 - pos_2.1) as u64
    } else {
        (pos_2.1 - pos_1.1) as u64
    };
    proof {
        lemma_l2_sq_bounds(
            pos_1.0 as int - pos_2.0 as int,
            pos_1.1 as int - pos_2.1 as int,
            dx as int,
            dy as int,
        );
    }
    let n: u128 = 10000u128 * ((dx as u128) * (dx as u128) + (dy as u128) * (dy as u128));
    isqrt_u128(n)
}

/// An edge between 8-connected cells costs at most 141.
pub proof fn lemma_adjacent_cost_le_141(pos_1: (u32, u32), pos_2: (u32, u32), r: int)
    requires
        adjacent8(pos_1, pos_2),
        is_isqrt(l2_sq(pos_1, pos_2), r),
    ensures
        r <= 141,
{
    let dx = pos_1.0 as int - pos_2.0 as int;
    let dy = pos_1.1 as int - pos_2.1 as int;
    assert(l2_sq(pos_1, pos_2) == 10000 * (dx * dx + dy * dy));
    assert(10000 * (dx * dx + dy * dy) <= 20000) by (nonlinear_arith)
        requires
            -1 <= dx <= 1,
            -1 <= dy <= 1,
    ;
    if r >= 142 {
        assert(r * r >= 142 * 142) by (nonlinear_arith)
            requires r >= 142;
    }
}

/// Whether a vector of cells contains the given cell.
fn contains_cell(v: &Vec<(u32, u32)>, c: (u32, u32)) -> (r: bool)
    ensures
        r == v@.contains(c),
{
    let mut j: usize = 0;
    while j < v.len()
        invariant
            j <= v@.len(),
            forall|k: int| 0 <= k < j ==> v@[k] != c,
        decreases v.len() - j,
    {
        if v[j].0 == c.0 && v[j].1 == c.1 {
            return true;
        }
        j += 1;
    }
    false
}

/// Keep the candidate cells that are traversable at the default ceiling,
/// in order and without duplicates.
fn filter_traversable(cands: &Vec<(u32, u32)>, gridmap: &Gridmap, pos: (u32, u32)) -> (r: Vec<
    (u32, u32),
>)
    requires
        gridmap.wf(),
        forall|k: int| 0 <= k < cands@.len() ==> adjacent8(pos, #[trigger] cands@[k]),
    ensures
        forall|nb: (u32, u32)|
            r@.contains(nb) <==> (cands@.contains(nb) && gridmap.spec_traversable(
                nb,
                INSCRIBED_INFLATED_OBSTACLE,
            )),
        r@.no_duplicates(),
        forall|k: int| 0 <= k < r@.len() ==> adjacent8(pos, #[trigger] r@[k]),
{
    let mut out: Vec<(u32, u32)> = Vec::new();
    let mut i: usize = 0;
    while i < cands.len()
        invariant
            i <= cands@.len(),
            gridmap.wf(),
            forall|k: int| 0 <= k < cands@.len() ==> adjacent8(pos, #[trigger] cands@[k]),
            forall|nb: (u32, u32)|
                out@.contains(nb) <==> (exists|k: int|
                    0 <= k < i && #[trigger] cands@[k] == nb && gridmap.spec_traversable(
                        nb,
                        INSCRIBED_INFLATED_OBSTACLE,
                    )),
            out@.no_duplicates(),
            forall|k: int| 0 <= k < out@.len() ==> adjacent8(pos, #[trigger] out@[k]),
        decreases cands.len() - i,
    {
        let c = cands[i];
        if gridmap.xy_is_traversable(&c, &INSCRIBED_INFLATED_OBSTACLE) && !contains_cell(&out, c) {
            let ghost old_out = out@;
            out.push(c);
            proof {
                assert forall|a: int, b: int|
                    0 <= a < out@.len() && 0 <= b < out@.len() && a != b implies out@[a]
                    != out@[b] by {
                    if a < out@.len() - 1 && b < out@.len() - 1 {
                        assert(old_out[a] != old_out[b]);
                    } else if a == out@.len() - 1 {
                        assert(out@[b] == old_out[b]);
                        assert(old_out.contains(old_out[b]));
                    } else {
                        assert(out@[a] == old_out[a]);
                        assert(old_out.contains(old_out[a]));
                    }
                }
            }
        }
        proof {
            assert forall|nb: (u32, u32)|
                out@.contains(nb) <==> (exists|k: int|
                    0 <= k < i + 1 && #[trigger] cands@[k] == nb && gridmap.spec_traversable(
                        nb,
                        INSCRIBED_INFLATED_OBSTACLE,
                    )) by {
                if out@.contains(nb) {
                    if exists|k: int|
                        0 <= k < i && #[trigger] cands@[k] == nb && gridmap.spec_traversable(
                            nb,
                            INSCRIBED_INFLATED_OBSTACLE,
                        ) {
                        let k = choose|k: int|
                            0 <= k < i && #[trigger] cands@[k] == nb && gridmap.spec_traversable(
                                nb,
                                INSCRIBED_INFLATED_OBSTACLE,
                            );
                        assert(cands@[k] == nb);
                    } else {
                        assert(nb == cands@[i as int]);
                    }
                }
                if exists|k: int|
                    0 <= k < i + 1 && #[trigger] cands@[k] == nb && gridmap.spec_traversable(
                        nb,
                        INSCRIBED_INFLATED_OBSTACLE,
                    ) {
                    let k = choose|k: int|
                        0 <= k < i + 1 && #[trigger] cands@[k] == nb && gridmap.spec_traversable(
                            nb,
                            INSCRIBED_INFLATED_OBSTACLE,
                        );
                }
            }
        }
        i += 1;
    }
    proof {
        assert forall|nb: (u32, u32)|
            out@.contains(nb) <==> (cands@.contains(nb) && gridmap.spec_traversable(
                nb,
                INSCRIBED_INFLATED_OBSTACLE,
            )) by {
            if cands@.contains(nb) && gridmap.spec_traversable(nb, INSCRIBED_INFLATED_OBSTACLE) {
                let k = choose|k: int| 0 <= k < cands@.len() && cands@[k] == nb;
                assert(cands@[k] == nb);
            }
            if out@.contains(nb) {
                let k = choose|k: int|
                    0 <= k < i && #[trigger] cands@[k] == nb && gridmap.spec_traversable(
                        nb,
                        INSCRIBED_INFLATED_OBSTACLE,
                    );
                assert(cands@.contains(nb));
            }
        }
    }
    out
}

/// Get the 4-way connected neighbors (up, down, left and right) of a cell
/// that are traversable at the default ceiling. Exactly the traversable
/// 4-connected cells appear, each once.
pub fn get_neighbors_4_con(pos: (u32, u32), gridmap: &Gridmap) -> (r: Vec<(u32, u32)>)
    requires
        gridmap.wf(),
    ensures
        forall|nb: (u32, u32)|
            r@.contains(nb) <==> (adjacent4(pos, nb) && gridmap.spec_traversable(
                nb,
                INSCRIBED_INFLATED_OBSTACLE,
            )),
        r@.no_duplicates(),
{
    let x = pos.0;
    let y = pos.1;
    let mut cands: Vec<(u32, u32)> = Vec::new();
    if x > 0 {
        cands.push((x - 1, y));
    }
    if x < u32::MAX {
        cands.push((x + 1, y));
    }
    if y > 0 {
        cands.push((x, y - 1));
    }
    if y < u32::MAX {
        cands.push((x, y + 1));
    }
    proof {
        assert forall|nb: (u32, u32)| adjacent4(pos, nb) implies cands@.contains(nb) by {
            let dx = nb.0 as int - x as int;
            let dy = nb.1 as int - y as int;
            if dx == -1 {
                assert(nb == ((x - 1) as u32, y));
            } else if dx == 1 {
                assert(nb == ((x + 1) as u32, y));
            } else if dy == -1 {
                assert(nb == (x, (y - 1) as u32));
            } else {
                assert(nb == (x, (y + 1) as u32));
            }
        }
    }
    let out = filter_traversable(&cands, gridmap, pos);
    proof {
        assert forall|nb: (u32, u32)|
            out@.contains(nb) <==> (adjacent4(pos, nb) && gridmap.spec_traversable(
                nb,
                INSCRIBED_INFLATED_OBSTACLE,
            )) by {
            if out@.contains(nb) {
                assert(cands@.contains(nb));
                let k = choose|k: int| 0 <= k < cands@.len() && cands@[k] == nb;
            }
        }
    }
    out
}

/// Get the 8-way connected neighbors (4-way plus diagonals) of a cell that
/// are traversable at the default ceiling. Exactly the traversable
/// 8-connected cells appear, each once.
pub fn get_neighbors_8_con(pos: (u32, u32), gridmap: &Gridmap) -> (r: Vec<(u32, u32)>)
    requires
        gridmap.wf(),
    ensures
        forall|nb: (u32, u32)|
            r@.contains(nb) <==> (adjacent8(pos, nb) && gridmap.spec_traversable(
                nb,
                INSCRIBED_INFLATED_OBSTACLE,
            )),
        r@.no_duplicates(),
{
    let x = pos.0;
    let y = pos.1;
    let x_nz = x > 0;
    let y_nz = y > 0;
    let x_nm = x < u32::MAX;
    let y_nm = y < u32::MAX;
    let mut cands: Vec<(u32, u32)> = Vec::new();
    if x_nz {
        cands.push((x - 1, y));
    }
    if x_nz && y_nz {
        cands.push((x - 1, y - 1));
    }
    if x_nm {
        cands.push((x + 1, y));
    }
    if x_nm && y_nm {
        cands.push((x + 1, y + 1));
    }
    if y_nz {
        cands.push((x, y - 1));
    }
    if x_nm && y_nz {
        cands.push((x + 1, y - 1));
    }
    if y_nm {
        cands.push((x, y + 1));
    }
    if x_nz && y_nm {
        cands.push((x - 1, y + 1));
    }
    proof {
        assert forall|nb: (u32, u32)| adjacent8(pos, nb) implies cands@.contains(nb) by {
            let dx = nb.0 as int - x as int;
            let dy = nb.1 as int - y as int;
            if dx == -1 && dy == 0 {
                assert(nb == ((x - 1) as u32, y));
            } else if dx == -1 && dy == -1 {
                assert(nb == ((x - 1) as u32, (y - 1) as u32));
            } else if dx == 1 && dy == 0 {
                assert(nb == ((x + 1) as u32, y));
            } else if dx == 1 && dy == 1 {
                assert(nb == ((x + 1) as u32, (y + 1) as u32));
            } else if dx == 0 && dy == -1 {
                assert(nb == (x, (y - 1) as u32));
            } else if dx == 1 && dy == -1 {
                assert(nb == ((x + 1) as u32, (y - 1) as u32));
            } else if dx == 0 && dy == 1 {
                assert(nb == (x, (y + 1) as u32));
            } else {
                assert(dx == -1 && dy == 1);
                assert(nb == ((x - 1) as u32, (y + 1) as u32));
            }
        }
    }
    let out = filter_traversable(&cands, gridmap, pos);
    proof {
        assert forall|nb: (u32, u32)|
            out@.contains(nb) <==> (adjacent8(pos, nb) && gridmap.spec_traversable(
                nb,
                INSCRIBED_INFLATED_OBSTACLE,
            )) by {
            if out@.contains(nb) {
                assert(cands@.contains(nb));
                let k = choose|k: int| 0 <= k < cands@.len() && cands@[k] == nb;
            }
        }
    }
    out
}

/// Parent links form a well-founded forest: every link stays within the
/// arena and strictly decreases the given rank.
pub open spec fn chain_wf(parents: Seq<Option<u32>>, rank: Map<int, nat>) -> bool {
    forall|i: int|
        0 <= i < parents.len() && (#[trigger] parents[i]) is Some ==> 0 <= parents[i]->0
            < parents.len() && rank[parents[i]->0 as int] < rank[i]
}

/// Reconstruct a path by walking parent links from the goal cell until a
/// cell without a parent is reached. The result starts at the goal, each
/// cell's parent entry names the next cell, and the final cell has no
/// parent entry.
///
/// The parent arena is indexed by row-major cell index; a cell's entry
/// holds the index of its parent, or nothing at a root.
pub fn trace_path(goal_cell: &(u32, u32), parents: &Vec<Option<u32>>, gridmap: &Gridmap) -> (r: Vec<
    (u32, u32),
>)
    requires
        gridmap.wf(),
        parents@.len() == gridmap.spec_width() * gridmap.spec_height(),
        gridmap.spec_in_map(*goal_cell),
        exists|rank: Map<int, nat>| chain_wf(parents@, rank),
    ensures
        r@.len() >= 1,
        r@[0] == *goal_cell,
        forall|k: int| 0 <= k < r@.len() ==> gridmap.spec_in_map(#[trigger] r@[k]),
        forall|k: int|
            0 <= k < r@.len() - 1 ==> (parents@[gridmap.spec_idx(#[trigger] r@[k])] is Some
                && parents@[gridmap.spec_idx(r@[k])]->0 == gridmap.spec_idx(r@[k + 1])),
        parents@[gridmap.spec_idx(r@[r@.len() - 1])] is None,
{
    let ghost rank = choose|rank: Map<int, nat>| chain_wf(parents@, rank);
    let mut path: Vec<(u32, u32)> = Vec::new();
    let mut cur: (u32, u32) = *goal_cell;
    path.push(cur);
    loop
        invariant
            gridmap.wf(),
            parents@.len() == gridmap.spec_width() * gridmap.spec_height(),
            chain_wf(parents@, rank),
            path@.len() >= 1,
            path@[0] == *goal_cell,
            path@[path@.len() - 1] == cur,
            gridmap.spec_in_map(cur),
            forall|k: int| 0 <= k < path@.len() ==> gridmap.spec_in_map(#[trigger] path@[k]),
            forall|k: int|
                0 <= k < path@.len() - 1 ==> (parents@[gridmap.spec_idx(#[trigger] path@[k])]
                    is Some && parents@[gridmap.spec_idx(path@[k])]->0 == gridmap.spec_idx(
                    path@[k + 1],
                )),
        ensures
            path@.len() >= 1,
            path@[0] == *goal_cell,
            path@[path@.len() - 1] == cur,
            forall|k: int| 0 <= k < path@.len() ==> gridmap.spec_in_map(#[trigger] path@[k]),
            forall|k: int|
                0 <= k < path@.len() - 1 ==> (parents@[gridmap.spec_idx(#[trigger] path@[k])]
                    is Some && parents@[gridmap.spec_idx(path@[k])]->0 == gridmap.spec_idx(
                    path@[k + 1],
                )),
            gridmap.spec_in_map(cur),
            parents@[gridmap.spec_idx(cur)] is None,
        decreases rank[gridmap.spec_idx(cur)],
    {
        let ci = gridmap.xy_to_idx(cur);
        match parents[ci] {
            Some(p) => {
                proof {
                    assert(parents@[ci as int] is Some);
                    gridmap.lemma_idx_cell_of(p as int);
                }
                let pc = gridmap.idx_to_xy(p);
                proof {
                    assert(pc == gridmap.spec_cell_of(p as int));
                    assert(gridmap.spec_idx(pc) == p as int);
                }
                cur = pc;
                path.push(cur);
            },
            None => {
                break ;
            },
        }
    }
    path
}

/// A bound on the fixed-point coordinates this crate computes with: large
/// enough for any cell of a grid (at most 2^32 cells per axis, a thousand
/// fixed-point units per cell), small enough that squared distances fit
/// comfortably in 128-bit arithmetic.
pub const POS_LIMIT: i64 = 0x400000000000;

/// The squared Euclidean distance between two fixed-point points.
pub open spec fn l2_sq_fp(pos_1: (i64, i64), pos_2: (i64, i64)) -> int {
    let dx = pos_1.0 as int - pos_2.0 as int;
    let dy = pos_1.1 as int - pos_2.1 as int;
    dx * dx + dy * dy
}

/// The floor square root dominates every number whose square is below the
/// radicand.
pub proof fn lemma_isqrt_ge(n: int, r: int, a: int)
    requires
        is_isqrt(n, r),
        a >= 0,
        a * a <= n,
    ensures
        r >= a,
{
    if r < a {
        assert((r + 1) * (r + 1) <= a * a) by (nonlinear_arith)
            requires
                0 <= r,
                r < a,
        ;
    }
}

/// Get the Euclidean (L2) distance between two fixed-point points, in
/// fixed-point units: the floor square root of the squared distance.
pub fn get_l2_cost_fp(pos_1: (i64, i64), pos_2: (i64, i64)) -> (r: i64)
    requires
        -POS_LIMIT <= pos_1.0 <= POS_LIMIT,
        -POS_LIMIT <= pos_1.1 <= POS_LIMIT,
        -POS_LIMIT <= pos_2.0 <= POS_LIMIT,
        -POS_LIMIT <= pos_2.1 <= POS_LIMIT,
    ensures
        is_isqrt(l2_sq_fp(pos_1, pos_2), r as int),
        0 <= r <= 4 * POS_LIMIT,
{
    let dx: i64 = if pos_1.0 >= pos_2.0 {
        pos_1.0 - pos_2.0
    } else {
        pos_2.0 - pos_1.0
    };
    let dy: i64 = if pos_1.1 >= pos_2.1 {
        pos_1.1 - pos_2.1
    } else {
        pos_2.1 - pos_1.1
    };
    proof {
        let dxi = pos_1.0 as int - pos_2.0 as int;
        let dyi = pos_1.1 as int - pos_2.1 as int;
        assert((dx as int) * (dx as int) == dxi * dxi && (dy as int) * (dy as int) == dyi * dyi
            && (dx as int) * (dx as int) + (dy as int) * (dy as int)
            < 0x10000000000000000000000000) by (nonlinear_arith)
            requires
                dx as int == (if dxi >= 0 { dxi } else { -dxi }),
                dy as int == (if dyi >= 0 { dyi } else { -dyi }),
                0 <= dx <= 2 * POS_LIMIT,
                0 <= dy <= 2 * POS_LIMIT,
        ;
    }
    let n: u128 = (dx as u128) * (dx as u128) + (dy as u128) * (dy as u128);
    let r = isqrt_u128(n);
    proof {
        let m = 4 * POS_LIMIT as int;
        assert((dx as int) * (dx as int) + (dy as int) * (dy as int) < m * m)
            by (nonlinear_arith)
            requires
                0 <= dx <= 0x800000000000,
                0 <= dy <= 0x800000000000,
                m == 0x1000000000000,
        ;
        assert((n as int) < m * m);
        if r as int > m {
            assert((r as int) * (r as int) > m * m) by (nonlinear_arith)
                requires r as int > m >= 0;
        }
    }
    r as i64
}

/// The Euclidean distance between two fixed-point points, as a function:
/// the floor square root of the squared distance. [`get_l2_cost_fp`]
/// computes exactly this value.
pub open spec fn l2_dist_fp(pos_1: (i64, i64), pos_2: (i64, i64)) -> int {
    choose|r: int| #[trigger] is_isqrt(l2_sq_fp(pos_1, pos_2), r)
}

/// `l2_dist_fp` satisfies the floor-square-root characterization, and is
/// therefore non-negative.
pub proof fn lemma_l2_dist_fp_is(pos_1: (i64, i64), pos_2: (i64, i64))
    ensures
        is_isqrt(l2_sq_fp(pos_1, pos_2), l2_dist_fp(pos_1, pos_2)),
        l2_dist_fp(pos_1, pos_2) >= 0,
{
    let dx = pos_1.0 as int - pos_2.0 as int;
    let dy = pos_1.1 as int - pos_2.1 as int;
    assert(dx * dx + dy * dy >= 0) by (nonlinear_arith);
    lemma_isqrt_exists(l2_sq_fp(pos_1, pos_2));
}

/// Any floor square root of the squared distance is `l2_dist_fp`.
pub proof fn lemma_l2_dist_fp_unique(pos_1: (i64, i64), pos_2: (i64, i64), r: int)
    requires
        is_isqrt(l2_sq_fp(pos_1, pos_2), r),
    ensures
        r == l2_dist_fp(pos_1, pos_2),
{
    lemma_l2_dist_fp_is(pos_1, pos_2);
    lemma_isqrt_unique(l2_sq_fp(pos_1, pos_2), r, l2_dist_fp(pos_1, pos_2));
}

/// A floor square root is at most `m` exactly when the radicand is below
/// `(m + 1)^2`.
pub proof fn lemma_isqrt_le_iff(n: int, r: int, m: int)
    requires
        is_isqrt(n, r),
        m >= 0,
    ensures
        r <= m <==> n < (m + 1) * (m + 1),
{
    if r <= m {
        assert((r + 1) * (r + 1) <= (m + 1) * (m + 1)) by (nonlinear_arith)
            requires 0 <= r <= m;
    }
    if n < (m + 1) * (m + 1) && r > m {
        assert((m + 1) * (m + 1) <= r * r) by (nonlinear_arith)
            requires 0 <= m + 1 <= r;
    }
}

/// An edge between 8-connected cells costs at least 100.
pub proof fn lemma_adjacent_cost_ge_100(pos_1: (u32, u32), pos_2: (u32, u32), r: int)
    requires
        adjacent8(pos_1, pos_2),
        is_isqrt(l2_sq(pos_1, pos_2), r),
    ensures
        r >= 100,
{
    let dx = pos_1.0 as int - pos_2.0 as int;
    let dy = pos_1.1 as int - pos_2.1 as int;
    assert(l2_sq(pos_1, pos_2) == 10000 * (dx * dx + dy * dy));
    assert(10000 * (dx * dx + dy * dy) >= 10000) by (nonlinear_arith)
        requires
            -1 <= dx <= 1,
            -1 <= dy <= 1,
            !(dx == 0 && dy == 0),
    ;
    if r <= 99 {
        assert((r + 1) * (r + 1) <= 10000) by (nonlinear_arith)
            requires 0 <= r <= 99;
    }
}

/// A cost returned by [`get_l2_cost`] is below 2^41.
pub proof fn lemma_l2_cost_bound(pos_1: (u32, u32), pos_2: (u32, u32), r: int)
    requires
        is_isqrt(l2_sq(pos_1, pos_2), r),
    ensures
        r < 0x20000000000,
{
    let dx = pos_1.0 as int - pos_2.0 as int;
    let dy = pos_1.1 as int - pos_2.1 as int;
    assert(l2_sq(pos_1, pos_2) == 10000 * (dx * dx + dy * dy));
    assert(10000 * (dx * dx + dy * dy) < 0x400000000000000000000) by (nonlinear_arith)
        requires
            -0x100000000 < dx < 0x100000000,
            -0x100000000 < dy < 0x100000000,
    ;
    if r >= 0x20000000000 {
        assert(r * r >= 0x400000000000000000000) by (nonlinear_arith)
            requires r >= 0x20000000000;
    }
}

} // verus!
