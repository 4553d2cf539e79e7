//! The shared frontier search engine.
//!
//! Breadth-first, depth-first, Dijkstra and A* search share one traversal
//! loop and differ only in how the next frontier entry is chosen and how
//! neighbor costs are accounted. A cell moves from undiscovered to the
//! frontier when first reached (or re-enters it on an improving edge for
//! the cost-aware variants), and from the frontier to the closed set when
//! expanded; a closed cell is never reopened.

use vstd::prelude::*;
use vstd::pervasive::VecAdditionalExecFns;
use vstd::set_lib::set_int_range;
use vstd::set_lib::lemma_int_range;
use vstd::set_lib::lemma_len_subset;
use crate::maps::gridmap::Gridmap;
use crate::maps::gridmap::INSCRIBED_INFLATED_OBSTACLE;
use crate::planners::planner_common::MotionPlan;
use crate::planners::planner_common::adjacent8;
use crate::planners::planner_common::is_path_seq;
use crate::planners::planner_common::reachable8;
use crate::planners::planner_common::plan_valid;
use crate::planners::planner_common::chain_wf;
use crate::planners::planner_common::trace_path;
use crate::planners::planner_common::get_neighbors_8_con;
use crate::planners::planner_common::get_l2_cost;
use crate::planners::planner_common::lemma_adjacent_cost_le_141;
use crate::planners::planner_common::lemma_adjacent_cost_ge_100;
use crate::planners::planner_common::lemma_l2_cost_bound;
use crate::planners::planner_common::l2_cost_spec;
use crate::planners::planner_common::path_cost;
use crate::planners::planner_common::prefix_cost;
use crate::planners::planner_common::lemma_l2_cost_spec_is;
use crate::planners::planner_common::lemma_l2_cost_spec_unique;

verus! {

broadcast use vstd::seq_lib::lemma_seq_contains_after_push, vstd::set::group_set_axioms;

/// The frontier ordering policy (and with it, the cost model) of one
/// discrete planner variant.
#[derive(Clone, Copy)]
pub enum SearchKind {
    /// Oldest first: fewest-edges paths on unweighted grids.
    Bfs,
    /// Newest first: depth-first exploration, no optimality guarantee.
    Dfs,
    /// Smallest accumulated cost first: lowest-cost paths.
    Dijkstra,
    /// Smallest accumulated cost plus straight-line estimate first. The
    /// floored integer estimate can slightly overestimate, so no
    /// optimality is claimed for this variant.
    AStar,
}

/// The cells of `v` in reverse order.
fn reverse_cells(v: &Vec<(u32, u32)>) -> (r: Vec<(u32, u32)>)
    ensures
        r@.len() == v@.len(),
        forall|q: int| 0 <= q < v@.len() ==> r@[q] == v@[v@.len() - 1 - q],
{
    let mut r: Vec<(u32, u32)> = Vec::new();
    let n = v.len();
    let mut m: usize = 0;
    while m < n
        invariant
            m <= n,
            n == v@.len(),
            r@.len() == m,
            forall|q: int| 0 <= q < m ==> r@[q] == v@[n - 1 - q],
        decreases n - m,
    {
        r.push(v[n - 1 - m]);
        m += 1;
    }
    r
}

/// The index of the first entry with the smallest priority.
fn min_prio_index(frontier: &Vec<((u32, u32), u64)>) -> (k: usize)
    requires
        frontier@.len() > 0,
    ensures
        k < frontier@.len(),
        forall|q: int|
            0 <= q < frontier@.len() ==> frontier@[k as int].1 <= (#[trigger] frontier@[q]).1,
        forall|q: int| 0 <= q < k ==> (#[trigger] frontier@[q]).1 > frontier@[k as int].1,
{
    let mut best: usize = 0;
    let mut j: usize = 1;
    while j < frontier.len()
        invariant
            best < j <= frontier@.len(),
            forall|q: int| 0 <= q < j ==> frontier@[best as int].1 <= (#[trigger] frontier@[q]).1,
            forall|q: int| 0 <= q < best ==> (#[trigger] frontier@[q]).1 > frontier@[best as int].1,
        decreases frontier.len() - j,
    {
        if frontier[j].1 < frontier[best].1 {
            best = j;
        }
        j += 1;
    }
    best
}

/// Everything the search loop keeps true of its bookkeeping, except the
/// neighbor-closure property (which is suspended for the cell being
/// expanded); see [`closure_except`].
pub open spec fn search_inv_core(
    g: Gridmap,
    start: (u32, u32),
    goal: (u32, u32),
    parents: Seq<Option<u32>>,
    discovered: Seq<bool>,
    closed_flag: Seq<bool>,
    closed_list: Seq<(u32, u32)>,
    frontier: Seq<((u32, u32), u64)>,
    gcost: Seq<u64>,
    rank: Map<int, nat>,
    closed_set: Set<int>,
    uncovered: int,
) -> bool {
    let wh = g.spec_width() * g.spec_height();
    let sidx = g.spec_idx(start);
    &&& g.wf()
    &&& g.spec_in_map(start)
    &&& g.spec_in_map(goal)
    &&& parents.len() == wh
    &&& discovered.len() == wh
    &&& closed_flag.len() == wh
    &&& gcost.len() == wh
    &&& discovered[sidx]
    &&& gcost[sidx] == 0
    // discovered cells are in the map; all but the start are traversable
    &&& forall|i: int|
        0 <= i < wh && #[trigger] discovered[i] ==> (i == sidx || g.spec_traversable(
            g.spec_cell_of(i),
            INSCRIBED_INFLATED_OBSTACLE,
        ))
    // parent links exist exactly at discovered non-start cells
    &&& forall|i: int|
        0 <= i < wh ==> ((#[trigger] parents[i]) is Some <==> (discovered[i] && i != sidx))
    // each link points at a closed, adjacent cell of smaller rank
    &&& forall|i: int|
        0 <= i < wh && (#[trigger] parents[i]) is Some ==> (0 <= parents[i]->0 < wh && discovered[
            parents[i]->0 as int
        ] && closed_flag[parents[i]->0 as int] && adjacent8(
            g.spec_cell_of(parents[i]->0 as int),
            g.spec_cell_of(i),
        ) && rank[parents[i]->0 as int] < rank[i])
    // closed cells are discovered
    &&& forall|i: int| 0 <= i < wh && (#[trigger] closed_flag[i]) ==> discovered[i]
    // the closed flags, the closed index set and the closed list agree
    &&& forall|i: int| 0 <= i < wh ==> ((#[trigger] closed_flag[i]) <==> closed_set.contains(i))
    &&& closed_set.finite()
    &&& closed_set.subset_of(set_int_range(0, wh))
    &&& closed_set.len() == closed_list.len()
    &&& closed_set.len() <= wh
    &&& forall|k: int|
        0 <= k < closed_list.len() ==> g.spec_in_map(#[trigger] closed_list[k]) && closed_flag[
            g.spec_idx(closed_list[k])
        ]
    &&& forall|i: int|
        0 <= i < wh && (#[trigger] closed_flag[i]) ==> closed_list.contains(g.spec_cell_of(i))
    &&& closed_list.no_duplicates()
    // ranks are bounded by how many cells are closed
    &&& forall|i: int| 0 <= i < wh && (#[trigger] closed_flag[i]) ==> rank[i] < closed_set.len()
    &&& forall|i: int|
        0 <= i < wh && #[trigger] discovered[i] && !closed_flag[i] ==> rank[i] <= closed_set.len()
    // frontier entries carry discovered, in-map cells
    &&& forall|k: int|
        0 <= k < frontier.len() ==> g.spec_in_map((#[trigger] frontier[k]).0) && discovered[
            g.spec_idx(frontier[k].0)
        ]
    // every discovered cell not yet closed has a frontier entry (one cell,
    // the one being expanded, may be exempt)
    &&& forall|i: int|
        0 <= i < wh && #[trigger] discovered[i] && !closed_flag[i] && i != uncovered ==> (exists|
            k: int,
        | 0 <= k < frontier.len() && (#[trigger] frontier[k]).0 == g.spec_cell_of(i))
    // the goal is never closed
    &&& !closed_flag[g.spec_idx(goal)]
    // the cost table marks discovery and is bounded through the ranks
    &&& forall|i: int|
        0 <= i < wh ==> (((#[trigger] gcost[i]) as int) < u64::MAX <==> discovered[i])
    &&& forall|i: int|
        0 <= i < wh && #[trigger] discovered[i] ==> (gcost[i] as int) <= 141 * rank[i]
}

/// Every closed cell other than `except` has all its traversable
/// 8-connected neighbors discovered.
pub open spec fn closure_except(
    g: Gridmap,
    discovered: Seq<bool>,
    closed_flag: Seq<bool>,
    except: int,
) -> bool {
    forall|i: int, nb: (u32, u32)|
        0 <= i < closed_flag.len() && (#[trigger] closed_flag[i]) && i != except && adjacent8(
            g.spec_cell_of(i),
            nb,
        ) && #[trigger] g.spec_traversable(nb, INSCRIBED_INFLATED_OBSTACLE) ==> discovered[
            g.spec_idx(nb)
        ]
}


/// The extra bookkeeping a Dijkstra search keeps true, on top of
/// [`search_inv_core`]: frontier priorities are cost values, closed cells
/// carry path-optimal costs, and every link's cost is its parent's cost
/// plus the edge. One open cell (the one being expanded) may lack its
/// exact-priority frontier entry.
pub open spec fn dij_inv(
    g: Gridmap,
    start: (u32, u32),
    parents: Seq<Option<u32>>,
    discovered: Seq<bool>,
    closed_flag: Seq<bool>,
    frontier: Seq<((u32, u32), u64)>,
    gcost: Seq<u64>,
    uncovered: int,
) -> bool {
    let wh = g.spec_width() * g.spec_height();
    // every open discovered cell has an entry priced at its current cost
    &&& forall|i: int|
        0 <= i < wh && #[trigger] discovered[i] && !closed_flag[i] && i != uncovered ==> (exists|
            k: int,
        |
            0 <= k < frontier.len() && (#[trigger] frontier[k]).0 == g.spec_cell_of(i)
                && frontier[k].1 == gcost[i])
    // entry priorities never undercut current costs
    &&& forall|k: int|
        0 <= k < frontier.len() ==> (gcost[g.spec_idx((#[trigger] frontier[k]).0)] as int)
            <= frontier[k].1 as int
    // closed costs are below every entry priority
    &&& forall|i: int, k: int|
        0 <= i < wh && (#[trigger] closed_flag[i]) && 0 <= k < frontier.len() ==> (gcost[i] as int)
            <= (#[trigger] frontier[k]).1 as int
    // a link's cost is its parent's cost plus the edge cost
    &&& forall|i: int|
        0 <= i < wh && (#[trigger] parents[i]) is Some ==> (gcost[i] as int) == (gcost[
            parents[i]->0 as int
        ] as int) + l2_cost_spec(g.spec_cell_of(parents[i]->0 as int), g.spec_cell_of(i))
    // no path undercuts a closed cell's cost
    &&& forall|i: int, s: Seq<(u32, u32)>|
        0 <= i < wh && (#[trigger] closed_flag[i]) && #[trigger] is_path_seq(
            g,
            s,
            start,
            g.spec_cell_of(i),
        ) ==> path_cost(s) >= gcost[i] as int
}

/// Every closed cell other than `except` has relaxed all its traversable
/// neighbors: the neighbor's cost is at most the closed cell's cost plus
/// the edge.
pub open spec fn dij_relax_except(
    g: Gridmap,
    closed_flag: Seq<bool>,
    gcost: Seq<u64>,
    except: int,
) -> bool {
    forall|i: int, nb: (u32, u32)|
        0 <= i < closed_flag.len() && (#[trigger] closed_flag[i]) && i != except && adjacent8(
            g.spec_cell_of(i),
            nb,
        ) && #[trigger] g.spec_traversable(nb, INSCRIBED_INFLATED_OBSTACLE) ==> (gcost[
            g.spec_idx(nb)
        ] as int) <= (gcost[i] as int) + l2_cost_spec(g.spec_cell_of(i), nb)
}

/// The cut argument of Dijkstra's algorithm: along any valid path from
/// the start, a prefix ending at a closed cell costs at least that cell's
/// recorded cost, and a prefix ending at an open cell costs at least the
/// smallest frontier priority.
proof fn lemma_dijkstra_cut(
    g: Gridmap,
    start: (u32, u32),
    s: Seq<(u32, u32)>,
    k: int,
    parents: Seq<Option<u32>>,
    discovered: Seq<bool>,
    closed_flag: Seq<bool>,
    frontier: Seq<((u32, u32), u64)>,
    gcost: Seq<u64>,
    p_min: int,
)
    requires
        g.wf(),
        g.spec_in_map(start),
        discovered.len() == g.spec_width() * g.spec_height(),
        closed_flag.len() == discovered.len(),
        gcost.len() == discovered.len(),
        parents.len() == discovered.len(),
        discovered[g.spec_idx(start)],
        gcost[g.spec_idx(start)] == 0,
        closure_except(g, discovered, closed_flag, -1),
        dij_inv(g, start, parents, discovered, closed_flag, frontier, gcost, -1),
        dij_relax_except(g, closed_flag, gcost, -1),
        forall|q: int| 0 <= q < frontier.len() ==> p_min <= (#[trigger] frontier[q]).1 as int,
        exists|q: int| 0 <= q < frontier.len() && (#[trigger] frontier[q]).1 as int == p_min,
        s.len() >= 1,
        s[0] == start,
        forall|j: int| 0 <= j < s.len() - 1 ==> adjacent8(#[trigger] s[j], s[j + 1]),
        forall|j: int|
            1 <= j < s.len() ==> g.spec_traversable(#[trigger] s[j], INSCRIBED_INFLATED_OBSTACLE),
        0 <= k < s.len(),
    ensures
        g.spec_in_map(s[k]),
        closed_flag[g.spec_idx(s[k])] ==> prefix_cost(s, k) >= gcost[g.spec_idx(s[k])] as int,
        !closed_flag[g.spec_idx(s[k])] ==> prefix_cost(s, k) >= p_min,
    decreases k,
{
    let sidx = g.spec_idx(start);
    if k == 0 {
        g.lemma_idx_in_range(start);
        if !closed_flag[sidx] {
            let q0 = choose|q0: int|
                0 <= q0 < frontier.len() && (#[trigger] frontier[q0]).0 == g.spec_cell_of(sidx)
                    && frontier[q0].1 == gcost[sidx];
            assert(p_min <= frontier[q0].1 as int);
        }
    } else {
        lemma_dijkstra_cut(
            g,
            start,
            s,
            k - 1,
            parents,
            discovered,
            closed_flag,
            frontier,
            gcost,
            p_min,
        );
        lemma_l2_cost_spec_is(s[k - 1], s[k]);
        let edge = l2_cost_spec(s[k - 1], s[k]);
        assert(g.spec_traversable(s[k], INSCRIBED_INFLATED_OBSTACLE));
        g.lemma_idx_in_range(s[k]);
        g.lemma_idx_in_range(s[k - 1]);
        g.lemma_cell_of_idx(s[k - 1]);
        g.lemma_cell_of_idx(s[k]);
        let i1 = g.spec_idx(s[k - 1]);
        let i2 = g.spec_idx(s[k]);
        assert(adjacent8(s[k - 1], s[k]));
        if closed_flag[i1] {
            // relaxation: the neighbor's cost is covered by this prefix
            assert((gcost[i2] as int) <= (gcost[i1] as int) + edge);
            assert(prefix_cost(s, k) >= (gcost[i1] as int) + edge);
            if !closed_flag[i2] {
                assert(discovered[i2]);
                let q0 = choose|q0: int|
                    0 <= q0 < frontier.len() && (#[trigger] frontier[q0]).0 == g.spec_cell_of(i2)
                        && frontier[q0].1 == gcost[i2];
                assert(p_min <= frontier[q0].1 as int);
            }
        } else {
            assert(prefix_cost(s, k - 1) >= p_min);
            assert(prefix_cost(s, k) >= p_min);
            if closed_flag[i2] {
                let qm = choose|q: int|
                    0 <= q < frontier.len() && (#[trigger] frontier[q]).1 as int == p_min;
                assert((gcost[i2] as int) <= frontier[qm].1 as int);
            }
        }
    }
}

/// Along a reversed parent walk the accumulated path cost equals the
/// recorded cost of the cell reached.
proof fn lemma_chain_cost(
    g: Gridmap,
    start: (u32, u32),
    rev: Seq<(u32, u32)>,
    path: Seq<(u32, u32)>,
    parents: Seq<Option<u32>>,
    gcost: Seq<u64>,
    q: int,
)
    requires
        g.wf(),
        g.spec_in_map(start),
        parents.len() == g.spec_width() * g.spec_height(),
        gcost.len() == parents.len(),
        gcost[g.spec_idx(start)] == 0,
        forall|i: int|
            0 <= i < parents.len() && (#[trigger] parents[i]) is Some ==> 0 <= parents[i]->0
                < parents.len() && (gcost[i] as int) == (gcost[parents[i]->0 as int] as int)
                + l2_cost_spec(g.spec_cell_of(parents[i]->0 as int), g.spec_cell_of(i)),
        rev.len() >= 1,
        path.len() == rev.len(),
        forall|j: int| 0 <= j < rev.len() ==> #[trigger] path[j] == rev[rev.len() - 1 - j],
        forall|j: int| 0 <= j < rev.len() ==> g.spec_in_map(#[trigger] rev[j]),
        forall|j: int|
            0 <= j < rev.len() - 1 ==> (parents[g.spec_idx(#[trigger] rev[j])] is Some && parents[
                g.spec_idx(rev[j])
            ]->0 == g.spec_idx(rev[j + 1])),
        rev[rev.len() - 1] == start,
        0 <= q < path.len(),
    ensures
        prefix_cost(path, q) == gcost[g.spec_idx(path[q])] as int,
    decreases q,
{
    let n = rev.len();
    if q == 0 {
        assert(path[0] == rev[n - 1]);
        g.lemma_idx_in_range(start);
    } else {
        lemma_chain_cost(g, start, rev, path, parents, gcost, q - 1);
        let j = n - 1 - q;
        assert(path[q] == rev[j]);
        assert(path[q - 1] == rev[j + 1]);
        g.lemma_idx_in_range(rev[j]);
        g.lemma_idx_in_range(rev[j + 1]);
        g.lemma_cell_of_idx(rev[j]);
        g.lemma_cell_of_idx(rev[j + 1]);
        assert(parents[g.spec_idx(rev[j])] is Some);
        assert(parents[g.spec_idx(rev[j])]->0 == g.spec_idx(rev[j + 1]));
        assert((gcost[g.spec_idx(rev[j])] as int) == (gcost[g.spec_idx(rev[j + 1])] as int)
            + l2_cost_spec(rev[j + 1], rev[j]));
        assert(prefix_cost(path, q) == prefix_cost(path, q - 1) + l2_cost_spec(
            path[q - 1],
            path[q],
        ));
    }
}


/// The extra bookkeeping a breadth-first search keeps true: the frontier
/// is a queue of cells at nondecreasing depths spanning at most two
/// levels, closed cells sit at or below every queued depth, each link adds
/// exactly one level, and closed cells' depths are hop-optimal.
pub open spec fn bfs_inv(
    g: Gridmap,
    start: (u32, u32),
    parents: Seq<Option<u32>>,
    closed_flag: Seq<bool>,
    frontier: Seq<((u32, u32), u64)>,
    rank: Map<int, nat>,
) -> bool {
    let wh = g.spec_width() * g.spec_height();
    &&& rank[g.spec_idx(start)] == 0
    // queued depths are nondecreasing and span at most one level
    &&& forall|q1: int, q2: int|
        0 <= q1 <= q2 < frontier.len() ==> rank[g.spec_idx((#[trigger] frontier[q1]).0)] <= rank[
            g.spec_idx((#[trigger] frontier[q2]).0)
        ]
    &&& forall|q1: int, q2: int|
        0 <= q1 <= q2 < frontier.len() ==> rank[g.spec_idx((#[trigger] frontier[q2]).0)] <= rank[
            g.spec_idx((#[trigger] frontier[q1]).0)
        ] + 1
    // closed depths never exceed a queued depth
    &&& forall|i: int, q: int|
        0 <= i < wh && (#[trigger] closed_flag[i]) && 0 <= q < frontier.len() ==> rank[i] <= rank[
            g.spec_idx((#[trigger] frontier[q]).0)
        ]
    // each link adds exactly one level
    &&& forall|i: int|
        0 <= i < wh && (#[trigger] parents[i]) is Some ==> rank[i] == rank[parents[i]->0 as int]
            + 1
    // no path reaches a closed cell in fewer hops than its depth
    &&& forall|i: int, s: Seq<(u32, u32)>|
        0 <= i < wh && (#[trigger] closed_flag[i]) && #[trigger] is_path_seq(
            g,
            s,
            start,
            g.spec_cell_of(i),
        ) ==> s.len() - 1 >= rank[i]
}

/// Every closed cell other than `except` has all its traversable
/// neighbors discovered within one extra level.
pub open spec fn bfs_relax_except(
    g: Gridmap,
    closed_flag: Seq<bool>,
    rank: Map<int, nat>,
    except: int,
) -> bool {
    forall|i: int, nb: (u32, u32)|
        0 <= i < closed_flag.len() && (#[trigger] closed_flag[i]) && i != except && adjacent8(
            g.spec_cell_of(i),
            nb,
        ) && #[trigger] g.spec_traversable(nb, INSCRIBED_INFLATED_OBSTACLE) ==> rank[g.spec_idx(nb)]
            <= rank[i] + 1
}

/// The cut argument of breadth-first search: along any valid path from the
/// start, a prefix ending at a closed cell uses at least that cell's depth
/// in hops, and a prefix ending at an open cell at least the front depth.
proof fn lemma_bfs_cut(
    g: Gridmap,
    start: (u32, u32),
    s: Seq<(u32, u32)>,
    k: int,
    discovered: Seq<bool>,
    closed_flag: Seq<bool>,
    frontier: Seq<((u32, u32), u64)>,
    rank: Map<int, nat>,
    d_min: int,
)
    requires
        g.wf(),
        g.spec_in_map(start),
        discovered.len() == g.spec_width() * g.spec_height(),
        closed_flag.len() == discovered.len(),
        discovered[g.spec_idx(start)],
        rank[g.spec_idx(start)] == 0,
        closure_except(g, discovered, closed_flag, -1),
        bfs_relax_except(g, closed_flag, rank, -1),
        // hop-optimality of the closed cells
        forall|i: int, s2: Seq<(u32, u32)>|
            0 <= i < discovered.len() && (#[trigger] closed_flag[i]) && #[trigger] is_path_seq(
                g,
                s2,
                start,
                g.spec_cell_of(i),
            ) ==> s2.len() - 1 >= rank[i],
        // open discovered cells have a frontier entry
        forall|i: int|
            0 <= i < discovered.len() && #[trigger] discovered[i] && !closed_flag[i] ==> (exists|
                q: int,
            | 0 <= q < frontier.len() && (#[trigger] frontier[q]).0 == g.spec_cell_of(i)),
        // every queued depth is at least the front depth, and every closed
        // depth at most it
        forall|q: int|
            0 <= q < frontier.len() ==> d_min <= rank[g.spec_idx((#[trigger] frontier[q]).0)],
        forall|i: int|
            0 <= i < discovered.len() && (#[trigger] closed_flag[i]) ==> rank[i] <= d_min,
        s.len() >= 1,
        s[0] == start,
        forall|j: int| 0 <= j < s.len() - 1 ==> adjacent8(#[trigger] s[j], s[j + 1]),
        forall|j: int|
            1 <= j < s.len() ==> g.spec_traversable(#[trigger] s[j], INSCRIBED_INFLATED_OBSTACLE),
        0 <= k < s.len(),
    ensures
        g.spec_in_map(s[k]),
        closed_flag[g.spec_idx(s[k])] ==> k >= rank[g.spec_idx(s[k])],
        !closed_flag[g.spec_idx(s[k])] ==> k >= d_min,
    decreases k,
{
    let sidx = g.spec_idx(start);
    if k == 0 {
        g.lemma_idx_in_range(start);
        if !closed_flag[sidx] {
            let q0 = choose|q0: int|
                0 <= q0 < frontier.len() && (#[trigger] frontier[q0]).0 == g.spec_cell_of(sidx);
            assert(d_min <= rank[g.spec_idx(frontier[q0].0)]);
            g.lemma_cell_of_idx(start);
            assert(g.spec_idx(frontier[q0].0) == sidx);
        }
    } else {
        lemma_bfs_cut(g, start, s, k - 1, discovered, closed_flag, frontier, rank, d_min);
        assert(g.spec_traversable(s[k], INSCRIBED_INFLATED_OBSTACLE));
        g.lemma_idx_in_range(s[k]);
        g.lemma_idx_in_range(s[k - 1]);
        g.lemma_cell_of_idx(s[k - 1]);
        g.lemma_cell_of_idx(s[k]);
        let i1 = g.spec_idx(s[k - 1]);
        let i2 = g.spec_idx(s[k]);
        assert(adjacent8(s[k - 1], s[k]));
        if closed_flag[i1] {
            assert(rank[i2] <= rank[i1] + 1);
            if !closed_flag[i2] {
                assert(discovered[i2]);
                let q0 = choose|q0: int|
                    0 <= q0 < frontier.len() && (#[trigger] frontier[q0]).0 == g.spec_cell_of(i2);
                assert(d_min <= rank[g.spec_idx(frontier[q0].0)]);
                g.lemma_idx_cell_of(i2);
                assert(d_min <= rank[i2]);
                assert(rank[i1] as int >= 0);
            }
        } else {
            if closed_flag[i2] {
                assert(rank[i2] <= d_min);
            }
        }
    }
}

/// Along a reversed parent walk of a breadth-first search, the position of
/// a cell in the path is exactly its depth.
proof fn lemma_chain_hops(
    g: Gridmap,
    start: (u32, u32),
    rev: Seq<(u32, u32)>,
    path: Seq<(u32, u32)>,
    parents: Seq<Option<u32>>,
    rank: Map<int, nat>,
    q: int,
)
    requires
        g.wf(),
        g.spec_in_map(start),
        parents.len() == g.spec_width() * g.spec_height(),
        rank[g.spec_idx(start)] == 0,
        forall|i: int|
            0 <= i < parents.len() && (#[trigger] parents[i]) is Some ==> 0 <= parents[i]->0
                < parents.len() && rank[i] == rank[parents[i]->0 as int] + 1,
        rev.len() >= 1,
        path.len() == rev.len(),
        forall|j: int| 0 <= j < rev.len() ==> #[trigger] path[j] == rev[rev.len() - 1 - j],
        forall|j: int| 0 <= j < rev.len() ==> g.spec_in_map(#[trigger] rev[j]),
        forall|j: int|
            0 <= j < rev.len() - 1 ==> (parents[g.spec_idx(#[trigger] rev[j])] is Some && parents[
                g.spec_idx(rev[j])
            ]->0 == g.spec_idx(rev[j + 1])),
        rev[rev.len() - 1] == start,
        0 <= q < path.len(),
    ensures
        q == rank[g.spec_idx(path[q])],
    decreases q,
{
    let n = rev.len();
    if q == 0 {
        assert(path[0] == rev[n - 1]);
        g.lemma_idx_in_range(start);
    } else {
        lemma_chain_hops(g, start, rev, path, parents, rank, q - 1);
        let j = n - 1 - q;
        assert(path[q] == rev[j]);
        assert(path[q - 1] == rev[j + 1]);
        g.lemma_idx_in_range(rev[j]);
        g.lemma_idx_in_range(rev[j + 1]);
        assert(parents[g.spec_idx(rev[j])] is Some);
        assert(parents[g.spec_idx(rev[j])]->0 == g.spec_idx(rev[j + 1]));
        assert(rank[g.spec_idx(rev[j])] == rank[g.spec_idx(rev[j + 1])] + 1);
    }
}

/// Every discovered cell is reachable from the start: its parent chain,
/// walked down to the start, is a valid path.
proof fn lemma_discovered_reachable(
    g: Gridmap,
    start: (u32, u32),
    parents: Seq<Option<u32>>,
    discovered: Seq<bool>,
    rank: Map<int, nat>,
    i: int,
)
    requires
        g.wf(),
        g.spec_in_map(start),
        parents.len() == g.spec_width() * g.spec_height(),
        discovered.len() == parents.len(),
        forall|j: int|
            0 <= j < parents.len() ==> ((#[trigger] parents[j]) is Some <==> (discovered[j] && j
                != g.spec_idx(start))),
        forall|j: int|
            0 <= j < parents.len() && (#[trigger] parents[j]) is Some ==> (0 <= parents[j]->0
                < parents.len() && discovered[parents[j]->0 as int] && adjacent8(
                g.spec_cell_of(parents[j]->0 as int),
                g.spec_cell_of(j),
            ) && rank[parents[j]->0 as int] < rank[j]),
        forall|j: int|
            0 <= j < discovered.len() && #[trigger] discovered[j] ==> (j == g.spec_idx(start)
                || g.spec_traversable(g.spec_cell_of(j), INSCRIBED_INFLATED_OBSTACLE)),
        0 <= i < parents.len(),
        discovered[i],
    ensures
        reachable8(g, start, g.spec_cell_of(i)),
    decreases rank[i],
{
    let sidx = g.spec_idx(start);
    if i == sidx {
        g.lemma_cell_of_idx(start);
        let s = seq![start];
        assert(is_path_seq(g, s, start, start));
    } else {
        let p = parents[i]->0 as int;
        lemma_discovered_reachable(g, start, parents, discovered, rank, p);
        let s0 = choose|s0: Seq<(u32, u32)>| is_path_seq(g, s0, start, g.spec_cell_of(p));
        let s = s0.push(g.spec_cell_of(i));
        assert forall|k: int| 0 <= k < s.len() - 1 implies adjacent8(
            #[trigger] s[k],
            s[k + 1],
        ) by {
            if k < s0.len() - 1 {
                assert(s[k] == s0[k] && s[k + 1] == s0[k + 1]);
            } else {
                assert(s[k] == s0[s0.len() - 1] && s0[s0.len() - 1] == g.spec_cell_of(p));
                assert(s[k + 1] == g.spec_cell_of(i));
            }
        }
        assert forall|k: int| 1 <= k < s.len() implies g.spec_traversable(
            #[trigger] s[k],
            INSCRIBED_INFLATED_OBSTACLE,
        ) by {
            if k < s0.len() {
                assert(s[k] == s0[k]);
            } else {
                assert(s[k] == g.spec_cell_of(i));
            }
        }
        assert(is_path_seq(g, s, start, g.spec_cell_of(i)));
    }
}

/// Once every discovered cell is closed and the closed set is closed under
/// traversable neighbor expansion, every cell of a start-anchored path is
/// closed.
proof fn lemma_path_closed(
    g: Gridmap,
    s: Seq<(u32, u32)>,
    k: int,
    discovered: Seq<bool>,
    closed_flag: Seq<bool>,
)
    requires
        g.wf(),
        discovered.len() == g.spec_width() * g.spec_height(),
        closed_flag.len() == discovered.len(),
        0 <= k < s.len(),
        g.spec_in_map(s[0]),
        discovered[g.spec_idx(s[0])],
        forall|j: int| 0 <= j < s.len() - 1 ==> adjacent8(#[trigger] s[j], s[j + 1]),
        forall|j: int|
            1 <= j < s.len() ==> g.spec_traversable(#[trigger] s[j], INSCRIBED_INFLATED_OBSTACLE),
        closure_except(g, discovered, closed_flag, -1),
        forall|i: int| 0 <= i < discovered.len() && #[trigger] discovered[i] ==> closed_flag[i],
    ensures
        g.spec_in_map(s[k]),
        0 <= g.spec_idx(s[k]) < closed_flag.len(),
        closed_flag[g.spec_idx(s[k])],
    decreases k,
{
    if k == 0 {
        g.lemma_idx_in_range(s[0]);
    } else {
        lemma_path_closed(g, s, k - 1, discovered, closed_flag);
        g.lemma_cell_of_idx(s[k - 1]);
        assert(adjacent8(s[k - 1], s[k]));
        assert(g.spec_traversable(s[k], INSCRIBED_INFLATED_OBSTACLE));
        g.lemma_idx_in_range(s[k]);
        assert(discovered[g.spec_idx(s[k])]);
    }
}

/// A parent-link walk from the goal, reversed, is a valid start-to-goal
/// path.
#[verifier::rlimit(100)]
proof fn lemma_walk_to_path(
    g: Gridmap,
    start_cell: (u32, u32),
    goal_cell: (u32, u32),
    parents: Seq<Option<u32>>,
    discovered: Seq<bool>,
    rev: Seq<(u32, u32)>,
    path: Seq<(u32, u32)>,
)
    requires
        g.wf(),
        g.spec_in_map(start_cell),
        g.spec_in_map(goal_cell),
        parents.len() == g.spec_width() * g.spec_height(),
        discovered.len() == parents.len(),
        forall|i: int|
            0 <= i < parents.len() ==> ((#[trigger] parents[i]) is Some <==> (discovered[i] && i
                != g.spec_idx(start_cell))),
        forall|i: int|
            0 <= i < parents.len() && (#[trigger] parents[i]) is Some ==> (0 <= parents[i]->0
                < parents.len() && discovered[parents[i]->0 as int] && adjacent8(
                g.spec_cell_of(parents[i]->0 as int),
                g.spec_cell_of(i),
            )),
        forall|i: int|
            0 <= i < discovered.len() && #[trigger] discovered[i] ==> (i == g.spec_idx(start_cell)
                || g.spec_traversable(g.spec_cell_of(i), INSCRIBED_INFLATED_OBSTACLE)),
        rev.len() >= 1,
        rev[0] == goal_cell,
        discovered[g.spec_idx(goal_cell)],
        forall|k: int| 0 <= k < rev.len() ==> g.spec_in_map(#[trigger] rev[k]),
        forall|k: int|
            0 <= k < rev.len() - 1 ==> (parents[g.spec_idx(#[trigger] rev[k])] is Some && parents[
                g.spec_idx(rev[k])
            ]->0 == g.spec_idx(rev[k + 1])),
        parents[g.spec_idx(rev[rev.len() - 1])] is None,
        path.len() == rev.len(),
        forall|q: int| 0 <= q < rev.len() ==> #[trigger] path[q] == rev[rev.len() - 1 - q],
    ensures
        is_path_seq(g, path, start_cell, goal_cell),
        rev[rev.len() - 1] == start_cell,
{
    let n = rev.len();
    let sidx = g.spec_idx(start_cell);
    // each cell of the walk except the last has a parent link, hence is
    // discovered; the last has none and must be the start
    assert forall|j: int| 0 <= j < n - 1 implies (#[trigger] parents[g.spec_idx(rev[j])]) is Some
        && discovered[g.spec_idx(rev[j])] by {
        g.lemma_idx_in_range(rev[j]);
    }
    let last = rev[n - 1];
    g.lemma_idx_in_range(last);
    if n == 1 {
        assert(last == goal_cell);
        assert(discovered[g.spec_idx(last)]);
    } else {
        g.lemma_idx_in_range(rev[n - 2]);
        assert(parents[g.spec_idx(rev[n - 2])] is Some);
        assert(parents[g.spec_idx(rev[n - 2])]->0 == g.spec_idx(last));
        assert(discovered[g.spec_idx(last)]);
    }
    assert(parents[g.spec_idx(last)] is None);
    assert(g.spec_idx(last) == sidx);
    g.lemma_idx_injective(last, start_cell);
    assert(last == start_cell);
    // the reversed walk is a valid start-to-goal path
    assert(path[0] == start_cell);
    assert(path[n - 1] == rev[0]);
    assert(rev[0] == goal_cell);
    assert forall|q: int| 0 <= q < n - 1 implies adjacent8(#[trigger] path[q], path[q + 1]) by {
        let j = n - 2 - q;
        assert(path[q] == rev[j + 1]);
        assert(path[q + 1] == rev[j]);
        assert(parents[g.spec_idx(rev[j])] is Some);
        assert(parents[g.spec_idx(rev[j])]->0 == g.spec_idx(rev[j + 1]));
        g.lemma_idx_in_range(rev[j]);
        g.lemma_cell_of_idx(rev[j]);
        g.lemma_cell_of_idx(rev[j + 1]);
    }
    assert forall|q: int| 1 <= q < n implies g.spec_traversable(
        #[trigger] path[q],
        INSCRIBED_INFLATED_OBSTACLE,
    ) by {
        let j = n - 1 - q;
        assert(path[q] == rev[j]);
        assert(parents[g.spec_idx(rev[j])] is Some);
        g.lemma_idx_in_range(rev[j]);
        g.lemma_cell_of_idx(rev[j]);
        assert(g.spec_idx(rev[j]) != sidx);
        assert(discovered[g.spec_idx(rev[j])]);
    }
}

/// When the goal cell has been discovered, walk the parent links back from
/// it and return the finished plan, whose path runs from the start to the
/// goal.
#[verifier::rlimit(100)]
fn reconstruct_plan(
    gridmap: &Gridmap,
    start_cell: (u32, u32),
    goal_cell: (u32, u32),
    parents: &Vec<Option<u32>>,
    discovered: &Vec<bool>,
    closed_list: Vec<(u32, u32)>,
    Ghost(rank): Ghost<Map<int, nat>>,
    Ghost(gcost_snap): Ghost<Seq<u64>>,
    Ghost(dij): Ghost<bool>,
    Ghost(bfs): Ghost<bool>,
)
-> (r: MotionPlan)
    requires
        gridmap.wf(),
        gridmap.spec_in_map(start_cell),
        gridmap.spec_in_map(goal_cell),
        parents@.len() == gridmap.spec_width() * gridmap.spec_height(),
        discovered@.len() == parents@.len(),
        discovered@[gridmap.spec_idx(goal_cell)],
        forall|i: int|
            0 <= i < parents@.len() ==> ((#[trigger] parents@[i]) is Some <==> (discovered@[i] && i
                != gridmap.spec_idx(start_cell))),
        forall|i: int|
            0 <= i < parents@.len() && (#[trigger] parents@[i]) is Some ==> (0 <= parents@[i]->0
                < parents@.len() && discovered@[parents@[i]->0 as int] && adjacent8(
                gridmap.spec_cell_of(parents@[i]->0 as int),
                gridmap.spec_cell_of(i),
            ) && rank[parents@[i]->0 as int] < rank[i]),
        forall|i: int|
            0 <= i < discovered@.len() && #[trigger] discovered@[i] ==> (i == gridmap.spec_idx(
                start_cell,
            ) || gridmap.spec_traversable(
                gridmap.spec_cell_of(i),
                INSCRIBED_INFLATED_OBSTACLE,
            )),
        closed_list@.no_duplicates(),
        forall|k: int| 0 <= k < closed_list@.len() ==> gridmap.spec_in_map(#[trigger] closed_list@[k]),
        forall|k: int|
            0 <= k < closed_list@.len() ==> discovered@[gridmap.spec_idx(
                #[trigger] closed_list@[k],
            )],
        dij ==> gcost_snap.len() == parents@.len(),
        dij ==> gcost_snap[gridmap.spec_idx(start_cell)] == 0,
        dij ==> (forall|i: int|
            0 <= i < parents@.len() && (#[trigger] parents@[i]) is Some ==> (gcost_snap[i] as int)
                == (gcost_snap[parents@[i]->0 as int] as int) + l2_cost_spec(
                gridmap.spec_cell_of(parents@[i]->0 as int),
                gridmap.spec_cell_of(i),
            )),
        bfs ==> rank[gridmap.spec_idx(start_cell)] == 0,
        bfs ==> (forall|i: int|
            0 <= i < parents@.len() && (#[trigger] parents@[i]) is Some ==> rank[i] == rank[
                parents@[i]->0 as int
            ] + 1),
    ensures
        plan_valid(*gridmap, start_cell, goal_cell, r),
        r.path@.len() > 0,
        r.path_fp@.len() == 0,
        r.closed_list_fp@.len() == 0,
        r.closed_list == closed_list,
        dij ==> path_cost(r.path@) == gcost_snap[gridmap.spec_idx(goal_cell)] as int,
        bfs ==> r.path@.len() == rank[gridmap.spec_idx(goal_cell)] + 1,
{
    let ghost g = *gridmap;
    proof {
        assert forall|i: int|
            0 <= i < parents@.len() && (#[trigger] parents@[i]) is Some implies 0 <= parents@[i]->0
            < parents@.len() && rank[parents@[i]->0 as int] < rank[i] by {}
        assert(chain_wf(parents@, rank));
        g.lemma_idx_in_range(goal_cell);
    }
    let rev = trace_path(&goal_cell, parents, gridmap);
    let path = reverse_cells(&rev);
    proof {
        lemma_walk_to_path(g, start_cell, goal_cell, parents@, discovered@, rev@, path@);
        assert(reachable8(g, start_cell, goal_cell));
        assert forall|k: int| 0 <= k < closed_list@.len() implies reachable8(
            g,
            start_cell,
            #[trigger] closed_list@[k],
        ) by {
            g.lemma_idx_in_range(closed_list@[k]);
            g.lemma_cell_of_idx(closed_list@[k]);
            lemma_discovered_reachable(
                g,
                start_cell,
                parents@,
                discovered@,
                rank,
                g.spec_idx(closed_list@[k]),
            );
        }
        if dij {
            assert forall|i: int|
                0 <= i < parents@.len() && (#[trigger] parents@[i]) is Some implies 0 <= parents@[i]->0
                < parents@.len() && (gcost_snap[i] as int) == (gcost_snap[parents@[i]->0 as int] as int)
                + l2_cost_spec(
                g.spec_cell_of(parents@[i]->0 as int),
                g.spec_cell_of(i),
            ) by {}
            lemma_chain_cost(
                g,
                start_cell,
                rev@,
                path@,
                parents@,
                gcost_snap,
                rev@.len() - 1,
            );
            assert(path@[path@.len() - 1] == rev@[0]);
            assert(rev@[0] == goal_cell);
        }
        if bfs {
            assert forall|i: int|
                0 <= i < parents@.len() && (#[trigger] parents@[i]) is Some implies 0 <= parents@[i]->0
                < parents@.len() && rank[i] == rank[parents@[i]->0 as int] + 1 by {}
            lemma_chain_hops(g, start_cell, rev@, path@, parents@, rank, rev@.len() - 1);
            assert(path@[path@.len() - 1] == rev@[0]);
            assert(rev@[0] == goal_cell);
        }
    }
    MotionPlan { path, path_fp: Vec::new(), closed_list, closed_list_fp: Vec::new() }
}

/// Move the current cell to the closed set and discover or relax its
/// traversable neighbors according to the search kind.
#[verifier::rlimit(100)]
fn close_and_expand(
    kind: SearchKind,
    gridmap: &Gridmap,
    start_cell: (u32, u32),
    goal_cell: (u32, u32),
    cur: (u32, u32),
    parents: &mut Vec<Option<u32>>,
    discovered: &mut Vec<bool>,
    closed_flag: &mut Vec<bool>,
    closed_list: &mut Vec<(u32, u32)>,
    frontier: &mut Vec<((u32, u32), u64)>,
    gcost: &mut Vec<u64>,
    Ghost(rank0): Ghost<Map<int, nat>>,
    Ghost(closed_set0): Ghost<Set<int>>,
)
-> (res: (Ghost<Map<int, nat>>, Ghost<Set<int>>))
    requires
        search_inv_core(
            *gridmap,
            start_cell,
            goal_cell,
            old(parents)@,
            old(discovered)@,
            old(closed_flag)@,
            old(closed_list)@,
            old(frontier)@,
            old(gcost)@,
            rank0,
            closed_set0,
            gridmap.spec_idx(cur),
        ),
        closure_except(*gridmap, old(discovered)@, old(closed_flag)@, -1),
        gridmap.spec_in_map(cur),
        old(discovered)@[gridmap.spec_idx(cur)],
        !old(closed_flag)@[gridmap.spec_idx(cur)],
        cur != goal_cell,
        kind is Dijkstra ==> dij_inv(
            *gridmap,
            start_cell,
            old(parents)@,
            old(discovered)@,
            old(closed_flag)@,
            old(frontier)@,
            old(gcost)@,
            gridmap.spec_idx(cur),
        ),
        kind is Dijkstra ==> dij_relax_except(*gridmap, old(closed_flag)@, old(gcost)@, -1),
        kind is Dijkstra ==> (forall|s: Seq<(u32, u32)>|
            #[trigger] is_path_seq(*gridmap, s, start_cell, cur) ==> path_cost(s) >= old(
                gcost,
            )@[gridmap.spec_idx(cur)] as int),
        kind is Dijkstra ==> (forall|i: int|
            0 <= i < old(closed_flag)@.len() && (#[trigger] old(closed_flag)@[i]) ==> (old(
                gcost,
            )@[i] as int) <= old(gcost)@[gridmap.spec_idx(cur)] as int),
        kind is Dijkstra ==> (forall|q: int|
            0 <= q < old(frontier)@.len() ==> (old(gcost)@[gridmap.spec_idx(cur)] as int) <= (
            #[trigger] old(frontier)@[q]).1 as int),
        kind is Bfs ==> bfs_inv(
            *gridmap,
            start_cell,
            old(parents)@,
            old(closed_flag)@,
            old(frontier)@,
            rank0,
        ),
        kind is Bfs ==> bfs_relax_except(*gridmap, old(closed_flag)@, rank0, -1),
        kind is Bfs ==> (forall|s: Seq<(u32, u32)>|
            #[trigger] is_path_seq(*gridmap, s, start_cell, cur) ==> s.len() - 1 >= rank0[
                gridmap.spec_idx(cur)
            ]),
        kind is Bfs ==> (forall|i: int|
            0 <= i < old(closed_flag)@.len() && (#[trigger] old(closed_flag)@[i]) ==> rank0[i]
                <= rank0[gridmap.spec_idx(cur)]),
        kind is Bfs ==> (forall|q: int|
            0 <= q < old(frontier)@.len() ==> rank0[gridmap.spec_idx(cur)] <= rank0[
                gridmap.spec_idx((#[trigger] old(frontier)@[q]).0)
            ] && rank0[gridmap.spec_idx(old(frontier)@[q].0)] <= rank0[gridmap.spec_idx(cur)]
                + 1),
    ensures
        search_inv_core(
            *gridmap,
            start_cell,
            goal_cell,
            final(parents)@,
            final(discovered)@,
            final(closed_flag)@,
            final(closed_list)@,
            final(frontier)@,
            final(gcost)@,
            res.0@,
            res.1@,
            -1,
        ),
        closure_except(*gridmap, final(discovered)@, final(closed_flag)@, -1),
        final(closed_list)@.len() == old(closed_list)@.len() + 1,
        kind is Dijkstra ==> dij_inv(
            *gridmap,
            start_cell,
            final(parents)@,
            final(discovered)@,
            final(closed_flag)@,
            final(frontier)@,
            final(gcost)@,
            -1,
        ),
        kind is Dijkstra ==> dij_relax_except(*gridmap, final(closed_flag)@, final(gcost)@, -1),
        kind is Bfs ==> bfs_inv(
            *gridmap,
            start_cell,
            final(parents)@,
            final(closed_flag)@,
            final(frontier)@,
            res.0@,
        ),
        kind is Bfs ==> bfs_relax_except(*gridmap, final(closed_flag)@, res.0@, -1),
{
    let ghost g = *gridmap;
    let ghost wh = g.spec_width() * g.spec_height();
    let ghost mut rank: Map<int, nat> = rank0;
    let ghost mut closed_set: Set<int> = closed_set0;
    let ci = gridmap.xy_to_idx(cur);
    let ghost old_closed_list = closed_list@;

    closed_flag.set(ci, true);
    closed_list.push(cur);
    proof {
        closed_set = closed_set.insert(ci as int);
        g.lemma_cell_of_idx(cur);
        if ci as int == g.spec_idx(goal_cell) {
            g.lemma_idx_injective(cur, goal_cell);
        }
        lemma_int_range(0, wh);
        assert(closed_set.subset_of(set_int_range(0, wh)));
        lemma_len_subset(closed_set, set_int_range(0, wh));
        // the closed list still has no duplicates
        assert forall|a: int, b: int|
            0 <= a < closed_list@.len() && 0 <= b < closed_list@.len() && a
                != b implies #[trigger] closed_list@[a] != #[trigger] closed_list@[b] by {
            if a < closed_list@.len() - 1 && b < closed_list@.len() - 1 {
                assert(old_closed_list[a] != old_closed_list[b]);
            } else if a == closed_list@.len() - 1 {
                if old_closed_list[b] == cur {
                    assert(old_closed_list.contains(cur));
                }
            } else {
                if old_closed_list[a] == cur {
                    assert(old_closed_list.contains(cur));
                }
            }
        }
        assert forall|i: int|
            0 <= i < wh && (#[trigger] closed_flag@[i]) implies closed_list@.contains(
                g.spec_cell_of(i),
            ) by {
            if i == ci as int {
                assert(closed_list@[closed_list@.len() - 1] == g.spec_cell_of(i));
            } else {
                assert(old_closed_list.contains(g.spec_cell_of(i)));
                let q = choose|q: int|
                    0 <= q < old_closed_list.len() && old_closed_list[q] == g.spec_cell_of(i);
                assert(closed_list@[q] == g.spec_cell_of(i));
            }
        }
    }
    proof {
        // re-establish the search invariant piece by piece after closing
        // the cell, before its neighbors are expanded
        let sidx = g.spec_idx(start_cell);
        g.lemma_idx_in_range(goal_cell);
        g.lemma_idx_in_range(start_cell);
        assert(parents@.len() == wh);
        assert(discovered@.len() == wh);
        assert(closed_flag@.len() == wh);
        assert(gcost@.len() == wh);
        assert(discovered@[sidx]);
        assert(gcost@[sidx] == 0);
        assert(forall|i: int|
            0 <= i < wh && #[trigger] discovered@[i] ==> (i == sidx || g.spec_traversable(
                g.spec_cell_of(i),
                INSCRIBED_INFLATED_OBSTACLE,
            )));
        assert(forall|i: int|
            0 <= i < wh ==> ((#[trigger] parents@[i]) is Some <==> (discovered@[i] && i != sidx)));
        assert(forall|i: int|
            0 <= i < wh && (#[trigger] parents@[i]) is Some ==> (0 <= parents@[i]->0 < wh
                && discovered@[parents@[i]->0 as int] && closed_flag@[parents@[i]->0 as int]
                && adjacent8(g.spec_cell_of(parents@[i]->0 as int), g.spec_cell_of(i)) && rank[
                parents@[i]->0 as int
            ] < rank[i]));
        assert(forall|i: int| 0 <= i < wh && (#[trigger] closed_flag@[i]) ==> discovered@[i]);
        assert(forall|i: int|
            0 <= i < wh ==> ((#[trigger] closed_flag@[i]) <==> closed_set.contains(i)));
        assert(closed_set.finite());
        assert(closed_set.subset_of(set_int_range(0, wh)));
        assert(closed_set.len() == closed_list@.len());
        assert(closed_set.len() <= wh);
        assert forall|k: int| 0 <= k < closed_list@.len() implies g.spec_in_map(
            #[trigger] closed_list@[k],
        ) && closed_flag@[g.spec_idx(closed_list@[k])] by {
            if k < closed_list@.len() - 1 {
                assert(closed_list@[k] == old_closed_list[k]);
                g.lemma_idx_in_range(old_closed_list[k]);
            } else {
                assert(closed_list@[k] == cur);
            }
        }
        assert(forall|i: int|
            0 <= i < wh && (#[trigger] closed_flag@[i]) ==> closed_list@.contains(
                g.spec_cell_of(i),
            ));
        assert(closed_list@.no_duplicates());
        assert forall|i: int| 0 <= i < wh && (#[trigger] closed_flag@[i]) implies rank[i]
            < closed_set.len() by {
            if i == ci as int {
                assert(old(discovered)@[i]);
                assert(!old(closed_flag)@[i]);
                assert(rank[i] <= closed_set0.len());
            }
        }
        assert(forall|i: int|
            0 <= i < wh && #[trigger] discovered@[i] && !closed_flag@[i] ==> rank[i]
                <= closed_set.len());
        assert(forall|k: int|
            0 <= k < frontier@.len() ==> g.spec_in_map((#[trigger] frontier@[k]).0) && discovered@[
                g.spec_idx(frontier@[k].0)
            ]);
        assert(forall|i: int|
            0 <= i < wh && #[trigger] discovered@[i] && !closed_flag@[i] && i != -1 ==> (exists|
                k: int,
            | 0 <= k < frontier@.len() && (#[trigger] frontier@[k]).0 == g.spec_cell_of(i)));
        assert(!closed_flag@[g.spec_idx(goal_cell)]);
        assert(forall|i: int|
            0 <= i < wh ==> (((#[trigger] gcost@[i]) as int) < u64::MAX <==> discovered@[i]));
        assert(forall|i: int|
            0 <= i < wh && #[trigger] discovered@[i] ==> (gcost@[i] as int) <= 141 * rank[i]);
    }

    proof {
        if kind is Bfs {
            g.lemma_cell_of_idx(cur);
            // the newly closed cell's depth is hop-optimal (from the cut
            // argument made by the caller) and below every queued depth
            assert forall|i: int, s: Seq<(u32, u32)>|
                0 <= i < wh && (#[trigger] closed_flag@[i]) && #[trigger] is_path_seq(
                    g,
                    s,
                    start_cell,
                    g.spec_cell_of(i),
                ) implies s.len() - 1 >= rank[i] by {
                if i == ci as int {
                    assert(g.spec_cell_of(i) == cur);
                } else {
                    assert(old(closed_flag)@[i]);
                }
            }
            assert forall|i: int, q: int|
                0 <= i < wh && (#[trigger] closed_flag@[i]) && 0 <= q
                    < frontier@.len() implies rank[i] <= rank[g.spec_idx(
                (#[trigger] frontier@[q]).0,
            )] by {
                if i != ci as int {
                    assert(old(closed_flag)@[i]);
                }
            }
            assert(bfs_inv(g, start_cell, parents@, closed_flag@, frontier@, rank));
            assert(bfs_relax_except(g, closed_flag@, rank, ci as int));
        }
        if kind is Dijkstra {
            g.lemma_cell_of_idx(cur);
            // the newly closed cell's cost is path-optimal (from the cut
            // argument made by the caller) and below every entry priority
            assert forall|i: int, s: Seq<(u32, u32)>|
                0 <= i < wh && (#[trigger] closed_flag@[i]) && #[trigger] is_path_seq(
                    g,
                    s,
                    start_cell,
                    g.spec_cell_of(i),
                ) implies path_cost(s) >= gcost@[i] as int by {
                if i == ci as int {
                    assert(g.spec_cell_of(i) == cur);
                } else {
                    assert(old(closed_flag)@[i]);
                }
            }
            assert forall|i: int, q: int|
                0 <= i < wh && (#[trigger] closed_flag@[i]) && 0 <= q
                    < frontier@.len() implies (gcost@[i] as int) <= (
            #[trigger] frontier@[q]).1 as int by {
                if i != ci as int {
                    assert(old(closed_flag)@[i]);
                }
            }
            assert(dij_inv(g, start_cell, parents@, discovered@, closed_flag@, frontier@, gcost@, -1));
            assert(dij_relax_except(g, closed_flag@, gcost@, ci as int));
        }
    }

    // expand the traversable neighbors of the current cell
    let nbrs = get_neighbors_8_con(cur, gridmap);
    let mut m: usize = 0;
    while m < nbrs.len()
        invariant
            g == *gridmap,
            wh == g.spec_width() * g.spec_height(),
            g.spec_in_map(cur),
            ci as int == g.spec_idx(cur),
            0 <= (ci as int) && (ci as int) < wh,
            closed_flag@.len() == wh,
            closed_flag@[ci as int],
            cur != goal_cell,
            m <= nbrs@.len(),
            forall|nb: (u32, u32)|
                #[trigger] nbrs@.contains(nb) <==> (adjacent8(cur, nb) && g.spec_traversable(
                    nb,
                    INSCRIBED_INFLATED_OBSTACLE,
                )),
            search_inv_core(
                g,
                start_cell,
                goal_cell,
                parents@,
                discovered@,
                closed_flag@,
                closed_list@,
                frontier@,
                gcost@,
                rank,
                closed_set,
                -1,
            ),
            closure_except(g, discovered@, closed_flag@, ci as int),
            forall|q: int|
                0 <= q < m ==> g.spec_in_map(#[trigger] nbrs@[q]) && discovered@[g.spec_idx(
                    nbrs@[q],
                )],
            closed_list@.len() == old_closed_list.len() + 1,
            kind is Dijkstra ==> dij_inv(
                g,
                start_cell,
                parents@,
                discovered@,
                closed_flag@,
                frontier@,
                gcost@,
                -1,
            ),
            kind is Dijkstra ==> dij_relax_except(g, closed_flag@, gcost@, ci as int),
            kind is Dijkstra ==> (forall|q: int|
                0 <= q < m ==> (gcost@[g.spec_idx(#[trigger] nbrs@[q])] as int) <= (gcost@[
                    ci as int
                ] as int) + l2_cost_spec(cur, nbrs@[q])),
            kind is Dijkstra ==> (forall|i: int|
                0 <= i < wh && (#[trigger] closed_flag@[i]) ==> (gcost@[i] as int) <= gcost@[
                    ci as int
                ] as int),
            kind is Bfs ==> bfs_inv(g, start_cell, parents@, closed_flag@, frontier@, rank),
            kind is Bfs ==> bfs_relax_except(g, closed_flag@, rank, ci as int),
            kind is Bfs ==> (forall|q: int|
                0 <= q < m ==> rank[g.spec_idx(#[trigger] nbrs@[q])] <= rank[ci as int] + 1),
            kind is Bfs ==> (forall|i: int|
                0 <= i < wh && (#[trigger] closed_flag@[i]) ==> rank[i] <= rank[ci as int]),
            kind is Bfs ==> (forall|q: int|
                0 <= q < frontier@.len() ==> rank[ci as int] <= rank[g.spec_idx(
                    (#[trigger] frontier@[q]).0,
                )] && rank[g.spec_idx(frontier@[q].0)] <= rank[ci as int] + 1),
        decreases nbrs@.len() - m,
    {
        let nb = nbrs[m];
        let ghost gcost_entry = gcost@;
        let ghost rank_entry = rank;
        let ghost discovered_entry = discovered@;
        proof {
            assert(nbrs@.contains(nbrs@[m as int]));
            assert(g.spec_traversable(nb, INSCRIBED_INFLATED_OBSTACLE));
        }
        let nbi = gridmap.xy_to_idx(nb);
        if !closed_flag[nbi] {
            let edge = get_l2_cost(cur, nb);
            proof {
                lemma_adjacent_cost_le_141(cur, nb, edge as int);
                lemma_adjacent_cost_ge_100(cur, nb, edge as int);
                assert(closed_flag@[ci as int]);
                assert(rank[ci as int] < closed_set.len());
                assert(closed_set.len() <= wh);
                assert(141 * rank[ci as int] <= 141 * wh) by (nonlinear_arith)
                    requires rank[ci as int] <= wh;
            }
            let alt = gcost[ci] + edge;
            let mut do_discover = false;
            let mut prio: u64 = 0;
            match kind {
                SearchKind::Bfs | SearchKind::Dfs => {
                    if !discovered[nbi] {
                        do_discover = true;
                    }
                },
                SearchKind::Dijkstra => {
                    if alt < gcost[nbi] {
                        do_discover = true;
                        prio = alt;
                    }
                },
                SearchKind::AStar => {
                    if alt < gcost[nbi] {
                        do_discover = true;
                        let est = get_l2_cost(nb, goal_cell);
                        proof {
                            lemma_l2_cost_bound(nb, goal_cell, est as int);
                        }
                        prio = alt + est;
                    }
                },
            }
            if do_discover {
                proof {
                    // the start cell is never rediscovered: its cost is zero,
                    // a candidate cost is at least 100, and for the
                    // unweighted variants it is already discovered
                    assert(nbi as int != g.spec_idx(start_cell));
                    assert(cur != nb);
                    if ci as int == nbi as int {
                        g.lemma_idx_injective(cur, nb);
                    }
                    assert(ci as int != nbi as int);
                }
                let ghost old_parents = parents@;
                let ghost old_frontier = frontier@;
                parents.set(nbi, Some(ci as u32));
                discovered.set(nbi, true);
                gcost.set(nbi, alt);
                frontier.push((nb, prio));
                proof {
                    rank = rank.insert(nbi as int, (rank[ci as int] + 1) as nat);
                    g.lemma_cell_of_idx(cur);
                    g.lemma_cell_of_idx(nb);
                    // no link points at the rediscovered cell: link targets
                    // are closed and this cell is not
                    assert forall|i: int|
                        0 <= i < wh && (#[trigger] parents@[i]) is Some implies (0 <= parents@[i]->0
                            < wh && discovered@[parents@[i]->0 as int]
                            && closed_flag@[parents@[i]->0 as int] && adjacent8(
                            g.spec_cell_of(parents@[i]->0 as int),
                            g.spec_cell_of(i),
                        ) && rank[parents@[i]->0 as int] < rank[i]) by {
                        if i == nbi as int {
                            assert(parents@[i]->0 == ci as u32);
                        } else {
                            assert(old_parents[i] == parents@[i]);
                            assert(parents@[i]->0 as int != nbi as int);
                        }
                    }
                    // frontier entries for open cells survive the push
                    assert forall|i: int|
                        0 <= i < wh && #[trigger] discovered@[i] && !closed_flag@[i] implies (
                        exists|q: int|
                            0 <= q < frontier@.len() && (#[trigger] frontier@[q]).0
                                == g.spec_cell_of(i)) by {
                        if i == nbi as int {
                            assert(frontier@[frontier@.len() - 1].0 == g.spec_cell_of(i));
                        } else {
                            let q0 = choose|q0: int|
                                0 <= q0 < old_frontier.len() && (#[trigger] old_frontier[q0]).0
                                    == g.spec_cell_of(i);
                            assert(frontier@[q0].0 == g.spec_cell_of(i));
                        }
                    }
                    if kind is Dijkstra {
                        assert(prio == alt);
                        lemma_l2_cost_spec_unique(cur, nb, edge as int);
                        // exact-priority coverage survives the push: the new
                        // cell is covered by the new entry, the rest keep
                        // their old entries and costs
                        assert forall|i: int|
                            0 <= i < wh && #[trigger] discovered@[i] && !closed_flag@[i] && i
                                != -1 implies (exists|q: int|
                            0 <= q < frontier@.len() && (#[trigger] frontier@[q]).0
                                == g.spec_cell_of(i) && frontier@[q].1 == gcost@[i]) by {
                            if i == nbi as int {
                                assert(frontier@[frontier@.len() - 1].0 == g.spec_cell_of(i)
                                    && frontier@[frontier@.len() - 1].1 == gcost@[i]);
                            } else {
                                let q0 = choose|q0: int|
                                    0 <= q0 < old_frontier.len() && (#[trigger] old_frontier[q0]).0
                                        == g.spec_cell_of(i) && old_frontier[q0].1
                                        == gcost_entry[i];
                                assert(frontier@[q0].0 == g.spec_cell_of(i) && frontier@[q0].1
                                    == gcost@[i]);
                            }
                        }
                        assert forall|q: int| 0 <= q < frontier@.len() implies (gcost@[g.spec_idx(
                            (#[trigger] frontier@[q]).0,
                        )] as int) <= frontier@[q].1 as int by {
                            if q < frontier@.len() - 1 {
                                assert(frontier@[q] == old_frontier[q]);
                                g.lemma_idx_in_range(old_frontier[q].0);
                            }
                        }
                        assert forall|i: int, q: int|
                            0 <= i < wh && (#[trigger] closed_flag@[i]) && 0 <= q
                                < frontier@.len() implies (gcost@[i] as int) <= (
                        #[trigger] frontier@[q]).1 as int by {
                            if q < frontier@.len() - 1 {
                                assert(frontier@[q] == old_frontier[q]);
                            } else {
                                assert((gcost_entry[i] as int) <= gcost_entry[ci as int] as int);
                            }
                        }
                        // each link's cost is its parent's cost plus the edge
                        assert forall|i: int|
                            0 <= i < wh && (#[trigger] parents@[i]) is Some implies (
                        gcost@[i] as int) == (gcost@[parents@[i]->0 as int] as int)
                            + l2_cost_spec(
                            g.spec_cell_of(parents@[i]->0 as int),
                            g.spec_cell_of(i),
                        ) by {
                            if i == nbi as int {
                                assert(gcost@[i] == alt);
                            } else {
                                assert(old_parents[i] == parents@[i]);
                                assert(parents@[i]->0 as int != nbi as int);
                            }
                        }
                        // closed costs and their optimality are untouched
                        assert forall|i: int, s: Seq<(u32, u32)>|
                            0 <= i < wh && (#[trigger] closed_flag@[i]) && #[trigger] is_path_seq(
                                g,
                                s,
                                start_cell,
                                g.spec_cell_of(i),
                            ) implies path_cost(s) >= gcost@[i] as int by {
                            assert(gcost@[i] == gcost_entry[i]);
                        }
                        assert forall|i: int, nb2: (u32, u32)|
                            0 <= i < closed_flag@.len() && (#[trigger] closed_flag@[i]) && i
                                != ci as int && adjacent8(g.spec_cell_of(i), nb2)
                                && #[trigger] g.spec_traversable(
                                nb2,
                                INSCRIBED_INFLATED_OBSTACLE,
                            ) implies (gcost@[g.spec_idx(nb2)] as int) <= (gcost@[i] as int)
                            + l2_cost_spec(g.spec_cell_of(i), nb2) by {
                            g.lemma_idx_in_range(nb2);
                            assert((gcost_entry[g.spec_idx(nb2)] as int) <= (
                            gcost_entry[i] as int) + l2_cost_spec(g.spec_cell_of(i), nb2));
                        }
                        assert((gcost@[g.spec_idx(nb)] as int) <= (gcost@[ci as int] as int)
                            + l2_cost_spec(cur, nb));
                    }
                    if kind is Bfs {
                        // breadth-first only ever discovers fresh cells, so
                        // no earlier queue entry points at this one
                        assert(!discovered_entry[nbi as int]);
                        assert(rank[ci as int] == rank_entry[ci as int]);
                        assert forall|q: int|
                            0 <= q < old_frontier.len() implies g.spec_idx(
                            (#[trigger] old_frontier[q]).0,
                        ) != nbi as int && rank[g.spec_idx(old_frontier[q].0)] == rank_entry[
                            g.spec_idx(old_frontier[q].0)
                        ] by {
                            assert(discovered_entry[g.spec_idx(old_frontier[q].0)]);
                        }
                        // the queue stays ordered within one level
                        assert forall|q1: int, q2: int|
                            0 <= q1 <= q2 < frontier@.len() implies rank[g.spec_idx(
                            (#[trigger] frontier@[q1]).0,
                        )] <= rank[g.spec_idx((#[trigger] frontier@[q2]).0)] && rank[g.spec_idx(
                            frontier@[q2].0,
                        )] <= rank[g.spec_idx(frontier@[q1].0)] + 1 by {
                            if q2 < frontier@.len() - 1 {
                                assert(frontier@[q1] == old_frontier[q1]);
                                assert(frontier@[q2] == old_frontier[q2]);
                            } else if q1 < frontier@.len() - 1 {
                                assert(frontier@[q1] == old_frontier[q1]);
                                assert(frontier@[q2].0 == nb);
                                assert(rank_entry[ci as int] <= rank_entry[g.spec_idx(
                                    old_frontier[q1].0,
                                )]);
                                assert(rank_entry[g.spec_idx(old_frontier[q1].0)] <= rank_entry[
                                    ci as int
                                ] + 1);
                            } else {
                                assert(frontier@[q1].0 == nb);
                            }
                        }
                        assert forall|i: int, q: int|
                            0 <= i < wh && (#[trigger] closed_flag@[i]) && 0 <= q
                                < frontier@.len() implies rank[i] <= rank[g.spec_idx(
                            (#[trigger] frontier@[q]).0,
                        )] by {
                            assert(rank[i] == rank_entry[i]);
                            if q < frontier@.len() - 1 {
                                assert(frontier@[q] == old_frontier[q]);
                            } else {
                                assert(rank_entry[i] <= rank_entry[ci as int]);
                            }
                        }
                        assert forall|i: int|
                            0 <= i < wh && (#[trigger] parents@[i]) is Some implies rank[i]
                            == rank[parents@[i]->0 as int] + 1 by {
                            if i == nbi as int {
                                assert(parents@[i]->0 == ci as u32);
                            } else {
                                assert(old_parents[i] == parents@[i]);
                                assert(parents@[i]->0 as int != nbi as int);
                                assert(rank[i] == rank_entry[i]);
                            }
                        }
                        assert forall|i: int, s: Seq<(u32, u32)>|
                            0 <= i < wh && (#[trigger] closed_flag@[i]) && #[trigger] is_path_seq(
                                g,
                                s,
                                start_cell,
                                g.spec_cell_of(i),
                            ) implies s.len() - 1 >= rank[i] by {
                            assert(rank[i] == rank_entry[i]);
                        }
                        assert forall|i: int, nb2: (u32, u32)|
                            0 <= i < closed_flag@.len() && (#[trigger] closed_flag@[i]) && i
                                != ci as int && adjacent8(g.spec_cell_of(i), nb2)
                                && #[trigger] g.spec_traversable(
                                nb2,
                                INSCRIBED_INFLATED_OBSTACLE,
                            ) implies rank[g.spec_idx(nb2)] <= rank[i] + 1 by {
                            g.lemma_idx_in_range(nb2);
                            assert(discovered_entry[g.spec_idx(nb2)]);
                            assert(rank_entry[g.spec_idx(nb2)] <= rank_entry[i] + 1);
                        }
                        assert(rank[g.spec_idx(nb)] <= rank[ci as int] + 1);
                        assert(bfs_inv(g, start_cell, parents@, closed_flag@, frontier@, rank));
                    }
                }
            } else {
                proof {
                    match kind {
                        SearchKind::Bfs | SearchKind::Dfs => {
                            assert(discovered@[nbi as int]);
                        },
                        _ => {
                            assert(gcost@[nbi as int] <= alt);
                            assert(discovered@[nbi as int]);
                        },
                    }
                    if kind is Dijkstra {
                        lemma_l2_cost_spec_unique(cur, nb, edge as int);
                        assert((gcost@[g.spec_idx(nb)] as int) <= (gcost@[ci as int] as int)
                            + l2_cost_spec(cur, nb));
                    }
                    if kind is Bfs {
                        // the neighbor is already queued, so it sits within
                        // one level of the expanded cell
                        assert(discovered@[nbi as int] && !closed_flag@[nbi as int]);
                        let q0 = choose|q0: int|
                            0 <= q0 < frontier@.len() && (#[trigger] frontier@[q0]).0
                                == g.spec_cell_of(nbi as int);
                        g.lemma_idx_cell_of(nbi as int);
                        assert(rank[g.spec_idx(frontier@[q0].0)] <= rank[ci as int] + 1);
                        assert(rank[g.spec_idx(nb)] <= rank[ci as int] + 1);
                    }
                }
            }
        } else {
            proof {
                if kind is Dijkstra {
                    lemma_l2_cost_spec_is(cur, nb);
                    assert((gcost@[nbi as int] as int) <= gcost@[ci as int] as int);
                    assert((gcost@[g.spec_idx(nb)] as int) <= (gcost@[ci as int] as int)
                        + l2_cost_spec(cur, nb));
                }
                if kind is Bfs {
                    assert(rank[nbi as int] <= rank[ci as int]);
                    assert(rank[g.spec_idx(nb)] <= rank[ci as int] + 1);
                }
            }
        }
        proof {
            // re-establish the search invariant after this neighbor was
            // skipped, relaxed or discovered
            let sidx = g.spec_idx(start_cell);
            g.lemma_idx_in_range(goal_cell);
            g.lemma_idx_in_range(start_cell);
            assert(parents@.len() == wh);
            assert(discovered@.len() == wh);
            assert(closed_flag@.len() == wh);
            assert(gcost@.len() == wh);
            assert(discovered@[sidx]);
            assert(gcost@[sidx] == 0);
            assert(forall|i: int|
                0 <= i < wh && #[trigger] discovered@[i] ==> (i == sidx || g.spec_traversable(
                    g.spec_cell_of(i),
                    INSCRIBED_INFLATED_OBSTACLE,
                )));
            assert(forall|i: int|
                0 <= i < wh ==> ((#[trigger] parents@[i]) is Some <==> (discovered@[i] && i != sidx)));
            assert(forall|i: int|
                0 <= i < wh && (#[trigger] parents@[i]) is Some ==> (0 <= parents@[i]->0 < wh
                    && discovered@[parents@[i]->0 as int] && closed_flag@[parents@[i]->0 as int]
                    && adjacent8(g.spec_cell_of(parents@[i]->0 as int), g.spec_cell_of(i)) && rank[
                    parents@[i]->0 as int
                ] < rank[i]));
            assert(forall|i: int| 0 <= i < wh && (#[trigger] closed_flag@[i]) ==> discovered@[i]);
            assert(forall|i: int|
                0 <= i < wh ==> ((#[trigger] closed_flag@[i]) <==> closed_set.contains(i)));
            assert(closed_set.finite());
            assert(closed_set.subset_of(set_int_range(0, wh)));
            assert(closed_set.len() == closed_list@.len());
            assert(closed_set.len() <= wh);
            assert(forall|k: int|
                0 <= k < closed_list@.len() ==> g.spec_in_map(#[trigger] closed_list@[k])
                    && closed_flag@[g.spec_idx(closed_list@[k])]);
            assert(forall|i: int|
                0 <= i < wh && (#[trigger] closed_flag@[i]) ==> closed_list@.contains(
                    g.spec_cell_of(i),
                ));
            assert(closed_list@.no_duplicates());
            assert forall|i: int| 0 <= i < wh && (#[trigger] closed_flag@[i]) implies rank[i]
                < closed_set.len() by {
                assert(i != g.spec_idx(cur) || closed_flag@[i]);
            }
            assert(forall|i: int|
                0 <= i < wh && #[trigger] discovered@[i] && !closed_flag@[i] ==> rank[i]
                    <= closed_set.len());
            assert forall|k: int| 0 <= k < frontier@.len() implies g.spec_in_map(
                (#[trigger] frontier@[k]).0,
            ) && discovered@[g.spec_idx(frontier@[k].0)] by {
                g.lemma_idx_in_range(frontier@[k].0);
            }
            assert forall|i: int, nb2: (u32, u32)|
                0 <= i < closed_flag@.len() && (#[trigger] closed_flag@[i]) && i != ci as int
                    && adjacent8(g.spec_cell_of(i), nb2) && #[trigger] g.spec_traversable(
                    nb2,
                    INSCRIBED_INFLATED_OBSTACLE,
                ) implies discovered@[g.spec_idx(nb2)] by {
                g.lemma_idx_in_range(nb2);
            }
            assert forall|q: int| 0 <= q < m + 1 implies g.spec_in_map(#[trigger] nbrs@[q])
                && discovered@[g.spec_idx(nbrs@[q])] by {
                if q < m {
                    g.lemma_idx_in_range(nbrs@[q]);
                } else {
                    assert(nbrs@[q] == nb);
                    g.lemma_idx_in_range(nb);
                }
            }
            if kind is Bfs {
                assert(rank[ci as int] == rank_entry[ci as int]);
                assert forall|q: int| 0 <= q < m + 1 implies rank[g.spec_idx(
                    #[trigger] nbrs@[q],
                )] <= rank[ci as int] + 1 by {
                    if q < m {
                        g.lemma_idx_in_range(nbrs@[q]);
                        assert(discovered_entry[g.spec_idx(nbrs@[q])]);
                        assert(rank_entry[g.spec_idx(nbrs@[q])] <= rank_entry[ci as int] + 1);
                        assert(rank[g.spec_idx(nbrs@[q])] == rank_entry[g.spec_idx(nbrs@[q])]);
                    } else {
                        assert(nbrs@[q] == nb);
                    }
                }
                assert forall|i: int|
                    0 <= i < wh && (#[trigger] closed_flag@[i]) implies rank[i] <= rank[
                    ci as int
                ] by {
                    assert(rank[i] == rank_entry[i]);
                }
            }
            if kind is Dijkstra {
                assert(gcost@[ci as int] == gcost_entry[ci as int]);
                assert forall|q: int| 0 <= q < m + 1 implies (gcost@[g.spec_idx(
                    #[trigger] nbrs@[q],
                )] as int) <= (gcost@[ci as int] as int) + l2_cost_spec(cur, nbrs@[q]) by {
                    if q < m {
                        g.lemma_idx_in_range(nbrs@[q]);
                        assert((gcost_entry[g.spec_idx(nbrs@[q])] as int) <= (gcost_entry[
                            ci as int
                        ] as int) + l2_cost_spec(cur, nbrs@[q]));
                        assert((gcost@[g.spec_idx(nbrs@[q])] as int) <= gcost_entry[g.spec_idx(
                            nbrs@[q],
                        )] as int);
                    } else {
                        assert(nbrs@[q] == nb);
                    }
                }
                assert forall|i: int|
                    0 <= i < wh && (#[trigger] closed_flag@[i]) implies (gcost@[i] as int)
                    <= gcost@[ci as int] as int by {
                    assert(gcost@[i] == gcost_entry[i]);
                }
            }
            assert(forall|i: int|
                0 <= i < wh && #[trigger] discovered@[i] && !closed_flag@[i] && i != -1 ==> (exists|
                    k: int,
                | 0 <= k < frontier@.len() && (#[trigger] frontier@[k]).0 == g.spec_cell_of(i)));
            assert(!closed_flag@[g.spec_idx(goal_cell)]);
            assert(forall|i: int|
                0 <= i < wh ==> (((#[trigger] gcost@[i]) as int) < u64::MAX <==> discovered@[i]));
            assert(forall|i: int|
                0 <= i < wh && #[trigger] discovered@[i] ==> (gcost@[i] as int) <= 141 * rank[i]);
        }
        m += 1;
    }
    proof {
        // every traversable neighbor of the expanded cell is discovered, so
        // the closure property holds for it as well now
        assert forall|i: int, nb: (u32, u32)|
            0 <= i < closed_flag@.len() && (#[trigger] closed_flag@[i]) && adjacent8(
                g.spec_cell_of(i),
                nb,
            ) && #[trigger] g.spec_traversable(nb, INSCRIBED_INFLATED_OBSTACLE) implies discovered@[
            g.spec_idx(nb)
        ] by {
            if i == ci as int {
                g.lemma_cell_of_idx(cur);
                assert(adjacent8(cur, nb));
                assert(nbrs@.contains(nb));
                let q = choose|q: int| 0 <= q < nbrs@.len() && nbrs@[q] == nb;
                assert(discovered@[g.spec_idx(nbrs@[q])]);
            }
        }
        if kind is Dijkstra {
            // the expanded cell relaxed all its traversable neighbors
            assert forall|i: int, nb: (u32, u32)|
                0 <= i < closed_flag@.len() && (#[trigger] closed_flag@[i]) && i != -1 && adjacent8(
                    g.spec_cell_of(i),
                    nb,
                ) && #[trigger] g.spec_traversable(
                    nb,
                    INSCRIBED_INFLATED_OBSTACLE,
                ) implies (gcost@[g.spec_idx(nb)] as int) <= (gcost@[i] as int) + l2_cost_spec(
                g.spec_cell_of(i),
                nb,
            ) by {
                if i == ci as int {
                    g.lemma_cell_of_idx(cur);
                    assert(adjacent8(cur, nb));
                    assert(nbrs@.contains(nb));
                    let q = choose|q: int| 0 <= q < nbrs@.len() && nbrs@[q] == nb;
                    assert((gcost@[g.spec_idx(nbrs@[q])] as int) <= (gcost@[ci as int] as int)
                        + l2_cost_spec(cur, nbrs@[q]));
                }
            }
            assert(dij_relax_except(g, closed_flag@, gcost@, -1));
        }
        if kind is Bfs {
            // the expanded cell reached all its traversable neighbors
            // within one extra level
            assert forall|i: int, nb: (u32, u32)|
                0 <= i < closed_flag@.len() && (#[trigger] closed_flag@[i]) && i != -1 && adjacent8(
                    g.spec_cell_of(i),
                    nb,
                ) && #[trigger] g.spec_traversable(
                    nb,
                    INSCRIBED_INFLATED_OBSTACLE,
                ) implies rank[g.spec_idx(nb)] <= rank[i] + 1 by {
                if i == ci as int {
                    g.lemma_cell_of_idx(cur);
                    assert(adjacent8(cur, nb));
                    assert(nbrs@.contains(nb));
                    let q = choose|q: int| 0 <= q < nbrs@.len() && nbrs@[q] == nb;
                    assert(rank[g.spec_idx(nbrs@[q])] <= rank[ci as int] + 1);
                }
            }
            assert(bfs_relax_except(g, closed_flag@, rank, -1));
        }
    }
    (Ghost(rank), Ghost(closed_set))
}

/// Run one frontier search over the grid, from the start cell to the goal
/// cell, with the given ordering policy.
///
/// The returned plan's path is non-empty exactly when the goal is
/// reachable from the start through 8-connected cells that are traversable
/// at the default ceiling; a non-empty path runs from the start to the
/// goal along such cells. The closed list holds each expanded cell once;
/// when no path exists it covers everything reachable from the start.
pub fn frontier_search(
    kind: SearchKind,
    start_cell: (u32, u32),
    goal_cell: (u32, u32),
    gridmap: &Gridmap,
) -> (r: MotionPlan)
    requires
        gridmap.wf(),
        gridmap.spec_in_map(start_cell),
        gridmap.spec_in_map(goal_cell),
    ensures
        plan_valid(*gridmap, start_cell, goal_cell, r),
        r.path_fp@.len() == 0,
        r.closed_list_fp@.len() == 0,
        (kind is Dijkstra && r.path@.len() > 0) ==> (forall|s: Seq<(u32, u32)>|
            #[trigger] is_path_seq(*gridmap, s, start_cell, goal_cell) ==> path_cost(s)
                >= path_cost(r.path@)),
        (kind is Bfs && r.path@.len() > 0) ==> (forall|s: Seq<(u32, u32)>|
            #[trigger] is_path_seq(*gridmap, s, start_cell, goal_cell) ==> s.len()
                >= r.path@.len()),
{
    let ghost g = *gridmap;
    let w = gridmap.get_width();
    let h = gridmap.get_height();
    proof {
        assert(w * h <= u32::MAX) by (nonlinear_arith)
            requires w as int * h as int <= u32::MAX;
    }
    let total: u32 = w * h;
    let wh: usize = total as usize;

    let mut parents: Vec<Option<u32>> = Vec::new();
    let mut discovered: Vec<bool> = Vec::new();
    let mut closed_flag: Vec<bool> = Vec::new();
    let mut gcost: Vec<u64> = Vec::new();
    while parents.len() < wh
        invariant
            parents@.len() <= wh,
            forall|i: int| 0 <= i < parents@.len() ==> (#[trigger] parents@[i]) is None,
        decreases wh - parents.len(),
    {
        parents.push(None);
    }
    while discovered.len() < wh
        invariant
            discovered@.len() <= wh,
            forall|i: int| 0 <= i < discovered@.len() ==> !(#[trigger] discovered@[i]),
        decreases wh - discovered.len(),
    {
        discovered.push(false);
    }
    while closed_flag.len() < wh
        invariant
            closed_flag@.len() <= wh,
            forall|i: int| 0 <= i < closed_flag@.len() ==> !(#[trigger] closed_flag@[i]),
        decreases wh - closed_flag.len(),
    {
        closed_flag.push(false);
    }
    while gcost.len() < wh
        invariant
            gcost@.len() <= wh,
            forall|i: int| 0 <= i < gcost@.len() ==> (#[trigger] gcost@[i]) == u64::MAX,
        decreases wh - gcost.len(),
    {
        gcost.push(u64::MAX);
    }

    let mut closed_list: Vec<(u32, u32)> = Vec::new();
    let mut frontier: Vec<((u32, u32), u64)> = Vec::new();
    let ghost mut rank: Map<int, nat> = Map::empty();
    let ghost mut closed_set: Set<int> = Set::empty();

    let si = gridmap.xy_to_idx(start_cell);
    let gi = gridmap.xy_to_idx(goal_cell);
    discovered.set(si, true);
    gcost.set(si, 0);
    proof {
        rank = rank.insert(si as int, 0);
    }
    let init_prio: u64 = match kind {
        SearchKind::AStar => get_l2_cost(start_cell, goal_cell),
        _ => 0,
    };
    frontier.push((start_cell, init_prio));

    proof {
        g.lemma_cell_of_idx(start_cell);
        g.lemma_cell_of_idx(goal_cell);
        lemma_int_range(0, wh as int);
        assert(frontier@[0].0 == g.spec_cell_of(si as int));
        if kind is Bfs {
            assert(rank[si as int] == 0);
            assert(g.spec_idx(frontier@[0].0) == si as int);
        }
        if kind is Dijkstra {
            assert(frontier@[0].1 == gcost@[si as int]);
            assert forall|i: int|
                0 <= i < wh && #[trigger] discovered@[i] && !closed_flag@[i] && i != -1 implies (
                exists|q: int|
                    0 <= q < frontier@.len() && (#[trigger] frontier@[q]).0 == g.spec_cell_of(i)
                        && frontier@[q].1 == gcost@[i]) by {
                assert(i == si as int);
                assert(frontier@[0].0 == g.spec_cell_of(i) && frontier@[0].1 == gcost@[i]);
            }
        }
    }

    while frontier.len() > 0
        invariant
            g == *gridmap,
            wh == g.spec_width() * g.spec_height(),
            si as int == g.spec_idx(start_cell),
            gi as int == g.spec_idx(goal_cell),
            search_inv_core(
                g,
                start_cell,
                goal_cell,
                parents@,
                discovered@,
                closed_flag@,
                closed_list@,
                frontier@,
                gcost@,
                rank,
                closed_set,
                -1,
            ),
            closure_except(g, discovered@, closed_flag@, -1),
            kind is Dijkstra ==> dij_inv(
                g,
                start_cell,
                parents@,
                discovered@,
                closed_flag@,
                frontier@,
                gcost@,
                -1,
            ),
            kind is Dijkstra ==> dij_relax_except(g, closed_flag@, gcost@, -1),
            kind is Bfs ==> bfs_inv(g, start_cell, parents@, closed_flag@, frontier@, rank),
            kind is Bfs ==> bfs_relax_except(g, closed_flag@, rank, -1),
        decreases wh - closed_list@.len(), frontier@.len(),
    {
        let k: usize = match kind {
            SearchKind::Bfs => 0,
            SearchKind::Dfs => frontier.len() - 1,
            _ => min_prio_index(&frontier),
        };
        let ghost old_frontier = frontier@;
        let entry = frontier.remove(k);
        let cur = entry.0;
        let ci = gridmap.xy_to_idx(cur);

        if cur.0 == goal_cell.0 && cur.1 == goal_cell.1 {
            proof {
                assert(cur == goal_cell);
                g.lemma_idx_in_range(goal_cell);
                assert(discovered@[g.spec_idx(goal_cell)]);
                assert forall|q: int|
                    0 <= q < closed_list@.len() implies discovered@[g.spec_idx(
                    #[trigger] closed_list@[q],
                )] by {
                    g.lemma_idx_in_range(closed_list@[q]);
                    assert(closed_flag@[g.spec_idx(closed_list@[q])]);
                }
                if kind is Bfs {
                    // breadth-first pops the oldest entry, whose depth is the
                    // frontier minimum; the cut argument bounds every
                    // start-to-goal path by the goal's depth in hops
                    assert(k == 0);
                    assert(old_frontier[0].0 == goal_cell);
                    let d_min = rank[gi as int] as int;
                    assert(g.spec_idx(old_frontier[0].0) == gi as int);
                    assert forall|q: int|
                        0 <= q < old_frontier.len() implies d_min <= rank[g.spec_idx(
                        (#[trigger] old_frontier[q]).0,
                    )] as int by {
                        assert(rank[g.spec_idx(old_frontier[0].0)] <= rank[g.spec_idx(
                            old_frontier[q].0,
                        )]);
                    }
                    assert forall|i: int|
                        0 <= i < wh && (#[trigger] closed_flag@[i]) implies rank[i] as int
                        <= d_min by {
                        assert(rank[i] <= rank[g.spec_idx(old_frontier[0].0)]);
                    }
                    assert forall|s: Seq<(u32, u32)>| #[trigger] is_path_seq(
                        g,
                        s,
                        start_cell,
                        goal_cell,
                    ) implies s.len() - 1 >= rank[gi as int] as int by {
                        lemma_bfs_cut(
                            g,
                            start_cell,
                            s,
                            s.len() - 1,
                            discovered@,
                            closed_flag@,
                            old_frontier,
                            rank,
                            d_min,
                        );
                        assert(s[s.len() - 1] == goal_cell);
                        assert(!closed_flag@[g.spec_idx(goal_cell)]);
                    }
                }
                if kind is Dijkstra {
                    // the popped entry's priority is the frontier minimum and
                    // bounds the goal's recorded cost from above, so every
                    // start-to-goal path costs at least the recorded cost
                    let p_min = entry.1 as int;
                    assert(old_frontier[k as int].0 == goal_cell);
                    assert((gcost@[gi as int] as int) <= p_min);
                    assert(old_frontier[k as int].1 as int == p_min);
                    assert forall|s: Seq<(u32, u32)>| #[trigger] is_path_seq(
                        g,
                        s,
                        start_cell,
                        goal_cell,
                    ) implies path_cost(s) >= gcost@[gi as int] as int by {
                        lemma_dijkstra_cut(
                            g,
                            start_cell,
                            s,
                            s.len() - 1,
                            parents@,
                            discovered@,
                            closed_flag@,
                            old_frontier,
                            gcost@,
                            p_min,
                        );
                        assert(s[s.len() - 1] == goal_cell);
                        assert(!closed_flag@[g.spec_idx(goal_cell)]);
                    }
                    assert forall|i: int|
                        0 <= i < parents@.len() && (#[trigger] parents@[i]) is Some implies (
                    gcost@[i] as int) == (gcost@[parents@[i]->0 as int] as int) + l2_cost_spec(
                        g.spec_cell_of(parents@[i]->0 as int),
                        g.spec_cell_of(i),
                    ) by {}
                }
            }
            let r = reconstruct_plan(
                gridmap,
                start_cell,
                goal_cell,
                &parents,
                &discovered,
                closed_list,
                Ghost(rank),
                Ghost(gcost@),
                Ghost(kind is Dijkstra),
                Ghost(kind is Bfs),
            );
            proof {
                if kind is Bfs {
                    assert(r.path@.len() == rank[gi as int] + 1);
                }
            }
            return r;
        }

        if closed_flag[ci] {
            proof {
                assert forall|i: int|
                    0 <= i < wh && #[trigger] discovered@[i] && !closed_flag@[i] implies (exists|
                        q: int,
                    | 0 <= q < frontier@.len() && (#[trigger] frontier@[q]).0 == g.spec_cell_of(
                        i,
                    )) by {
                    let q0 = choose|q0: int|
                        0 <= q0 < old_frontier.len() && (#[trigger] old_frontier[q0]).0
                            == g.spec_cell_of(i);
                    if q0 == k {
                        g.lemma_idx_cell_of(i);
                        assert(g.spec_idx(cur) == i);
                        assert(false);
                    } else if q0 < k {
                        assert(frontier@[q0].0 == g.spec_cell_of(i));
                    } else {
                        assert(frontier@[q0 - 1].0 == g.spec_cell_of(i));
                    }
                }
                if kind is Dijkstra {
                    assert forall|i: int|
                        0 <= i < wh && #[trigger] discovered@[i] && !closed_flag@[i] && i
                            != -1 implies (exists|q: int|
                        0 <= q < frontier@.len() && (#[trigger] frontier@[q]).0 == g.spec_cell_of(
                            i,
                        ) && frontier@[q].1 == gcost@[i]) by {
                        let q0 = choose|q0: int|
                            0 <= q0 < old_frontier.len() && (#[trigger] old_frontier[q0]).0
                                == g.spec_cell_of(i) && old_frontier[q0].1 == gcost@[i];
                        if q0 == k {
                            g.lemma_idx_cell_of(i);
                            assert(false);
                        } else if q0 < k {
                            assert(frontier@[q0].0 == g.spec_cell_of(i) && frontier@[q0].1
                                == gcost@[i]);
                        } else {
                            assert(frontier@[q0 - 1].0 == g.spec_cell_of(i) && frontier@[q0
                                - 1].1 == gcost@[i]);
                        }
                    }
                    assert forall|q: int| 0 <= q < frontier@.len() implies (gcost@[g.spec_idx(
                        (#[trigger] frontier@[q]).0,
                    )] as int) <= frontier@[q].1 as int by {
                        if q < k {
                            assert(frontier@[q] == old_frontier[q]);
                        } else {
                            assert(frontier@[q] == old_frontier[q + 1]);
                        }
                    }
                    assert forall|i: int, q: int|
                        0 <= i < wh && (#[trigger] closed_flag@[i]) && 0 <= q
                            < frontier@.len() implies (gcost@[i] as int) <= (
                    #[trigger] frontier@[q]).1 as int by {
                        if q < k {
                            assert(frontier@[q] == old_frontier[q]);
                        } else {
                            assert(frontier@[q] == old_frontier[q + 1]);
                        }
                    }
                }
                if kind is Bfs {
                    assert forall|q1: int, q2: int|
                        0 <= q1 <= q2 < frontier@.len() implies rank[g.spec_idx(
                        (#[trigger] frontier@[q1]).0,
                    )] <= rank[g.spec_idx((#[trigger] frontier@[q2]).0)] && rank[g.spec_idx(
                        frontier@[q2].0,
                    )] <= rank[g.spec_idx(frontier@[q1].0)] + 1 by {
                        let p1: int = if q1 < k { q1 } else { q1 + 1 };
                        let p2: int = if q2 < k { q2 } else { q2 + 1 };
                        assert(frontier@[q1] == old_frontier[p1]);
                        assert(frontier@[q2] == old_frontier[p2]);
                    }
                    assert forall|i: int, q: int|
                        0 <= i < wh && (#[trigger] closed_flag@[i]) && 0 <= q
                            < frontier@.len() implies rank[i] <= rank[g.spec_idx(
                        (#[trigger] frontier@[q]).0,
                    )] by {
                        let p: int = if q < k { q } else { q + 1 };
                        assert(frontier@[q] == old_frontier[p]);
                    }
                }
            }
            continue ;
        }

        proof {
            // frontier entries for still-open cells survive the removal
            assert forall|i: int|
                0 <= i < wh && #[trigger] discovered@[i] && !closed_flag@[i] && i != ci as int
                    implies (exists|q: int|
                    0 <= q < frontier@.len() && (#[trigger] frontier@[q]).0 == g.spec_cell_of(
                        i,
                    )) by {
                let q0 = choose|q0: int|
                    0 <= q0 < old_frontier.len() && (#[trigger] old_frontier[q0]).0
                        == g.spec_cell_of(i);
                if q0 == k {
                    g.lemma_idx_cell_of(i);
                    assert(false);
                } else if q0 < k {
                    assert(frontier@[q0].0 == g.spec_cell_of(i));
                } else {
                    assert(frontier@[q0 - 1].0 == g.spec_cell_of(i));
                }
            }
            if kind is Bfs {
                // the popped entry is the queue front; its depth is minimal
                assert(k == 0);
                assert(old_frontier[0].0 == cur);
                assert(g.spec_idx(old_frontier[0].0) == ci as int);
                let d_min = rank[ci as int] as int;
                assert forall|q: int|
                    0 <= q < old_frontier.len() implies d_min <= rank[g.spec_idx(
                    (#[trigger] old_frontier[q]).0,
                )] as int by {
                    assert(rank[g.spec_idx(old_frontier[0].0)] <= rank[g.spec_idx(
                        old_frontier[q].0,
                    )]);
                }
                assert forall|i: int|
                    0 <= i < wh && (#[trigger] closed_flag@[i]) implies rank[i] as int
                    <= d_min by {
                    assert(rank[i] <= rank[g.spec_idx(old_frontier[0].0)]);
                }
                // every path to the popped cell takes at least its depth
                assert forall|s: Seq<(u32, u32)>| #[trigger] is_path_seq(
                    g,
                    s,
                    start_cell,
                    cur,
                ) implies s.len() - 1 >= rank[ci as int] as int by {
                    lemma_bfs_cut(
                        g,
                        start_cell,
                        s,
                        s.len() - 1,
                        discovered@,
                        closed_flag@,
                        old_frontier,
                        rank,
                        d_min,
                    );
                    assert(s[s.len() - 1] == cur);
                    assert(!closed_flag@[ci as int]);
                }
                // remaining entries stay within one level of the popped depth
                assert forall|q: int|
                    0 <= q < frontier@.len() implies rank[ci as int] <= rank[g.spec_idx(
                    (#[trigger] frontier@[q]).0,
                )] && rank[g.spec_idx(frontier@[q].0)] <= rank[ci as int] + 1 by {
                    assert(frontier@[q] == old_frontier[q + 1]);
                    assert(rank[g.spec_idx(old_frontier[0].0)] <= rank[g.spec_idx(
                        old_frontier[q + 1].0,
                    )]);
                    assert(rank[g.spec_idx(old_frontier[q + 1].0)] <= rank[g.spec_idx(
                        old_frontier[0].0,
                    )] + 1);
                }
                // queue order survives the removal of the front entry
                assert forall|q1: int, q2: int|
                    0 <= q1 <= q2 < frontier@.len() implies rank[g.spec_idx(
                    (#[trigger] frontier@[q1]).0,
                )] <= rank[g.spec_idx((#[trigger] frontier@[q2]).0)] && rank[g.spec_idx(
                    frontier@[q2].0,
                )] <= rank[g.spec_idx(frontier@[q1].0)] + 1 by {
                    assert(frontier@[q1] == old_frontier[q1 + 1]);
                    assert(frontier@[q2] == old_frontier[q2 + 1]);
                }
                assert forall|i: int, q: int|
                    0 <= i < wh && (#[trigger] closed_flag@[i]) && 0 <= q
                        < frontier@.len() implies rank[i] <= rank[g.spec_idx(
                    (#[trigger] frontier@[q]).0,
                )] by {
                    assert(frontier@[q] == old_frontier[q + 1]);
                }
            }
            if kind is Dijkstra {
                let p_min = entry.1 as int;
                // an open cell is only ever popped at its exact priority,
                // which is then the minimum of the whole frontier
                g.lemma_cell_of_idx(cur);
                let q0 = choose|q0: int|
                    0 <= q0 < old_frontier.len() && (#[trigger] old_frontier[q0]).0
                        == g.spec_cell_of(ci as int) && old_frontier[q0].1 == gcost@[ci as int];
                assert(p_min <= old_frontier[q0].1 as int);
                assert((gcost@[ci as int] as int) <= p_min);
                assert((gcost@[ci as int] as int) == p_min);
                // every path to the popped cell costs at least its cost
                assert forall|s: Seq<(u32, u32)>| #[trigger] is_path_seq(
                    g,
                    s,
                    start_cell,
                    cur,
                ) implies path_cost(s) >= gcost@[ci as int] as int by {
                    lemma_dijkstra_cut(
                        g,
                        start_cell,
                        s,
                        s.len() - 1,
                        parents@,
                        discovered@,
                        closed_flag@,
                        old_frontier,
                        gcost@,
                        p_min,
                    );
                    assert(s[s.len() - 1] == cur);
                    assert(!closed_flag@[ci as int]);
                }
                // closed costs stay below the popped cost, and the popped
                // cost stays below every remaining entry
                assert forall|i: int|
                    0 <= i < wh && (#[trigger] closed_flag@[i]) implies (gcost@[i] as int)
                    <= gcost@[ci as int] as int by {
                    assert((gcost@[i] as int) <= old_frontier[k as int].1 as int);
                }
                assert forall|q: int| 0 <= q < frontier@.len() implies (gcost@[ci as int] as int)
                    <= (#[trigger] frontier@[q]).1 as int by {
                    if q < k {
                        assert(frontier@[q] == old_frontier[q]);
                    } else {
                        assert(frontier@[q] == old_frontier[q + 1]);
                    }
                }
                // coverage at exact priorities survives the removal, for
                // every open cell but the popped one
                assert forall|i: int|
                    0 <= i < wh && #[trigger] discovered@[i] && !closed_flag@[i] && i
                        != ci as int implies (exists|q: int|
                    0 <= q < frontier@.len() && (#[trigger] frontier@[q]).0 == g.spec_cell_of(i)
                        && frontier@[q].1 == gcost@[i]) by {
                    let q1 = choose|q1: int|
                        0 <= q1 < old_frontier.len() && (#[trigger] old_frontier[q1]).0
                            == g.spec_cell_of(i) && old_frontier[q1].1 == gcost@[i];
                    if q1 == k {
                        g.lemma_idx_cell_of(i);
                        assert(false);
                    } else if q1 < k {
                        assert(frontier@[q1].0 == g.spec_cell_of(i) && frontier@[q1].1
                            == gcost@[i]);
                    } else {
                        assert(frontier@[q1 - 1].0 == g.spec_cell_of(i) && frontier@[q1 - 1].1
                            == gcost@[i]);
                    }
                }
                assert forall|q: int| 0 <= q < frontier@.len() implies (gcost@[g.spec_idx(
                    (#[trigger] frontier@[q]).0,
                )] as int) <= frontier@[q].1 as int by {
                    if q < k {
                        assert(frontier@[q] == old_frontier[q]);
                    } else {
                        assert(frontier@[q] == old_frontier[q + 1]);
                    }
                }
                assert forall|i: int, q: int|
                    0 <= i < wh && (#[trigger] closed_flag@[i]) && 0 <= q
                        < frontier@.len() implies (gcost@[i] as int) <= (
                #[trigger] frontier@[q]).1 as int by {
                    if q < k {
                        assert(frontier@[q] == old_frontier[q]);
                    } else {
                        assert(frontier@[q] == old_frontier[q + 1]);
                    }
                }
            }
        }
        // the removed entry belongs to the cell we are about to close, so
        // the frontier-coverage property is restored by closing it
        let res = close_and_expand(
            kind,
            gridmap,
            start_cell,
            goal_cell,
            cur,
            &mut parents,
            &mut discovered,
            &mut closed_flag,
            &mut closed_list,
            &mut frontier,
            &mut gcost,
            Ghost(rank),
            Ghost(closed_set),
        );
        proof {
            rank = res.0@;
            closed_set = res.1@;
        }
    }

    // the frontier is exhausted: everything discovered is closed, and the
    // goal was never reached
    proof {
        assert forall|i: int|
            0 <= i < discovered@.len() && #[trigger] discovered@[i] implies closed_flag@[i] by {
            if !closed_flag@[i] {
                let q = choose|q: int|
                    0 <= q < frontier@.len() && (#[trigger] frontier@[q]).0 == g.spec_cell_of(i);
                assert(false);
            }
        }
        assert(!reachable8(g, start_cell, goal_cell)) by {
            if reachable8(g, start_cell, goal_cell) {
                let s = choose|s: Seq<(u32, u32)>| is_path_seq(g, s, start_cell, goal_cell);
                g.lemma_idx_in_range(start_cell);
                lemma_path_closed(g, s, s.len() - 1, discovered@, closed_flag@);
                assert(closed_flag@[g.spec_idx(goal_cell)]);
            }
        }
        assert forall|c: (u32, u32)| reachable8(g, start_cell, c) implies closed_list@.contains(
            c,
        ) by {
            let s = choose|s: Seq<(u32, u32)>| is_path_seq(g, s, start_cell, c);
            g.lemma_idx_in_range(start_cell);
            lemma_path_closed(g, s, s.len() - 1, discovered@, closed_flag@);
            assert(closed_flag@[g.spec_idx(c)]);
            g.lemma_cell_of_idx(c);
        }
        assert forall|q: int| 0 <= q < closed_list@.len() implies reachable8(
            g,
            start_cell,
            #[trigger] closed_list@[q],
        ) by {
            assert(closed_flag@[g.spec_idx(closed_list@[q])]);
            g.lemma_idx_in_range(closed_list@[q]);
            g.lemma_cell_of_idx(closed_list@[q]);
            lemma_discovered_reachable(
                g,
                start_cell,
                parents@,
                discovered@,
                rank,
                g.spec_idx(closed_list@[q]),
            );
        }
    }
    MotionPlan { path: Vec::new(), path_fp: Vec::new(), closed_list, closed_list_fp: Vec::new() }
}

} // verus!
