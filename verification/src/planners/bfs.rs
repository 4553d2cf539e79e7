//! Breadth-first search over the occupancy grid.

use vstd::prelude::*;
use crate::maps::gridmap::Gridmap;
use crate::planners::planner_base::Planner;
use crate::planners::planner_common::MotionPlan;
use crate::planners::planner_common::plan_valid;
use crate::planners::planner_common::is_path_seq;
use crate::planners::frontier::SearchKind;
use crate::planners::frontier::frontier_search;

verus! {

/// Retrieve a motion plan from `start_cell` to `goal_cell` by breadth-first
/// search: the frontier is a queue, so on unweighted grids the returned
/// path has the fewest edges.
///
/// The path is non-empty exactly when the goal is reachable from the start
/// through 8-connected traversable cells; a non-empty path runs from the
/// start to the goal along such cells with no more cells than any other
/// valid start-to-goal path, and the closed list holds each expanded cell
/// once.
pub fn generate_plan(start_cell: (u32, u32), goal_cell: (u32, u32), gridmap: &Gridmap) -> (r:
    MotionPlan)
    requires
        gridmap.wf(),
        gridmap.spec_in_map(start_cell),
        gridmap.spec_in_map(goal_cell),
    ensures
        plan_valid(*gridmap, start_cell, goal_cell, r),
        r.path_fp@.len() == 0,
        r.closed_list_fp@.len() == 0,
        r.path@.len() > 0 ==> (forall|s: Seq<(u32, u32)>|
            #[trigger] is_path_seq(*gridmap, s, start_cell, goal_cell) ==> s.len()
                >= r.path@.len()),
{
    frontier_search(SearchKind::Bfs, start_cell, goal_cell, gridmap)
}

/// Breadth-first search planner.
pub struct BFSPlanner {
    pub start: (u32, u32),
    pub goal: (u32, u32),
    pub gridmap: Gridmap,
}

impl Planner for BFSPlanner {
    open spec fn inv(&self) -> bool {
        &&& self.gridmap.wf()
        &&& self.gridmap.spec_in_map(self.start)
        &&& self.gridmap.spec_in_map(self.goal)
    }

    open spec fn grid_of(&self) -> Gridmap {
        self.gridmap
    }

    open spec fn start_of(&self) -> (u32, u32) {
        self.start
    }

    open spec fn goal_of(&self) -> (u32, u32) {
        self.goal
    }

    open spec fn fresh_defaults(&self) -> bool {
        true
    }

    open spec fn plan_ok(&self, plan: &MotionPlan) -> bool {
        &&& plan_valid(self.gridmap, self.start, self.goal, *plan)
        &&& (plan.path@.len() > 0 ==> (forall|s: Seq<(u32, u32)>|
            #[trigger] is_path_seq(self.gridmap, s, self.start, self.goal) ==> s.len()
                >= plan.path@.len()))
    }

    fn new(gridmap: &Gridmap) -> (r: BFSPlanner) {
        BFSPlanner { start: (0, 0), goal: (0, 0), gridmap: gridmap.clone() }
    }

    fn generate_plan(&self) -> (r: MotionPlan) {
        generate_plan(self.start, self.goal, &self.gridmap)
    }

    fn update_gridmap(&mut self, gridmap: &Gridmap) -> (r: bool) {
        if gridmap.xy_in_map(self.start) && gridmap.xy_in_map(self.goal) {
            self.gridmap = gridmap.clone();
            true
        } else {
            false
        }
    }

    fn update_start(&mut self, start: (u32, u32)) -> (r: bool) {
        if self.gridmap.xy_in_map(start) {
            self.start = start;
            true
        } else {
            false
        }
    }

    fn update_goal(&mut self, goal: (u32, u32)) -> (r: bool) {
        if self.gridmap.xy_in_map(goal) {
            self.goal = goal;
            true
        } else {
            false
        }
    }
}

/// Law: any two breadth-first plans for the same grid, start and goal
/// agree on whether a path exists and, when one does, on how many cells it
/// holds.
pub proof fn lemma_plans_agree_on_length(
    g: Gridmap,
    start_cell: (u32, u32),
    goal_cell: (u32, u32),
    p1: MotionPlan,
    p2: MotionPlan,
)
    requires
        plan_valid(g, start_cell, goal_cell, p1),
        plan_valid(g, start_cell, goal_cell, p2),
        p1.path@.len() > 0 ==> (forall|s: Seq<(u32, u32)>|
            #[trigger] is_path_seq(g, s, start_cell, goal_cell) ==> s.len() >= p1.path@.len()),
        p2.path@.len() > 0 ==> (forall|s: Seq<(u32, u32)>|
            #[trigger] is_path_seq(g, s, start_cell, goal_cell) ==> s.len() >= p2.path@.len()),
    ensures
        p1.path@.len() == 0 <==> p2.path@.len() == 0,
        p1.path@.len() > 0 ==> p1.path@.len() == p2.path@.len(),
{
    if p1.path@.len() > 0 {
        assert(is_path_seq(g, p1.path@, start_cell, goal_cell));
        assert(is_path_seq(g, p2.path@, start_cell, goal_cell));
    }
}

} // verus!
