//! Dijkstra's search over the occupancy grid.

use vstd::prelude::*;
use crate::maps::gridmap::Gridmap;
use crate::planners::planner_base::Planner;
use crate::planners::planner_common::MotionPlan;
use crate::planners::planner_common::plan_valid;
use crate::planners::planner_common::is_path_seq;
use crate::planners::planner_common::path_cost;
use crate::planners::frontier::SearchKind;
use crate::planners::frontier::frontier_search;

verus! {

/// Retrieve a motion plan from `start_cell` to `goal_cell` by Dijkstra's
/// algorithm: the frontier entry with the smallest accumulated cost is
/// expanded first (edge costs are Euclidean distances scaled by 100).
///
/// The path is non-empty exactly when the goal is reachable from the start
/// through 8-connected traversable cells; a non-empty path runs from the
/// start to the goal along such cells, costs no more than any other valid
/// start-to-goal path, and the closed list holds each expanded cell once.
pub fn generate_plan(start_cell: (u32, u32), goal_cell: (u32, u32), gridmap: &Gridmap) -> (r:
    MotionPlan)
    requires
        gridmap.wf(),
        gridmap.spec_in_map(start_cell),
        gridmap.spec_in_map(goal_cell),
    ensures
        plan_valid(*gridmap, start_cell, goal_cell, r),
        r.path_fp@.len() == 0,
        r.closed_list_fp@.len() == 0,
        r.path@.len() > 0 ==> (forall|s: Seq<(u32, u32)>|
            #[trigger] is_path_seq(*gridmap, s, start_cell, goal_cell) ==> path_cost(s)
                >= path_cost(r.path@)),
{
    frontier_search(SearchKind::Dijkstra, start_cell, goal_cell, gridmap)
}

/// Dijkstra planner.
pub struct DijkstraPlanner {
    pub start: (u32, u32),
    pub goal: (u32, u32),
    pub gridmap: Gridmap,
}

impl Planner for DijkstraPlanner {
    open spec fn inv(&self) -> bool {
        &&& self.gridmap.wf()
        &&& self.gridmap.spec_in_map(self.start)
        &&& self.gridmap.spec_in_map(self.goal)
    }

    open spec fn grid_of(&self) -> Gridmap {
        self.gridmap
    }

    open spec fn start_of(&self) -> (u32, u32) {
        self.start
    }

    open spec fn goal_of(&self) -> (u32, u32) {
        self.goal
    }

    open spec fn fresh_defaults(&self) -> bool {
        true
    }

    open spec fn plan_ok(&self, plan: &MotionPlan) -> bool {
        &&& plan_valid(self.gridmap, self.start, self.goal, *plan)
        &&& (plan.path@.len() > 0 ==> (forall|s: Seq<(u32, u32)>|
            #[trigger] is_path_seq(self.gridmap, s, self.start, self.goal) ==> path_cost(s)
                >= path_cost(plan.path@)))
    }

    fn new(gridmap: &Gridmap) -> (r: DijkstraPlanner) {
        DijkstraPlanner { start: (0, 0), goal: (0, 0), gridmap: gridmap.clone() }
    }

    fn generate_plan(&self) -> (r: MotionPlan) {
        generate_plan(self.start, self.goal, &self.gridmap)
    }

    fn update_gridmap(&mut self, gridmap: &Gridmap) -> (r: bool) {
        if gridmap.xy_in_map(self.start) && gridmap.xy_in_map(self.goal) {
            self.gridmap = gridmap.clone();
            true
        } else {
            false
        }
    }

    fn update_start(&mut self, start: (u32, u32)) -> (r: bool) {
        if self.gridmap.xy_in_map(start) {
            self.start = start;
            true
        } else {
            false
        }
    }

    fn update_goal(&mut self, goal: (u32, u32)) -> (r: bool) {
        if self.gridmap.xy_in_map(goal) {
            self.goal = goal;
            true
        } else {
            false
        }
    }
}

/// Law: any two Dijkstra plans for the same grid, start and goal agree on
/// whether a path exists and, when one does, on its cost.
pub proof fn lemma_plans_agree_on_cost(
    g: Gridmap,
    start_cell: (u32, u32),
    goal_cell: (u32, u32),
    p1: MotionPlan,
    p2: MotionPlan,
)
    requires
        plan_valid(g, start_cell, goal_cell, p1),
        plan_valid(g, start_cell, goal_cell, p2),
        p1.path@.len() > 0 ==> (forall|s: Seq<(u32, u32)>|
            #[trigger] is_path_seq(g, s, start_cell, goal_cell) ==> path_cost(s) >= path_cost(
                p1.path@,
            )),
        p2.path@.len() > 0 ==> (forall|s: Seq<(u32, u32)>|
            #[trigger] is_path_seq(g, s, start_cell, goal_cell) ==> path_cost(s) >= path_cost(
                p2.path@,
            )),
    ensures
        p1.path@.len() == 0 <==> p2.path@.len() == 0,
        p1.path@.len() > 0 ==> path_cost(p1.path@) == path_cost(p2.path@),
{
    if p1.path@.len() > 0 {
        assert(is_path_seq(g, p1.path@, start_cell, goal_cell));
        assert(is_path_seq(g, p2.path@, start_cell, goal_cell));
    }
}

} // verus!
