//! A* search over the occupancy grid.

use vstd::prelude::*;
use crate::maps::gridmap::Gridmap;
use crate::planners::planner_base::Planner;
use crate::planners::planner_common::MotionPlan;
use crate::planners::planner_common::plan_valid;
use crate::planners::frontier::SearchKind;
use crate::planners::frontier::frontier_search;

verus! {

/// Retrieve a motion plan from `start_cell` to `goal_cell` by A* search:
/// the frontier entry with the smallest accumulated cost plus straight-line
/// estimate to the goal is expanded first.
///
/// The path is non-empty exactly when the goal is reachable from the start
/// through 8-connected traversable cells; a non-empty path runs from the
/// start to the goal along such cells, and the closed list holds each
/// expanded cell once.
///
/// No cost-optimality is promised, deliberately. Edge costs and the
/// estimate are Euclidean distances scaled by 100 and floored, and the
/// flooring can make the estimate exceed the true remaining cost: three
/// diagonal steps cost 3 x 141 = 423, while the straight-line estimate
/// over the same span is floor(300 x sqrt(2)) = 424. The estimate is
/// therefore not admissible for the floored cost model, and since a
/// closed cell is never reopened, the classical lowest-cost guarantee
/// does not carry over. Callers that need the lowest-cost path should use
/// the Dijkstra variant, whose optimality is stated and proved.
pub fn generate_plan(start_cell: (u32, u32), goal_cell: (u32, u32), gridmap: &Gridmap) -> (r:
    MotionPlan)
    requires
        gridmap.wf(),
        gridmap.spec_in_map(start_cell),
        gridmap.spec_in_map(goal_cell),
    ensures
        plan_valid(*gridmap, start_cell, goal_cell, r),
        r.path_fp@.len() == 0,
        r.closed_list_fp@.len() == 0,
{
    frontier_search(SearchKind::AStar, start_cell, goal_cell, gridmap)
}

/// A* planner.
pub struct AStarPlanner {
    pub start: (u32, u32),
    pub goal: (u32, u32),
    pub gridmap: Gridmap,
}

impl Planner for AStarPlanner {
    open spec fn inv(&self) -> bool {
        &&& self.gridmap.wf()
        &&& self.gridmap.spec_in_map(self.start)
        &&& self.gridmap.spec_in_map(self.goal)
    }

    open spec fn grid_of(&self) -> Gridmap {
        self.gridmap
    }

    open spec fn start_of(&self) -> (u32, u32) {
        self.start
    }

    open spec fn goal_of(&self) -> (u32, u32) {
        self.goal
    }

    open spec fn fresh_defaults(&self) -> bool {
        true
    }

    open spec fn plan_ok(&self, plan: &MotionPlan) -> bool {
        plan_valid(self.gridmap, self.start, self.goal, *plan)
    }

    fn new(gridmap: &Gridmap) -> (r: AStarPlanner) {
        AStarPlanner { start: (0, 0), goal: (0, 0), gridmap: gridmap.clone() }
    }

    fn generate_plan(&self) -> (r: MotionPlan) {
        generate_plan(self.start, self.goal, &self.gridmap)
    }

    fn update_gridmap(&mut self, gridmap: &Gridmap) -> (r: bool) {
        if gridmap.xy_in_map(self.start) && gridmap.xy_in_map(self.goal) {
            self.gridmap = gridmap.clone();
            true
        } else {
            false
        }
    }

    fn update_start(&mut self, start: (u32, u32)) -> (r: bool) {
        if self.gridmap.xy_in_map(start) {
            self.start = start;
            true
        } else {
            false
        }
    }

    fn update_goal(&mut self, goal: (u32, u32)) -> (r: bool) {
        if self.gridmap.xy_in_map(goal) {
            self.goal = goal;
            true
        } else {
            false
        }
    }
}

} // verus!
