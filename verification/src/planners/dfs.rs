//! Depth-first search over the occupancy grid.

use vstd::prelude::*;
use crate::maps::gridmap::Gridmap;
use crate::planners::planner_base::Planner;
use crate::planners::planner_common::MotionPlan;
use crate::planners::planner_common::plan_valid;
use crate::planners::frontier::SearchKind;
use crate::planners::frontier::frontier_search;

verus! {

/// Retrieve a motion plan from `start_cell` to `goal_cell` by depth-first
/// search: the frontier is a stack, so exploration dives before it widens
/// and no optimality is guaranteed.
///
/// The path is non-empty exactly when the goal is reachable from the start
/// through 8-connected traversable cells; a non-empty path runs from the
/// start to the goal along such cells, and the closed list holds each
/// expanded cell once.
pub fn generate_plan(start_cell: (u32, u32), goal_cell: (u32, u32), gridmap: &Gridmap) -> (r:
    MotionPlan)
    requires
        gridmap.wf(),
        gridmap.spec_in_map(start_cell),
        gridmap.spec_in_map(goal_cell),
    ensures
        plan_valid(*gridmap, start_cell, goal_cell, r),
        r.path_fp@.len() == 0,
        r.closed_list_fp@.len() == 0,
{
    frontier_search(SearchKind::Dfs, start_cell, goal_cell, gridmap)
}

/// Depth-first search planner.
pub struct DFSPlanner {
    pub start: (u32, u32),
    pub goal: (u32, u32),
    pub gridmap: Gridmap,
}

impl Planner for DFSPlanner {
    open spec fn inv(&self) -> bool {
        &&& self.gridmap.wf()
        &&& self.gridmap.spec_in_map(self.start)
        &&& self.gridmap.spec_in_map(self.goal)
    }

    open spec fn grid_of(&self) -> Gridmap {
        self.gridmap
    }

    open spec fn start_of(&self) -> (u32, u32) {
        self.start
    }

    open spec fn goal_of(&self) -> (u32, u32) {
        self.goal
    }

    open spec fn fresh_defaults(&self) -> bool {
        true
    }

    open spec fn plan_ok(&self, plan: &MotionPlan) -> bool {
        plan_valid(self.gridmap, self.start, self.goal, *plan)
    }

    fn new(gridmap: &Gridmap) -> (r: DFSPlanner) {
        DFSPlanner { start: (0, 0), goal: (0, 0), gridmap: gridmap.clone() }
    }

    fn generate_plan(&self) -> (r: MotionPlan) {
        generate_plan(self.start, self.goal, &self.gridmap)
    }

    fn update_gridmap(&mut self, gridmap: &Gridmap) -> (r: bool) {
        if gridmap.xy_in_map(self.start) && gridmap.xy_in_map(self.goal) {
            self.gridmap = gridmap.clone();
            true
        } else {
            false
        }
    }

    fn update_start(&mut self, start: (u32, u32)) -> (r: bool) {
        if self.gridmap.xy_in_map(start) {
            self.start = start;
            true
        } else {
            false
        }
    }

    fn update_goal(&mut self, goal: (u32, u32)) -> (r: bool) {
        if self.gridmap.xy_in_map(goal) {
            self.goal = goal;
            true
        } else {
            false
        }
    }
}

} // verus!
