//! The common planner interface: every planner is built over a grid, can
//! have its start, goal and grid replaced, and produces a motion plan.

use vstd::prelude::*;
use crate::maps::gridmap::Gridmap;
use crate::planners::planner_common::MotionPlan;

verus! {

/// A path planner over an occupancy grid.
///
/// An update method returns `true` and applies the change when the change
/// keeps the planner consistent (start and goal within the grid), and
/// returns `false` leaving the planner untouched otherwise.
pub trait Planner: Sized {
    /// The planner's internal consistency: its grid is well formed and its
    /// start and goal cells lie within the grid.
    spec fn inv(&self) -> bool;

    /// The grid the planner currently plans over.
    spec fn grid_of(&self) -> Gridmap;

    /// The stored start cell.
    spec fn start_of(&self) -> (u32, u32);

    /// The stored goal cell.
    spec fn goal_of(&self) -> (u32, u32);

    /// Whatever a fresh planner holds beyond grid, start and goal (for
    /// instance, a sampling planner's default parameters).
    spec fn fresh_defaults(&self) -> bool;

    /// What this planner promises of a generated plan.
    spec fn plan_ok(&self, plan: &MotionPlan) -> bool;

    /// Build a planner over a copy of the grid, with start and goal at the
    /// origin and the variant's default parameters.
    fn new(gridmap: &Gridmap) -> (r: Self)
        requires
            gridmap.wf(),
        ensures
            r.inv(),
            r.grid_of().same_map(gridmap),
            r.start_of() == (0u32, 0u32),
            r.goal_of() == (0u32, 0u32),
            r.fresh_defaults(),
    ;

    /// Retrieve a motion plan for the stored start and goal location.
    fn generate_plan(&self) -> (r: MotionPlan)
        requires
            self.inv(),
        ensures
            self.plan_ok(&r),
    ;

    /// Replace the grid with a copy of the given one; refused, with the
    /// planner untouched, when the stored start or goal would fall outside
    /// it. Start and goal are kept either way.
    fn update_gridmap(&mut self, gridmap: &Gridmap) -> (r: bool)
        requires
            old(self).inv(),
            gridmap.wf(),
        ensures
            final(self).inv(),
            r == (gridmap.spec_in_map(old(self).start_of()) && gridmap.spec_in_map(
                old(self).goal_of(),
            )),
            final(self).start_of() == old(self).start_of(),
            final(self).goal_of() == old(self).goal_of(),
            r ==> final(self).grid_of().same_map(gridmap),
            !r ==> *final(self) == *old(self),
    ;

    /// Replace the start cell; refused, with the planner untouched, when
    /// it lies outside the grid. The grid and the goal are kept either
    /// way.
    fn update_start(&mut self, start: (u32, u32)) -> (r: bool)
        requires
            old(self).inv(),
        ensures
            final(self).inv(),
            r == old(self).grid_of().spec_in_map(start),
            final(self).grid_of() == old(self).grid_of(),
            final(self).goal_of() == old(self).goal_of(),
            final(self).start_of() == (if r {
                start
            } else {
                old(self).start_of()
            }),
            !r ==> *final(self) == *old(self),
    ;

    /// Replace the goal cell; refused, with the planner untouched, when it
    /// lies outside the grid. The grid and the start are kept either way.
    fn update_goal(&mut self, goal: (u32, u32)) -> (r: bool)
        requires
            old(self).inv(),
        ensures
            final(self).inv(),
            r == old(self).grid_of().spec_in_map(goal),
            final(self).grid_of() == old(self).grid_of(),
            final(self).start_of() == old(self).start_of(),
            final(self).goal_of() == (if r {
                goal
            } else {
                old(self).goal_of()
            }),
            !r ==> *final(self) == *old(self),
    ;

    /// Replace start and goal together; the goal is not touched when the
    /// start is refused, and each cell is stored exactly when it lies
    /// within the grid.
    fn update_start_and_goal(&mut self, start: (u32, u32), goal: (u32, u32)) -> (r: bool)
        requires
            old(self).inv(),
        ensures
            final(self).inv(),
            r == (old(self).grid_of().spec_in_map(start) && old(self).grid_of().spec_in_map(goal)),
            final(self).grid_of() == old(self).grid_of(),
            final(self).start_of() == (if old(self).grid_of().spec_in_map(start) {
                start
            } else {
                old(self).start_of()
            }),
            final(self).goal_of() == (if r {
                goal
            } else {
                old(self).goal_of()
            }),
    {
        let ok = self.update_start(start);
        if ok {
            self.update_goal(goal)
        } else {
            false
        }
    }
}

} // verus!
