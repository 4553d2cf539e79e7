use ruth_planner::Gridmap;
use ruth_planner::maps::builder;
use ruth_planner::maps::gridmap::INSCRIBED_INFLATED_OBSTACLE;
use ruth_planner::maps::samples;
use ruth_planner::planners::a_star;
use ruth_planner::planners::bfs;
use ruth_planner::planners::dfs;
use ruth_planner::planners::dijkstra;
use ruth_planner::planners::planner_base::Planner;
use ruth_planner::planners::planner_common;
use ruth_planner::planners::planner_common::MotionPlan;
use ruth_planner::rrt::RRTPlanner;

/// Sum of edge costs along a cell path, in hundredths.
fn path_cost(path: &Vec<(u32, u32)>) -> u64 {
    let mut total: u64 = 0;
    for i in 1..path.len() {
        total += planner_common::get_l2_cost(path[i - 1], path[i]);
    }
    total
}

#[test]
fn test_l2_cost_exact_values() {
    assert_eq!(planner_common::get_l2_cost((0, 0), (0, 0)), 0);
    assert_eq!(planner_common::get_l2_cost((0, 0), (1, 0)), 100);
    assert_eq!(planner_common::get_l2_cost((0, 0), (1, 1)), 141);
    assert_eq!(planner_common::get_l2_cost((2, 0), (0, 0)), 200);
    assert_eq!(planner_common::get_l2_cost((0, 0), (3, 4)), 500);
    assert_eq!(planner_common::get_l2_cost((0, 0), (1, 2)), 223);
    // symmetric
    assert_eq!(planner_common::get_l2_cost((5, 7), (2, 3)), planner_common::get_l2_cost((2, 3), (5, 7)));
}

#[test]
fn test_l2_cost_fp_exact_values() {
    assert_eq!(planner_common::get_l2_cost_fp((0, 0), (3000, 4000)), 5000);
    assert_eq!(planner_common::get_l2_cost_fp((0, 0), (1000, 1000)), 1414);
    assert_eq!(planner_common::get_l2_cost_fp((500, 500), (500, 500)), 0);
    assert_eq!(planner_common::get_l2_cost_fp((-1000, 0), (1000, 0)), 2000);
}

#[test]
fn test_traversable_rejects_out_of_bounds() {
    let gridmap = Gridmap::new(4, 6, 50);
    // in bounds and free
    assert!(gridmap.xy_is_traversable(&(0, 0), &INSCRIBED_INFLATED_OBSTACLE));
    // outside on either axis, for several thresholds
    assert!(!gridmap.xy_is_traversable(&(4, 0), &INSCRIBED_INFLATED_OBSTACLE));
    assert!(!gridmap.xy_is_traversable(&(0, 6), &255));
    assert!(!gridmap.xy_is_traversable(&(100, 100), &255));
    // a zero threshold rejects even free cells
    assert!(!gridmap.xy_is_traversable(&(0, 0), &0));
}

#[test]
fn test_traversable_fp_rounding() {
    let gridmap = Gridmap::new(4, 6, 50);
    // rounds to cell (3, 0): inside
    assert!(gridmap.xy_is_traversable_fp(&(3499, 0), &INSCRIBED_INFLATED_OBSTACLE));
    // rounds to cell (4, 0): outside
    assert!(!gridmap.xy_is_traversable_fp(&(3501, 0), &INSCRIBED_INFLATED_OBSTACLE));
    // negative coordinates are outside
    assert!(!gridmap.xy_is_traversable_fp(&(-1000, 0), &255));
    // just under half a cell before zero still rounds to cell zero
    assert!(gridmap.xy_is_traversable_fp(&(-499, -499), &INSCRIBED_INFLATED_OBSTACLE));
}

#[test]
fn test_segment_collides_degenerate_is_false() {
    let mut gridmap = Gridmap::new(10, 10, 50);
    gridmap.set_val_xy(255, (1, 1));
    // a degenerate segment never collides, even on an occupied cell
    assert!(!gridmap.check_collision_line_fp(&(1000, 1000), &(1000, 1000), &INSCRIBED_INFLATED_OBSTACLE));
    assert!(!gridmap.check_collision_line_fp(&(0, 0), &(0, 0), &INSCRIBED_INFLATED_OBSTACLE));
    // but the non-degenerate segment through that cell does
    assert!(gridmap.check_collision_line_fp(&(0, 0), &(2000, 2000), &INSCRIBED_INFLATED_OBSTACLE));
}

#[test]
fn test_segment_collides_endpoints_included() {
    let mut gridmap = Gridmap::new(10, 10, 50);
    gridmap.set_val_xy(255, (0, 0));
    assert!(gridmap.check_collision_line_fp(&(0, 0), &(3000, 0), &INSCRIBED_INFLATED_OBSTACLE));
    // a segment of free cells does not collide
    assert!(!gridmap.check_collision_line_fp(&(1000, 0), &(3000, 0), &INSCRIBED_INFLATED_OBSTACLE));
}

#[test]
fn test_neighbors_8_full_and_corner() {
    let gridmap = Gridmap::new(3, 3, 50);
    let center = planner_common::get_neighbors_8_con((1, 1), &gridmap);
    assert_eq!(
        center,
        vec![(0, 1), (0, 0), (2, 1), (2, 2), (1, 0), (2, 0), (1, 2), (0, 2)]
    );
    let corner = planner_common::get_neighbors_8_con((0, 0), &gridmap);
    assert_eq!(corner, vec![(1, 0), (1, 1), (0, 1)]);
}

#[test]
fn test_neighbors_4_and_obstacles() {
    let mut gridmap = Gridmap::new(3, 3, 50);
    let center = planner_common::get_neighbors_4_con((1, 1), &gridmap);
    assert_eq!(center, vec![(0, 1), (2, 1), (1, 0), (1, 2)]);
    // obstacle cells are silently excluded
    gridmap.set_val_xy(255, (2, 1));
    let with_wall = planner_common::get_neighbors_4_con((1, 1), &gridmap);
    assert_eq!(with_wall, vec![(0, 1), (1, 0), (1, 2)]);
}

#[test]
fn test_trace_path_follows_parents() {
    let gridmap = Gridmap::new(3, 1, 50);
    // cell 0 is the root; 1 points at 0; 2 points at 1
    let parents: Vec<Option<u32>> = vec![None, Some(0), Some(1)];
    let path = planner_common::trace_path(&(2, 0), &parents, &gridmap);
    assert_eq!(path, vec![(2, 0), (1, 0), (0, 0)]);
}

#[test]
/// A found path starts at the start cell and ends at the goal cell.
fn test_path_endpoints_round_trip() {
    let arr_map = samples::create_snake_arr_map();
    let gridmap = builder::build_gridmap_from_2d_arr(&arr_map).unwrap();
    let (start_cell, goal_cell) = ((0, 4), (6, 4));
    for plan in [
        bfs::generate_plan(start_cell, goal_cell, &gridmap),
        dfs::generate_plan(start_cell, goal_cell, &gridmap),
        dijkstra::generate_plan(start_cell, goal_cell, &gridmap),
        a_star::generate_plan(start_cell, goal_cell, &gridmap),
    ] {
        assert!(plan.path.len() >= 1);
        assert_eq!(plan.path[0], start_cell);
        assert_eq!(plan.path[plan.path.len() - 1], goal_cell);
    }
}

#[test]
/// A cell appears in the closed set at most once per search.
fn test_closed_set_no_duplicates() {
    let arr_map = samples::create_maze_0_arr_map();
    let gridmap = builder::build_gridmap_from_2d_arr(&arr_map).unwrap();
    for plan in [
        bfs::generate_plan((0, 9), (9, 0), &gridmap),
        dfs::generate_plan((0, 9), (9, 0), &gridmap),
        dijkstra::generate_plan((0, 9), (9, 0), &gridmap),
        a_star::generate_plan((0, 9), (9, 0), &gridmap),
    ] {
        let closed = &plan.closed_list;
        for i in 0..closed.len() {
            for j in 0..i {
                assert_ne!(closed[i], closed[j]);
            }
        }
    }
}

#[test]
/// Running the same discrete search twice on an unmodified grid yields an
/// identical path and an identical closed set.
fn test_search_is_repeatable() {
    let arr_map = samples::create_maze_0_arr_map();
    let gridmap = builder::build_gridmap_from_2d_arr(&arr_map).unwrap();
    let runs: [fn((u32, u32), (u32, u32), &Gridmap) -> MotionPlan; 4] = [
        bfs::generate_plan,
        dfs::generate_plan,
        dijkstra::generate_plan,
        a_star::generate_plan,
    ];
    for run in runs {
        let first = run((0, 9), (9, 0), &gridmap);
        let second = run((0, 9), (9, 0), &gridmap);
        assert_eq!(first.path, second.path);
        assert_eq!(first.closed_list, second.closed_list);
    }
}

#[test]
/// Dijkstra's path cost is no higher than any other variant's, and BFS's
/// path has the fewest edges among the returned paths.
fn test_dijkstra_cost_and_bfs_edges_minimal() {
    let arr_map = samples::create_maze_0_arr_map();
    let gridmap = builder::build_gridmap_from_2d_arr(&arr_map).unwrap();
    let (start_cell, goal_cell) = ((0, 9), (9, 0));
    let plan_bfs = bfs::generate_plan(start_cell, goal_cell, &gridmap);
    let plan_dfs = dfs::generate_plan(start_cell, goal_cell, &gridmap);
    let plan_dij = dijkstra::generate_plan(start_cell, goal_cell, &gridmap);
    let plan_ast = a_star::generate_plan(start_cell, goal_cell, &gridmap);

    let c_dij = path_cost(&plan_dij.path);
    assert!(c_dij <= path_cost(&plan_bfs.path));
    assert!(c_dij <= path_cost(&plan_dfs.path));
    assert!(c_dij <= path_cost(&plan_ast.path));

    let e_bfs = plan_bfs.path.len();
    assert!(e_bfs <= plan_dfs.path.len());
    assert!(e_bfs <= plan_dij.path.len());
    assert!(e_bfs <= plan_ast.path.len());
}

#[test]
/// With a rectangular obstacle between start and goal, a fully goal-biased
/// sampler with a generous step finds a path within a small iteration
/// budget.
fn test_rrt_goal_biased_small_budget() {
    let arr_map = samples::create_maze_2_arr_map();
    let gridmap = builder::build_gridmap_from_2d_arr(&arr_map).unwrap();
    let (start_cell, goal_cell) = ((0, 9), (9, 0));
    let mut planner = RRTPlanner::new(&gridmap);
    planner.update_start_and_goal(start_cell, goal_cell);
    planner.set_parameters(50, 100, 5000, 1000);

    let motion_plan = planner.generate_plan();

    assert_ne!(motion_plan.path_fp.len(), 0);
    let path = &motion_plan.path_fp;
    assert_eq!(path[0], (0, 9000));
    assert_eq!(path[path.len() - 1], (9000, 0));
}

#[test]
fn test_get_unique_values_first_appearance() {
    let mut gridmap = Gridmap::new(2, 2, 50);
    gridmap.set_val_xy(255, (1, 1));
    assert_eq!(gridmap.get_unique_values(), vec![0, 255]);
}

#[test]
fn test_flip_y() {
    let gridmap = Gridmap::new(4, 6, 50);
    assert_eq!(gridmap.flip_y_u32(0), 5);
    assert_eq!(gridmap.flip_y_u32(5), 0);
    assert_eq!(gridmap.idx_to_xy(14), (2, 3));
}

#[test]
fn test_motion_plan_constructors() {
    let plan = MotionPlan::new(vec![(0, 0), (1, 1)], vec![(0, 0)]);
    assert_eq!(plan.path.len(), 2);
    assert_eq!(plan.closed_list.len(), 1);
    assert_eq!(plan.path_fp.len(), 0);
    assert_eq!(plan.closed_list_fp.len(), 0);

    let plan_fp = MotionPlan::new_fp(vec![(0, 0)], vec![(0, 0), (500, 500)]);
    assert_eq!(plan_fp.path.len(), 0);
    assert_eq!(plan_fp.path_fp.len(), 1);
    assert_eq!(plan_fp.closed_list_fp.len(), 2);
}

#[test]
/// Planner updates refuse cells outside the grid and leave state usable.
fn test_planner_updates_validate_bounds() {
    let gridmap = Gridmap::new(5, 5, 50);
    let mut planner = dijkstra::DijkstraPlanner::new(&gridmap);
    assert!(planner.update_start((4, 4)));
    assert!(!planner.update_goal((5, 0)));
    assert!(planner.update_goal((0, 0)));
    let plan = planner.generate_plan();
    assert_ne!(plan.path.len(), 0);
}

#[test]
/// On a 3x1 strip the shortest path is forced, so BFS must return exactly it.
fn test_bfs_exact_path_on_strip() {
    let gridmap = Gridmap::new(3, 1, 50);
    let plan = bfs::generate_plan((0, 0), (2, 0), &gridmap);
    assert_eq!(plan.path, vec![(0, 0), (1, 0), (2, 0)]);
}

#[test]
/// On a free 2x2 square the single diagonal step (cost 141) beats any
/// two-step route (cost 200), so Dijkstra must take it.
fn test_dijkstra_prefers_diagonal() {
    let gridmap = Gridmap::new(2, 2, 50);
    let plan = dijkstra::generate_plan((0, 0), (1, 1), &gridmap);
    assert_eq!(plan.path, vec![(0, 0), (1, 1)]);
    assert_eq!(path_cost(&plan.path), 141);
}

#[test]
/// The line walk handles steep, vertical and horizontal segments.
fn test_segment_collides_octants() {
    let mut gridmap = Gridmap::new(10, 10, 50);
    gridmap.set_val_xy(255, (2, 5));
    // vertical segment through the blocked cell
    assert!(gridmap.check_collision_line_fp(&(2000, 0), &(2000, 9000), &INSCRIBED_INFLATED_OBSTACLE));
    // vertical segment one column over stays clear
    assert!(!gridmap.check_collision_line_fp(&(3000, 0), &(3000, 9000), &INSCRIBED_INFLATED_OBSTACLE));
    // horizontal segment through the blocked cell, walked right to left
    assert!(gridmap.check_collision_line_fp(&(9000, 5000), &(0, 5000), &INSCRIBED_INFLATED_OBSTACLE));
    // steep segment passing through the blocked cell
    assert!(gridmap.check_collision_line_fp(&(1000, 0), &(3000, 9000), &INSCRIBED_INFLATED_OBSTACLE));
}

#[test]
/// With full goal bias and the goal within one step, the sampling planner
/// succeeds immediately.
fn test_rrt_adjacent_goal_full_bias() {
    let gridmap = Gridmap::new(10, 10, 50);
    let mut planner = RRTPlanner::new(&gridmap);
    planner.update_start_and_goal((0, 0), (1, 1));
    planner.set_parameters(1, 100, 2000, 1000);

    let motion_plan = planner.generate_plan();

    assert!(motion_plan.path_fp.len() >= 2);
    assert_eq!(motion_plan.path_fp[0], (0, 0));
    assert_eq!(motion_plan.path_fp[motion_plan.path_fp.len() - 1], (1000, 1000));
    // one node per iteration at most, plus the root
    assert!(motion_plan.closed_list_fp.len() <= 2);
}

#[test]
/// Replacing the grid is refused when the stored cells would fall outside
/// the new one, and the planner is left untouched.
fn test_update_gridmap_validates_bounds() {
    let big = Gridmap::new(10, 10, 50);
    let small = Gridmap::new(3, 3, 50);
    let mut planner = bfs::BFSPlanner::new(&big);
    assert!(planner.update_start_and_goal((5, 5), (9, 9)));
    assert!(!planner.update_gridmap(&small));
    assert_eq!(planner.start, (5, 5));
    assert_eq!(planner.goal, (9, 9));
    assert_eq!(planner.gridmap.get_width(), 10);
    assert!(planner.update_gridmap(&big));
}
