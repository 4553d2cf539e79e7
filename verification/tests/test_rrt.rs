use ruth_planner::maps::builder;
use ruth_planner::maps::samples;
use ruth_planner::planners::planner_base::Planner;
use ruth_planner::rrt::RRTPlanner;

#[test]
fn test_rrt_plan4() {
    let arr_map: Vec<Vec<u8>> = samples::create_maze_2_arr_map();
    let gridmap = builder::build_gridmap_from_2d_arr(&arr_map).unwrap();
    let (start_cell, goal_cell) = ((0, 9), (7, 2));

    let (max_iter, goal_sample_rate, expand_dist, path_resolution) = (500, 1, 500, 500);
    let mut planner = RRTPlanner::new(&gridmap);
    planner.update_start_and_goal(start_cell, goal_cell);
    planner.set_parameters(max_iter, goal_sample_rate, expand_dist, path_resolution);

    let motion_plan = planner.generate_plan();

    assert_ne!(motion_plan.path_fp.len(), 0);
}
