use ruth_planner::maps::builder;
use ruth_planner::maps::samples;
use ruth_planner::a_star::AStarPlanner;
use ruth_planner::planners::planner_base::Planner;

#[test]
fn test_a_star_plan0() {
    let arr_map: Vec<Vec<u8>> = samples::create_snake_arr_map();
    let gridmap = builder::build_gridmap_from_2d_arr(&arr_map).unwrap();
    let (start_cell, goal_cell) = ((0, 4), (6, 4));

    let mut planner = AStarPlanner::new(&gridmap);
    planner.update_start_and_goal(start_cell, goal_cell);

    let motion_plan = planner.generate_plan();

    assert_ne!(motion_plan.path.len(), 0);
}

#[test]
fn test_a_star_plan1() {
    let arr_map: Vec<Vec<u8>> = samples::create_maze_0_arr_map();
    let gridmap = builder::build_gridmap_from_2d_arr(&arr_map).unwrap();
    let (start_cell, goal_cell) = ((0, 9), (9, 0));

    let mut planner = AStarPlanner::new(&gridmap);
    planner.update_start_and_goal(start_cell, goal_cell);

    let motion_plan = planner.generate_plan();

    assert_ne!(motion_plan.path.len(), 0);
}

#[test]
fn test_a_star_plan2() {
    let arr_map: Vec<Vec<u8>> = samples::create_maze_1_arr_map();
    let gridmap = builder::build_gridmap_from_2d_arr(&arr_map).unwrap();
    let (start_cell, goal_cell) = ((0, 9), (9, 0));

    let mut planner = AStarPlanner::new(&gridmap);
    planner.update_start_and_goal(start_cell, goal_cell);

    let motion_plan = planner.generate_plan();

    assert_eq!(motion_plan.path.len(), 0);
}

#[test]
fn test_a_star_plan3() {
    let arr_map: Vec<Vec<u8>> = samples::create_maze_2_arr_map();
    let gridmap = builder::build_gridmap_from_2d_arr(&arr_map).unwrap();
    let (start_cell, goal_cell) = ((0, 9), (9, 0));

    let mut planner = AStarPlanner::new(&gridmap);
    planner.update_start_and_goal(start_cell, goal_cell);

    let motion_plan = planner.generate_plan();

    assert_ne!(motion_plan.path.len(), 0);
}

#[test]
fn test_a_star_plan4() {
    let arr_map: Vec<Vec<u8>> = samples::create_maze_2_arr_map();
    let gridmap = builder::build_gridmap_from_2d_arr(&arr_map).unwrap();
    let (start_cell, goal_cell) = ((0, 9), (5, 5));

    let mut planner = AStarPlanner::new(&gridmap);
    planner.update_start_and_goal(start_cell, goal_cell);

    let motion_plan = planner.generate_plan();

    assert_ne!(motion_plan.path.len(), 0);
}
