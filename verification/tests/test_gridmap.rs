use ruth_planner::Gridmap;
use ruth_planner::maps::gridmap::FREE_SPACE;
use ruth_planner::maps::gridmap::INSCRIBED_INFLATED_OBSTACLE;
use ruth_planner::maps::gridmap::LETHAL_OBSTACLE;

#[test]
/// Test getting of gridmap attributes
fn test_get_attributes() {
    let gridmap = Gridmap::new(4, 6, 50);

    assert_eq!(gridmap.get_width(), 4);
    assert_eq!(gridmap.get_height(), 6);
    assert_eq!(gridmap.get_resolution(), 50);
    assert_eq!(gridmap.get_cells().len(), 24);
}

#[test]
/// Test conversion between 2D and 1D coordinates
fn test_xy_idx_conversion() {
    let gridmap = Gridmap::new(4, 6, 50);

    assert_eq!(gridmap.xy_to_idx((0, 0)), 0);
    assert_eq!(gridmap.xy_to_idx((1, 0)), 1);
    assert_eq!(gridmap.xy_to_idx((0, 1)), 4);
    assert_eq!(gridmap.xy_to_idx((1, 1)), 5);
    assert_eq!(gridmap.xy_to_idx((2, 3)), 14);
    assert_eq!(gridmap.xy_to_idx((3, 5)), 23);
}

#[test]
/// Test traversability of cells based on assigned values
fn test_traversable_check() {
    let mut gridmap = Gridmap::new(4, 6, 50);

    for i in 0..gridmap.get_cells().len() {
        assert_eq!(gridmap.get_val_idx(i), FREE_SPACE);
        assert_eq!(gridmap.idx_is_traversable(i, &INSCRIBED_INFLATED_OBSTACLE), true);
    }

    gridmap.set_val_idx(INSCRIBED_INFLATED_OBSTACLE, 4);
    assert_eq!(gridmap.get_val_idx(4), INSCRIBED_INFLATED_OBSTACLE);
    assert_eq!(gridmap.xy_is_traversable(&(0, 1), &INSCRIBED_INFLATED_OBSTACLE), false);
}

#[test]
#[should_panic]
/// Test that getting indices out of map should panic!
fn test_get_in_map_check() {
    let gridmap = Gridmap::new(4, 6, 50);

    gridmap.get_val_idx(24);
}

#[test]
#[should_panic]
/// Test that setting indices out of map should panic!
fn test_set_in_map_check() {
    let mut gridmap = Gridmap::new(4, 6, 50);

    gridmap.set_val_idx(LETHAL_OBSTACLE, 24);
}

#[test]
fn test_check_collision_line_f32() {
    let mut gridmap = Gridmap::new(10, 10, 50);
    let collision =
        gridmap.check_collision_line_fp(&(0, 0), &(9000, 9000), &INSCRIBED_INFLATED_OBSTACLE);
    assert_eq!(collision, false);

    gridmap.set_val_xy(255, (3, 3));
    gridmap.set_val_xy(255, (4, 2));
    gridmap.set_val_xy(255, (3, 2));
    let collision =
        gridmap.check_collision_line_fp(&(0, 0), &(4000, 3000), &INSCRIBED_INFLATED_OBSTACLE);

    assert_eq!(collision, true);
}
