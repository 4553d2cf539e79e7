use ruth_planner::maps::builder;
use ruth_planner::maps::samples;

#[test]
fn test_build_gridmap_from_2d_arr() {
    let snake_arr_map: Vec<Vec<u8>> = samples::create_snake_arr_map();

    let gridmap = builder::build_gridmap_from_2d_arr(&snake_arr_map).unwrap();

    assert_eq!(gridmap.get_width(), 7);
    assert_eq!(gridmap.get_height(), 5);
    for y in 0..5u32 {
        for x in 0..7u32 {
            assert_eq!(gridmap.get_val_xy((x, y)), snake_arr_map[y as usize][x as usize]);
        }
    }
}

#[test]
fn test_build_gridmap_rejects_empty() {
    let empty: Vec<Vec<u8>> = Vec::new();
    assert!(builder::build_gridmap_from_2d_arr(&empty).is_none());

    let empty_row: Vec<Vec<u8>> = vec![Vec::new()];
    assert!(builder::build_gridmap_from_2d_arr(&empty_row).is_none());
}

#[test]
fn test_build_gridmap_rejects_ragged() {
    let ragged: Vec<Vec<u8>> = vec![vec![0, 0, 0], vec![0, 0]];
    assert!(builder::build_gridmap_from_2d_arr(&ragged).is_none());
}
