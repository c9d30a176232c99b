use navgrid::geometry::{GroundVec, Waypoint};
use navgrid::navigation::{next_step_from_path, NavMeshDimensions, NavMeshObstacleTransform, Navigation};

fn v(x: i32, z: i32) -> GroundVec {
    GroundVec::new(x, z)
}

fn square_region() -> NavMeshDimensions {
    NavMeshDimensions::new(v(0, 0), v(10, 10))
}

fn obstacle(x: i32, z: i32, sx: i32, sz: i32) -> NavMeshObstacleTransform {
    NavMeshObstacleTransform::new(v(x, z), v(sx, sz))
}

fn blocked_cells(nav: &Navigation, id: u128, cols: i32, rows: i32) -> Vec<(i32, i32)> {
    let mut out = Vec::new();
    for x in 0..cols {
        for z in 0..rows {
            if nav.is_cell_blocked(id, x, z) == Some(true) {
                out.push((x, z));
            }
        }
    }
    out
}

#[test]
fn dimensions_derive_cell_counts() {
    let d = NavMeshDimensions::new(v(3, -4), v(10, 7));
    assert_eq!(d.x_cells_count, 5);
    assert_eq!(d.z_cells_count, 3);
    assert_eq!(d.position, v(3, -4));
    let degenerate = NavMeshDimensions::new(v(0, 0), v(-6, 0));
    assert_eq!(degenerate.x_cells_count, 3);
    assert_eq!(degenerate.z_cells_count, 0);
    let odd_negative = NavMeshDimensions::new(v(0, 0), v(-7, i32::MIN));
    assert_eq!(odd_negative.x_cells_count, 3);
    assert_eq!(odd_negative.z_cells_count, 1 << 30);
}

#[test]
fn diagonal_step_in_empty_region() {
    let mut nav = Navigation::new();
    nav.add_navmesh(1, square_region());
    let step = nav.find_next_path_point(v(-5, -5), v(5, 5));
    assert_eq!(step, Some(Waypoint { x2: -6, z2: -6 }));
    let w = step.unwrap();
    assert!(w.x2 > -10 && w.x2 < 10 && w.z2 > -10 && w.z2 < 10);
}

#[test]
fn step_routes_around_obstacle() {
    let mut nav = Navigation::new();
    nav.add_navmesh(1, square_region());
    nav.add_obstacle(obstacle(0, 0, 4, 4));
    nav.create_grids();
    let mut blocked = Vec::new();
    for x in 1..4 {
        for z in 1..4 {
            blocked.push((x, z));
        }
    }
    assert_eq!(blocked_cells(&nav, 1, 5, 5), blocked);
    let step = nav.find_next_path_point(v(-5, 0), v(5, 0));
    assert!(step.is_some());
    let w = step.unwrap();
    assert_ne!(w, Waypoint { x2: 0, z2: 0 });
    assert!(w == Waypoint { x2: -10, z2: -6 } || w == Waypoint { x2: -10, z2: 2 });
}

#[test]
fn same_point_has_no_next_step() {
    let mut nav = Navigation::new();
    nav.add_navmesh(1, square_region());
    assert_eq!(nav.find_next_path_point(v(1, 2), v(1, 2)), None);
    assert_eq!(nav.find_next_path_point(v(0, 0), v(0, 0)), None);
    // two points in the same cell
    assert_eq!(nav.find_next_path_point(v(-5, -5), v(-4, -4)), None);
}

#[test]
fn edges_are_inside_for_obstacles() {
    let mut nav = Navigation::new();
    nav.add_navmesh(1, square_region());
    nav.add_obstacle(obstacle(5, 0, 0, 0));
    nav.create_grids();
    assert_eq!(blocked_cells(&nav, 1, 5, 5), vec![(4, 2)]);
}

#[test]
fn edges_are_inside_for_queries() {
    let mut nav = Navigation::new();
    nav.add_navmesh(1, square_region());
    assert_eq!(nav.find_next_path_point(v(-5, -5), v(5, 5)), Some(Waypoint { x2: -6, z2: -6 }));
    assert_eq!(nav.find_next_path_point(v(5, 5), v(-5, -5)), Some(Waypoint { x2: 2, z2: 2 }));
    assert_eq!(nav.find_next_path_point(v(-6, 0), v(5, 0)), None);
    assert_eq!(nav.find_next_path_point(v(0, 0), v(0, 6)), None);
}

#[test]
fn blocked_row_separates_the_region() {
    let mut nav = Navigation::new();
    nav.add_navmesh(1, square_region());
    nav.add_obstacle(obstacle(0, 0, 10, 0));
    nav.create_grids();
    assert_eq!(blocked_cells(&nav, 1, 5, 5), vec![(0, 2), (1, 2), (2, 2), (3, 2), (4, 2)]);
    assert_eq!(nav.find_next_path_point(v(-5, -5), v(5, 5)), None);
    assert_eq!(nav.find_next_path_point(v(4, 5), v(-4, -5)), None);
    // both points on one side still get a step
    assert!(nav.find_next_path_point(v(-5, -5), v(5, -5)).is_some());
}

#[test]
fn obstacle_blocks_exactly_its_footprint() {
    let mut nav = Navigation::new();
    nav.add_navmesh(7, NavMeshDimensions::new(v(10, 10), v(20, 20)));
    nav.add_obstacle(obstacle(4, 6, 2, 6));
    nav.create_grids();
    // origin (0, 0); x from 3 to 5 -> cells 1..=2; z from 3 to 9 -> cells 1..=4
    let expected: Vec<(i32, i32)> = vec![(1, 1), (1, 2), (1, 3), (1, 4), (2, 1), (2, 2), (2, 3), (2, 4)];
    assert_eq!(blocked_cells(&nav, 7, 10, 10), expected);
}

#[test]
fn obstacle_near_corner_is_clamped() {
    let mut nav = Navigation::new();
    nav.add_navmesh(1, square_region());
    nav.add_obstacle(obstacle(-5, -5, 6, 6));
    nav.create_grids();
    assert_eq!(blocked_cells(&nav, 1, 5, 5), vec![(0, 0), (0, 1), (1, 0), (1, 1)]);
}

#[test]
fn obstacle_outside_every_region_is_dropped() {
    let mut nav = Navigation::new();
    nav.add_navmesh(1, square_region());
    nav.add_obstacle(obstacle(40, 40, 4, 4));
    nav.add_obstacle(obstacle(6, 0, 4, 4));
    nav.create_grids();
    assert_eq!(blocked_cells(&nav, 1, 5, 5), Vec::<(i32, i32)>::new());
}

#[test]
fn rebuilding_twice_gives_same_grids() {
    let mut nav = Navigation::new();
    nav.add_navmesh(1, square_region());
    nav.add_navmesh(2, NavMeshDimensions::new(v(30, 0), v(8, 8)));
    nav.add_obstacle(obstacle(0, 0, 4, 4));
    nav.add_obstacle(obstacle(30, 1, 2, 2));
    nav.create_grids();
    let first = (blocked_cells(&nav, 1, 5, 5), blocked_cells(&nav, 2, 4, 4));
    nav.create_grids();
    let second = (blocked_cells(&nav, 1, 5, 5), blocked_cells(&nav, 2, 4, 4));
    assert_eq!(first, second);
    assert_eq!(first.1, vec![(1, 2), (1, 3), (2, 2), (2, 3)]);
}

#[test]
fn overlapping_regions_first_registered_wins() {
    let mut nav = Navigation::new();
    nav.add_navmesh(1, square_region());
    nav.add_navmesh(2, NavMeshDimensions::new(v(4, 0), v(10, 10)));
    nav.add_obstacle(obstacle(2, 0, 0, 0));
    nav.create_grids();
    assert_eq!(blocked_cells(&nav, 1, 5, 5), vec![(3, 2)]);
    assert_eq!(blocked_cells(&nav, 2, 5, 5), Vec::<(i32, i32)>::new());
    // a query held by both regions is answered in the first one's grid
    assert_eq!(nav.find_next_path_point(v(0, -5), v(0, 5)), Some(Waypoint { x2: -2, z2: -6 }));
}

#[test]
fn upsert_replaces_region_and_keeps_obstacles() {
    let mut nav = Navigation::new();
    nav.add_navmesh(1, square_region());
    nav.add_obstacle(obstacle(0, 0, 0, 0));
    nav.add_navmesh(1, NavMeshDimensions::new(v(1, 1), v(10, 10)));
    // the obstacle stays assigned and is baked into the moved region's grid
    assert_eq!(blocked_cells(&nav, 1, 5, 5), vec![(2, 2)]);
    assert_eq!(nav.find_next_path_point(v(6, 6), v(2, 6)), Some(Waypoint { x2: 4, z2: 8 }));
}

#[test]
fn update_clears_obstacles() {
    let mut nav = Navigation::new();
    nav.add_navmesh(1, square_region());
    nav.add_obstacle(obstacle(0, 0, 4, 4));
    nav.create_grids();
    assert_eq!(blocked_cells(&nav, 1, 5, 5).len(), 9);
    nav.update();
    // grids stay until they are rebuilt
    assert_eq!(blocked_cells(&nav, 1, 5, 5).len(), 9);
    nav.create_grids();
    assert_eq!(blocked_cells(&nav, 1, 5, 5).len(), 0);
}

#[test]
fn obstacle_added_before_rebuild_has_no_effect_yet() {
    let mut nav = Navigation::new();
    nav.add_navmesh(1, square_region());
    nav.add_obstacle(obstacle(0, 0, 10, 0));
    assert_eq!(nav.find_next_path_point(v(-5, -5), v(5, 5)), Some(Waypoint { x2: -6, z2: -6 }));
    nav.create_grids();
    assert_eq!(nav.find_next_path_point(v(-5, -5), v(5, 5)), None);
}

#[test]
fn no_region_no_step() {
    let nav = Navigation::new();
    assert_eq!(nav.find_next_path_point(v(0, 0), v(1, 1)), None);
    assert_eq!(nav.is_cell_blocked(1, 0, 0), None);
}

#[test]
fn oversized_grid_is_not_built() {
    let mut nav = Navigation::new();
    let d = NavMeshDimensions { position: v(0, 0), area_size_world: v(20000, 20000), x_cells_count: 10000, z_cells_count: 10000 };
    nav.add_navmesh(3, d);
    assert_eq!(nav.is_cell_blocked(3, 0, 0), None);
    assert_eq!(nav.find_next_path_point(v(0, 0), v(100, 100)), None);
}

#[test]
fn empty_grid_gives_no_step() {
    let mut nav = Navigation::new();
    nav.add_navmesh(1, NavMeshDimensions::new(v(0, 0), v(1, 10)));
    assert_eq!(nav.find_next_path_point(v(0, -5), v(0, 5)), None);
    assert_eq!(nav.is_cell_blocked(1, 0, 0), None);
}

#[test]
fn cell_query_off_grid_or_unknown_id() {
    let mut nav = Navigation::new();
    nav.add_navmesh(1, square_region());
    assert_eq!(nav.is_cell_blocked(1, 0, 0), Some(false));
    assert_eq!(nav.is_cell_blocked(1, 5, 0), None);
    assert_eq!(nav.is_cell_blocked(1, 0, -1), None);
    assert_eq!(nav.is_cell_blocked(2, 0, 0), None);
}

#[test]
fn non_square_region_uses_each_axis() {
    let mut nav = Navigation::new();
    // 20 wide, 6 deep: origin (-10, 7)
    nav.add_navmesh(1, NavMeshDimensions::new(v(0, 10), v(20, 6)));
    let step = nav.find_next_path_point(v(-10, 7), v(10, 13));
    assert!(step == Some(Waypoint { x2: -16, z2: 18 }) || step == Some(Waypoint { x2: -16, z2: 14 }));
    assert_eq!(nav.find_next_path_point(v(9, 12), v(-10, 12)), Some(Waypoint { x2: 12, z2: 22 }));
}

#[test]
fn step_from_path_takes_second_cell() {
    let d = square_region();
    assert_eq!(next_step_from_path(&d, &Some(vec![(0, 0), (1, 2), (2, 3)])), Some(Waypoint { x2: -6, z2: -2 }));
    assert_eq!(next_step_from_path(&d, &Some(vec![(4, 4)])), None);
    assert_eq!(next_step_from_path(&d, &Some(vec![])), None);
    assert_eq!(next_step_from_path(&d, &None), None);
}

#[test]
fn contains_point_is_inclusive() {
    let d = square_region();
    assert!(d.contains_point(v(5, 5)));
    assert!(d.contains_point(v(-5, 0)));
    assert!(!d.contains_point(v(6, 0)));
    let odd = NavMeshDimensions::new(v(0, 0), v(3, 3));
    assert!(odd.contains_point(v(1, -1)));
    assert!(!odd.contains_point(v(2, 0)));
}

#[test]
fn edge_finish_gets_a_step() {
    let mut nav = Navigation::new();
    nav.add_navmesh(1, square_region());
    assert_eq!(nav.find_next_path_point(v(0, 0), v(5, 0)), Some(Waypoint { x2: 2, z2: -2 }));
}

#[test]
fn odd_extent_corners_are_exact() {
    let mut nav = Navigation::new();
    // 5 x 5 world units: two cells per axis, minimum corner at (-2.5, -2.5)
    nav.add_navmesh(1, NavMeshDimensions::new(v(0, 0), v(5, 5)));
    assert_eq!(nav.find_next_path_point(v(-2, -2), v(2, 2)), Some(Waypoint { x2: -1, z2: -1 }));
    assert_eq!(nav.find_next_path_point(v(2, 2), v(-2, -2)), Some(Waypoint { x2: -5, z2: -5 }));
}

#[test]
fn huge_axis_with_no_rows_is_not_built() {
    let mut nav = Navigation::new();
    let d = NavMeshDimensions { position: v(0, 0), area_size_world: v(10, 10), x_cells_count: i32::MAX, z_cells_count: 0 };
    nav.add_navmesh(4, d);
    assert_eq!(nav.is_cell_blocked(4, 0, 0), None);
    assert_eq!(nav.find_next_path_point(v(0, 0), v(1, 1)), None);
}

#[test]
fn repeated_query_gives_same_answer() {
    let mut nav = Navigation::new();
    nav.add_navmesh(1, square_region());
    nav.add_obstacle(obstacle(0, 0, 4, 4));
    nav.create_grids();
    let first = nav.find_next_path_point(v(-5, 0), v(5, 0));
    assert_eq!(nav.find_next_path_point(v(-5, 0), v(5, 0)), first);
}

#[test]
fn shifted_world_shifts_the_step() {
    let mut a = Navigation::new();
    a.add_navmesh(1, square_region());
    a.add_obstacle(obstacle(0, 0, 4, 4));
    a.create_grids();
    let mut b = Navigation::new();
    b.add_navmesh(1, NavMeshDimensions::new(v(4, -6), v(10, 10)));
    b.add_obstacle(obstacle(4, -6, 4, 4));
    b.create_grids();
    let sa = a.find_next_path_point(v(-5, 0), v(5, 0)).unwrap();
    let sb = b.find_next_path_point(v(-1, -6), v(9, -6)).unwrap();
    assert_eq!(sb, Waypoint { x2: sa.x2 + 8, z2: sa.z2 - 12 });
}

#[test]
fn negative_extent_region_gets_grid_but_holds_nothing() {
    let mut nav = Navigation::new();
    nav.add_navmesh(9, NavMeshDimensions::new(v(0, 0), v(-6, -4)));
    assert_eq!(nav.is_cell_blocked(9, 2, 1), Some(false));
    assert_eq!(nav.is_cell_blocked(9, 3, 0), None);
    nav.add_obstacle(obstacle(0, 0, 2, 2));
    nav.create_grids();
    assert_eq!(blocked_cells(&nav, 9, 3, 2), Vec::<(i32, i32)>::new());
    assert_eq!(nav.find_next_path_point(v(0, 0), v(0, 0)), None);
    assert_eq!(nav.find_next_path_point(v(0, 0), v(1, 1)), None);
}
