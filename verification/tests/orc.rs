use orchitecture::orc::{expand_path_to_waypoints, Waypoint};
use orchitecture::sparse3d::IVec3;

/// A waypoint in world units, its origin `y_offset` above the floor.
fn world(w: Waypoint, y_offset: f32) -> (f32, f32, f32) {
    (w.x2 as f32 / 2.0, w.level as f32 + y_offset, w.z2 as f32 / 2.0)
}

fn cube_center_bottom(cube: IVec3, y_offset: f32) -> (f32, f32, f32) {
    (cube.x as f32 + 0.5, cube.y as f32 + y_offset, cube.z as f32 + 0.5)
}

#[test]
fn flat_path_keeps_one_waypoint_per_cube_at_constant_y() {
    let path = [IVec3::new(0, 0, 0), IVec3::new(1, 0, 0), IVec3::new(1, 0, 1)];
    let waypoints = expand_path_to_waypoints(&path);

    assert!(waypoints.len() == 3);
    for (waypoint, cube) in waypoints.iter().zip(path.iter()) {
        assert!(world(*waypoint, 0.1) == cube_center_bottom(*cube, 0.1));
    }
}

#[test]
fn stairs_hop_inserts_near_and_far_edge_waypoints() {
    // Entry cube (0,0,1) -> stairs cube (0,0,0) -> landing one level up and
    // one step further, (0,1,-1).
    let path = [IVec3::new(0, 0, 1), IVec3::new(0, 0, 0), IVec3::new(0, 1, -1)];
    let waypoints = expand_path_to_waypoints(&path);

    assert!(waypoints.len() == 4);
    assert!(world(waypoints[0], 0.1) == cube_center_bottom(IVec3::new(0, 0, 1), 0.1));
    assert!(world(waypoints[3], 0.1) == cube_center_bottom(IVec3::new(0, 1, -1), 0.1));

    let near = world(waypoints[1], 0.1);
    let far = world(waypoints[2], 0.1);
    assert!(near.1 == 0.1);
    assert!(far.1 == 1.1);
    assert!(near.0 == 0.5);
    assert!(far.0 == 0.5);
    assert!(near.2 == 1.0);
    assert!(far.2 == 0.0);
}

#[test]
fn an_empty_route_has_no_points() {
    assert!(expand_path_to_waypoints(&[]).is_empty());
    assert_eq!(
        expand_path_to_waypoints(&[IVec3::new(2, 3, 4)]),
        vec![Waypoint { x2: 5, level: 3, z2: 9 }]
    );
}
