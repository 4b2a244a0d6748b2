use orchitecture::city::Cell;
use orchitecture::eorf::EorfId;
use orchitecture::materials::BuildMaterialId;
use orchitecture::pathing::{
    boundary_nav, facing_horizontal_dir, grid_bounds, horizontal_boundary_loc, navigation_grid_settings, room_nav,
    GridNav, GridSpace, NodeNav, UVec3,
};
use orchitecture::sparse3d::{Facing, IVec3, Slot, SlotCoord, Sparse3D};

#[test]
fn facing_horizontal_dir_follows_clockwise_cycle() {
    assert!(facing_horizontal_dir(Facing::NegX) == IVec3::new(0, 0, -1));
    assert!(facing_horizontal_dir(Facing::NegZ) == IVec3::new(1, 0, 0));
    assert!(facing_horizontal_dir(Facing::PosX) == IVec3::new(0, 0, 1));
    assert!(facing_horizontal_dir(Facing::PosZ) == IVec3::new(-1, 0, 0));
}

fn cell(id: u32) -> Cell {
    Cell { id: EorfId(id), facing: Facing::NegX, build_material: BuildMaterialId::default() }
}

// Structure kinds of these tests: 0 a wall, 1 a doorway, 2 a floor.
fn navs() -> Vec<NodeNav> {
    vec![NodeNav::Impassable, NodeNav::Passable(1), NodeNav::Passable(1)]
}

#[test]
fn the_shared_face_is_the_low_wall_of_the_higher_cube() {
    let a = IVec3::new(0, 0, 0);
    let b = IVec3::new(1, 0, 0);
    let c = IVec3::new(0, 0, 1);
    assert_eq!(horizontal_boundary_loc(a, b), SlotCoord { cube: b, slot: Slot::XLoWall });
    assert_eq!(horizontal_boundary_loc(b, a), SlotCoord { cube: b, slot: Slot::XLoWall });
    assert_eq!(horizontal_boundary_loc(a, c), SlotCoord { cube: c, slot: Slot::ZLoWall });
    assert_eq!(horizontal_boundary_loc(c, a), SlotCoord { cube: c, slot: Slot::ZLoWall });
}

#[test]
fn open_gap_between_ground_rooms_is_connected() {
    let contents: Sparse3D<Cell> = Sparse3D::new();
    let from = IVec3::new(0, 0, 0);
    let to = IVec3::new(1, 0, 0);
    assert_eq!(room_nav(&contents, &navs(), from), NodeNav::Passable(1));
    assert_eq!(room_nav(&contents, &navs(), to), NodeNav::Passable(1));
    assert_eq!(boundary_nav(&contents, &navs(), from, to), NodeNav::Passable(1));
}

#[test]
fn wall_blocks_but_doorway_connects() {
    let mut contents = Sparse3D::new();
    contents.set(SlotCoord { cube: IVec3::new(1, 0, 0), slot: Slot::XLoWall }, cell(0));
    contents.set(SlotCoord { cube: IVec3::new(0, 0, 1), slot: Slot::ZLoWall }, cell(1));
    let origin = IVec3::new(0, 0, 0);
    assert_eq!(boundary_nav(&contents, &navs(), origin, IVec3::new(1, 0, 0)), NodeNav::Impassable);
    assert_eq!(boundary_nav(&contents, &navs(), origin, IVec3::new(0, 0, 1)), NodeNav::Passable(1));
}

#[test]
fn upper_room_without_floor_is_unreachable() {
    let mut contents = Sparse3D::new();
    let upper = IVec3::new(0, 1, 0);
    assert_eq!(room_nav(&contents, &navs(), upper), NodeNav::Impassable);
    contents.set(SlotCoord { cube: upper, slot: Slot::Floor }, cell(2));
    assert_eq!(room_nav(&contents, &navs(), upper), NodeNav::Passable(1));
}

#[test]
fn rooms_and_faces_get_their_own_nodes() {
    let space = GridSpace { origin: IVec3::new(-1, -1, -1), dims: IVec3::new(4, 3, 4) };
    let cube = IVec3::new(0, 0, 0);
    let room = space.room_doubled(cube).unwrap();
    assert_eq!(room, UVec3 { x: 3, y: 3, z: 3 });
    assert_eq!(space.cube_of_room(room), Some(cube));
    let face = space.boundary_doubled(SlotCoord { cube, slot: Slot::XLoWall }).unwrap();
    assert_eq!(face, UVec3 { x: 2, y: 3, z: 3 });
    assert_eq!(space.cube_of_room(face), None);
    assert_eq!(space.room_doubled(IVec3::new(5, 0, 0)), None);
    assert_eq!(space.dims_doubled(), UVec3 { x: 8, y: 6, z: 8 });
}

#[test]
fn the_grid_reaches_down_to_the_ground_and_is_padded() {
    let (lo, hi) = grid_bounds(IVec3::new(2, 3, -4), IVec3::new(5, 6, 0));
    assert_eq!(lo, IVec3::new(1, -1, -5));
    assert_eq!(hi, IVec3::new(6, 7, 1));
}

fn u(x: u32, y: u32, z: u32) -> UVec3 {
    UVec3 { x, y, z }
}

#[test]
fn every_cube_sets_its_room_and_low_faces() {
    let contents: Sparse3D<Cell> = Sparse3D::new();
    let space = GridSpace { origin: IVec3::new(0, 0, 0), dims: IVec3::new(1, 1, 1) };
    let settings = navigation_grid_settings(&contents, &navs(), &space, None);
    assert_eq!(
        settings,
        vec![
            (u(1, 1, 1), GridNav::Passable(1)),
            (u(0, 1, 1), GridNav::Passable(1)),
            (u(1, 1, 0), GridNav::Passable(1)),
        ]
    );
}

#[test]
fn walls_close_their_face_node() {
    let mut contents = Sparse3D::new();
    contents.set(SlotCoord { cube: IVec3::new(1, 0, 0), slot: Slot::XLoWall }, cell(0));
    let space = GridSpace { origin: IVec3::new(0, 0, 0), dims: IVec3::new(2, 1, 1) };
    let settings = navigation_grid_settings(&contents, &navs(), &space, None);
    assert_eq!(settings.len(), 6);
    assert_eq!(settings[4], (u(2, 1, 1), GridNav::Impassable), "the x wall of the second cube");
}

#[test]
fn stairs_block_all_horizontal_boundaries_but_the_facing_one() {
    // Kind 3 is the stairs; they face -z (the default facing).
    let mut kinds = navs();
    kinds.push(NodeNav::Passable(1));
    let stairs = EorfId(3);
    let mut contents = Sparse3D::new();
    contents.set(SlotCoord { cube: IVec3::new(1, 0, 1), slot: Slot::Room }, cell(3));
    contents.set(SlotCoord { cube: IVec3::new(1, 1, 0), slot: Slot::Floor }, cell(2));
    let space = GridSpace { origin: IVec3::new(0, 0, 0), dims: IVec3::new(3, 2, 3) };
    let settings = navigation_grid_settings(&contents, &kinds, &space, Some(stairs));
    assert_eq!(settings.len(), 3 * 2 * 3 * 3 + 5);
    assert_eq!(
        settings[54..].to_vec(),
        vec![
            (u(4, 1, 3), GridNav::Impassable),
            (u(2, 1, 3), GridNav::Impassable),
            (u(3, 1, 4), GridNav::Impassable),
            (u(3, 1, 3), GridNav::Portal { to: u(3, 3, 1), cost: 1 }),
            (u(3, 3, 1), GridNav::Portal { to: u(3, 1, 3), cost: 1 }),
        ]
    );
}

#[test]
fn stairs_without_a_landing_go_nowhere() {
    let mut kinds = navs();
    kinds.push(NodeNav::Passable(1));
    let mut contents = Sparse3D::new();
    contents.set(SlotCoord { cube: IVec3::new(1, 0, 1), slot: Slot::Room }, cell(3));
    let space = GridSpace { origin: IVec3::new(0, 0, 0), dims: IVec3::new(3, 2, 3) };
    let settings = navigation_grid_settings(&contents, &kinds, &space, Some(EorfId(3)));
    assert_eq!(settings.len(), 54 + 3, "the faces are closed, but no portal is made");
}
