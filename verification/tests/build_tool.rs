use orchitecture::build_tool::BuildState;
use orchitecture::materials::{BuildMaterial, BuildMaterialId, ElementType, MaterialList};
use orchitecture::resource::UniformResource;
use orchitecture::sparse3d::Slot;

fn material(name: &str, types: &[ElementType]) -> BuildMaterial {
    BuildMaterial {
        name: name.to_string(),
        costs: types.iter().map(|t| (*t, vec![(UniformResource::Fieldstone, 1)])).collect(),
    }
}

fn materials() -> MaterialList {
    MaterialList {
        materials: vec![
            material("thatch", &[ElementType::RoofLike]),
            material("timber", &[ElementType::WallLike, ElementType::GroundFloorLike]),
            material("ashlar", &[ElementType::WallLike]),
        ],
    }
}

#[test]
fn wall_plop_faces_follow_each_walls_own_flip() {
    let mut state = BuildState::default();
    assert_eq!(state.wall_plop_dir(Slot::XLoWall), 0);
    assert_eq!(state.wall_plop_dir(Slot::ZLoWall), 1);
    state.rotate(true, Some(Slot::XLoWall));
    assert_eq!(state.wall_plop_dir(Slot::XLoWall), 2);
    assert_eq!(state.wall_plop_dir(Slot::ZLoWall), 1, "z walls keep their own orientation");
    state.rotate(true, Some(Slot::ZLoWall));
    assert_eq!(state.wall_plop_dir(Slot::ZLoWall), 3);
    state.rotate(true, Some(Slot::XLoWall));
    assert_eq!(state.wall_plop_dir(Slot::XLoWall), 0);
    assert_eq!(state.wall_plop_dir(Slot::Room), 0);
}

#[test]
fn rotating_a_room_object_steps_its_facing_back() {
    let mut state = BuildState::default();
    state.rotate(false, None);
    assert_eq!(state.cur_dir, 3);
    state.rotate(false, None);
    assert_eq!(state.cur_dir, 2);
    state.rotate(true, None);
    assert_eq!(state.cur_dir, 2, "a wall-mounted kind never changes the room facing");
}

#[test]
fn layers_stay_between_the_ground_and_the_top() {
    let mut state = BuildState::default();
    state.lower_layer();
    assert_eq!(state.cur_y, 0);
    for _ in 0..12 {
        state.raise_layer();
    }
    assert_eq!(state.cur_y, 10);
    state.lower_layer();
    assert_eq!(state.cur_y, 9);
}

#[test]
fn the_first_material_that_fits_is_chosen_and_remembered() {
    let list = materials();
    let mut state = BuildState::default();
    assert_eq!(state.material_for_type(ElementType::WallLike, &list), BuildMaterialId(1));
    assert_eq!(state.material_per_type, vec![(ElementType::WallLike, BuildMaterialId(1))]);
    state.material_per_type[0].1 = BuildMaterialId(2);
    assert_eq!(state.material_for_type(ElementType::WallLike, &list), BuildMaterialId(2));
    assert_eq!(state.material_per_type.len(), 1);
}

#[test]
fn a_type_no_material_fits_gets_the_default() {
    let list = materials();
    let mut state = BuildState::default();
    assert_eq!(state.material_for_type(ElementType::PillarLike, &list), BuildMaterialId::default());
    assert_eq!(state.material_per_type, vec![(ElementType::PillarLike, BuildMaterialId(5))]);
}
