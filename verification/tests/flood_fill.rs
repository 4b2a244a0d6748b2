use orchitecture::city::Cell;
use orchitecture::eorf::EorfId;
use orchitecture::flood_fill::has_sky_above;
use orchitecture::materials::BuildMaterialId;
use orchitecture::sparse3d::{Facing, IVec3, Slot, SlotCoord, Sparse3D};

fn floor_at(contents: &mut Sparse3D<Cell>, x: i32, y: i32, z: i32) {
    contents.set(
        SlotCoord { cube: IVec3::new(x, y, z), slot: Slot::Floor },
        Cell { id: EorfId(0), facing: Facing::NegX, build_material: BuildMaterialId::default() },
    );
}

#[test]
fn a_floor_overhead_hides_the_sky() {
    let mut contents = Sparse3D::new();
    floor_at(&mut contents, 0, 3, 0);
    assert!(!has_sky_above(&contents, IVec3::new(0, 0, 0), 5));
    assert!(has_sky_above(&contents, IVec3::new(1, 0, 0), 5), "another column is open");
    assert!(has_sky_above(&contents, IVec3::new(0, 3, 0), 5), "a cube's own floor is below it");
    assert!(has_sky_above(&contents, IVec3::new(0, 0, 0), 2), "floors above the top layer do not count");
}

#[test]
fn the_top_layer_itself_is_checked() {
    let mut contents = Sparse3D::new();
    floor_at(&mut contents, 2, 4, 2);
    assert!(!has_sky_above(&contents, IVec3::new(2, 1, 2), 4));
}
