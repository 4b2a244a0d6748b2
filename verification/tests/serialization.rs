use orchitecture::eorf::{EorfId, EorfInfo, FurnitureOrElement, PlacementStyle};
use orchitecture::materials::ElementType;
use orchitecture::place::ParentRestriction;
use orchitecture::city::Cell;
use orchitecture::materials::BuildMaterialId;
use orchitecture::serialization::{
    deserialize, read_detail_line, read_grid_text, room_cells, serialize_slot, structures_by_char,
    write_detail_line, write_grid_text, SerializationError,
};
use orchitecture::sparse3d::{Facing, IVec3, RelSlot, Slot, SlotCoord, Sparse3D};
use std::collections::HashMap;

#[test]
fn deserialize_returns_error_on_unknown_char() {
    let map: HashMap<u32, EorfId> = HashMap::new();
    let result = deserialize('X', &map);
    assert!(result.is_err());
    assert_eq!(result, Err(SerializationError::UnknownCharacter('X')));
}

#[test]
fn deserialize_returns_correct_id_for_known_char() {
    let mut map = HashMap::new();
    map.insert('A' as u32, EorfId(7));
    assert!(deserialize('A', &map).unwrap() == EorfId(7));
}

fn wall() -> EorfInfo {
    EorfInfo {
        name: "wall".to_string(),
        placement_style: PlacementStyle::WallDrag,
        x_char: Some('|'),
        z_char: Some('-'),
        kind: FurnitureOrElement::Element(ElementType::WallLike),
        restriction: ParentRestriction::Unrestricted,
    }
}

#[test]
fn slots_are_written_with_their_own_character() {
    let structures = vec![wall()];
    assert_eq!(serialize_slot(EorfId(0), RelSlot::XLoWall, &structures), Ok('|'));
    assert_eq!(serialize_slot(EorfId(0), RelSlot::XHiWall, &structures), Ok('|'));
    assert_eq!(serialize_slot(EorfId(0), RelSlot::ZLoWall, &structures), Ok('-'));
    assert_eq!(serialize_slot(EorfId(0), RelSlot::Floor, &structures), Ok('-'));
    assert_eq!(
        serialize_slot(EorfId(3), RelSlot::Room, &structures),
        Err(SerializationError::StructureNotFound(EorfId(3)))
    );
}

#[test]
fn a_structure_without_a_character_is_a_space() {
    let mut w = wall();
    w.z_char = None;
    assert_eq!(serialize_slot(EorfId(0), RelSlot::Room, &[w]), Ok(' '));
}

fn floor() -> EorfInfo {
    EorfInfo {
        name: "floor".to_string(),
        placement_style: PlacementStyle::FloorDrag,
        x_char: Some('/'),
        z_char: Some('.'),
        kind: FurnitureOrElement::Element(ElementType::GroundFloorLike),
        restriction: ParentRestriction::Unrestricted,
    }
}

fn make_structures() -> Vec<EorfInfo> {
    vec![wall(), floor()]
}

fn cell(id: u32) -> Cell {
    Cell { id: EorfId(id), facing: Facing::NegX, build_material: BuildMaterialId::default() }
}

fn at(x: i32, y: i32, z: i32, slot: Slot) -> SlotCoord {
    SlotCoord { cube: IVec3::new(x, y, z), slot }
}

fn round_trip(grid: &Sparse3D<Cell>, structures: &[EorfInfo]) -> (Sparse3D<Cell>, Vec<Vec<char>>) {
    let text = write_grid_text(grid, structures).unwrap();
    let table = structures_by_char(structures);
    read_grid_text(&text, &table).unwrap()
}

#[test]
fn round_trip_single_zwall() {
    let structures = make_structures();
    let mut grid = Sparse3D::new();
    let loc = at(0, 0, 0, Slot::ZLoWall);
    grid.set(loc, cell(0));

    let (restored, rest) = round_trip(&grid, &structures);

    assert!(restored.size() == 1);
    assert!(restored.get(loc).map(|c| c.id) == Some(EorfId(0)));
    assert!(rest.is_empty());
}

#[test]
fn round_trip_multiple_slots() {
    let structures = make_structures();
    let mut grid = Sparse3D::new();
    let zwall = at(0, 0, 0, Slot::ZLoWall);
    let xwall = at(1, 0, 0, Slot::XLoWall);
    let floor = at(0, 0, 0, Slot::Floor);
    grid.set(zwall, cell(0));
    grid.set(xwall, cell(0));
    grid.set(floor, cell(1));

    let (restored, _) = round_trip(&grid, &structures);

    assert!(restored.size() == 3);
    assert!(restored.get(zwall).map(|c| c.id) == Some(EorfId(0)));
    assert!(restored.get(xwall).map(|c| c.id) == Some(EorfId(0)));
    assert!(restored.get(floor).map(|c| c.id) == Some(EorfId(1)));
}

#[test]
fn round_trip_multi_level() {
    let structures = make_structures();
    let mut grid = Sparse3D::new();
    let lo = at(0, 0, 0, Slot::ZLoWall);
    let hi = at(0, 2, 0, Slot::ZLoWall);
    grid.set(lo, cell(0));
    grid.set(hi, cell(0));

    let (restored, _) = round_trip(&grid, &structures);

    assert!(restored.get(lo).is_some());
    assert!(restored.get(hi).is_some());
}

#[test]
fn a_grid_is_saved_relative_to_its_bounding_box() {
    let structures = make_structures();
    let mut grid = Sparse3D::new();
    grid.set(at(5, 3, 7, Slot::ZLoWall), cell(0));

    let (restored, _) = round_trip(&grid, &structures);

    assert_eq!(restored.size(), 1);
    assert!(restored.get(at(0, 0, 0, Slot::ZLoWall)).is_some());
    assert!(restored.get(at(5, 3, 7, Slot::ZLoWall)).is_none());
}

#[test]
fn writing_a_cell_of_an_unknown_structure_fails() {
    let structures = make_structures();
    let mut grid = Sparse3D::new();
    grid.set(at(0, 0, 0, Slot::Room), cell(9));
    assert_eq!(
        write_grid_text(&grid, &structures),
        Err(SerializationError::StructureNotFound(EorfId(9)))
    );
}

#[test]
fn reading_an_unknown_character_fails() {
    let structures = make_structures();
    let table = structures_by_char(&structures);
    let text = "Q \n  \n~~~~~\n~*~*~\n";
    assert_eq!(
        read_grid_text(text, &table).map(|_| ()),
        Err(SerializationError::UnknownCharacter('Q'))
    );
}

#[test]
fn the_lines_after_the_grid_are_handed_back() {
    let table: HashMap<u32, EorfId> = HashMap::new();
    let text = "  \n  \n~~~~~\n~*~*~\n(0,0,0,\"Room\")={}\n";
    let (grid, rest) = read_grid_text(text, &table).unwrap();
    assert_eq!(grid.size(), 0);
    assert_eq!(rest.len(), 1);
    let expected: Vec<char> = "(0,0,0,\"Room\")={}".chars().collect();
    assert_eq!(rest[0], expected);
}

#[test]
fn room_cells_are_listed_relative_to_the_box() {
    let mut grid = Sparse3D::new();
    grid.set(at(2, 1, 3, Slot::Room), cell(1));
    grid.set(at(2, 1, 3, Slot::Floor), cell(0));
    grid.set(at(4, 1, 3, Slot::Room), cell(0));
    let rooms = room_cells(&grid);
    assert_eq!(rooms.len(), 2);
    assert_eq!(rooms[0].0, IVec3::new(0, 0, 0));
    assert_eq!(rooms[0].1.id, EorfId(1));
    assert_eq!(rooms[1].0, IVec3::new(2, 0, 0));
}

#[test]
fn detail_lines_round_trip() {
    let text = write_detail_line(-3, 0, 12, "\"Room\"", "{\"id\":0}");
    assert_eq!(text, "(-3,0,12,\"Room\")={\"id\":0}");
    let chars: Vec<char> = text.chars().collect();
    let d = read_detail_line(&chars).unwrap();
    assert_eq!((d.x, d.y, d.z), (-3, 0, 12));
    assert_eq!(d.slot_text.iter().collect::<String>(), "\"Room\"");
    assert_eq!(d.cell_text.iter().collect::<String>(), "{\"id\":0}");
}

#[test]
fn a_detail_line_without_equals_is_refused() {
    let chars: Vec<char> = "(0,0,0,Room)".chars().collect();
    assert_eq!(read_detail_line(&chars).map(|_| ()), Err(SerializationError::InvalidDetailLine));
}

#[test]
fn a_detail_line_with_a_bad_number_is_refused() {
    let chars: Vec<char> = "(0,a,0,Room)=x".chars().collect();
    assert_eq!(read_detail_line(&chars).map(|_| ()), Err(SerializationError::InvalidCoordinate));
}
