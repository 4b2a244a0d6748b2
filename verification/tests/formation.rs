use orchitecture::city::{commit_plan, plan_with_candidates, Cell, ConstructedCity};
use orchitecture::eorf::{EorfId, EorfInfo, FurnitureOrElement, PlacementStyle};
use orchitecture::formation::{all_furniture_with_installed_tool, core_candidates, place_initial_places};
use orchitecture::materials::{BuildMaterialId, ElementType};
use orchitecture::place::{FulfilledPorf, ParentRestriction, ParticularPlace, Place, PlaceReq, PlacedPlaces, Porf};
use orchitecture::resource::{Inventory, StorageKind, ToolKind, UniqueResource};
use orchitecture::sparse3d::{Facing, IVec3, Slot, SlotCoord, Sparse3D};

fn structure(name: &str, furniture: bool) -> EorfInfo {
    EorfInfo {
        name: name.to_string(),
        placement_style: PlacementStyle::RoomPlop,
        x_char: None,
        z_char: None,
        kind: if furniture {
            FurnitureOrElement::Furniture(vec![])
        } else {
            FurnitureOrElement::Element(ElementType::WallLike)
        },
        restriction: ParentRestriction::Unrestricted,
    }
}

// Kinds: 0 bin, 1 wall, 2 table, 3 wagon.
fn structures() -> Vec<EorfInfo> {
    vec![structure("bin", true), structure("wall", false), structure("table", true), structure("wagon", true)]
}

fn place_def(name: &str, core: Porf) -> Place {
    Place {
        name: name.to_string(),
        requirements: vec![PlaceReq { requirement: core, min: 1, max: None }],
        public_storage: false,
        accounting: None,
        assignable_for: None,
        work: None,
    }
}

fn cube(x: i32, y: i32, z: i32) -> IVec3 {
    IVec3::new(x, y, z)
}

fn cell(id: u32) -> Cell {
    Cell { id: EorfId(id), facing: Facing::default(), build_material: BuildMaterialId::default() }
}

fn city(places: Vec<Place>, furniture: &[(IVec3, u32)]) -> ConstructedCity {
    let mut contents = Sparse3D::new();
    for (c, id) in furniture {
        contents.set(SlotCoord { cube: *c, slot: Slot::Room }, cell(*id));
    }
    ConstructedCity {
        contents,
        eorfs: structures(),
        places,
        placed_places: PlacedPlaces::new(),
        furniture_slots: vec![],
        furniture_restrictions: vec![],
    }
}

#[test]
fn candidates_come_in_scan_order_across_kinds() {
    let cw = city(
        vec![
            place_def("storage room", Porf::Furniture("bin".to_string())),
            place_def("pantry", Porf::Furniture("bin".to_string())),
        ],
        &[(cube(2, 0, 0), 0), (cube(1, 0, 5), 0), (cube(1, 0, 2), 2), (cube(1, 0, 1), 0)],
    );
    assert_eq!(
        core_candidates(&cw),
        vec![
            (cube(1, 0, 1), 0),
            (cube(1, 0, 1), 1),
            (cube(1, 0, 5), 0),
            (cube(1, 0, 5), 1),
            (cube(2, 0, 0), 0),
            (cube(2, 0, 0), 1),
        ]
    );
}

#[test]
fn restricted_furniture_is_only_a_core_for_the_kinds_it_allows() {
    let mut cw = city(
        vec![
            place_def("storage room", Porf::Furniture("bin".to_string())),
            place_def("pantry", Porf::Furniture("bin".to_string())),
        ],
        &[(cube(0, 0, 0), 0), (cube(0, 0, 1), 0)],
    );
    cw.furniture_restrictions.push((cube(0, 0, 0), ParentRestriction::RestrictedTo("pantry".to_string())));
    cw.furniture_restrictions.push((cube(0, 0, 1), ParentRestriction::Excluded));
    assert_eq!(core_candidates(&cw), vec![(cube(0, 0, 0), 1)]);
}

#[test]
fn places_and_tooled_furniture_are_cores_too() {
    let mut cw = city(
        vec![
            place_def("storage room", Porf::Furniture("bin".to_string())),
            place_def("warehouse", Porf::Place("storage room".to_string())),
            place_def("workshop", Porf::InstalledTool(ToolKind::CarpentersTools, "table".to_string())),
        ],
        &[(cube(3, 0, 0), 0), (cube(0, 0, 0), 2), (cube(1, 0, 0), 2)],
    );
    cw.placed_places.insert(ParticularPlace {
        place: 0,
        fulfillments: vec![FulfilledPorf::Furniture(SlotCoord { cube: cube(3, 0, 0), slot: Slot::Room })],
        contents: Inventory::new(vec![(StorageKind::Bulk, 100)]),
        restriction: ParentRestriction::Unrestricted,
    });
    cw.furniture_slots.push((cube(1, 0, 0), vec![Some(UniqueResource::Tool(ToolKind::CarpentersTools))]));
    cw.furniture_slots.push((cube(0, 0, 0), vec![None]));
    assert_eq!(all_furniture_with_installed_tool(&cw, ToolKind::CarpentersTools, "table"), vec![cube(1, 0, 0)]);
    assert_eq!(
        core_candidates(&cw),
        vec![(cube(1, 0, 0), 2), (cube(3, 0, 0), 0), (cube(3, 0, 0), 1)]
    );
}

#[test]
fn the_wagon_starts_the_camp() {
    let mut cw = city(vec![], &[]);
    let changes = place_initial_places(&mut cw);
    let loc = SlotCoord { cube: cube(7, 0, -1), slot: Slot::Room };
    assert_eq!(changes, vec![(loc, Some(cell(3)))]);
    assert_eq!(cw.contents.get(loc).map(|c| c.id), Some(EorfId(3)));
    assert_eq!(cw.contents.size(), 1);
}

#[test]
fn wall_slot_furniture_can_be_a_place_core() {
    // Kind 0, the bin, hangs on a wall here.
    let mut cw = city(vec![place_def("nook", Porf::Furniture("bin".to_string()))], &[]);
    let core = SlotCoord { cube: cube(2, 0, 2), slot: Slot::XLoWall };
    cw.contents.set(core, cell(0));
    assert_eq!(core_candidates(&cw), vec![(cube(2, 0, 2), 0)]);

    let plan = plan_with_candidates(&cw, 0, &[vec![FulfilledPorf::Furniture(core)]]);
    let id = commit_plan(&mut cw, 0, plan, vec![]);
    assert_eq!(cw.placed_places.len(), 1);
    assert_eq!(cw.placed_places.get(id).unwrap().fulfillments, vec![FulfilledPorf::Furniture(core)]);
}
