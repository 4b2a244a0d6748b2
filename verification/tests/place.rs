use orchitecture::city::{
    all_furniture_named, blocks_sightline, containing_chain, place_location, try_place_location,
    commit_plan, disallowed_fulfillments, evict_disallowed, plan_with_candidates, starting_contents,
    count_furniture_named_in_places, donor_still_meets, fulfillment_matches, has_installed_tool,
    market_stand_count, owner_of, place_id_at, unassign_place, Cell, ConstructedCity,
};
use orchitecture::eorf::{EorfId, EorfInfo, FurnitureOrElement, PlacementStyle};
use orchitecture::materials::{BuildMaterialId, ElementType};
use orchitecture::place::{
    default_storage_accounting, eligible_parent_kinds, validate_place_requirements, PlaceInfoError, AssignmentFlavor, FulfilledPorf,
    ParentRestriction, ParticularPlace, Place, PlaceReq, PlacedPlaces, Porf,
};
use orchitecture::resource::{
    Approximation, Inventory, StorageKind, ToolKind, UniformResource, UniqueResource,
};
use orchitecture::sparse3d::{Facing, IVec3, Slot, SlotCoord, Sparse3D};

fn structure(name: &str, furniture: bool) -> EorfInfo {
    EorfInfo {
        name: name.to_string(),
        placement_style: PlacementStyle::RoomPlop,
        x_char: None,
        z_char: None,
        kind: if furniture {
            FurnitureOrElement::Furniture(vec![])
        } else {
            FurnitureOrElement::Element(ElementType::WallLike)
        },
        restriction: ParentRestriction::Unrestricted,
    }
}

fn test_structures() -> Vec<EorfInfo> {
    vec![
        structure("bin", true),
        structure("wall", false),
        structure("market stand", true),
        structure("table", true),
    ]
}

fn place_def(name: &str, furniture: &str, min: u8, max: Option<u8>) -> Place {
    Place {
        name: name.to_string(),
        requirements: vec![PlaceReq {
            requirement: Porf::Furniture(furniture.to_string()),
            min,
            max,
        }],
        public_storage: false,
        accounting: None,
        assignable_for: None,
        work: None,
    }
}

fn b(x: i32, z: i32) -> IVec3 {
    IVec3::new(x, 0, z)
}

fn room(cube: IVec3) -> SlotCoord {
    SlotCoord { cube, slot: Slot::Room }
}

fn f(cube: IVec3) -> FulfilledPorf {
    FulfilledPorf::Furniture(room(cube))
}

fn cell(id: u32) -> Cell {
    Cell { id: EorfId(id), facing: Facing::default(), build_material: BuildMaterialId::default() }
}

fn grid_with(places: Vec<Place>, furniture: &[(IVec3, u32)]) -> ConstructedCity {
    let mut contents = Sparse3D::new();
    for (cube, id) in furniture {
        contents.set(room(*cube), cell(*id));
    }
    ConstructedCity {
        contents,
        eorfs: test_structures(),
        places,
        placed_places: PlacedPlaces::new(),
        furniture_slots: vec![],
        furniture_restrictions: vec![],
    }
}

fn particular(place: usize, fulfillments: Vec<FulfilledPorf>) -> ParticularPlace {
    ParticularPlace {
        place,
        fulfillments,
        contents: Inventory::new(vec![(StorageKind::Bulk, 2000)]),
        restriction: ParentRestriction::Unrestricted,
    }
}

#[test]
fn unassign_removes_the_place() {
    let mut grid = grid_with(vec![place_def("storage room", "bin", 1, None)], &[(b(0, 0), 0)]);
    let id = grid.placed_places.insert(particular(0, vec![f(b(0, 0))]));
    assert_eq!(place_id_at(&grid, b(0, 0)), Some(id));
    unassign_place(&mut grid, id);
    assert!(grid.placed_places.is_empty());
    assert_eq!(place_id_at(&grid, b(0, 0)), None);
}

#[test]
fn nested_places_hold_their_members_cubes() {
    let mut grid = grid_with(
        vec![place_def("storage room", "bin", 1, None), place_def("warehouse", "bin", 0, None)],
        &[(b(0, 0), 0)],
    );
    let inner = grid.placed_places.insert(particular(0, vec![f(b(0, 0))]));
    let outer = grid.placed_places.insert(particular(1, vec![FulfilledPorf::Place(inner)]));
    assert_eq!(place_id_at(&grid, b(0, 0)), Some(inner), "the first holder wins");
    assert_eq!(owner_of(&grid, &FulfilledPorf::Place(inner)), Some(outer));
    unassign_place(&mut grid, inner);
    assert_eq!(place_id_at(&grid, b(0, 0)), None, "the outer place only held it through the inner");
}

#[test]
fn ids_are_never_reused() {
    let mut grid = grid_with(vec![place_def("storage room", "bin", 1, None)], &[]);
    let a = grid.placed_places.insert(particular(0, vec![]));
    unassign_place(&mut grid, a);
    let b2 = grid.placed_places.insert(particular(0, vec![]));
    assert_ne!(a, b2);
    assert_eq!(grid.placed_places.ids(), vec![b2]);
    assert_eq!(grid.placed_places.len(), 1);
    assert!(grid.placed_places.get(a).is_none());
    assert_eq!(grid.placed_places.get(b2).map(|p| p.place), Some(0));
}

#[test]
fn removing_a_stale_id_changes_nothing() {
    let mut grid = grid_with(vec![place_def("storage room", "bin", 1, None)], &[]);
    let a = grid.placed_places.insert(particular(0, vec![]));
    unassign_place(&mut grid, a);
    unassign_place(&mut grid, a);
    assert!(grid.placed_places.is_empty());
}

#[test]
fn owner_of_finds_the_place_holding_a_fulfillment() {
    let mut grid = grid_with(vec![place_def("storage room", "bin", 1, None)], &[(b(0, 0), 0), (b(0, 1), 0)]);
    let id = grid.placed_places.insert(particular(0, vec![f(b(0, 1))]));
    assert_eq!(owner_of(&grid, &f(b(0, 1))), Some(id));
    assert_eq!(owner_of(&grid, &f(b(0, 0))), None);
}

#[test]
fn fulfillments_are_matched_by_name() {
    let mut grid = grid_with(
        vec![place_def("storage room", "bin", 1, None), place_def("warehouse", "storage room", 1, None)],
        &[(b(0, 0), 0), (b(0, 1), 1)],
    );
    let room_id = grid.placed_places.insert(particular(0, vec![f(b(0, 0))]));
    assert!(fulfillment_matches(&grid, &f(b(0, 0)), &Porf::Furniture("bin".to_string())));
    assert!(!fulfillment_matches(&grid, &f(b(0, 1)), &Porf::Furniture("bin".to_string())));
    assert!(!fulfillment_matches(&grid, &f(b(5, 5)), &Porf::Furniture("bin".to_string())));
    assert!(fulfillment_matches(&grid, &FulfilledPorf::Place(room_id), &Porf::Place("storage room".to_string())));
    assert!(!fulfillment_matches(&grid, &FulfilledPorf::Place(room_id), &Porf::Place("warehouse".to_string())));
    assert!(!fulfillment_matches(&grid, &FulfilledPorf::Place(room_id), &Porf::Furniture("bin".to_string())));
}

#[test]
fn an_installed_tool_fulfills_a_tool_requirement() {
    let mut grid = grid_with(vec![], &[(b(2, 2), 3)]);
    let req = Porf::InstalledTool(ToolKind::CarpentersTools, "table".to_string());
    assert!(!fulfillment_matches(&grid, &f(b(2, 2)), &req), "nothing installed yet");
    grid.furniture_slots.push((b(2, 2), vec![None, Some(UniqueResource::Tool(ToolKind::CarpentersTools))]));
    assert!(fulfillment_matches(&grid, &f(b(2, 2)), &req));
    assert!(has_installed_tool(&grid, b(2, 2), ToolKind::CarpentersTools, "table"));
    assert!(!has_installed_tool(&grid, b(2, 2), ToolKind::CarpentersTools, "bin"));
}

#[test]
fn market_stands_are_counted_across_market_places() {
    let mut grid = grid_with(
        vec![place_def("market", "market stand", 1, None), place_def("storage room", "bin", 1, None)],
        &[(b(0, 0), 2), (b(0, 1), 2), (b(0, 2), 0), (b(3, 3), 2)],
    );
    grid.placed_places.insert(particular(0, vec![f(b(0, 0)), f(b(0, 1)), f(b(0, 2))]));
    grid.placed_places.insert(particular(1, vec![f(b(3, 3))]));
    assert_eq!(market_stand_count(&grid), 2);
    assert_eq!(count_furniture_named_in_places(&grid, "bin", "market"), 1);
    assert_eq!(count_furniture_named_in_places(&grid, "market stand", "storage room"), 1);
}

#[test]
fn a_donor_that_loses_too_much_is_starved() {
    let grid = grid_with(
        vec![place_def("storage room", "bin", 2, None)],
        &[(b(0, 0), 0), (b(0, 1), 0), (b(0, 2), 0)],
    );
    let donor = particular(0, vec![f(b(0, 1)), f(b(0, 2))]);
    assert!(donor_still_meets(&grid, &donor, &[]));
    assert!(!donor_still_meets(&grid, &donor, &[f(b(0, 1))]), "one bin is below the minimum of two");
    let big = particular(0, vec![f(b(0, 0)), f(b(0, 1)), f(b(0, 2))]);
    assert!(donor_still_meets(&grid, &big, &[f(b(0, 1))]));
}

#[test]
fn eligible_parents_are_the_kinds_that_want_it() {
    let mut workshop = place_def("workshop", "bin", 1, None);
    workshop.requirements.push(PlaceReq {
        requirement: Porf::InstalledTool(ToolKind::CarpentersTools, "table".to_string()),
        min: 1,
        max: Some(1),
    });
    let mut warehouse = place_def("warehouse", "bin", 0, None);
    warehouse.requirements[0].requirement = Porf::Place("storage room".to_string());
    let places = vec![place_def("storage room", "bin", 1, None), workshop, warehouse];
    let names = |p: &Porf| eligible_parent_kinds(&places, p);
    assert_eq!(names(&Porf::Furniture("bin".to_string())), vec!["storage room", "workshop"]);
    assert_eq!(names(&Porf::Furniture("table".to_string())), vec!["workshop"]);
    assert_eq!(names(&Porf::Place("storage room".to_string())), vec!["warehouse"]);
    assert!(names(&Porf::Furniture("wall".to_string())).is_empty());
}

#[test]
fn restrictions_allow_by_name() {
    assert!(ParentRestriction::Unrestricted.allows("market"));
    assert!(!ParentRestriction::Excluded.allows("market"));
    assert!(ParentRestriction::RestrictedTo("market".to_string()).allows("market"));
    assert!(!ParentRestriction::RestrictedTo("market".to_string()).allows("bedroom"));
}

#[test]
fn labels_and_names() {
    assert_eq!(AssignmentFlavor::Sleep.label(), "Sleep");
    assert_eq!(AssignmentFlavor::Work.label(), "Work");
    assert_eq!(Porf::InstalledTool(ToolKind::CarpentersTools, "table".to_string()).name(), "table");
    assert_eq!(Porf::Place("market".to_string()).name(), "market");
    assert_eq!(default_storage_accounting(), Approximation { digits: 1, max: 100 });
}

#[test]
fn pulls_to_meet_min_and_destroys_starved_donor() {
    // The place needs two bins; an existing place owns two of the three.
    let mut grid = grid_with(
        vec![place_def("storage room", "bin", 2, None)],
        &[(b(0, 0), 0), (b(0, 1), 0), (b(0, 2), 0)],
    );
    let donor = grid.placed_places.insert(particular(0, vec![f(b(0, 1)), f(b(0, 2))]));

    // Every bin is within reach of the clicked one.
    let candidates = vec![vec![f(b(0, 0)), f(b(0, 1)), f(b(0, 2))]];
    let plan = plan_with_candidates(&grid, 0, &candidates);
    assert_eq!(plan.pulled, 1, "should pull exactly one bin to reach min 2");
    assert_eq!(plan.destroy, vec![donor], "donor falls below min and is destroyed");

    let new_id = commit_plan(&mut grid, 0, plan, vec![(StorageKind::Bulk, 4000)]);
    assert_eq!(grid.placed_places.len(), 1, "donor destroyed, new one added");
    assert_ne!(new_id, donor, "the new place gets a fresh id");
    let new = grid.placed_places.get(new_id).unwrap();
    assert!(new.fulfillments.contains(&f(b(0, 0))));
    assert_eq!(new.fulfillments.len(), 2);
}

#[test]
fn free_candidates_are_taken_up_to_the_maximum_without_pulling() {
    let mut grid = grid_with(
        vec![place_def("storage room", "bin", 1, Some(2))],
        &[(b(0, 0), 0), (b(0, 1), 0), (b(0, 2), 0), (b(0, 3), 0)],
    );
    let other = grid.placed_places.insert(particular(0, vec![f(b(0, 3))]));
    let candidates = vec![vec![f(b(0, 3)), f(b(0, 0)), f(b(0, 1)), f(b(0, 2))]];
    let plan = plan_with_candidates(&grid, 0, &candidates);
    assert_eq!(plan.chosen, vec![f(b(0, 0)), f(b(0, 1))]);
    assert_eq!(plan.pulled, 0);
    assert!(plan.destroy.is_empty());
    let id = commit_plan(&mut grid, 0, plan, vec![]);
    assert_eq!(grid.placed_places.ids(), vec![other, id]);
    assert_eq!(grid.placed_places.get(other).unwrap().fulfillments, vec![f(b(0, 3))]);
}

#[test]
fn a_donor_that_keeps_its_minimum_survives_losing_a_member() {
    let mut grid = grid_with(
        vec![place_def("storage room", "bin", 1, None)],
        &[(b(0, 0), 0), (b(0, 1), 0)],
    );
    let donor = grid.placed_places.insert(particular(0, vec![f(b(0, 0)), f(b(0, 1))]));
    let plan = plan_with_candidates(&grid, 0, &[vec![f(b(0, 1))]]);
    assert_eq!(plan.pulled, 1);
    assert!(plan.destroy.is_empty());
    let id = commit_plan(&mut grid, 0, plan, vec![]);
    assert_eq!(grid.placed_places.get(donor).unwrap().fulfillments, vec![f(b(0, 0))]);
    assert_eq!(grid.placed_places.get(id).unwrap().fulfillments, vec![f(b(0, 1))]);
}

#[test]
fn a_camp_starts_with_supplies() {
    let camp = starting_contents("camp", vec![(StorageKind::Bulk, 100_000)]);
    assert_eq!(
        camp.uniform_totals(),
        vec![(UniformResource::Plank, 18), (UniformResource::Canvas, 6), (UniformResource::Potato, 20)]
    );
    let room = starting_contents("storage room", vec![(StorageKind::Bulk, 100)]);
    assert!(room.uniform_totals().is_empty());
    assert_eq!(room.remaining_capacity(StorageKind::Bulk), 100);
}

#[test]
#[should_panic(expected = "unknown furniture")]
fn validation_rejects_unknown_furniture_reference() {
    let places = vec![place_def("storage room", "bin", 1, None)]; // requires furniture "bin"
    if let Err(PlaceInfoError::UnknownFurniture { place, req }) = validate_place_requirements(&places, &[]) {
        panic!("requirement {req} of place {place} references unknown furniture");
    }
}

#[test]
fn validation_checks_place_references_too() {
    let mut warehouse = place_def("warehouse", "bin", 1, None);
    warehouse.requirements[0].requirement = Porf::Place("storage room".to_string());
    let places = vec![place_def("storage room", "bin", 1, None), warehouse];
    assert_eq!(validate_place_requirements(&places, &test_structures()), Ok(()));
    assert_eq!(
        validate_place_requirements(&places[1..], &test_structures()),
        Err(PlaceInfoError::UnknownPlace { place: 0, req: 0 })
    );
    // A wall is not furniture.
    assert_eq!(
        validate_place_requirements(&[place_def("x", "wall", 1, None)], &test_structures()),
        Err(PlaceInfoError::UnknownFurniture { place: 0, req: 0 })
    );
}

#[test]
fn excluding_a_held_bin_evicts_it() {
    let mut grid = grid_with(
        vec![place_def("storage room", "bin", 1, None)],
        &[(b(0, 0), 0), (b(0, 1), 0)],
    );
    let id = grid.placed_places.insert(particular(0, vec![f(b(0, 0)), f(b(0, 1))]));
    assert!(!evict_disallowed(&mut grid), "nothing is restricted yet");

    grid.furniture_restrictions.push((b(0, 1), ParentRestriction::Excluded));
    assert_eq!(disallowed_fulfillments(&grid), vec![(id, f(b(0, 1)))]);
    assert!(evict_disallowed(&mut grid));
    assert_eq!(grid.placed_places.get(id).unwrap().fulfillments, vec![f(b(0, 0))]);

    grid.furniture_restrictions.push((b(0, 0), ParentRestriction::RestrictedTo("storage room".to_string())));
    assert!(!evict_disallowed(&mut grid), "a restriction naming the holder allows it");
}

#[test]
fn a_nested_place_is_evicted_when_its_restriction_forbids_the_parent() {
    let mut warehouse = place_def("warehouse", "bin", 0, None);
    warehouse.requirements[0].requirement = Porf::Place("storage room".to_string());
    let mut grid = grid_with(vec![place_def("storage room", "bin", 1, None), warehouse], &[(b(0, 0), 0)]);
    let inner = grid.placed_places.insert(ParticularPlace {
        place: 0,
        fulfillments: vec![f(b(0, 0))],
        contents: Inventory::new(vec![]),
        restriction: ParentRestriction::RestrictedTo("market".to_string()),
    });
    let outer = grid.placed_places.insert(particular(1, vec![FulfilledPorf::Place(inner)]));
    assert_eq!(disallowed_fulfillments(&grid), vec![(outer, FulfilledPorf::Place(inner))]);
    evict_disallowed(&mut grid);
    assert!(grid.placed_places.get(outer).unwrap().fulfillments.is_empty());
    assert_eq!(grid.placed_places.get(inner).unwrap().fulfillments, vec![f(b(0, 0))]);
}

#[test]
fn only_building_elements_named_as_barriers_block_sightlines() {
    let mut eorfs = test_structures();
    eorfs.push(structure("pillar", false));
    eorfs.push(structure("window", true));
    let city = ConstructedCity { eorfs, ..grid_with(vec![], &[]) };
    assert!(blocks_sightline(&city, &cell(1)));
    assert!(!blocks_sightline(&city, &cell(0)));
    assert!(!blocks_sightline(&city, &cell(4)));
    assert!(!blocks_sightline(&city, &cell(5)));
}

#[test]
fn a_place_is_where_its_first_member_is() {
    let mut grid = grid_with(
        vec![place_def("storage room", "bin", 1, None), place_def("warehouse", "storage room", 1, None)],
        &[(b(3, 4), 0), (b(0, 1), 0)],
    );
    let inner = grid.placed_places.insert(particular(0, vec![f(b(3, 4)), f(b(0, 1))]));
    let outer = grid.placed_places.insert(particular(1, vec![FulfilledPorf::Place(inner)]));
    let empty = grid.placed_places.insert(particular(0, vec![]));
    assert_eq!(place_location(&grid, inner), b(3, 4));
    assert_eq!(place_location(&grid, outer), b(3, 4), "resolved through the nested place");
    assert_eq!(try_place_location(&grid, empty), None);
    unassign_place(&mut grid, inner);
    assert_eq!(try_place_location(&grid, outer), None, "a stale nested id resolves nowhere");
}

#[test]
fn the_containing_chain_runs_from_the_innermost_place_out() {
    let mut grid = grid_with(
        vec![place_def("storage room", "bin", 1, None), place_def("warehouse", "storage room", 1, None)],
        &[(b(0, 0), 0), (b(5, 5), 0)],
    );
    let inner = grid.placed_places.insert(particular(0, vec![f(b(0, 0))]));
    let middle = grid.placed_places.insert(particular(1, vec![FulfilledPorf::Place(inner)]));
    let outer = grid.placed_places.insert(particular(1, vec![FulfilledPorf::Place(middle)]));
    assert_eq!(containing_chain(&grid, b(0, 0)), vec![inner, middle, outer]);
    assert_eq!(containing_chain(&grid, b(5, 5)), vec![]);
}

#[test]
fn furniture_is_found_by_name_at_any_slot() {
    let mut grid = grid_with(vec![], &[(b(0, 0), 0), (b(1, 0), 3), (b(2, 0), 0)]);
    grid.contents.set(SlotCoord { cube: b(3, 0), slot: Slot::XLoWall }, cell(0));
    grid.contents.set(SlotCoord { cube: b(4, 0), slot: Slot::ZLoWall }, cell(1));
    assert_eq!(all_furniture_named(&grid, "bin"), vec![b(0, 0), b(2, 0), b(3, 0)]);
    assert_eq!(all_furniture_named(&grid, "wall"), vec![], "walls are not furniture");
}

#[test]
fn assigns_all_free_bins_without_pulling() {
    let grid = grid_with(
        vec![place_def("storage room", "bin", 1, None)],
        &[(b(0, 0), 0), (b(0, 1), 0), (b(0, 2), 0)],
    );
    // All three bins are within reach.
    let candidates = vec![vec![f(b(0, 0)), f(b(0, 1)), f(b(0, 2))]];
    let plan = plan_with_candidates(&grid, 0, &candidates);
    assert_eq!(plan.chosen.len(), 3);
    assert_eq!(plan.pulled, 0);
    assert!(plan.destroy.is_empty());
}

#[test]
fn unlimited_max_grabs_every_reachable_bin() {
    // The bin at (10, 0) is out of reach, so it is no candidate.
    let grid = grid_with(
        vec![place_def("storage room", "bin", 1, None)],
        &[(b(0, 0), 0), (b(0, 1), 0), (b(10, 0), 0)],
    );
    let candidates = vec![vec![f(b(0, 0)), f(b(0, 1))]];
    let plan = plan_with_candidates(&grid, 0, &candidates);
    assert!(plan.chosen.contains(&f(b(0, 0))));
    assert!(plan.chosen.contains(&f(b(0, 1))));
    assert!(!plan.chosen.contains(&f(b(10, 0))));
}
