use orchitecture::city::ConstructedCity;
use orchitecture::place::{
    AssignmentFlavor, FulfilledPorf, ParentRestriction, ParticularPlace, Place, PlaceReq,
    PlacedPlaces, Porf,
};
use orchitecture::population::{assign_places, Individual, Population};
use orchitecture::resource::Inventory;
use orchitecture::sparse3d::{IVec3, Slot, SlotCoord, Sparse3D};
use std::collections::HashSet;

fn bedroom_place() -> Place {
    Place {
        name: "bedroom".to_string(),
        requirements: vec![PlaceReq {
            requirement: Porf::Furniture("pallet".to_string()),
            min: 1,
            max: Some(1),
        }],
        public_storage: false,
        accounting: None,
        assignable_for: Some(AssignmentFlavor::Sleep),
        work: None,
    }
}

fn workshop_place() -> Place {
    Place {
        name: "workshop".to_string(),
        requirements: vec![],
        public_storage: false,
        accounting: None,
        assignable_for: Some(AssignmentFlavor::Work),
        work: None,
    }
}

fn placed(place: usize) -> ParticularPlace {
    ParticularPlace {
        place,
        fulfillments: vec![FulfilledPorf::Furniture(SlotCoord {
            cube: IVec3::new(0, 0, 0),
            slot: Slot::Room,
        })],
        contents: Inventory::new(vec![]),
        restriction: ParentRestriction::Unrestricted,
    }
}

fn empty_city() -> ConstructedCity {
    ConstructedCity {
        contents: Sparse3D::new(),
        eorfs: vec![],
        places: vec![bedroom_place(), workshop_place()],
        placed_places: PlacedPlaces::new(),
        furniture_slots: vec![],
        furniture_restrictions: vec![],
    }
}

fn city_with_bedrooms(n: usize) -> ConstructedCity {
    let mut cw = empty_city();
    for _ in 0..n {
        cw.placed_places.insert(placed(0));
    }
    cw
}

fn individuals(n: usize) -> Vec<Individual> {
    (0..n).map(|_| Individual::default()).collect()
}

fn assign_homes(individuals: &mut Vec<Individual>, cw: &ConstructedCity) -> bool {
    assign_places(AssignmentFlavor::Sleep, individuals, cw)
}

#[test]
fn assigns_one_to_one() {
    let cw = city_with_bedrooms(2);
    let mut people = individuals(2);
    assign_homes(&mut people, &cw);
    let homes: HashSet<_> = people.iter().filter_map(|i| i.home()).collect();
    assert_eq!(homes.len(), 2);
}

#[test]
fn more_individuals_than_bedrooms_leaves_some_homeless() {
    let cw = city_with_bedrooms(1);
    let mut people = individuals(2);
    assign_homes(&mut people, &cw);
    assert_eq!(people.iter().filter(|i| i.home().is_some()).count(), 1);
}

#[test]
fn keeps_existing_assignment_stable_when_bedroom_added() {
    let cw1 = city_with_bedrooms(1);
    let mut people = individuals(1);
    assign_homes(&mut people, &cw1);
    let original_home = people[0].home();
    assert!(original_home.is_some());

    let cw2 = city_with_bedrooms(2);
    assign_homes(&mut people, &cw2);
    assert_eq!(people[0].home(), original_home);
}

#[test]
fn evicts_when_its_bedroom_is_destroyed() {
    let cw1 = city_with_bedrooms(2);
    let mut people = individuals(2);
    assign_homes(&mut people, &cw1);
    assert!(people.iter().all(|i| i.home().is_some()));

    let cw2 = city_with_bedrooms(1);
    assign_homes(&mut people, &cw2);
    assert_eq!(people.iter().filter(|i| i.home().is_some()).count(), 1);
    let remaining = cw2.placed_places.ids()[0];
    assert!(people.iter().any(|i| i.home() == Some(remaining)));
}

#[test]
fn eviction_targets_the_destroyed_bedroom_not_a_shifted_id() {
    let mut cw = city_with_bedrooms(2);
    let mut people = individuals(2);
    assign_homes(&mut people, &cw);

    let first = cw.placed_places.ids()[0];
    let second = cw.placed_places.ids()[1];
    let keeper = people.iter().position(|i| i.home() == Some(second)).unwrap();

    cw.placed_places.remove(first);
    assign_homes(&mut people, &cw);
    assert_eq!(
        people[keeper].home(),
        Some(second),
        "individual in the surviving bedroom keeps their home"
    );
    assert_eq!(people.iter().filter(|i| i.home().is_some()).count(), 1);
}

#[test]
fn reports_whether_anything_changed() {
    let cw = city_with_bedrooms(1);
    let mut people = individuals(1);
    assert!(assign_homes(&mut people, &cw));
    assert!(!assign_homes(&mut people, &cw), "a second run is a no-op");
}

#[test]
fn vacant_places_go_out_in_placement_order() {
    let cw = city_with_bedrooms(3);
    let mut people = individuals(2);
    assign_homes(&mut people, &cw);
    let ids = cw.placed_places.ids();
    assert_eq!(people[0].home(), Some(ids[0]));
    assert_eq!(people[1].home(), Some(ids[1]));
}

#[test]
fn a_shared_claim_goes_to_the_first_holder() {
    let cw = city_with_bedrooms(2);
    let ids = cw.placed_places.ids();
    let mut people = vec![
        Individual { sleep: Some(ids[1]), work: None },
        Individual { sleep: Some(ids[1]), work: None },
    ];
    assign_homes(&mut people, &cw);
    assert_eq!(people[0].home(), Some(ids[1]));
    assert_eq!(people[1].home(), Some(ids[0]));
}

#[test]
fn flavors_are_assigned_independently() {
    let mut cw = city_with_bedrooms(1);
    let work = cw.placed_places.insert(placed(1));
    let mut people = individuals(1);
    assign_places(AssignmentFlavor::Work, &mut people, &cw);
    assert_eq!(people[0].assigned(AssignmentFlavor::Work), Some(work));
    assert_eq!(people[0].home(), None, "sleep untouched by a work pass");
    assign_homes(&mut people, &cw);
    assert_eq!(people[0].assigned(AssignmentFlavor::Work), Some(work));
    assert!(people[0].home().is_some());
    assert_ne!(people[0].home(), Some(work));
}

#[test]
fn a_new_population_is_one_unassigned_individual() {
    let p = Population::default();
    assert_eq!(p.individuals.len(), 1);
    assert_eq!(p.individuals[0].home(), None);
}
