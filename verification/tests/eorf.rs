use orchitecture::eorf::{
    find_structure_by_name, sorted_structure_indices, structure_mesh_stem, EorfId, EorfInfo,
    FurnitureOrElement, PlacementStyle,
};
use orchitecture::materials::{BuildMaterial, BuildMaterialId, ElementType, MaterialList};
use orchitecture::place::ParentRestriction;
use orchitecture::resource::UniformResource;

fn element(name: &str, t: ElementType) -> EorfInfo {
    EorfInfo {
        name: name.to_string(),
        placement_style: PlacementStyle::WallDrag,
        x_char: None,
        z_char: None,
        kind: FurnitureOrElement::Element(t),
        restriction: ParentRestriction::Unrestricted,
    }
}

fn furniture(name: &str) -> EorfInfo {
    EorfInfo {
        name: name.to_string(),
        placement_style: PlacementStyle::RoomPlop,
        x_char: None,
        z_char: None,
        kind: FurnitureOrElement::Furniture(vec![(UniformResource::Plank, 1)]),
        restriction: ParentRestriction::Unrestricted,
    }
}

#[test]
fn structures_sort_by_element_type_then_furniture_last() {
    let structures = vec![
        furniture("bin"),
        element("floor", ElementType::GroundFloorLike),
        element("wall", ElementType::WallLike),
        furniture("table"),
        element("door", ElementType::WallLike),
        element("roof", ElementType::RoofLike),
    ];
    assert_eq!(sorted_structure_indices(&structures), vec![2, 4, 5, 1, 0, 3]);
}

#[test]
fn structures_are_found_by_name() {
    let structures = vec![element("wall", ElementType::WallLike), furniture("bin"), furniture("bin")];
    assert_eq!(find_structure_by_name(&structures, "bin"), Some(EorfId(1)));
    assert_eq!(find_structure_by_name(&structures, "wagon"), None);
    assert_eq!(EorfId(2).as_usize(), 2);
}

#[test]
fn mesh_stems_replace_spaces() {
    assert_eq!(structure_mesh_stem("market stand"), "market_stand");
    assert_eq!(structure_mesh_stem("bin"), "bin");
    assert_eq!(structure_mesh_stem(" a  b "), "_a__b_");
}

#[test]
fn furniture_has_a_cost_and_elements_a_type() {
    let t = furniture("table");
    assert!(t.is_furniture());
    assert_eq!(t.furniture_cost(), Some(&vec![(UniformResource::Plank, 1)]));
    assert_eq!(t.element_type(), None);
    let w = element("wall", ElementType::WallLike);
    assert!(!w.is_furniture());
    assert_eq!(w.furniture_cost(), None);
    assert_eq!(w.element_type(), Some(ElementType::WallLike));
}

#[test]
fn element_type_labels() {
    assert_eq!(ElementType::WallLike.label(), "Walls");
    assert_eq!(ElementType::CantileverFloorLike.label(), "Upper floor");
    assert_eq!(ElementType::default(), ElementType::WallLike);
}

#[test]
fn default_build_material_id_is_five() {
    assert_eq!(BuildMaterialId::default(), BuildMaterialId(5));
}

#[test]
fn materials_are_listed_for_the_types_they_can_build() {
    let list = MaterialList {
        materials: vec![
            BuildMaterial { name: "Wattle".to_string(), costs: vec![(ElementType::WallLike, vec![])] },
            BuildMaterial { name: "Thatch".to_string(), costs: vec![(ElementType::RoofLike, vec![])] },
            BuildMaterial {
                name: "Ashlar".to_string(),
                costs: vec![(ElementType::WallLike, vec![(UniformResource::Block, 2)])],
            },
        ],
    };
    let walls: Vec<(BuildMaterialId, String)> = list
        .for_type(ElementType::WallLike)
        .into_iter()
        .map(|(id, m)| (id, m.name.clone()))
        .collect();
    assert_eq!(
        walls,
        vec![(BuildMaterialId(0), "Wattle".to_string()), (BuildMaterialId(2), "Ashlar".to_string())]
    );
    assert!(list.for_type(ElementType::PillarLike).is_empty());
}
