use orchitecture::llm_rooms::rooms;
use orchitecture::month::add_paving_leftover;
use orchitecture::resource::UniformResource;

#[test]
fn unspent_paving_stone_joins_an_existing_fieldstone_entry() {
    let mut gains = vec![(UniformResource::Straw, 4), (UniformResource::Fieldstone, 3)];
    add_paving_leftover(&mut gains, 5);
    assert_eq!(gains, vec![(UniformResource::Straw, 4), (UniformResource::Fieldstone, 8)]);
}

#[test]
fn unspent_paving_stone_without_an_entry_is_added_in_resource_order() {
    let mut gains = vec![(UniformResource::Potato, 2), (UniformResource::Plank, 1)];
    add_paving_leftover(&mut gains, 6);
    assert_eq!(
        gains,
        vec![(UniformResource::Potato, 2), (UniformResource::Fieldstone, 6), (UniformResource::Plank, 1)]
    );
}

#[test]
fn nothing_left_over_changes_nothing() {
    let mut gains = vec![(UniformResource::Lime, 2), (UniformResource::Potato, 1)];
    add_paving_leftover(&mut gains, 0);
    assert_eq!(gains, vec![(UniformResource::Lime, 2), (UniformResource::Potato, 1)]);
}

#[test]
fn the_sort_keeps_entries_of_one_resource_in_order() {
    let mut gains = vec![(UniformResource::Lime, 2), (UniformResource::Potato, 1), (UniformResource::Lime, 7)];
    add_paving_leftover(&mut gains, 1);
    assert_eq!(
        gains,
        vec![
            (UniformResource::Potato, 1),
            (UniformResource::Fieldstone, 1),
            (UniformResource::Lime, 2),
            (UniformResource::Lime, 7)
        ]
    );
}

#[test]
fn no_sketched_room_is_offered() {
    assert!(rooms().is_empty());
}
