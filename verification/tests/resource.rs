use orchitecture::resource::{
    distribute_incoming_resources, round, Approximation, Inventory, Precision, ResourceFlow,
    StorageKind, ToolKind, UniformResource, UniqueResource,
};
use UniformResource::{Potato, Straw, Timber};

const ACCT: Approximation = Approximation { digits: 1, max: 100 };

fn flow_of(flows: &[(UniformResource, ResourceFlow)], r: UniformResource) -> ResourceFlow {
    flows.iter().find(|(x, _)| *x == r).map(|(_, f)| *f).unwrap()
}

#[test]
fn round_small_values_unchanged() {
    assert_eq!(round(9, ACCT), (9, Precision::Exact));
    assert_eq!(round(20, ACCT), (20, Precision::Exact));
    assert_eq!(round(10, ACCT), (10, Precision::Exact));
}

#[test]
fn round_multi_digit_drops_to_one_sig_digit() {
    // 137 -> capped at 100, which is already 1 significant digit.
    assert_eq!(round(137, ACCT), (100, Precision::Conservative));
}

#[test]
fn round_caps_at_max() {
    assert_eq!(round(250, ACCT), (100, Precision::Conservative));
}

#[test]
fn round_truncates_significant_digits() {
    assert_eq!(round(47, ACCT), (40, Precision::Approximate));
}

#[test]
fn round_keeps_two_significant_digits_when_asked() {
    let acct = Approximation { digits: 2, max: 1000 };
    assert_eq!(round(987, acct), (980, Precision::Approximate));
    assert_eq!(round(99, acct), (99, Precision::Exact));
    assert_eq!(round(5000, acct), (1000, Precision::Conservative));
    assert_eq!(round(0, acct), (0, Precision::Exact));
}

#[test]
fn fully_fits_in_storage() {
    let flows = distribute_incoming_resources(&[(Timber, 10)], &[], &[(Timber, 3000)], 3000, &[]);
    assert_eq!(flow_of(&flows, Timber), ResourceFlow { stored: 10, lost: 0 });
}

#[test]
fn excess_over_capacity_is_lost() {
    let flows = distribute_incoming_resources(&[(Timber, 10)], &[], &[(Timber, 300)], 300, &[]);
    assert_eq!(flow_of(&flows, Timber), ResourceFlow { stored: 3, lost: 7 });
}

#[test]
fn storage_contention_discards_most_plentiful_first() {
    let flows = distribute_incoming_resources(
        &[(Timber, 20), (Straw, 20)],
        &[(Timber, 100), (Straw, 10)],
        &[(Timber, 2500), (Straw, 2500)],
        2500,
        &[],
    );
    assert_eq!(flow_of(&flows, Straw).stored, 20);
    assert_eq!(flow_of(&flows, Timber).stored, 5);
    assert_eq!(flow_of(&flows, Timber).lost, 15);
}

#[test]
fn farm_output_breaks_ties_when_storage_equal() {
    let flows = distribute_incoming_resources(
        &[(Timber, 20), (Straw, 20)],
        &[(Timber, 5), (Straw, 5)],
        &[(Timber, 2500), (Straw, 2500)],
        2500,
        &[(Timber, 20), (Straw, 1)],
    );
    assert_eq!(flow_of(&flows, Straw).stored, 20);
    assert_eq!(flow_of(&flows, Timber).stored, 5);
}

#[test]
fn no_storage_places_loses_everything() {
    let flows = distribute_incoming_resources(&[(Potato, 5)], &[], &[], 0, &[]);
    assert_eq!(flow_of(&flows, Potato), ResourceFlow { stored: 0, lost: 5 });
}

#[test]
fn conservation_holds_across_all_flows() {
    let flows = distribute_incoming_resources(
        &[(Timber, 17), (Potato, 8)],
        &[(Timber, 2)],
        &[(Timber, 400), (Potato, 400)],
        400,
        &[],
    );
    let t = flow_of(&flows, Timber);
    assert_eq!(t.stored + t.lost, 17);
    let p = flow_of(&flows, Potato);
    assert_eq!(p.stored + p.lost, 8);
}

#[test]
fn dedicated_bins_let_multiple_resources_store_simultaneously() {
    let flows = distribute_incoming_resources(
        &[(Timber, 20), (Straw, 20)],
        &[],
        &[(Timber, 2000), (Straw, 2000)],
        4000,
        &[],
    );
    assert_eq!(flow_of(&flows, Timber), ResourceFlow { stored: 20, lost: 0 });
    assert_eq!(flow_of(&flows, Straw), ResourceFlow { stored: 20, lost: 0 });
}

#[test]
fn overall_free_capacity_prevents_double_counting_a_shared_bin() {
    let flows = distribute_incoming_resources(
        &[(Timber, 20), (Straw, 20)],
        &[(Timber, 5), (Straw, 5)],
        &[(Timber, 2000), (Straw, 2000)],
        2000,
        &[(Timber, 1), (Straw, 1)],
    );
    let total_stored = flow_of(&flows, Timber).stored + flow_of(&flows, Straw).stored;
    assert_eq!(total_stored, 20);
}

#[test]
fn declaration_order_breaks_a_full_tie() {
    // Equal stock and farm output: the earlier-declared resource (Timber)
    // counts as the more plentiful one and gives way first.
    let flows = distribute_incoming_resources(
        &[(Straw, 20), (Timber, 20)],
        &[],
        &[(Timber, 2500), (Straw, 2500)],
        2500,
        &[],
    );
    assert_eq!(flow_of(&flows, Timber).stored, 5);
    assert_eq!(flow_of(&flows, Straw).stored, 20);
    assert_eq!(flows[0].0, Straw, "one flow per incoming entry, in order");
}

#[test]
fn fractional_capacity_rounds_down_to_whole_units() {
    let flows = distribute_incoming_resources(&[(Timber, 10)], &[], &[(Timber, 350)], 10_000, &[]);
    assert_eq!(flow_of(&flows, Timber), ResourceFlow { stored: 3, lost: 7 });
}

#[test]
fn bulk_and_rack_capacity_are_independent_pools() {
    let mut inv = Inventory::new(vec![(StorageKind::Bulk, 800), (StorageKind::Rack, 200)]);
    inv.add_uniform(UniformResource::Plank, 8);
    assert_eq!(inv.remaining_capacity(StorageKind::Bulk), 0);
    assert_eq!(
        inv.remaining_capacity(StorageKind::Rack),
        200,
        "a full Bulk pool must not eat into Rack's own capacity"
    );

    inv.add_unique(UniqueResource::Tool(ToolKind::CarpentersTools));
    assert_eq!(
        inv.remaining_capacity(StorageKind::Rack),
        150,
        "a Tool occupies 0.5 volume within Rack's own pool"
    );
    assert_eq!(
        inv.remaining_capacity(StorageKind::Bulk),
        0,
        "storing a tool must not eat into Bulk's own capacity"
    );
}

#[test]
fn inventory_adds_and_subtracts_uniform_quantities() {
    let mut inv = Inventory::new(vec![(StorageKind::Bulk, 10_000)]);
    inv.add_uniform(Timber, 7);
    inv.add_uniform(Timber, 5);
    inv.add_uniform(Potato, 3);
    assert_eq!(inv.uniform_totals(), vec![(Timber, 12), (Potato, 3)]);
    inv.subtract_uniform(Timber, 2);
    assert_eq!(inv.uniform_totals(), vec![(Timber, 10), (Potato, 3)]);
    assert_eq!(inv.remaining_capacity(StorageKind::Bulk), 10_000 - 1300);
}

#[test]
fn unique_items_are_counted_and_removed_one_at_a_time() {
    let mut inv = Inventory::new(vec![(StorageKind::Rack, 1000), (StorageKind::Book, 1000)]);
    let tool = UniqueResource::Tool(ToolKind::CarpentersTools);
    inv.add_unique(tool.clone());
    inv.add_unique(tool.clone());
    inv.add_unique(UniqueResource::Book { title: "Sums".to_string() });
    assert_eq!(inv.tool_count(), 2);
    assert_eq!(inv.book_count(), 1);
    assert_eq!(inv.rug_count(), 0);
    assert!(inv.remove_unique(&tool));
    assert_eq!(inv.tool_count(), 1);
    assert!(!inv.remove_unique(&UniqueResource::Book { title: "Other".to_string() }));
    assert_eq!(inv.unique_items().len(), 2);
}

#[test]
fn resource_catalogue_labels_and_properties() {
    assert_eq!(Potato.label(), "Potatoes");
    assert!(Potato.edible());
    assert!(!Timber.edible());
    assert!(Timber.farmable());
    assert_eq!(ToolKind::CarpentersTools.label(), "Carpenter's tools");
    let s = ToolKind::CarpentersTools.specialization();
    assert_eq!((s.input, s.output), (Timber, UniformResource::Plank));
    assert!(!UniformResource::inedible_farmables().contains(&Potato));
    assert!(UniformResource::inedible_farmables().contains(&Timber));
}
