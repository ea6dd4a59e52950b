use deep_tek::item_transport::shape_from_connections;
use deep_tek::{
    FurnitureObject, ItemId, ItemRegistry, ItemStack, ItemTransportShape, ItemTransportSystem,
    DEFAULT_ITEM_TRANSPORT_INTERVAL_NANOS, ObjectId, TilePos, World, item_transport_shape,
};

const SECOND: u64 = 1_000_000_000;

fn system() -> ItemTransportSystem {
    ItemTransportSystem::new(DEFAULT_ITEM_TRANSPORT_INTERVAL_NANOS)
}

fn connected_machines() -> (World, ObjectId, ObjectId) {
    let mut world = World::empty(32, 16, 0).unwrap();
    for x in 2..=12 {
        assert!(world.set_foreground_tile(x, 9, 2));
    }
    let bore = world.place_furniture(FurnitureObject::LASER_BORE, TilePos::new(2, 6)).unwrap();
    for x in 5..=9 {
        world.place_furniture(FurnitureObject::CARGO_CONVEYOR, TilePos::new(x, 8)).unwrap();
    }
    let launcher = world
        .place_furniture(FurnitureObject::ORBITAL_EXPORT_LAUNCHER, TilePos::new(10, 6))
        .unwrap();
    (world, bore, launcher)
}

#[test]
fn connected_drill_output_moves_to_exporter_off_screen() {
    let registry = ItemRegistry::with_built_ins();
    let (mut world, bore, launcher) = connected_machines();
    assert!(world.set_container_slot(bore, 0, ItemStack::new(ItemId::STONE_BLOCK, 24)));
    let mut system = system();

    let initial = system.update(&mut world, &registry, 0);
    assert!(initial.topology_rebuilt);
    assert_eq!(initial.connector_count, 5);
    assert_eq!(initial.network_count, 1);
    assert_eq!(initial.transfer_count, 0);

    let moved = system.update(&mut world, &registry, SECOND);
    assert_eq!(moved.transfer_count, 20);
    assert_eq!(moved.items_transferred, 20);
    assert_eq!(
        world.container(bore).unwrap().slot(0),
        ItemStack::new(ItemId::STONE_BLOCK, 4)
    );
    assert_eq!(
        world.container(launcher).unwrap().slot(0),
        ItemStack::new(ItemId::STONE_BLOCK, 20)
    );
}

#[test]
fn input_machines_never_feed_items_backward_into_outputs() {
    let registry = ItemRegistry::with_built_ins();
    let (mut world, bore, launcher) = connected_machines();
    assert!(world.set_container_slot(launcher, 0, ItemStack::new(ItemId::DIRT_BLOCK, 8)));
    let mut system = system();
    system.update(&mut world, &registry, 0);

    assert_eq!(system.update(&mut world, &registry, SECOND).transfer_count, 0);
    assert!(world.container(bore).unwrap().is_empty());
    assert_eq!(
        world.container(launcher).unwrap().slot(0),
        ItemStack::new(ItemId::DIRT_BLOCK, 8)
    );
}

#[test]
fn a_gap_keeps_endpoints_in_separate_networks() {
    let registry = ItemRegistry::with_built_ins();
    let (mut world, bore, launcher) = connected_machines();
    let gap = world.object_at(TilePos::new(7, 8)).unwrap().id();
    assert!(world.remove_object(gap).is_some());
    assert!(world.set_container_slot(bore, 0, ItemStack::new(ItemId::STONE_BLOCK, 3)));
    let mut system = system();

    let update = system.update(&mut world, &registry, SECOND);
    assert!(update.topology_rebuilt);
    assert_eq!(update.network_count, 0);
    assert_eq!(update.transfer_count, 0);
    assert!(world.container(launcher).unwrap().is_empty());
}

#[test]
fn empty_buffer_accepts_output_when_no_input_machine_is_connected() {
    let registry = ItemRegistry::with_built_ins();
    let (mut world, bore, launcher) = connected_machines();
    assert!(world.remove_object(launcher).is_some());
    for x in 10..=11 {
        assert!(world.set_foreground_tile(x, 9, 2));
    }
    let chest = world.place_furniture(FurnitureObject::CHEST, TilePos::new(10, 7)).unwrap();
    assert!(world.set_container_slot(bore, 0, ItemStack::new(ItemId::STONE_BLOCK, 6)));
    let mut system = system();

    let update = system.update(&mut world, &registry, SECOND);
    assert_eq!(update.transfer_count, 6);
    assert_eq!(
        world.container(chest).unwrap().slot(0),
        ItemStack::new(ItemId::STONE_BLOCK, 6)
    );
}

#[test]
fn buffer_contents_feed_an_input_machine() {
    let registry = ItemRegistry::with_built_ins();
    let (mut world, bore, launcher) = connected_machines();
    assert!(world.remove_object(bore).is_some());
    let chest = world.place_furniture(FurnitureObject::CHEST, TilePos::new(3, 7)).unwrap();
    assert!(world.set_container_slot(chest, 4, ItemStack::new(ItemId::DIRT_BLOCK, 17)));
    let mut system = system();

    let update = system.update(&mut world, &registry, SECOND);
    assert_eq!(update.transfer_count, 17);
    assert!(world.container(chest).unwrap().is_empty());
    assert_eq!(
        world.container(launcher).unwrap().slot(0),
        ItemStack::new(ItemId::DIRT_BLOCK, 17)
    );
}

#[test]
fn unrelated_object_changes_do_not_rebuild_transport_topology() {
    let registry = ItemRegistry::with_built_ins();
    let (mut world, _, _) = connected_machines();
    let mut system = system();
    assert!(system.update(&mut world, &registry, 0).topology_rebuilt);

    assert!(world.set_foreground_tile(20, 9, 1));
    world.place_furniture(FurnitureObject::BED, TilePos::new(20, 8)).unwrap();
    assert!(!system.update(&mut world, &registry, 0).topology_rebuilt);

    world.place_furniture(FurnitureObject::CARGO_CONVEYOR, TilePos::new(11, 5)).unwrap();
    assert!(system.update(&mut world, &registry, 0).topology_rebuilt);
}

#[test]
fn connector_shape_tracks_straights_and_corners() {
    assert_eq!(shape_from_connections(false, true, false, false), ItemTransportShape::Horizontal);
    assert_eq!(shape_from_connections(true, false, true, false), ItemTransportShape::Vertical);
    assert_eq!(shape_from_connections(true, true, false, false), ItemTransportShape::NorthEast);
    assert_eq!(shape_from_connections(false, true, true, false), ItemTransportShape::SouthEast);
    assert_eq!(shape_from_connections(false, false, true, true), ItemTransportShape::SouthWest);
    assert_eq!(shape_from_connections(true, false, false, true), ItemTransportShape::NorthWest);
}

#[test]
fn vertical_corner_network_transfers_items() {
    let registry = ItemRegistry::with_built_ins();
    let mut world = World::empty(16, 16, 0).unwrap();
    for x in 2..=4 {
        assert!(world.set_foreground_tile(x, 13, 2));
    }
    for x in 8..=10 {
        assert!(world.set_foreground_tile(x, 8, 2));
    }
    let launcher = world
        .place_furniture(FurnitureObject::ORBITAL_EXPORT_LAUNCHER, TilePos::new(2, 10))
        .unwrap();
    let path = [
        TilePos::new(5, 12),
        TilePos::new(6, 12),
        TilePos::new(7, 12),
        TilePos::new(7, 11),
        TilePos::new(7, 10),
        TilePos::new(7, 9),
        TilePos::new(7, 8),
        TilePos::new(7, 7),
    ];
    let mut connectors = Vec::new();
    for anchor in path {
        connectors.push(world.place_furniture(FurnitureObject::CARGO_CONVEYOR, anchor).unwrap());
    }
    let chest = world.place_furniture(FurnitureObject::CHEST, TilePos::new(8, 6)).unwrap();
    assert!(world.set_container_slot(chest, 0, ItemStack::new(ItemId::STONE_BLOCK, 9)));

    assert_eq!(item_transport_shape(&world, connectors[2]), Some(ItemTransportShape::NorthWest));
    assert_eq!(item_transport_shape(&world, connectors[3]), Some(ItemTransportShape::Vertical));
    assert_eq!(item_transport_shape(&world, chest), None);

    let mut system = system();
    assert_eq!(system.update(&mut world, &registry, SECOND).transfer_count, 9);
    assert_eq!(
        world.container(launcher).unwrap().slot(0),
        ItemStack::new(ItemId::STONE_BLOCK, 9)
    );
}

#[test]
fn catch_up_is_limited_and_keeps_the_remainder() {
    let registry = ItemRegistry::with_built_ins();
    let (mut world, bore, launcher) = connected_machines();
    assert!(world.set_container_slot(bore, 0, ItemStack::new(ItemId::STONE_BLOCK, 100)));
    let mut system = system();
    let update = system.update(&mut world, &registry, 10 * SECOND + 7);
    assert_eq!(update.transfer_count, 20);
    assert_eq!(
        world.container(launcher).unwrap().slot(0),
        ItemStack::new(ItemId::STONE_BLOCK, 20)
    );
    assert_eq!(system.update(&mut world, &registry, DEFAULT_ITEM_TRANSPORT_INTERVAL_NANOS - 8).transfer_count, 0);
    assert_eq!(system.update(&mut world, &registry, 1).transfer_count, 1);
}

#[test]
fn a_machine_touching_two_lines_joins_them_into_one_network() {
    let registry = ItemRegistry::with_built_ins();
    let (mut world, bore, launcher) = connected_machines();
    for x in 7..=8 {
        let conveyor = world.object_at(TilePos::new(x, 8)).unwrap().id();
        assert!(world.remove_object(conveyor).is_some());
    }
    let chest = world.place_furniture(FurnitureObject::CHEST, TilePos::new(7, 7)).unwrap();
    assert!(world.set_container_slot(bore, 0, ItemStack::new(ItemId::STONE_BLOCK, 24)));
    let mut system = system();

    let update = system.update(&mut world, &registry, SECOND);
    assert!(update.topology_rebuilt);
    assert_eq!(update.connector_count, 3);
    assert_eq!(update.network_count, 1);
    assert_eq!(update.transfer_count, 20);
    assert!(world.container(chest).unwrap().is_empty());
    assert_eq!(
        world.container(launcher).unwrap().slot(0),
        ItemStack::new(ItemId::STONE_BLOCK, 20)
    );
}

#[test]
fn placing_and_removing_transport_furniture_changes_the_revision() {
    let mut world = World::empty(32, 16, 0).unwrap();
    let start = world.item_transport_revision();
    let bed = world.place_furniture(FurnitureObject::BED, TilePos::new(1, 1)).unwrap();
    assert_eq!(world.item_transport_revision(), start);
    let conveyor = world.place_furniture(FurnitureObject::CARGO_CONVEYOR, TilePos::new(10, 1)).unwrap();
    assert_eq!(world.item_transport_revision(), start + 1);
    assert!(world.remove_object(bed).is_some());
    assert_eq!(world.item_transport_revision(), start + 1);
    assert!(world.remove_object(conveyor).is_some());
    assert_eq!(world.item_transport_revision(), start + 2);
}
