use deep_tek::machine_processing::scale_duration;
use deep_tek::{
    COMPOSITE_ASSEMBLY_INTERVAL_NANOS, FurnitureObject, ItemId, ItemRegistry, ItemStack,
    MachineProcessingSystem, ObjectId, TilePos, World, processor_accepts_manual_input,
};

fn powered_world() -> (World, Vec<ObjectId>, ObjectId) {
    let mut world = World::empty(32, 16, 7).unwrap();
    for x in [2, 3, 9, 14, 15, 16] {
        assert!(world.set_foreground_tile(x, 12, 2));
    }
    world.place_furniture(FurnitureObject::SOLAR_ARRAY, TilePos::new(2, 9)).unwrap();
    world.place_furniture(FurnitureObject::PYLON, TilePos::new(9, 10)).unwrap();
    let assembler = world
        .place_furniture(FurnitureObject::COMPOSITE_ASSEMBLER, TilePos::new(14, 10))
        .unwrap();
    assert!(world.set_furniture_active(assembler, true));
    (world, vec![assembler], assembler)
}

#[test]
fn powered_assembler_consumes_two_inputs_and_produces_composite() {
    let (mut world, powered, assembler) = powered_world();
    let registry = ItemRegistry::with_built_ins();
    assert!(world.set_container_slot(assembler, 0, ItemStack::new(ItemId::DIRT_BLOCK, 2)));
    assert!(world.set_container_slot(assembler, 1, ItemStack::new(ItemId::STONE_BLOCK, 3)));
    let mut system = MachineProcessingSystem::new();

    let update = system.update(&mut world, &registry, &powered, COMPOSITE_ASSEMBLY_INTERVAL_NANOS);

    assert_eq!(update.crafts_completed, 1);
    let store = world.container(assembler).unwrap();
    assert_eq!(store.slot(0), ItemStack::new(ItemId::DIRT_BLOCK, 1));
    assert_eq!(store.slot(1), ItemStack::new(ItemId::STONE_BLOCK, 2));
    assert_eq!(store.slot(2), ItemStack::new(ItemId::HARDENED_COMPOSITE, 1));
}

#[test]
fn logistics_bonus_increases_processing_throughput() {
    let (mut world, powered, assembler) = powered_world();
    let registry = ItemRegistry::with_built_ins();
    assert!(world.set_container_slot(assembler, 0, ItemStack::new(ItemId::DIRT_BLOCK, 1)));
    assert!(world.set_container_slot(assembler, 1, ItemStack::new(ItemId::STONE_BLOCK, 1)));
    let mut system = MachineProcessingSystem::new();

    let update = system.update_with_speed(&mut world, &registry, &powered, 800_000_000, 125);

    assert_eq!(update.crafts_completed, 1);
}

#[test]
fn assembler_requires_power_and_both_inputs() {
    let (mut world, _, assembler) = powered_world();
    let registry = ItemRegistry::with_built_ins();
    assert!(world.set_container_slot(assembler, 0, ItemStack::new(ItemId::DIRT_BLOCK, 1)));
    let mut system = MachineProcessingSystem::new();

    assert_eq!(
        system
            .update(&mut world, &registry, &[], COMPOSITE_ASSEMBLY_INTERVAL_NANOS)
            .crafts_completed,
        0
    );
    assert_eq!(world.container(assembler).unwrap().slot(2), None);
}

#[test]
fn powered_assembler_refines_iron_ore() {
    let (mut world, powered, assembler) = powered_world();
    let registry = ItemRegistry::with_built_ins();
    assert!(world.set_container_slot(assembler, 0, ItemStack::new(ItemId::IRON_ORE, 2)));
    let mut system = MachineProcessingSystem::new();

    let update = system.update(&mut world, &registry, &powered, COMPOSITE_ASSEMBLY_INTERVAL_NANOS);

    assert_eq!(update.iron_ore_processed, 1);
    assert_eq!(
        world.container(assembler).unwrap().slot(2),
        ItemStack::new(ItemId::IRON_INGOT, 1)
    );
}

#[test]
fn progress_carries_over_and_catch_up_is_bounded() {
    let (mut world, powered, assembler) = powered_world();
    let registry = ItemRegistry::with_built_ins();
    assert!(world.set_container_slot(assembler, 0, ItemStack::new(ItemId::DIRT_BLOCK, 50)));
    assert!(world.set_container_slot(assembler, 1, ItemStack::new(ItemId::STONE_BLOCK, 50)));
    let mut system = MachineProcessingSystem::new();

    let half = COMPOSITE_ASSEMBLY_INTERVAL_NANOS / 2;
    assert_eq!(system.update(&mut world, &registry, &powered, half).crafts_completed, 0);
    assert_eq!(system.progress(assembler), Some(half));
    assert_eq!(system.update(&mut world, &registry, &powered, half).crafts_completed, 1);
    assert_eq!(system.progress(assembler), Some(0));

    let update = system.update(&mut world, &registry, &powered, 100 * COMPOSITE_ASSEMBLY_INTERVAL_NANOS);
    assert_eq!(update.crafts_completed, 8);
    assert_eq!(
        world.container(assembler).unwrap().slot(2),
        ItemStack::new(ItemId::HARDENED_COMPOSITE, 9)
    );
}

#[test]
fn a_full_output_stops_processing_and_caps_progress() {
    let (mut world, powered, assembler) = powered_world();
    let registry = ItemRegistry::with_built_ins();
    assert!(world.set_container_slot(assembler, 0, ItemStack::new(ItemId::DIRT_BLOCK, 5)));
    assert!(world.set_container_slot(assembler, 1, ItemStack::new(ItemId::STONE_BLOCK, 5)));
    assert!(world.set_container_slot(assembler, 2, ItemStack::new(ItemId::HARDENED_COMPOSITE, 999)));
    let mut system = MachineProcessingSystem::new();

    let update = system.update(&mut world, &registry, &powered, 3 * COMPOSITE_ASSEMBLY_INTERVAL_NANOS);
    assert_eq!(update.crafts_completed, 0);
    assert_eq!(system.progress(assembler), None);
    assert_eq!(
        world.container(assembler).unwrap().slot(0),
        ItemStack::new(ItemId::DIRT_BLOCK, 5)
    );
}

#[test]
fn removed_machines_lose_their_progress() {
    let (mut world, powered, assembler) = powered_world();
    let registry = ItemRegistry::with_built_ins();
    assert!(world.set_container_slot(assembler, 0, ItemStack::new(ItemId::DIRT_BLOCK, 5)));
    assert!(world.set_container_slot(assembler, 1, ItemStack::new(ItemId::STONE_BLOCK, 5)));
    let mut system = MachineProcessingSystem::new();
    system.update(&mut world, &registry, &powered, 10);
    assert_eq!(system.progress(assembler), Some(10));
    world.remove_object(assembler).unwrap();
    let update = system.update(&mut world, &registry, &powered, 10);
    assert_eq!(update.machines_checked, 0);
    assert_eq!(system.progress(assembler), None);
}

#[test]
fn manual_inputs_go_to_their_own_slot() {
    assert!(processor_accepts_manual_input(0, ItemId::DIRT_BLOCK));
    assert!(processor_accepts_manual_input(0, ItemId::IRON_ORE));
    assert!(processor_accepts_manual_input(1, ItemId::STONE_BLOCK));
    assert!(!processor_accepts_manual_input(1, ItemId::DIRT_BLOCK));
    assert!(!processor_accepts_manual_input(2, ItemId::HARDENED_COMPOSITE));
}

#[test]
fn processor_transfers_feed_inputs_and_drain_only_outputs() {
    let (mut world, _, assembler) = powered_world();
    let registry = ItemRegistry::with_built_ins();
    let chest = world.place_furniture(FurnitureObject::CHEST, TilePos::new(20, 10)).unwrap();
    assert!(world.set_container_slot(chest, 3, ItemStack::new(ItemId::STONE_BLOCK, 2)));
    assert!(deep_tek::machine_processing::transfer_one_to_processor(
        &mut world, chest, assembler, &registry
    ));
    assert_eq!(
        world.container(assembler).unwrap().slot(1),
        ItemStack::new(ItemId::STONE_BLOCK, 1)
    );
    assert_eq!(
        world.container(chest).unwrap().slot(3),
        ItemStack::new(ItemId::STONE_BLOCK, 1)
    );

    assert!(!deep_tek::machine_processing::transfer_one_from_processor(
        &mut world, assembler, chest, &registry
    ));
    assert!(world.set_container_slot(assembler, 2, ItemStack::new(ItemId::IRON_INGOT, 2)));
    assert!(deep_tek::machine_processing::transfer_one_from_processor(
        &mut world, assembler, chest, &registry
    ));
    assert_eq!(
        world.container(assembler).unwrap().slot(2),
        ItemStack::new(ItemId::IRON_INGOT, 1)
    );
    assert_eq!(
        world.container(chest).unwrap().slot(0),
        ItemStack::new(ItemId::IRON_INGOT, 1)
    );
}

#[test]
fn scaled_durations_round_down_and_never_stall() {
    assert_eq!(scale_duration(800, 125), 1000);
    assert_eq!(scale_duration(1000, 0), 10);
    assert_eq!(scale_duration(u64::MAX, 200), u64::MAX);
}
