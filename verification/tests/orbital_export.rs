use deep_tek::{
    FurnitureObject, ItemId, ItemRegistry, ItemStack, ObjectId, OrbitalExportSystem, TilePos, World,
};

const SECOND: u64 = 1_000_000_000;

fn launcher_world() -> (World, ObjectId, Vec<ObjectId>) {
    let mut world = World::empty(12, 120, 0).unwrap();
    for x in 3..=10 {
        assert!(world.set_foreground_tile(x, 12, 2));
    }
    let launcher = world
        .place_furniture(FurnitureObject::ORBITAL_EXPORT_LAUNCHER, TilePos::new(3, 9))
        .unwrap();
    world.place_furniture(FurnitureObject::PYLON, TilePos::new(8, 10)).unwrap();
    world.place_furniture(FurnitureObject::SOLAR_ARRAY, TilePos::new(9, 9)).unwrap();
    (world, launcher, vec![launcher])
}

#[test]
fn launcher_waits_then_exports_one_complete_stack_per_interval() {
    let registry = ItemRegistry::with_built_ins();
    let (mut world, launcher, powered) = launcher_world();
    assert!(world.set_container_slot(launcher, 1, ItemStack::new(ItemId::DIRT_BLOCK, 12)));
    assert!(world.set_container_slot(launcher, 5, ItemStack::new(ItemId::STONE_BLOCK, 7)));
    let mut system = OrbitalExportSystem::new(4 * SECOND);

    assert!(system.update(&mut world, &registry, &powered, 0).is_empty());
    assert!(system.update(&mut world, &registry, &powered, 3 * SECOND).is_empty());
    let first = system.update(&mut world, &registry, &powered, SECOND);
    assert_eq!(first.len(), 1);
    assert_eq!(first[0].launcher, launcher);
    assert_eq!(first[0].stack, ItemStack::new(ItemId::DIRT_BLOCK, 12).unwrap());
    assert_eq!(first[0].unit_value, 1);
    assert_eq!(first[0].proceeds, 12);
    assert_eq!(world.container(launcher).unwrap().slot(1), None);
    assert_eq!(
        world.container(launcher).unwrap().slot(5),
        ItemStack::new(ItemId::STONE_BLOCK, 7)
    );

    assert!(system.update(&mut world, &registry, &powered, 3 * SECOND).is_empty());
    let second = system.update(&mut world, &registry, &powered, SECOND);
    assert_eq!(second.len(), 1);
    assert_eq!(second[0].stack, ItemStack::new(ItemId::STONE_BLOCK, 7).unwrap());
    assert_eq!(second[0].proceeds, 28);
    assert!(world.container(launcher).unwrap().is_empty());
}

#[test]
fn missing_item_definitions_still_export_for_zero_money() {
    let registry = ItemRegistry::new(Vec::new());
    let (mut world, launcher, powered) = launcher_world();
    assert!(world.set_container_slot(launcher, 0, ItemStack::new(ItemId::IRON_ORE, 3)));
    let mut system = OrbitalExportSystem::new(SECOND);

    assert!(system.update(&mut world, &registry, &powered, 0).is_empty());
    let shipments = system.update(&mut world, &registry, &powered, SECOND);
    assert_eq!(shipments.len(), 1);
    assert_eq!(shipments[0].unit_value, 0);
    assert_eq!(shipments[0].proceeds, 0);
}

#[test]
fn unpowered_launcher_keeps_its_inventory() {
    let registry = ItemRegistry::with_built_ins();
    let (mut world, launcher, _) = launcher_world();
    let solar = world.objects_of_type(FurnitureObject::SOLAR_ARRAY)[0].id();
    assert!(world.remove_object(solar).is_some());
    assert!(world.set_container_slot(launcher, 0, ItemStack::new(ItemId::STONE_BLOCK, 4)));
    let mut system = OrbitalExportSystem::new(SECOND);

    assert!(system.update(&mut world, &registry, &[], 0).is_empty());
    assert!(system.update(&mut world, &registry, &[], SECOND).is_empty());
    assert_eq!(
        world.container(launcher).unwrap().slot(0),
        ItemStack::new(ItemId::STONE_BLOCK, 4)
    );
}

#[test]
fn roofed_launcher_keeps_its_inventory() {
    let registry = ItemRegistry::with_built_ins();
    let (mut world, launcher, powered) = launcher_world();
    assert!(world.set_container_slot(launcher, 0, ItemStack::new(ItemId::STONE_BLOCK, 4)));
    assert!(world.set_foreground_tile(4, 4, 2));
    let mut system = OrbitalExportSystem::new(SECOND);

    assert!(system.update(&mut world, &registry, &powered, 0).is_empty());
    assert!(system.update(&mut world, &registry, &powered, SECOND).is_empty());
    assert_eq!(
        world.container(launcher).unwrap().slot(0),
        ItemStack::new(ItemId::STONE_BLOCK, 4)
    );
}

#[test]
fn switched_off_launchers_are_forgotten_and_wait_again() {
    let registry = ItemRegistry::with_built_ins();
    let (mut world, launcher, powered) = launcher_world();
    assert!(world.set_container_slot(launcher, 0, ItemStack::new(ItemId::STONE_BLOCK, 4)));
    let mut system = OrbitalExportSystem::new(SECOND);
    assert_eq!(system.interval(), SECOND);
    assert!(system.update(&mut world, &registry, &powered, 0).is_empty());
    assert!(world.set_furniture_active(launcher, false));
    assert!(system.update(&mut world, &registry, &powered, SECOND).is_empty());
    assert!(world.set_furniture_active(launcher, true));
    assert!(system.update(&mut world, &registry, &powered, 0).is_empty());
    let shipments = system.update(&mut world, &registry, &powered, SECOND);
    assert_eq!(shipments.len(), 1);
    assert_eq!(shipments[0].proceeds, 16);
}

#[test]
fn launcher_below_minus_one_hundred_metres_has_no_sky_access() {
    let mut world = World::empty(12, 300, 0).unwrap();
    for x in 3..=5 {
        assert!(world.set_foreground_tile(x, 190, 1));
    }
    let launcher = world
        .place_furniture(FurnitureObject::ORBITAL_EXPORT_LAUNCHER, TilePos::new(3, 187))
        .unwrap();

    assert!(world.elevation_decimetres(189) < -1_000);
    assert!(!world.orbital_export_has_sky_access(launcher));
}

#[test]
fn launcher_above_minus_one_hundred_metres_under_open_sky_has_access() {
    let mut world = World::empty(12, 300, 0).unwrap();
    let launcher = world
        .place_furniture(FurnitureObject::ORBITAL_EXPORT_LAUNCHER, TilePos::new(3, 20))
        .unwrap();
    assert_eq!(world.elevation_decimetres(22), -220);
    assert!(world.orbital_export_has_sky_access(launcher));
}
