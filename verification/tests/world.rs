use deep_tek::{
    FurnitureObject, ItemId, ItemStack, ObjectId, PlacementError, TilePos, World, WorldError,
};

#[test]
fn world_size_limits_are_checked() {
    assert_eq!(World::empty(0, 10, 1).err(), Some(WorldError::ZeroSize));
    assert_eq!(World::empty(10, 0, 1).err(), Some(WorldError::ZeroSize));
    assert_eq!(World::empty(10_001, 10, 1).err(), Some(WorldError::TooLarge));
    assert_eq!(World::empty(10, 16_001, 1).err(), Some(WorldError::TooLarge));
    assert_eq!(World::empty(10_000, 6_401, 1).err(), Some(WorldError::TooLarge));
    let world = World::empty(12, 7, 42).unwrap();
    assert_eq!(world.width(), 12);
    assert_eq!(world.height(), 7);
    assert_eq!(world.seed(), 42);
    assert_eq!(world.foreground_tile(11, 6), 0);
}

#[test]
fn tile_writes_read_back_and_leave_other_cells_alone() {
    let mut world = World::empty(6, 4, 1).unwrap();
    assert!(world.set_foreground_tile(5, 3, 9));
    assert!(world.set_background_tile(5, 3, 4));
    assert_eq!(world.foreground_tile(5, 3), 9);
    assert_eq!(world.background_tile(5, 3), 4);
    assert_eq!(world.foreground_tile(4, 3), 0);
    assert_eq!(world.foreground_tile(5, 2), 0);
    assert!(!world.set_foreground_tile(6, 0, 9));
    assert!(!world.set_background_tile(0, 4, 9));
}

#[test]
fn placement_is_bounded_and_exclusive_and_removal_undoes_it() {
    let mut world = World::empty(10, 10, 1).unwrap();
    assert_eq!(
        world.place_furniture(FurnitureObject::CHEST, TilePos::new(9, 0)),
        Err(PlacementError::OutOfBounds)
    );
    let chest = world.place_furniture(FurnitureObject::CHEST, TilePos::new(1, 1)).unwrap();
    assert_eq!(
        world.place_furniture(FurnitureObject::PYLON, TilePos::new(2, 2)),
        Err(PlacementError::Occupied)
    );
    let object = world.object(chest).unwrap();
    assert_eq!(object.object_type(), FurnitureObject::CHEST);
    assert_eq!(object.anchor(), TilePos::new(1, 1));
    assert_eq!(object.size(), [2, 2]);
    assert!(object.is_active());
    assert_eq!(world.object_at(TilePos::new(2, 2)).unwrap().id(), chest);
    assert!(world.object_at(TilePos::new(3, 1)).is_none());
    assert_eq!(world.container(chest).unwrap().slots().len(), 40);
    assert!(world.set_container_slot(chest, 3, ItemStack::new(ItemId::STONE_BLOCK, 5)));
    assert_eq!(
        world.container(chest).unwrap().slot(3),
        ItemStack::new(ItemId::STONE_BLOCK, 5)
    );
    assert!(!world.set_container_slot(chest, 40, None));

    let removed = world.remove_object(chest).unwrap();
    assert_eq!(removed.id(), chest);
    assert!(world.object(chest).is_none());
    assert!(world.container(chest).is_none());
    assert!(world.remove_object(chest).is_none());
    let pylon = world.place_furniture(FurnitureObject::PYLON, TilePos::new(2, 2)).unwrap();
    assert_ne!(pylon, chest);
}

#[test]
fn objects_of_a_kind_come_in_placement_order() {
    let mut world = World::empty(20, 10, 1).unwrap();
    let first = world.place_furniture(FurnitureObject::BATTERY, TilePos::new(5, 1)).unwrap();
    world.place_furniture(FurnitureObject::PYLON, TilePos::new(1, 1)).unwrap();
    let second = world.place_furniture(FurnitureObject::BATTERY, TilePos::new(3, 1)).unwrap();
    let batteries = world.objects_of_type(FurnitureObject::BATTERY);
    assert_eq!(batteries.len(), 2);
    assert_eq!(batteries[0].id(), first);
    assert_eq!(batteries[1].id(), second);
    assert_eq!(world.battery_charge_milli(first), Some(0));
    assert!(world.set_battery_charge_milli(first, 250));
    assert_eq!(world.battery_charge_milli(first), Some(250));
    assert_eq!(world.battery_charge_milli(ObjectId::new(1_000)), None);
    assert!(world.set_furniture_active(second, true));
    assert!(world.object(second).unwrap().is_active());
    assert!(!world.set_furniture_active(ObjectId::new(1_000), true));
}

#[test]
fn launchers_need_a_clear_column_above_them() {
    let mut world = World::empty(12, 20, 0).unwrap();
    let launcher = world
        .place_furniture(FurnitureObject::ORBITAL_EXPORT_LAUNCHER, TilePos::new(3, 10))
        .unwrap();
    assert!(world.orbital_export_has_sky_access(launcher));
    assert!(world.set_foreground_tile(4, 2, 1));
    assert!(!world.orbital_export_has_sky_access(launcher));
    assert!(world.set_foreground_tile(4, 2, 0));
    assert!(world.set_foreground_tile(6, 2, 1));
    assert!(world.orbital_export_has_sky_access(launcher));
}
