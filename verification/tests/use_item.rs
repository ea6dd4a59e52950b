use deep_tek::{
    FurnitureObject, Health, Inventory, ItemAction, ItemId, ItemRegistry, ItemStack, ItemTargetStatus,
    ItemUseResult, ProjectileKind, TilePos, World, selected_item_target_size, selected_item_target_status,
    use_selected_item,
};

const STONE: u16 = 2;

fn holding(item: ItemId, quantity: u16) -> (Inventory, ItemRegistry) {
    let registry = ItemRegistry::with_built_ins();
    let mut inventory = Inventory::new();
    assert_eq!(inventory.add(item, quantity, &registry), 0);
    (inventory, registry)
}

#[test]
fn placing_a_block_fills_the_tile_and_uses_one_block() {
    let (mut inventory, registry) = holding(ItemId::STONE_BLOCK, 3);
    let mut world = World::empty(16, 16, 0).unwrap();
    assert!(world.set_foreground_tile(4, 6, STONE));
    let mut health = Health::new(100);
    let action = Some(ItemAction::PlaceTile { foreground: true, tile: STONE });
    let target = Some(TilePos::new(4, 5));
    assert_eq!(
        selected_item_target_status(&inventory, action, &world, target, true, false),
        ItemTargetStatus::Valid(TilePos::new(4, 5))
    );
    let result = use_selected_item(&mut inventory, &registry, action, &mut world, &mut health, target, true, false);
    assert_eq!(result, ItemUseResult::Placed(TilePos::new(4, 5)));
    assert_eq!(world.foreground_tile(4, 5), STONE);
    assert_eq!(inventory.selected_stack(), ItemStack::new(ItemId::STONE_BLOCK, 2));
}

#[test]
fn a_block_is_not_placed_out_of_reach_or_into_the_user() {
    let (mut inventory, registry) = holding(ItemId::STONE_BLOCK, 3);
    let mut world = World::empty(16, 16, 0).unwrap();
    assert!(world.set_foreground_tile(4, 6, STONE));
    let mut health = Health::new(100);
    let action = Some(ItemAction::PlaceTile { foreground: true, tile: STONE });
    let target = Some(TilePos::new(4, 5));
    assert_eq!(
        use_selected_item(&mut inventory, &registry, action, &mut world, &mut health, target, false, false),
        ItemUseResult::OutOfReach
    );
    assert_eq!(
        selected_item_target_status(&inventory, action, &world, target, true, true),
        ItemTargetStatus::Blocked(TilePos::new(4, 5))
    );
    assert_eq!(
        use_selected_item(&mut inventory, &registry, action, &mut world, &mut health, target, true, true),
        ItemUseResult::Blocked
    );
    assert_eq!(world.foreground_tile(4, 5), 0);
    assert_eq!(inventory.selected_stack(), ItemStack::new(ItemId::STONE_BLOCK, 3));
}

#[test]
fn furniture_is_placed_with_its_bottom_row_on_the_target() {
    let (mut inventory, registry) = holding(ItemId::CHEST, 1);
    let mut world = World::empty(16, 16, 0).unwrap();
    for x in 3..=4 {
        assert!(world.set_foreground_tile(x, 9, STONE));
    }
    let mut health = Health::new(100);
    let action = Some(ItemAction::PlaceFurniture(FurnitureObject::CHEST));
    let target = Some(TilePos::new(3, 8));
    let result = use_selected_item(&mut inventory, &registry, action, &mut world, &mut health, target, true, false);
    assert_eq!(result, ItemUseResult::Placed(TilePos::new(3, 7)));
    let chest = world.object_at(TilePos::new(4, 8)).unwrap();
    assert_eq!(chest.object_type(), FurnitureObject::CHEST);
    assert_eq!(inventory.selected_stack(), None);
    assert_eq!(
        selected_item_target_status(&inventory, action, &world, target, true, false),
        ItemTargetStatus::NotTargeted
    );
}

#[test]
fn furniture_does_not_go_onto_other_furniture() {
    let (mut inventory, registry) = holding(ItemId::CHEST, 2);
    let mut world = World::empty(16, 16, 0).unwrap();
    for x in 3..=4 {
        assert!(world.set_foreground_tile(x, 9, STONE));
    }
    world.place_furniture(FurnitureObject::CHEST, TilePos::new(3, 7)).unwrap();
    let mut health = Health::new(100);
    let action = Some(ItemAction::PlaceFurniture(FurnitureObject::CHEST));
    assert_eq!(
        selected_item_target_status(&inventory, action, &world, Some(TilePos::new(4, 8)), true, false),
        ItemTargetStatus::Blocked(TilePos::new(4, 7))
    );
    assert_eq!(
        use_selected_item(&mut inventory, &registry, action, &mut world, &mut health, Some(TilePos::new(4, 8)), true, false),
        ItemUseResult::Blocked
    );
    assert_eq!(inventory.selected_stack(), ItemStack::new(ItemId::CHEST, 2));
}

#[test]
fn digging_removes_a_tile_and_picks_up_empty_furniture_but_not_a_full_one() {
    let (mut inventory, registry) = holding(ItemId::PICKAXE, 1);
    let mut world = World::empty(16, 16, 0).unwrap();
    assert!(world.set_foreground_tile(1, 1, STONE));
    let empty_chest = world.place_furniture(FurnitureObject::CHEST, TilePos::new(5, 5)).unwrap();
    let full_chest = world.place_furniture(FurnitureObject::CHEST, TilePos::new(9, 5)).unwrap();
    assert!(world.set_container_slot(full_chest, 0, ItemStack::new(ItemId::DIRT_BLOCK, 1)));
    let mut health = Health::new(100);
    let dig = Some(ItemAction::RemoveTile { foreground: true });

    let result = use_selected_item(&mut inventory, &registry, dig, &mut world, &mut health, Some(TilePos::new(1, 1)), true, false);
    assert_eq!(result, ItemUseResult::Removed(TilePos::new(1, 1)));
    assert_eq!(world.foreground_tile(1, 1), 0);

    let result = use_selected_item(&mut inventory, &registry, dig, &mut world, &mut health, Some(TilePos::new(6, 6)), true, false);
    assert_eq!(result, ItemUseResult::Removed(TilePos::new(5, 5)));
    assert!(world.object(empty_chest).is_none());
    assert_eq!(inventory.quantity(ItemId::CHEST), 1);
    assert_eq!(inventory.selected_stack(), ItemStack::new(ItemId::PICKAXE, 1));

    assert_eq!(
        use_selected_item(&mut inventory, &registry, dig, &mut world, &mut health, Some(TilePos::new(9, 5)), true, false),
        ItemUseResult::Blocked
    );
    assert!(world.object(full_chest).is_some());
    assert_eq!(
        use_selected_item(&mut inventory, &registry, dig, &mut world, &mut health, Some(TilePos::new(2, 2)), true, false),
        ItemUseResult::Blocked
    );
}

#[test]
fn healing_needs_missing_health_and_throwing_uses_the_item() {
    let (mut inventory, registry) = holding(ItemId::HEALING_POTION, 2);
    let mut world = World::empty(16, 16, 0).unwrap();
    let mut health = Health::new(100);
    let heal = Some(ItemAction::Heal(25));
    assert_eq!(
        use_selected_item(&mut inventory, &registry, heal, &mut world, &mut health, None, true, false),
        ItemUseResult::Blocked
    );
    health.damage(10);
    assert_eq!(
        use_selected_item(&mut inventory, &registry, heal, &mut world, &mut health, None, true, false),
        ItemUseResult::Consumed
    );
    assert_eq!(health.current(), 100);
    assert_eq!(inventory.selected_stack(), ItemStack::new(ItemId::HEALING_POTION, 1));

    let throw = Some(ItemAction::Throw(ProjectileKind::Bomb));
    assert_eq!(
        use_selected_item(&mut inventory, &registry, throw, &mut world, &mut health, None, true, false),
        ItemUseResult::Thrown(ProjectileKind::Bomb)
    );
    assert_eq!(inventory.selected_stack(), None);
    assert_eq!(
        use_selected_item(&mut inventory, &registry, throw, &mut world, &mut health, None, true, false),
        ItemUseResult::NoItem
    );
    let (mut other, _) = holding(ItemId::GLOW_STICK, 1);
    assert_eq!(
        use_selected_item(&mut other, &registry, None, &mut world, &mut health, None, true, false),
        ItemUseResult::Unsupported
    );
}

/// Whether a tile's centre lies within reach of the user, as the game
/// measures it.
fn in_reach(user: [f32; 2], tile: TilePos, reach: f32) -> bool {
    let dx = tile.x as f32 - user[0];
    let dy = tile.y as f32 - user[1];
    dx * dx + dy * dy <= reach * reach
}

/// Whether a tile overlaps a user collider one tile wide and two tall.
fn overlaps_user(user: [f32; 2], tile: TilePos) -> bool {
    let half = [0.5, 1.0];
    let (x, y) = (tile.x as f32, tile.y as f32);
    user[0] + half[0] > x - 0.5 && user[0] - half[0] < x + 0.5 && user[1] + half[1] > y - 0.5 && user[1] - half[1] < y + 0.5
}

#[test]
fn overlap_test_blocks_tiles_inside_the_user_collider() {
    assert!(overlaps_user([4.0, 4.0], TilePos::new(4, 4)));
    assert!(!overlaps_user([4.0, 4.0], TilePos::new(7, 4)));
}

#[test]
fn placement_status_explains_valid_blocked_and_out_of_reach_targets() {
    let (inventory, _) = holding(ItemId::DIRT_BLOCK, 10);
    let action = Some(ItemAction::PlaceTile { foreground: true, tile: 1 });
    let mut world = World::empty(20, 20, 0).unwrap();
    for support in [TilePos::new(7, 5), TilePos::new(15, 5)] {
        assert!(world.set_foreground_tile(support.x, support.y, STONE));
    }
    let user = [4.0, 4.0];
    let status = |world: &World, tile: TilePos, reach: f32| {
        selected_item_target_status(&inventory, action, world, Some(tile), in_reach(user, tile, reach), overlaps_user(user, tile))
    };
    assert_eq!(status(&world, TilePos::new(7, 4), 8.0), ItemTargetStatus::Valid(TilePos::new(7, 4)));
    assert_eq!(status(&world, TilePos::new(12, 4), 8.0), ItemTargetStatus::Blocked(TilePos::new(12, 4)));
    assert_eq!(status(&world, TilePos::new(4, 4), 8.0), ItemTargetStatus::Blocked(TilePos::new(4, 4)));
    assert_eq!(status(&world, TilePos::new(15, 4), 8.0), ItemTargetStatus::OutOfReach(TilePos::new(15, 4)));
    assert_eq!(status(&world, TilePos::new(15, 4), f32::INFINITY), ItemTargetStatus::Valid(TilePos::new(15, 4)));
    assert!(world.set_foreground_tile(7, 4, STONE));
    assert_eq!(status(&world, TilePos::new(7, 4), 8.0), ItemTargetStatus::Blocked(TilePos::new(7, 4)));
}

#[test]
fn furniture_target_uses_the_bottom_left_cursor_tile_and_full_footprint() {
    let (inventory, _) = holding(ItemId::CHEST, 1);
    let action = Some(ItemAction::PlaceFurniture(FurnitureObject::CHEST));
    let mut world = World::empty(20, 20, 0).unwrap();
    for x in 7..=8 {
        assert!(world.set_foreground_tile(x, 6, STONE));
    }
    assert_eq!(
        selected_item_target_status(&inventory, action, &world, Some(TilePos::new(7, 5)), true, false),
        ItemTargetStatus::Valid(TilePos::new(7, 4))
    );
    assert!(world.set_foreground_tile(8, 6, 0));
    assert_eq!(
        selected_item_target_status(&inventory, action, &world, Some(TilePos::new(7, 5)), true, false),
        ItemTargetStatus::Blocked(TilePos::new(7, 4))
    );
}

#[test]
fn furniture_placement_is_valid_when_its_footprint_overlaps_the_player() {
    let (inventory, _) = holding(ItemId::CHEST, 1);
    let action = Some(ItemAction::PlaceFurniture(FurnitureObject::CHEST));
    let mut world = World::empty(12, 12, 0).unwrap();
    for x in 3..=4 {
        assert!(world.set_foreground_tile(x, 6, STONE));
    }
    let user = [3.5, 4.5];
    let target = TilePos::new(3, 5);
    assert_eq!(
        selected_item_target_status(&inventory, action, &world, Some(target), true, overlaps_user(user, target)),
        ItemTargetStatus::Valid(TilePos::new(3, 4))
    );
}

#[test]
fn laser_bore_target_previews_its_three_by_three_footprint() {
    let (inventory, _) = holding(ItemId::LASER_BORE, 1);
    let action = Some(ItemAction::PlaceFurniture(FurnitureObject::LASER_BORE));
    let mut world = World::empty(20, 20, 0).unwrap();
    for x in [7, 9] {
        assert!(world.set_foreground_tile(x, 7, STONE));
    }
    assert_eq!(
        selected_item_target_status(&inventory, action, &world, Some(TilePos::new(7, 6)), true, false),
        ItemTargetStatus::Valid(TilePos::new(7, 4))
    );
}

#[test]
fn picking_up_a_rope_gives_back_rope() {
    let (mut inventory, registry) = holding(ItemId::PICKAXE, 1);
    let mut world = World::empty(16, 16, 0).unwrap();
    let rope = world.place_furniture(FurnitureObject::ROPE, TilePos::new(3, 4)).unwrap();
    let mut health = Health::new(100);
    let dig = Some(ItemAction::RemoveTile { foreground: true });
    let result = use_selected_item(&mut inventory, &registry, dig, &mut world, &mut health, Some(TilePos::new(3, 4)), true, false);
    assert_eq!(result, ItemUseResult::Removed(TilePos::new(3, 4)));
    assert!(world.object(rope).is_none());
    assert_eq!(inventory.quantity(ItemId::ROPE), 1);
}

#[test]
fn picking_up_a_powered_cable_gives_back_cable() {
    let (mut inventory, registry) = holding(ItemId::PICKAXE, 1);
    let mut world = World::empty(16, 16, 0).unwrap();
    world.place_furniture(FurnitureObject::POWERED_CABLE, TilePos::new(7, 2)).unwrap();
    let mut health = Health::new(100);
    let dig = Some(ItemAction::RemoveTile { foreground: true });
    let result = use_selected_item(&mut inventory, &registry, dig, &mut world, &mut health, Some(TilePos::new(7, 2)), true, false);
    assert_eq!(result, ItemUseResult::Removed(TilePos::new(7, 2)));
    assert_eq!(inventory.quantity(ItemId::POWERED_CABLE), 1);
}

#[test]
fn rope_out_of_reach_is_refused_as_out_of_reach() {
    let (mut inventory, registry) = holding(ItemId::ROPE, 5);
    let mut world = World::empty(16, 16, 0).unwrap();
    let mut health = Health::new(100);
    let rope = Some(ItemAction::PlaceRope);
    let target = Some(TilePos::new(3, 3));
    assert_eq!(
        selected_item_target_status(&inventory, rope, &world, target, false, false),
        ItemTargetStatus::OutOfReach(TilePos::new(3, 3))
    );
    assert_eq!(
        use_selected_item(&mut inventory, &registry, rope, &mut world, &mut health, target, false, false),
        ItemUseResult::OutOfReach
    );
    assert_eq!(
        use_selected_item(&mut inventory, &registry, rope, &mut world, &mut health, None, true, false),
        ItemUseResult::Blocked
    );
    assert_eq!(inventory.quantity(ItemId::ROPE), 5);
}

#[test]
fn target_size_follows_the_selected_action() {
    let (inventory, _registry) = holding(ItemId::CHEST, 1);
    assert_eq!(selected_item_target_size(&inventory, Some(ItemAction::PlaceFurniture(FurnitureObject::CHEST))), Some([2, 2]));
    assert_eq!(selected_item_target_size(&inventory, Some(ItemAction::PlaceFurniture(FurnitureObject::DOOR))), Some([1, 3]));
    assert_eq!(selected_item_target_size(&inventory, Some(ItemAction::PlaceRope)), Some([1, 1]));
    assert_eq!(selected_item_target_size(&inventory, Some(ItemAction::PlacePoweredCable)), Some([1, 1]));
    assert_eq!(selected_item_target_size(&inventory, Some(ItemAction::PlaceCargoLift)), Some([2, 2]));
    assert_eq!(selected_item_target_size(&inventory, Some(ItemAction::RemoveTile { foreground: true })), Some([1, 1]));
    assert_eq!(selected_item_target_size(&inventory, Some(ItemAction::Heal(5))), None);
    assert_eq!(selected_item_target_size(&inventory, None), None);
    let empty = Inventory::new();
    assert_eq!(selected_item_target_size(&empty, Some(ItemAction::PlaceRope)), None);
}
