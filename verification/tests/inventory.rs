use deep_tek::{Inventory, ItemContainer, ItemId, ItemRegistry, ItemStack, SlotClick};

#[test]
fn starter_inventory_contains_basic_exploration_equipment() {
    let registry = ItemRegistry::with_built_ins();
    let inventory = Inventory::starter(&registry);
    assert_eq!(inventory.slot(0), ItemStack::new(ItemId::PICKAXE, 1));
    assert_eq!(inventory.slot(1), ItemStack::new(ItemId::ROPE, 100));
    assert_eq!(inventory.slot(2), ItemStack::new(ItemId::GLOW_STICK, 20));
    assert!(inventory.slots()[3..].iter().all(Option::is_none));
}

#[test]
fn add_fills_existing_stacks_before_empty_slots() {
    let registry = ItemRegistry::with_built_ins();
    let mut inventory = Inventory::new();
    assert_eq!(inventory.add(ItemId::HEALING_POTION, 25, &registry), 0);
    assert_eq!(inventory.add(ItemId::HEALING_POTION, 10, &registry), 0);
    assert_eq!(inventory.slot(0).unwrap().quantity(), 30);
    assert_eq!(inventory.slot(1).unwrap().quantity(), 5);
}

#[test]
fn secondary_click_splits_and_places_single_items() {
    let registry = ItemRegistry::with_built_ins();
    let mut inventory = Inventory::new();
    inventory.add(ItemId::DIRT_BLOCK, 9, &registry);
    let mut cursor = None;
    inventory.click_slot(0, &mut cursor, SlotClick::Secondary, &registry);
    assert_eq!(inventory.slot(0).unwrap().quantity(), 4);
    assert_eq!(cursor.unwrap().quantity(), 5);
    inventory.click_slot(1, &mut cursor, SlotClick::Secondary, &registry);
    assert_eq!(inventory.slot(1).unwrap().quantity(), 1);
    assert_eq!(cursor.unwrap().quantity(), 4);
}

#[test]
fn tools_do_not_stack_above_their_definition_limit() {
    let registry = ItemRegistry::with_built_ins();
    let mut inventory = Inventory::new();
    inventory.add(ItemId::PICKAXE, 2, &registry);
    assert_eq!(inventory.slot(0).unwrap().quantity(), 1);
    assert_eq!(inventory.slot(1).unwrap().quantity(), 1);
}

#[test]
fn containers_share_inventory_stack_click_rules() {
    let registry = ItemRegistry::with_built_ins();
    let mut container = ItemContainer::chest();
    let mut cursor = ItemStack::new(ItemId::DIRT_BLOCK, 9);
    container.click_slot(0, &mut cursor, SlotClick::Secondary, &registry);
    assert_eq!(container.slot(0).unwrap().quantity(), 1);
    assert_eq!(cursor.unwrap().quantity(), 8);

    container.click_slot(0, &mut cursor, SlotClick::Primary, &registry);
    assert_eq!(container.slot(0).unwrap().quantity(), 9);
    assert_eq!(cursor, None);
}

#[test]
fn container_try_add_is_atomic_when_capacity_is_insufficient() {
    let mut container = ItemContainer::new(1);
    assert!(container.try_add(ItemId::STONE_BLOCK, 998, 999));
    assert!(!container.try_add(ItemId::STONE_BLOCK, 2, 999));
    assert_eq!(container.slot(0).unwrap().quantity(), 998);
    assert!(container.try_add(ItemId::STONE_BLOCK, 1, 999));
    assert_eq!(container.slot(0).unwrap().quantity(), 999);
}

#[test]
fn container_transfer_moves_exactly_one_item_in_slot_order() {
    let registry = ItemRegistry::with_built_ins();
    let mut source = ItemContainer::new(2);
    let mut destination = ItemContainer::new(1);
    assert!(source.set_slot(0, ItemStack::new(ItemId::STONE_BLOCK, 700)));
    assert!(source.set_slot(1, ItemStack::new(ItemId::DIRT_BLOCK, 50)));
    assert!(destination.set_slot(0, ItemStack::new(ItemId::STONE_BLOCK, 900)));

    assert!(source.transfer_one_to(&mut destination, &registry));
    assert_eq!(
        destination.slot(0),
        ItemStack::new(ItemId::STONE_BLOCK, 901)
    );
    assert_eq!(source.slot(0), ItemStack::new(ItemId::STONE_BLOCK, 699));
    assert_eq!(source.slot(1), ItemStack::new(ItemId::DIRT_BLOCK, 50));
}

#[test]
fn taking_first_stack_removes_one_whole_stack_in_slot_order() {
    let mut container = ItemContainer::new(4);
    assert!(container.set_slot(1, ItemStack::new(ItemId::STONE_BLOCK, 12)));
    assert!(container.set_slot(3, ItemStack::new(ItemId::DIRT_BLOCK, 8)));

    assert_eq!(
        container.take_first_stack(),
        ItemStack::new(ItemId::STONE_BLOCK, 12)
    );
    assert_eq!(container.slot(1), None);
    assert_eq!(container.slot(3), ItemStack::new(ItemId::DIRT_BLOCK, 8));
}

#[test]
fn a_zero_quantity_forms_no_stack() {
    assert_eq!(ItemStack::new(ItemId::BOMB, 0), None);
    assert_eq!(ItemStack::new(ItemId::BOMB, 3).unwrap().item(), ItemId::BOMB);
}

#[test]
fn adding_an_unknown_item_returns_everything() {
    let registry = ItemRegistry::new(Vec::new());
    let mut inventory = Inventory::new();
    assert_eq!(inventory.add(ItemId::ROPE, 12, &registry), 12);
    assert!(inventory.slots().iter().all(Option::is_none));
}

#[test]
fn a_full_inventory_returns_what_does_not_fit() {
    let registry = ItemRegistry::with_built_ins();
    let mut inventory = Inventory::new();
    assert_eq!(inventory.add(ItemId::PICKAXE, 45, &registry), 5);
    assert_eq!(inventory.quantity(ItemId::PICKAXE), 40);
}

#[test]
fn removing_items_takes_from_stacks_in_slot_order() {
    let registry = ItemRegistry::with_built_ins();
    let mut inventory = Inventory::new();
    inventory.add(ItemId::HEALING_POTION, 45, &registry);
    assert_eq!(inventory.remove_item(ItemId::HEALING_POTION, 32), 32);
    assert_eq!(inventory.slot(0), None);
    assert_eq!(inventory.slot(1), ItemStack::new(ItemId::HEALING_POTION, 13));
    assert_eq!(inventory.remove_item(ItemId::HEALING_POTION, 20), 13);
    assert_eq!(inventory.quantity(ItemId::HEALING_POTION), 0);
}

#[test]
fn hotbar_selection_clamps_and_wraps() {
    let mut inventory = Inventory::new();
    inventory.select_hotbar(25);
    assert_eq!(inventory.selected_hotbar(), 9);
    inventory.cycle_hotbar(1);
    assert_eq!(inventory.selected_hotbar(), 0);
    inventory.cycle_hotbar(-1);
    assert_eq!(inventory.selected_hotbar(), 9);
    inventory.cycle_hotbar(-23);
    assert_eq!(inventory.selected_hotbar(), 6);
}

#[test]
fn consuming_the_selected_item_empties_its_slot() {
    let registry = ItemRegistry::with_built_ins();
    let mut inventory = Inventory::new();
    inventory.add(ItemId::BOMB, 2, &registry);
    assert_eq!(inventory.consume_selected(5), 2);
    assert_eq!(inventory.selected_stack(), None);
    assert_eq!(inventory.remove_from_slot(55, 1), 0);
}

#[test]
fn primary_click_merges_up_to_the_stack_limit_and_swaps_different_items() {
    let registry = ItemRegistry::with_built_ins();
    let mut inventory = Inventory::new();
    inventory.add(ItemId::HEALING_POTION, 25, &registry);
    let mut cursor = ItemStack::new(ItemId::HEALING_POTION, 10);
    inventory.click_slot(0, &mut cursor, SlotClick::Primary, &registry);
    assert_eq!(inventory.slot(0), ItemStack::new(ItemId::HEALING_POTION, 30));
    assert_eq!(cursor, ItemStack::new(ItemId::HEALING_POTION, 5));
    let mut other = ItemStack::new(ItemId::BOMB, 1);
    inventory.click_slot(0, &mut other, SlotClick::Primary, &registry);
    assert_eq!(inventory.slot(0), ItemStack::new(ItemId::BOMB, 1));
    assert_eq!(other, ItemStack::new(ItemId::HEALING_POTION, 30));
}

#[test]
fn container_remove_and_can_add_report_exact_amounts() {
    let mut container = ItemContainer::new(2);
    assert!(container.try_add(ItemId::DIRT_BLOCK, 10, 6));
    assert_eq!(container.slot(0), ItemStack::new(ItemId::DIRT_BLOCK, 6));
    assert_eq!(container.slot(1), ItemStack::new(ItemId::DIRT_BLOCK, 4));
    assert!(container.can_add(ItemId::DIRT_BLOCK, 2, 6));
    assert!(!container.can_add(ItemId::DIRT_BLOCK, 3, 6));
    assert!(!container.can_add(ItemId::STONE_BLOCK, 1, 6));
    assert!(container.can_add(ItemId::STONE_BLOCK, 0, 0));
    assert_eq!(container.remove_item(ItemId::DIRT_BLOCK, 7), 7);
    assert_eq!(container.slot(0), None);
    assert_eq!(container.slot(1), ItemStack::new(ItemId::DIRT_BLOCK, 3));
    assert_eq!(container.take_stack(1), ItemStack::new(ItemId::DIRT_BLOCK, 3));
    assert!(container.is_empty());
}
