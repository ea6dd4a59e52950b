use deep_tek::{
    COMPOSITE_RECIPE, CRAFTING_RECIPES, CraftingError, Inventory, ItemId, ItemRegistry, MACHINE_OFFERS,
    crafting_recipe,
};

#[test]
fn craft_is_atomic_and_consumes_ingredients_across_stacks() {
    let registry = ItemRegistry::with_built_ins();
    let mut inventory = Inventory::new();
    inventory.add(ItemId::STONE_BLOCK, 6, &registry);
    inventory.add(ItemId::HARDENED_COMPOSITE, 1, &registry);
    let recipe = crafting_recipe(ItemId::BOMB).unwrap();

    assert_eq!(recipe.craft(&mut inventory, &registry), Ok(()));
    assert_eq!(inventory.quantity(ItemId::STONE_BLOCK), 0);
    assert_eq!(inventory.quantity(ItemId::HARDENED_COMPOSITE), 0);
    assert_eq!(inventory.quantity(ItemId::BOMB), 2);
    let snapshot = inventory.clone();
    assert_eq!(
        recipe.craft(&mut inventory, &registry),
        Err(CraftingError::MissingIngredients)
    );
    assert_eq!(inventory, snapshot);
}

#[test]
fn full_inventory_does_not_consume_recipe_ingredients() {
    let registry = ItemRegistry::with_built_ins();
    let mut inventory = Inventory::new();
    assert_eq!(inventory.add(ItemId::STONE_BLOCK, 7, &registry), 0);
    assert_eq!(inventory.add(ItemId::HARDENED_COMPOSITE, 2, &registry), 0);
    assert_eq!(inventory.add(ItemId::PICKAXE, 38, &registry), 0);
    let snapshot = inventory.clone();
    let recipe = crafting_recipe(ItemId::BOMB).unwrap();

    assert_eq!(
        recipe.craft(&mut inventory, &registry),
        Err(CraftingError::InventoryFull)
    );
    assert_eq!(inventory, snapshot);
}

#[test]
fn ballistic_rounds_are_crafted_in_useful_batches() {
    let registry = ItemRegistry::with_built_ins();
    let mut inventory = Inventory::new();
    assert_eq!(inventory.add(ItemId::STONE_BLOCK, 2, &registry), 0);
    assert_eq!(inventory.add(ItemId::HARDENED_COMPOSITE, 1, &registry), 0);

    assert_eq!(
        crafting_recipe(ItemId::TURRET_AMMO)
            .unwrap()
            .craft(&mut inventory, &registry),
        Ok(())
    );
    assert_eq!(inventory.quantity(ItemId::TURRET_AMMO), 12);
}

#[test]
fn spikes_are_crafted_in_placeable_rows() {
    let registry = ItemRegistry::with_built_ins();
    let mut inventory = Inventory::new();
    assert_eq!(inventory.add(ItemId::STONE_BLOCK, 2, &registry), 0);
    assert_eq!(inventory.add(ItemId::HARDENED_COMPOSITE, 1, &registry), 0);

    assert_eq!(
        crafting_recipe(ItemId::SPIKES)
            .unwrap()
            .craft(&mut inventory, &registry),
        Ok(())
    );
    assert_eq!(inventory.quantity(ItemId::SPIKES), 4);
}

#[test]
fn can_craft_reports_without_changing_the_inventory() {
    let registry = ItemRegistry::with_built_ins();
    let mut inventory = Inventory::new();
    inventory.add(ItemId::DIRT_BLOCK, 2, &registry);
    let recipe = crafting_recipe(ItemId::ROPE).unwrap();
    assert_eq!(recipe.can_craft(&inventory, &registry), Ok(()));
    assert_eq!(inventory.quantity(ItemId::DIRT_BLOCK), 2);
    assert_eq!(recipe.craft(&mut inventory, &registry), Ok(()));
    assert_eq!(inventory.quantity(ItemId::ROPE), 5);
    assert_eq!(inventory.quantity(ItemId::DIRT_BLOCK), 0);
}

#[test]
fn unknown_items_are_reported_before_anything_is_consumed() {
    let registry = ItemRegistry::new(Vec::new());
    let mut inventory = Inventory::new();
    let recipe = crafting_recipe(ItemId::CHEST).unwrap();
    assert_eq!(
        recipe.craft(&mut inventory, &registry),
        Err(CraftingError::UnknownItem(ItemId::CHEST))
    );
}

#[test]
fn every_recipe_has_ingredients_and_a_positive_output() {
    let recipes = CRAFTING_RECIPES();
    assert_eq!(recipes.len(), 12);
    for recipe in &recipes {
        assert!(!recipe.ingredients.is_empty());
        assert!(recipe.output.quantity > 0);
        assert_eq!(crafting_recipe(recipe.output.item).as_ref(), Some(recipe));
    }
    assert!(crafting_recipe(ItemId::DIRT_BLOCK).is_none());
}

#[test]
fn hand_crafted_outputs_are_not_mined_procured_or_machine_processed() {
    let processed = COMPOSITE_RECIPE().output.0;
    let offers = MACHINE_OFFERS();
    for recipe in CRAFTING_RECIPES() {
        assert_ne!(recipe.output.item, ItemId::DIRT_BLOCK);
        assert_ne!(recipe.output.item, ItemId::STONE_BLOCK);
        assert_ne!(recipe.output.item, ItemId::RED_LIGHT);
        assert_ne!(recipe.output.item, processed);
        assert!(!offers.iter().any(|offer| offer.item == recipe.output.item));
    }
}
