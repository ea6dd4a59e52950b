use vstd::prelude::*;
use crate::items::{ItemId, ItemRegistry, max_stack_of};
use crate::inventory::{
    Inventory, SlotPass, add_to_slots, pass_slots, quantity_in,
};
use crate::items::ItemDefinition;

verus! {

/// An amount of one item kind, as a recipe input or output.
#[derive(Clone, Copy, Debug, PartialEq, Eq, Structural)]
pub struct CraftingIngredient {
    pub item: ItemId,
    pub quantity: u16,
}

impl CraftingIngredient {
    pub fn new(item: ItemId, quantity: u16) -> (ingredient: Self)
        ensures
            ingredient == (CraftingIngredient { item, quantity }),
    {
        CraftingIngredient { item, quantity }
    }
}

/// A hand-crafting recipe: the ingredients it consumes and what it makes.
#[derive(Clone, Debug, PartialEq, Eq)]
pub struct CraftingRecipe {
    pub output: CraftingIngredient,
    pub ingredients: Vec<CraftingIngredient>,
}

#[derive(Clone, Copy, Debug, PartialEq, Eq, Structural)]
pub enum CraftingError {
    UnknownItem(ItemId),
    MissingIngredients,
    InventoryFull,
}

/// The first ingredient problem, checked in ingredient order against the
/// inventory before anything is consumed.
pub open spec fn ingredient_problem(
    slots: Seq<Option<crate::items::ItemStack>>,
    ingredients: Seq<CraftingIngredient>,
    definitions: Seq<ItemDefinition>,
) -> Option<CraftingError>
    decreases ingredients.len(),
{
    if ingredients.len() == 0 {
        None
    } else if max_stack_of(definitions, ingredients[0].item) is None {
        Some(CraftingError::UnknownItem(ingredients[0].item))
    } else if quantity_in(slots, ingredients[0].item) < ingredients[0].quantity {
        Some(CraftingError::MissingIngredients)
    } else {
        ingredient_problem(slots, ingredients.drop_first(), definitions)
    }
}

proof fn lemma_no_problem_means_enough(
    slots: Seq<Option<crate::items::ItemStack>>,
    ingredients: Seq<CraftingIngredient>,
    definitions: Seq<ItemDefinition>,
    i: int,
)
    requires
        ingredient_problem(slots, ingredients, definitions) is None,
        0 <= i < ingredients.len(),
    ensures
        quantity_in(slots, ingredients[i].item) >= ingredients[i].quantity,
    decreases i,
{
    if i > 0 {
        lemma_no_problem_means_enough(slots, ingredients.drop_first(), definitions, i - 1);
        assert(ingredients.drop_first()[i - 1] == ingredients[i]);
    }
}

/// Crafting succeeds only if, before it, the inventory held at least each
/// ingredient's full quantity of that ingredient.
pub proof fn law_craft_needs_every_ingredient(
    slots: Seq<Option<crate::items::ItemStack>>,
    output: CraftingIngredient,
    ingredients: Seq<CraftingIngredient>,
    definitions: Seq<ItemDefinition>,
    i: int,
)
    requires
        craft_result(slots, output, ingredients, definitions) is Ok,
        0 <= i < ingredients.len(),
    ensures
        quantity_in(slots, ingredients[i].item) >= ingredients[i].quantity,
{
    lemma_no_problem_means_enough(slots, ingredients, definitions, i);
}

/// The slots after each ingredient is taken in turn.
pub open spec fn consume_ingredients(
    slots: Seq<Option<crate::items::ItemStack>>,
    ingredients: Seq<CraftingIngredient>,
) -> Seq<Option<crate::items::ItemStack>>
    decreases ingredients.len(),
{
    if ingredients.len() == 0 {
        slots
    } else {
        consume_ingredients(
            pass_slots(slots, ingredients[0].item, ingredients[0].quantity as nat, 0, SlotPass::Take).0,
            ingredients.drop_first(),
        )
    }
}

/// What crafting does to the slots: an error, or the slots with the
/// ingredients consumed and the whole output added.
pub open spec fn craft_result(
    slots: Seq<Option<crate::items::ItemStack>>,
    output: CraftingIngredient,
    ingredients: Seq<CraftingIngredient>,
    definitions: Seq<ItemDefinition>,
) -> Result<Seq<Option<crate::items::ItemStack>>, CraftingError> {
    match max_stack_of(definitions, output.item) {
        None => Err(CraftingError::UnknownItem(output.item)),
        Some(max_stack) => match ingredient_problem(slots, ingredients, definitions) {
            Some(problem) => Err(problem),
            None => {
                let added = add_to_slots(
                    consume_ingredients(slots, ingredients),
                    output.item,
                    output.quantity as nat,
                    max_stack,
                );
                if added.1 == 0 {
                    Ok(added.0)
                } else {
                    Err(CraftingError::InventoryFull)
                }
            },
        },
    }
}

impl CraftingRecipe {
    /// Whether crafting would succeed, and otherwise why not; the inventory
    /// is not changed.
    pub fn can_craft(&self, inventory: &Inventory, registry: &ItemRegistry) -> (result: Result<(), CraftingError>)
        requires
            inventory.wf(),
        ensures
            match craft_result(inventory.spec_slots(), self.output, self.ingredients@, registry@) {
                Ok(_) => result is Ok,
                Err(problem) => result == Err::<(), CraftingError>(problem),
            },
    {
        let mut probe = inventory.clone();
        apply_recipe(self, &mut probe, registry)
    }

    /// Crafts once: either consumes the ingredients and adds the output, or
    /// leaves the inventory unchanged and reports why.
    pub fn craft(&self, inventory: &mut Inventory, registry: &ItemRegistry) -> (result: Result<(), CraftingError>)
        requires
            old(inventory).wf(),
        ensures
            final(inventory).wf(),
            final(inventory).spec_selected_hotbar() == old(inventory).spec_selected_hotbar(),
            match craft_result(old(inventory).spec_slots(), self.output, self.ingredients@, registry@) {
                Ok(slots) => result is Ok && final(inventory).spec_slots() == slots,
                Err(problem) => result == Err::<(), CraftingError>(problem)
                    && final(inventory).spec_slots() == old(inventory).spec_slots(),
            },
    {
        let mut scratch = inventory.clone();
        match apply_recipe(self, &mut scratch, registry) {
            Ok(()) => {
                *inventory = scratch;
                Ok(())
            },
            Err(problem) => Err(problem),
        }
    }
}

/// Checks, consumes and produces in place; on an inventory-full error the
/// ingredients are already gone, so callers work on a copy.
fn apply_recipe(recipe: &CraftingRecipe, inventory: &mut Inventory, registry: &ItemRegistry) -> (result: Result<(), CraftingError>)
    requires
        old(inventory).wf(),
    ensures
        final(inventory).wf(),
        final(inventory).spec_selected_hotbar() == old(inventory).spec_selected_hotbar(),
        match craft_result(old(inventory).spec_slots(), recipe.output, recipe.ingredients@, registry@) {
            Ok(slots) => result is Ok && final(inventory).spec_slots() == slots,
            Err(problem) => result == Err::<(), CraftingError>(problem),
        },
{
    let ghost original = inventory.spec_slots();
    let max_stack = match registry.get(recipe.output.item) {
        Some(definition) => definition.max_stack,
        None => return Err(CraftingError::UnknownItem(recipe.output.item)),
    };
    let mut index: usize = 0;
    let ghost all = recipe.ingredients@;
    assert(all.skip(0) =~= all);
    while index < recipe.ingredients.len()
        invariant
            all == recipe.ingredients@,
            index <= all.len(),
            inventory.wf(),
            inventory.spec_slots() == original,
            original == old(inventory).spec_slots(),
            inventory.spec_selected_hotbar() == old(inventory).spec_selected_hotbar(),
            max_stack_of(registry@, recipe.output.item) == Some(max_stack),
            ingredient_problem(original, all, registry@) == ingredient_problem(
                original,
                all.skip(index as int),
                registry@,
            ),
        decreases all.len() - index,
    {
        let ingredient = recipe.ingredients[index];
        proof {
            assert(all.skip(index as int)[0] == ingredient);
            assert(all.skip(index as int).drop_first() =~= all.skip(index + 1));
        }
        if registry.get(ingredient.item).is_none() {
            return Err(CraftingError::UnknownItem(ingredient.item));
        }
        if inventory.quantity(ingredient.item) < ingredient.quantity as u32 {
            return Err(CraftingError::MissingIngredients);
        }
        index = index + 1;
    }
    assert(all.skip(all.len() as int) =~= Seq::<CraftingIngredient>::empty());
    let mut index: usize = 0;
    while index < recipe.ingredients.len()
        invariant
            all == recipe.ingredients@,
            index <= all.len(),
            inventory.wf(),
            inventory.spec_selected_hotbar() == old(inventory).spec_selected_hotbar(),
            original == old(inventory).spec_slots(),
            max_stack_of(registry@, recipe.output.item) == Some(max_stack),
            ingredient_problem(original, all, registry@) is None,
            consume_ingredients(original, all) == consume_ingredients(
                inventory.spec_slots(),
                all.skip(index as int),
            ),
        decreases all.len() - index,
    {
        let ingredient = recipe.ingredients[index];
        proof {
            assert(all.skip(index as int)[0] == ingredient);
            assert(all.skip(index as int).drop_first() =~= all.skip(index + 1));
        }
        inventory.remove_item(ingredient.item, ingredient.quantity);
        index = index + 1;
    }
    assert(all.skip(all.len() as int) =~= Seq::<CraftingIngredient>::empty());
    if inventory.add(recipe.output.item, recipe.output.quantity, registry) != 0 {
        return Err(CraftingError::InventoryFull);
    }
    Ok(())
}

/// The built-in recipe table as plain values: output, then ingredients.
pub open spec fn recipe_table() -> Seq<(CraftingIngredient, Seq<CraftingIngredient>)> {
    seq![
        (CraftingIngredient { item: ItemId::ROPE, quantity: 5 }, seq![
            CraftingIngredient { item: ItemId::DIRT_BLOCK, quantity: 2 },
        ]),
        (CraftingIngredient { item: ItemId::GLOW_STICK, quantity: 4 }, seq![
            CraftingIngredient { item: ItemId::DIRT_BLOCK, quantity: 1 },
            CraftingIngredient { item: ItemId::STONE_BLOCK, quantity: 1 },
        ]),
        (CraftingIngredient { item: ItemId::BOMB, quantity: 2 }, seq![
            CraftingIngredient { item: ItemId::STONE_BLOCK, quantity: 6 },
            CraftingIngredient { item: ItemId::HARDENED_COMPOSITE, quantity: 1 },
        ]),
        (CraftingIngredient { item: ItemId::HEALING_POTION, quantity: 1 }, seq![
            CraftingIngredient { item: ItemId::DIRT_BLOCK, quantity: 4 },
            CraftingIngredient { item: ItemId::HARDENED_COMPOSITE, quantity: 1 },
        ]),
        (CraftingIngredient { item: ItemId::CHEST, quantity: 1 }, seq![
            CraftingIngredient { item: ItemId::DIRT_BLOCK, quantity: 8 },
            CraftingIngredient { item: ItemId::STONE_BLOCK, quantity: 4 },
        ]),
        (CraftingIngredient { item: ItemId::CARGO_CONVEYOR, quantity: 4 }, seq![
            CraftingIngredient { item: ItemId::STONE_BLOCK, quantity: 2 },
        ]),
        (CraftingIngredient { item: ItemId::POWERED_CABLE, quantity: 4 }, seq![
            CraftingIngredient { item: ItemId::STONE_BLOCK, quantity: 2 },
            CraftingIngredient { item: ItemId::HARDENED_COMPOSITE, quantity: 1 },
        ]),
        (CraftingIngredient { item: ItemId::POWER_CONNECTOR, quantity: 1 }, seq![
            CraftingIngredient { item: ItemId::STONE_BLOCK, quantity: 3 },
            CraftingIngredient { item: ItemId::HARDENED_COMPOSITE, quantity: 1 },
        ]),
        (CraftingIngredient { item: ItemId::PICKAXE, quantity: 1 }, seq![
            CraftingIngredient { item: ItemId::STONE_BLOCK, quantity: 8 },
            CraftingIngredient { item: ItemId::HARDENED_COMPOSITE, quantity: 2 },
        ]),
        (CraftingIngredient { item: ItemId::PROCUREMENT_TERMINAL, quantity: 1 }, seq![
            CraftingIngredient { item: ItemId::STONE_BLOCK, quantity: 12 },
            CraftingIngredient { item: ItemId::HARDENED_COMPOSITE, quantity: 4 },
        ]),
        (CraftingIngredient { item: ItemId::TURRET_AMMO, quantity: 12 }, seq![
            CraftingIngredient { item: ItemId::STONE_BLOCK, quantity: 2 },
            CraftingIngredient { item: ItemId::HARDENED_COMPOSITE, quantity: 1 },
        ]),
        (CraftingIngredient { item: ItemId::SPIKES, quantity: 4 }, seq![
            CraftingIngredient { item: ItemId::STONE_BLOCK, quantity: 2 },
            CraftingIngredient { item: ItemId::HARDENED_COMPOSITE, quantity: 1 },
        ]),
    ]
}

pub open spec fn recipe_matches(recipe: CraftingRecipe, entry: (CraftingIngredient, Seq<CraftingIngredient>)) -> bool {
    recipe.output == entry.0 && recipe.ingredients@ == entry.1
}

fn recipe(output: ItemId, quantity: u16, ingredients: Vec<CraftingIngredient>) -> (recipe: CraftingRecipe)
    ensures
        recipe.output == (CraftingIngredient { item: output, quantity }),
        recipe.ingredients@ == ingredients@,
{
    CraftingRecipe { output: CraftingIngredient::new(output, quantity), ingredients }
}

/// Hand-crafted outputs deliberately exclude mined blocks, procured machines
/// and the assembler's processed material, which keeps those acquisition
/// paths meaningful.
#[allow(non_snake_case)]
pub fn CRAFTING_RECIPES() -> (recipes: Vec<CraftingRecipe>)
    ensures
        recipes@.len() == recipe_table().len(),
        forall|i: int| 0 <= i < recipes@.len() ==> recipe_matches(#[trigger] recipes@[i], recipe_table()[i]),
{
    let recipes = vec![
        recipe(ItemId::ROPE, 5, vec![CraftingIngredient::new(ItemId::DIRT_BLOCK, 2)]),
        recipe(ItemId::GLOW_STICK, 4, vec![
            CraftingIngredient::new(ItemId::DIRT_BLOCK, 1),
            CraftingIngredient::new(ItemId::STONE_BLOCK, 1),
        ]),
        recipe(ItemId::BOMB, 2, vec![
            CraftingIngredient::new(ItemId::STONE_BLOCK, 6),
            CraftingIngredient::new(ItemId::HARDENED_COMPOSITE, 1),
        ]),
        recipe(ItemId::HEALING_POTION, 1, vec![
            CraftingIngredient::new(ItemId::DIRT_BLOCK, 4),
            CraftingIngredient::new(ItemId::HARDENED_COMPOSITE, 1),
        ]),
        recipe(ItemId::CHEST, 1, vec![
            CraftingIngredient::new(ItemId::DIRT_BLOCK, 8),
            CraftingIngredient::new(ItemId::STONE_BLOCK, 4),
        ]),
        recipe(ItemId::CARGO_CONVEYOR, 4, vec![CraftingIngredient::new(ItemId::STONE_BLOCK, 2)]),
        recipe(ItemId::POWERED_CABLE, 4, vec![
            CraftingIngredient::new(ItemId::STONE_BLOCK, 2),
            CraftingIngredient::new(ItemId::HARDENED_COMPOSITE, 1),
        ]),
        recipe(ItemId::POWER_CONNECTOR, 1, vec![
            CraftingIngredient::new(ItemId::STONE_BLOCK, 3),
            CraftingIngredient::new(ItemId::HARDENED_COMPOSITE, 1),
        ]),
        recipe(ItemId::PICKAXE, 1, vec![
            CraftingIngredient::new(ItemId::STONE_BLOCK, 8),
            CraftingIngredient::new(ItemId::HARDENED_COMPOSITE, 2),
        ]),
        recipe(ItemId::PROCUREMENT_TERMINAL, 1, vec![
            CraftingIngredient::new(ItemId::STONE_BLOCK, 12),
            CraftingIngredient::new(ItemId::HARDENED_COMPOSITE, 4),
        ]),
        recipe(ItemId::TURRET_AMMO, 12, vec![
            CraftingIngredient::new(ItemId::STONE_BLOCK, 2),
            CraftingIngredient::new(ItemId::HARDENED_COMPOSITE, 1),
        ]),
        recipe(ItemId::SPIKES, 4, vec![
            CraftingIngredient::new(ItemId::STONE_BLOCK, 2),
            CraftingIngredient::new(ItemId::HARDENED_COMPOSITE, 1),
        ]),
    ];
    proof {
        assert forall|i: int| 0 <= i < recipes@.len() implies recipe_matches(#[trigger] recipes@[i], recipe_table()[i]) by {
            assert(recipes@[i].ingredients@ =~= recipe_table()[i].1);
        }
    }
    recipes
}

/// The index of the first table entry that makes `output`, if any.
pub open spec fn recipe_index(output: ItemId) -> Option<int> {
    if exists|i: int| 0 <= i < recipe_table().len() && #[trigger] recipe_table()[i].0.item == output {
        Some(choose|i: int| 0 <= i < recipe_table().len() && #[trigger] recipe_table()[i].0.item == output && forall|j: int| 0 <= j < i ==> #[trigger] recipe_table()[j].0.item != output)
    } else {
        None
    }
}

/// The first built-in recipe that makes `output`.
pub fn crafting_recipe(output: ItemId) -> (found: Option<CraftingRecipe>)
    ensures
        match found {
            Some(recipe) => exists|i: int|
                0 <= i < recipe_table().len() && recipe_matches(recipe, #[trigger] recipe_table()[i])
                    && recipe_table()[i].0.item == output && forall|j: int|
                    0 <= j < i ==> #[trigger] recipe_table()[j].0.item != output,
            None => forall|i: int| 0 <= i < recipe_table().len() ==> #[trigger] recipe_table()[i].0.item != output,
        },
{
    let mut recipes = CRAFTING_RECIPES();
    let mut index: usize = 0;
    while index < recipes.len()
        invariant
            recipes@.len() == recipe_table().len(),
            forall|i: int| 0 <= i < recipes@.len() ==> recipe_matches(#[trigger] recipes@[i], recipe_table()[i]),
            index <= recipes@.len(),
            forall|j: int| 0 <= j < index ==> #[trigger] recipe_table()[j].0.item != output,
        decreases recipes@.len() - index,
    {
        assert(recipe_matches(recipes@[index as int], recipe_table()[index as int]));
        if recipes[index].output.item == output {
            let found = recipes.swap_remove(index);
            return Some(found);
        }
        index = index + 1;
    }
    None
}

} // verus!
