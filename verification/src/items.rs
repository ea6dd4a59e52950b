use vstd::prelude::*;

verus! {

/// Identifier of an item kind.
#[allow(non_camel_case_types)]
#[derive(Clone, Copy, Debug, PartialEq, Eq, Hash, Structural)]
pub enum ItemId {
    DIRT_BLOCK,
    STONE_BLOCK,
    RED_LIGHT,
    PICKAXE,
    GLOW_STICK,
    BOMB,
    HEALING_POTION,
    CHEST,
    LASER_BORE,
    TURRET,
    HARDENED_COMPOSITE,
    ORBITAL_EXPORT_LAUNCHER,
    CARGO_CONVEYOR,
    SOLAR_ARRAY,
    PYLON,
    BATTERY,
    ROPE,
    POWERED_CABLE,
    CARGO_LIFT,
    LIFT_STATION,
    POWER_CONNECTOR,
    COMPOSITE_ASSEMBLER,
    RED_SHAFT_BORE,
    PROCUREMENT_TERMINAL,
    LASER_DRILL,
    AMMO_TURRET,
    DIRECTIONAL_SENTRY,
    TURRET_AMMO,
    SPIKES,
    DOOR,
    IRON_ORE,
    IRON_INGOT,
    SUBSURFACE_SURVEYOR,
    BED,
}

} // verus!

verus! {

/// What the item systems need to know about one item kind.
#[derive(Clone, Copy, Debug, PartialEq, Eq, Structural)]
pub struct ItemDefinition {
    pub id: ItemId,
    pub max_stack: u16,
    /// Money earned per unit shipped by an orbital export launcher.
    pub export_value: u64,
}

/// The first definition of `item` in a definition table.
pub open spec fn lookup(definitions: Seq<ItemDefinition>, item: ItemId) -> Option<ItemDefinition>
    decreases definitions.len(),
{
    if definitions.len() == 0 {
        None
    } else if definitions[0].id == item {
        Some(definitions[0])
    } else {
        lookup(definitions.drop_first(), item)
    }
}

/// The stack limit that a definition table gives `item`, if it knows it.
pub open spec fn max_stack_of(definitions: Seq<ItemDefinition>, item: ItemId) -> Option<u16> {
    match lookup(definitions, item) {
        Some(definition) => Some(definition.max_stack),
        None => None,
    }
}

/// The table of item definitions known to the game.
#[derive(Clone, Debug, PartialEq, Eq)]
pub struct ItemRegistry {
    definitions: Vec<ItemDefinition>,
}

impl View for ItemRegistry {
    type V = Seq<ItemDefinition>;

    closed spec fn view(&self) -> Seq<ItemDefinition> {
        self.definitions@
    }
}

proof fn lemma_lookup_skip(definitions: Seq<ItemDefinition>, i: int, item: ItemId)
    requires
        0 <= i < definitions.len(),
    ensures
        lookup(definitions.skip(i), item) == (if definitions[i].id == item {
            Some(definitions[i])
        } else {
            lookup(definitions.skip(i + 1), item)
        }),
{
    assert(definitions.skip(i)[0] == definitions[i]);
    assert(definitions.skip(i).drop_first() =~= definitions.skip(i + 1));
}

impl ItemRegistry {
    /// A registry over the given definitions, in lookup order.
    pub fn new(definitions: Vec<ItemDefinition>) -> (registry: Self)
        ensures
            registry@ == definitions@,
    {
        ItemRegistry { definitions }
    }

    /// The registry of every built-in item.
    pub fn with_built_ins() -> (registry: Self)
        ensures
            registry@ == built_in_definitions_spec(),
    {
        ItemRegistry { definitions: built_in_item_definitions() }
    }

    /// Looks up the definition of `item`.
    pub fn get(&self, item: ItemId) -> (definition: Option<&ItemDefinition>)
        ensures
            match definition {
                Some(d) => lookup(self@, item) == Some(*d),
                None => lookup(self@, item) is None,
            },
    {
        let mut index: usize = 0;
        assert(self.definitions@.skip(0) =~= self.definitions@);
        while index < self.definitions.len()
            invariant
                index <= self.definitions@.len(),
                lookup(self.definitions@, item) == lookup(self.definitions@.skip(index as int), item),
            decreases self.definitions@.len() - index,
        {
            proof {
                lemma_lookup_skip(self.definitions@, index as int, item);
            }
            if self.definitions[index].id == item {
                return Some(&self.definitions[index]);
            }
            index = index + 1;
        }
        assert(self.definitions@.skip(index as int).len() == 0);
        None
    }
}

/// The built-in item table: stack limits and export values for every item kind.
pub open spec fn built_in_definitions_spec() -> Seq<ItemDefinition> {
    seq![
        ItemDefinition { id: ItemId::DIRT_BLOCK, max_stack: 999, export_value: 1 },
        ItemDefinition { id: ItemId::STONE_BLOCK, max_stack: 999, export_value: 4 },
        ItemDefinition { id: ItemId::RED_LIGHT, max_stack: 99, export_value: 0 },
        ItemDefinition { id: ItemId::PICKAXE, max_stack: 1, export_value: 0 },
        ItemDefinition { id: ItemId::GLOW_STICK, max_stack: 99, export_value: 0 },
        ItemDefinition { id: ItemId::BOMB, max_stack: 99, export_value: 0 },
        ItemDefinition { id: ItemId::HEALING_POTION, max_stack: 30, export_value: 0 },
        ItemDefinition { id: ItemId::CHEST, max_stack: 99, export_value: 0 },
        ItemDefinition { id: ItemId::LASER_BORE, max_stack: 99, export_value: 0 },
        ItemDefinition { id: ItemId::TURRET, max_stack: 99, export_value: 0 },
        ItemDefinition { id: ItemId::HARDENED_COMPOSITE, max_stack: 999, export_value: 0 },
        ItemDefinition { id: ItemId::ORBITAL_EXPORT_LAUNCHER, max_stack: 99, export_value: 0 },
        ItemDefinition { id: ItemId::CARGO_CONVEYOR, max_stack: 999, export_value: 0 },
        ItemDefinition { id: ItemId::SOLAR_ARRAY, max_stack: 99, export_value: 0 },
        ItemDefinition { id: ItemId::PYLON, max_stack: 99, export_value: 0 },
        ItemDefinition { id: ItemId::BATTERY, max_stack: 99, export_value: 0 },
        ItemDefinition { id: ItemId::ROPE, max_stack: 999, export_value: 0 },
        ItemDefinition { id: ItemId::POWERED_CABLE, max_stack: 999, export_value: 0 },
        ItemDefinition { id: ItemId::CARGO_LIFT, max_stack: 99, export_value: 0 },
        ItemDefinition { id: ItemId::LIFT_STATION, max_stack: 99, export_value: 0 },
        ItemDefinition { id: ItemId::POWER_CONNECTOR, max_stack: 99, export_value: 0 },
        ItemDefinition { id: ItemId::COMPOSITE_ASSEMBLER, max_stack: 99, export_value: 0 },
        ItemDefinition { id: ItemId::RED_SHAFT_BORE, max_stack: 99, export_value: 0 },
        ItemDefinition { id: ItemId::PROCUREMENT_TERMINAL, max_stack: 99, export_value: 0 },
        ItemDefinition { id: ItemId::LASER_DRILL, max_stack: 99, export_value: 0 },
        ItemDefinition { id: ItemId::AMMO_TURRET, max_stack: 99, export_value: 0 },
        ItemDefinition { id: ItemId::DIRECTIONAL_SENTRY, max_stack: 99, export_value: 0 },
        ItemDefinition { id: ItemId::TURRET_AMMO, max_stack: 999, export_value: 0 },
        ItemDefinition { id: ItemId::SPIKES, max_stack: 99, export_value: 0 },
        ItemDefinition { id: ItemId::DOOR, max_stack: 99, export_value: 0 },
        ItemDefinition { id: ItemId::IRON_ORE, max_stack: 999, export_value: 0 },
        ItemDefinition { id: ItemId::IRON_INGOT, max_stack: 999, export_value: 0 },
        ItemDefinition { id: ItemId::SUBSURFACE_SURVEYOR, max_stack: 99, export_value: 0 },
        ItemDefinition { id: ItemId::BED, max_stack: 99, export_value: 0 },
    ]
}

/// Every built-in item definition, in registry order.
pub fn built_in_item_definitions() -> (definitions: Vec<ItemDefinition>)
    ensures
        definitions@ == built_in_definitions_spec(),
{
    let definitions = vec![
        ItemDefinition { id: ItemId::DIRT_BLOCK, max_stack: 999, export_value: 1 },
        ItemDefinition { id: ItemId::STONE_BLOCK, max_stack: 999, export_value: 4 },
        ItemDefinition { id: ItemId::RED_LIGHT, max_stack: 99, export_value: 0 },
        ItemDefinition { id: ItemId::PICKAXE, max_stack: 1, export_value: 0 },
        ItemDefinition { id: ItemId::GLOW_STICK, max_stack: 99, export_value: 0 },
        ItemDefinition { id: ItemId::BOMB, max_stack: 99, export_value: 0 },
        ItemDefinition { id: ItemId::HEALING_POTION, max_stack: 30, export_value: 0 },
        ItemDefinition { id: ItemId::CHEST, max_stack: 99, export_value: 0 },
        ItemDefinition { id: ItemId::LASER_BORE, max_stack: 99, export_value: 0 },
        ItemDefinition { id: ItemId::TURRET, max_stack: 99, export_value: 0 },
        ItemDefinition { id: ItemId::HARDENED_COMPOSITE, max_stack: 999, export_value: 0 },
        ItemDefinition { id: ItemId::ORBITAL_EXPORT_LAUNCHER, max_stack: 99, export_value: 0 },
        ItemDefinition { id: ItemId::CARGO_CONVEYOR, max_stack: 999, export_value: 0 },
        ItemDefinition { id: ItemId::SOLAR_ARRAY, max_stack: 99, export_value: 0 },
        ItemDefinition { id: ItemId::PYLON, max_stack: 99, export_value: 0 },
        ItemDefinition { id: ItemId::BATTERY, max_stack: 99, export_value: 0 },
        ItemDefinition { id: ItemId::ROPE, max_stack: 999, export_value: 0 },
        ItemDefinition { id: ItemId::POWERED_CABLE, max_stack: 999, export_value: 0 },
        ItemDefinition { id: ItemId::CARGO_LIFT, max_stack: 99, export_value: 0 },
        ItemDefinition { id: ItemId::LIFT_STATION, max_stack: 99, export_value: 0 },
        ItemDefinition { id: ItemId::POWER_CONNECTOR, max_stack: 99, export_value: 0 },
        ItemDefinition { id: ItemId::COMPOSITE_ASSEMBLER, max_stack: 99, export_value: 0 },
        ItemDefinition { id: ItemId::RED_SHAFT_BORE, max_stack: 99, export_value: 0 },
        ItemDefinition { id: ItemId::PROCUREMENT_TERMINAL, max_stack: 99, export_value: 0 },
        ItemDefinition { id: ItemId::LASER_DRILL, max_stack: 99, export_value: 0 },
        ItemDefinition { id: ItemId::AMMO_TURRET, max_stack: 99, export_value: 0 },
        ItemDefinition { id: ItemId::DIRECTIONAL_SENTRY, max_stack: 99, export_value: 0 },
        ItemDefinition { id: ItemId::TURRET_AMMO, max_stack: 999, export_value: 0 },
        ItemDefinition { id: ItemId::SPIKES, max_stack: 99, export_value: 0 },
        ItemDefinition { id: ItemId::DOOR, max_stack: 99, export_value: 0 },
        ItemDefinition { id: ItemId::IRON_ORE, max_stack: 999, export_value: 0 },
        ItemDefinition { id: ItemId::IRON_INGOT, max_stack: 999, export_value: 0 },
        ItemDefinition { id: ItemId::SUBSURFACE_SURVEYOR, max_stack: 99, export_value: 0 },
        ItemDefinition { id: ItemId::BED, max_stack: 99, export_value: 0 },
    ];
    assert(definitions@ =~= built_in_definitions_spec());
    definitions
}

} // verus!

verus! {

/// A non-empty pile of one item kind.
#[derive(Clone, Copy, Debug, PartialEq, Eq, Structural)]
pub struct ItemStack {
    item: ItemId,
    quantity: u16,
}

/// The stack that `quantity` items of `item` form: none when the quantity is zero.
pub closed spec fn stack_of(item: ItemId, quantity: u16) -> Option<ItemStack> {
    if quantity > 0 {
        Some(ItemStack { item, quantity })
    } else {
        None
    }
}

pub broadcast proof fn lemma_stack_of(item: ItemId, quantity: u16)
    ensures
        (#[trigger] stack_of(item, quantity) is Some) == (quantity > 0),
        quantity > 0 ==> stack_of(item, quantity)->0.spec_item() == item
            && stack_of(item, quantity)->0.spec_quantity() == quantity,
{
}

pub broadcast proof fn lemma_stack_identity(stack: ItemStack)
    ensures
        stack.spec_quantity() > 0 ==> #[trigger] stack_of(stack.spec_item(), stack.spec_quantity())
            == Some(stack),
{
}

pub broadcast group group_item_stack {
    lemma_stack_of,
    lemma_stack_identity,
}

impl ItemStack {
    pub closed spec fn spec_item(self) -> ItemId {
        self.item
    }

    pub closed spec fn spec_quantity(self) -> u16 {
        self.quantity
    }

    /// A stack of `quantity` items, or none for a zero quantity.
    pub fn new(item: ItemId, quantity: u16) -> (stack: Option<Self>)
        ensures
            stack == stack_of(item, quantity),
    {
        if quantity > 0 {
            Some(ItemStack { item, quantity })
        } else {
            None
        }
    }

    #[verifier::when_used_as_spec(spec_item)]
    pub fn item(self) -> (item: ItemId)
        ensures
            item == self.spec_item(),
    {
        self.item
    }

    #[verifier::when_used_as_spec(spec_quantity)]
    pub fn quantity(self) -> (quantity: u16)
        ensures
            quantity == self.spec_quantity(),
    {
        self.quantity
    }
}


} // verus!
