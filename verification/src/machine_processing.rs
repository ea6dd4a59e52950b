use vstd::prelude::*;
use crate::inventory::{
    ItemContainer, add_to_slots, capacity_for, fits, lemma_capacity_bound, slots_wf, stack_wf,
};
use crate::items::{ItemId, ItemRegistry, ItemStack, group_item_stack, max_stack_of, stack_of};
use crate::terrain::{FurnitureObject, ObjectId};
use crate::world::{World, index_of, lemma_of_type_member, of_type, store_wf};

verus! {

broadcast use group_item_stack;

/// How long one assembly takes at full speed, in nanoseconds.
pub const COMPOSITE_ASSEMBLY_INTERVAL_NANOS: u64 = 1_000_000_000;
/// Most crafts one machine completes in a single update.
pub const MAX_CATCH_UP_CRAFTS: usize = 8;
/// The store slot that receives a recipe's product.
pub const OUTPUT_SLOT: usize = 2;

/// Two inputs (a zero quantity means unused), one product and the time it
/// takes.
#[derive(Clone, Copy, Debug, PartialEq, Eq)]
pub struct ProcessingRecipe {
    pub inputs: [(ItemId, u16); 2],
    pub output: (ItemId, u16),
    pub duration_nanos: u64,
}

pub open spec fn composite_recipe() -> ProcessingRecipe {
    ProcessingRecipe {
        inputs: [(ItemId::DIRT_BLOCK, 1u16), (ItemId::STONE_BLOCK, 1u16)],
        output: (ItemId::HARDENED_COMPOSITE, 1u16),
        duration_nanos: COMPOSITE_ASSEMBLY_INTERVAL_NANOS,
    }
}

pub open spec fn iron_recipe() -> ProcessingRecipe {
    ProcessingRecipe {
        inputs: [(ItemId::IRON_ORE, 1u16), (ItemId::IRON_ORE, 0u16)],
        output: (ItemId::IRON_INGOT, 1u16),
        duration_nanos: COMPOSITE_ASSEMBLY_INTERVAL_NANOS,
    }
}

/// Dirt and stone pressed into hardened composite.
#[allow(non_snake_case)]
#[verifier::when_used_as_spec(composite_recipe)]
pub fn COMPOSITE_RECIPE() -> (recipe: ProcessingRecipe)
    ensures
        recipe == composite_recipe(),
        recipe.inputs[0] == (ItemId::DIRT_BLOCK, 1u16),
        recipe.inputs[1] == (ItemId::STONE_BLOCK, 1u16),
        recipe.output == (ItemId::HARDENED_COMPOSITE, 1u16),
        recipe.duration_nanos == COMPOSITE_ASSEMBLY_INTERVAL_NANOS,
{
    ProcessingRecipe {
        inputs: [(ItemId::DIRT_BLOCK, 1), (ItemId::STONE_BLOCK, 1)],
        output: (ItemId::HARDENED_COMPOSITE, 1),
        duration_nanos: COMPOSITE_ASSEMBLY_INTERVAL_NANOS,
    }
}

/// Iron ore smelted into an ingot; the second input is unused.
#[allow(non_snake_case)]
#[verifier::when_used_as_spec(iron_recipe)]
pub fn IRON_RECIPE() -> (recipe: ProcessingRecipe)
    ensures
        recipe == iron_recipe(),
        recipe.inputs[0] == (ItemId::IRON_ORE, 1u16),
        recipe.inputs[1] == (ItemId::IRON_ORE, 0u16),
        recipe.output == (ItemId::IRON_INGOT, 1u16),
        recipe.duration_nanos == COMPOSITE_ASSEMBLY_INTERVAL_NANOS,
{
    ProcessingRecipe {
        inputs: [(ItemId::IRON_ORE, 1), (ItemId::IRON_ORE, 0)],
        output: (ItemId::IRON_INGOT, 1),
        duration_nanos: COMPOSITE_ASSEMBLY_INTERVAL_NANOS,
    }
}

/// The stack in a slot, or none past the end.
pub open spec fn slot_at(slots: Seq<Option<ItemStack>>, index: int) -> Option<ItemStack> {
    if 0 <= index < slots.len() {
        slots[index]
    } else {
        None
    }
}

/// An input is met when unused or when its slot holds enough of its item.
pub open spec fn input_ready(slots: Seq<Option<ItemStack>>, index: int, input: (ItemId, u16)) -> bool {
    input.1 == 0 || (slot_at(slots, index) matches Some(stack) && stack.spec_item() == input.0
        && stack.spec_quantity() >= input.1)
}

/// Whether a store can run a recipe: both inputs are met and the product
/// fits in the output slot under its stack limit.
pub open spec fn can_process_spec(
    slots: Seq<Option<ItemStack>>,
    definitions: Seq<crate::items::ItemDefinition>,
    recipe: ProcessingRecipe,
) -> bool {
    &&& input_ready(slots, 0, recipe.inputs[0])
    &&& input_ready(slots, 1, recipe.inputs[1])
    &&& match max_stack_of(definitions, recipe.output.0) {
        Some(maximum) => match slot_at(slots, OUTPUT_SLOT as int) {
            Some(stack) => stack.spec_item() == recipe.output.0 && stack.spec_quantity() + recipe.output.1
                <= maximum,
            None => recipe.output.1 <= maximum,
        },
        None => false,
    }
}

/// Replaces a slot when it exists.
pub open spec fn put_slot(slots: Seq<Option<ItemStack>>, index: int, stack: Option<ItemStack>) -> Seq<
    Option<ItemStack>,
> {
    if 0 <= index < slots.len() {
        slots.update(index, stack)
    } else {
        slots
    }
}

/// The store after one input is taken.
pub open spec fn consume_input(slots: Seq<Option<ItemStack>>, index: int, input: (ItemId, u16)) -> Seq<
    Option<ItemStack>,
> {
    if input.1 == 0 {
        slots
    } else {
        let stack = slot_at(slots, index)->0;
        put_slot(slots, index, stack_of(stack.spec_item(), (stack.spec_quantity() - input.1) as u16))
    }
}

/// The store after one run of a recipe: inputs taken, product added.
pub open spec fn processed_spec(slots: Seq<Option<ItemStack>>, recipe: ProcessingRecipe) -> Seq<
    Option<ItemStack>,
> {
    let taken = consume_input(consume_input(slots, 0, recipe.inputs[0]), 1, recipe.inputs[1]);
    let quantity = match slot_at(slots, OUTPUT_SLOT as int) {
        Some(stack) => stack.spec_quantity() + recipe.output.1,
        None => recipe.output.1 as int,
    };
    put_slot(taken, OUTPUT_SLOT as int, stack_of(recipe.output.0, quantity as u16))
}

/// Whether a store can run a recipe.
pub fn can_process_store(container: &ItemContainer, registry: &ItemRegistry, recipe: ProcessingRecipe) -> (ready: bool)
    ensures
        ready == can_process_spec(container@, registry@, recipe),
{
    let mut input: usize = 0;
    while input < 2
        invariant
            input <= 2,
            forall|k: int| 0 <= k < input ==> #[trigger] input_ready(container@, k, recipe.inputs[k]),
        decreases 2 - input,
    {
        let (item, quantity) = recipe.inputs[input];
        if quantity != 0 {
            let ready = match container.slot(input) {
                Some(stack) => stack.item() == item && stack.quantity() >= quantity,
                None => false,
            };
            if !ready {
                assert(!input_ready(container@, input as int, recipe.inputs[input as int]));
                return false;
            }
        }
        input = input + 1;
    }
    assert(input_ready(container@, 0, recipe.inputs[0]));
    assert(input_ready(container@, 1, recipe.inputs[1]));
    let (output, quantity) = recipe.output;
    let maximum = match registry.get(output) {
        Some(definition) => definition.max_stack,
        None => return false,
    };
    match container.slot(OUTPUT_SLOT) {
        Some(stack) => stack.item() == output && (stack.quantity() as u32) + (quantity as u32) <= maximum as u32,
        None => quantity <= maximum,
    }
}

/// Runs a recipe once on a store when it can; the store is unchanged when
/// it cannot.
pub fn process_store_once(container: &mut ItemContainer, registry: &ItemRegistry, recipe: ProcessingRecipe) -> (ran: bool)
    requires
        old(container).wf(),
    ensures
        final(container).wf(),
        ran == can_process_spec(old(container)@, registry@, recipe),
        ran ==> final(container)@ == processed_spec(old(container)@, recipe),
        !ran ==> final(container)@ == old(container)@,
{
    if !can_process_store(container, registry, recipe) {
        return false;
    }
    let ghost original = container@;
    let mut input: usize = 0;
    while input < 2
        invariant
            input <= 2,
            container.wf(),
            can_process_spec(original, registry@, recipe),
            container@.len() == original.len(),
            slot_at(container@, OUTPUT_SLOT as int) == slot_at(original, OUTPUT_SLOT as int),
            input == 0 ==> container@ == original,
            input == 1 ==> container@ == consume_input(original, 0, recipe.inputs[0]),
            input == 2 ==> container@ == consume_input(consume_input(original, 0, recipe.inputs[0]), 1, recipe.inputs[1]),
            input <= 1 ==> slot_at(container@, 1) == slot_at(original, 1),
        decreases 2 - input,
    {
        let (_, quantity) = recipe.inputs[input];
        if quantity != 0 {
            let stack = container.slot(input).unwrap();
            container.set_slot(input, ItemStack::new(stack.item(), stack.quantity() - quantity));
        }
        input = input + 1;
    }
    let (output, quantity) = recipe.output;
    let output_quantity = match container.slot(OUTPUT_SLOT) {
        Some(stack) => stack.quantity() + quantity,
        None => quantity,
    };
    container.set_slot(OUTPUT_SLOT, ItemStack::new(output, output_quantity));
    true
}

/// The input slot an item feeds in a processor, if any.
pub open spec fn input_slot_spec(item: ItemId) -> Option<usize> {
    if item == ItemId::DIRT_BLOCK || item == ItemId::IRON_ORE {
        Some(0)
    } else if item == ItemId::STONE_BLOCK {
        Some(1)
    } else {
        None
    }
}

pub fn processor_input_slot(item: ItemId) -> (slot: Option<usize>)
    ensures
        slot == input_slot_spec(item),
{
    match item {
        ItemId::DIRT_BLOCK | ItemId::IRON_ORE => Some(0),
        ItemId::STONE_BLOCK => Some(1),
        _ => None,
    }
}

/// Whether a manually inserted item belongs in the selected processor
/// input; the output slot never accepts one.
pub fn processor_accepts_manual_input(slot: usize, item: ItemId) -> (accepts: bool)
    ensures
        accepts == (input_slot_spec(item) == Some(slot)),
{
    match processor_input_slot(item) {
        Some(input) => input == slot,
        None => false,
    }
}

/// `duration` scaled by a speed percentage (at least one percent), capped at
/// the largest `u64`.
pub open spec fn scaled_spec(duration: u64, percent: u16) -> u64 {
    let factor: int = if percent == 0 { 1 } else { percent as int };
    let scaled = duration * factor / 100;
    if scaled > u64::MAX {
        u64::MAX
    } else {
        scaled as u64
    }
}

pub fn scale_duration(duration_nanos: u64, percent: u16) -> (scaled: u64)
    ensures
        scaled == scaled_spec(duration_nanos, percent),
{
    let factor: u128 = if percent == 0 { 1 } else { percent as u128 };
    assert(duration_nanos as u128 * factor <= u64::MAX as u128 * 65535) by (nonlinear_arith)
        requires
            factor <= 65535,
    ;
    let nanos: u128 = duration_nanos as u128 * factor / 100;
    if nanos > u64::MAX as u128 {
        u64::MAX
    } else {
        nanos as u64
    }
}

/// Whether a machine's store can run a recipe.
pub fn can_process(world: &World, registry: &ItemRegistry, machine: ObjectId, recipe: ProcessingRecipe) -> (ready: bool)
    requires
        world.wf(),
    ensures
        ready == (world.container_spec(machine) matches Some(slots) && can_process_spec(slots, registry@, recipe)),
{
    match world.container(machine) {
        Some(container) => can_process_store(container, registry, recipe),
        None => false,
    }
}

/// The first of the iron and composite recipes that a machine can run.
pub fn available_recipe(world: &World, registry: &ItemRegistry, machine: ObjectId) -> (recipe: Option<ProcessingRecipe>)
    requires
        world.wf(),
    ensures
        recipe == (match world.container_spec(machine) {
            Some(slots) => if can_process_spec(slots, registry@, IRON_RECIPE()) {
                Some(IRON_RECIPE())
            } else if can_process_spec(slots, registry@, COMPOSITE_RECIPE()) {
                Some(COMPOSITE_RECIPE())
            } else {
                None
            },
            None => None,
        }),
{
    let iron = IRON_RECIPE();
    if can_process(world, registry, machine, iron) {
        return Some(iron);
    }
    let composite = COMPOSITE_RECIPE();
    if can_process(world, registry, machine, composite) {
        return Some(composite);
    }
    None
}

/// Runs a recipe once in a machine when it can; the world is unchanged when
/// it cannot.
pub fn process_once(world: &mut World, registry: &ItemRegistry, machine: ObjectId, recipe: ProcessingRecipe) -> (ran: bool)
    requires
        old(world).wf(),
    ensures
        final(world).wf(),
        ran == (old(world).container_spec(machine) matches Some(slots) && can_process_spec(slots, registry@, recipe)),
        ran ==> final(world).spec_containers() == old(world).spec_containers().update(
            index_of(old(world).spec_objects(), machine)->0,
            Some(processed_spec(old(world).container_spec(machine)->0, recipe)),
        ),
        !ran ==> final(world).spec_containers() == old(world).spec_containers(),
        final(world).spec_objects() == old(world).spec_objects(),
        final(world).spec_width() == old(world).spec_width(),
        final(world).spec_height() == old(world).spec_height(),
        final(world).spec_foreground() == old(world).spec_foreground(),
        final(world).spec_charges() == old(world).spec_charges(),
        final(world).spec_specialists() == old(world).spec_specialists(),
        final(world).spec_background() == old(world).spec_background(),
        final(world).spec_seed() == old(world).spec_seed(),
        final(world).spec_next_object() == old(world).spec_next_object(),
        final(world).item_transport_revision_spec() == old(world).item_transport_revision_spec(),
{
    if !can_process(world, registry, machine, recipe) {
        return false;
    }
    let index = world.index_of_object(machine).unwrap();
    proof {
        world.lemma_wf();
    }
    let ghost before = *world;
    let mut container = world.take_container(index).unwrap();
    let ghost original = container@;
    process_store_once(&mut container, registry, recipe);
    proof {
        assert(container@.len() == original.len());
    }
    world.put_container(index, Some(container));
    proof {
        assert(world.spec_containers() =~= before.spec_containers().update(index as int, Some(container@)));
    }
    true
}

/// The processor's slots as an item feeder sees them: none when it has no
/// store.
pub open spec fn slots_or_empty(slots: Option<Seq<Option<ItemStack>>>) -> Seq<Option<ItemStack>> {
    match slots {
        Some(s) => s,
        None => Seq::empty(),
    }
}

/// Whether a source slot can feed one item into a processor input: the item
/// has an input slot and a stack limit, and that input is empty or holds
/// the same item below its limit.
pub open spec fn feeds(
    slot: Option<ItemStack>,
    processor: Seq<Option<ItemStack>>,
    definitions: Seq<crate::items::ItemDefinition>,
) -> bool {
    &&& slot is Some
    &&& input_slot_spec(slot->0.spec_item()) is Some
    &&& max_stack_of(definitions, slot->0.spec_item()) is Some
    &&& !(slot_at(processor, input_slot_spec(slot->0.spec_item())->0 as int) matches Some(existing) && (
    existing.spec_item() != slot->0.spec_item() || existing.spec_quantity() >= max_stack_of(
        definitions,
        slot->0.spec_item(),
    )->0))
}

/// The processor after receiving one item of a kind in its input slot.
pub open spec fn fed_spec(processor: Seq<Option<ItemStack>>, item: ItemId) -> Seq<Option<ItemStack>> {
    let input = input_slot_spec(item)->0 as int;
    let quantity = match slot_at(processor, input) {
        Some(existing) => existing.spec_quantity() + 1,
        None => 1int,
    };
    put_slot(processor, input, stack_of(item, quantity as u16))
}

/// Whether feeding would need a store that the processor lacks.
pub open spec fn feed_needs_store(world: World, source: ObjectId, processor: ObjectId, definitions: Seq<
    crate::items::ItemDefinition,
>) -> bool {
    &&& source != processor
    &&& world.container_spec(source) is Some
    &&& exists|i: int|
        0 <= i < world.container_spec(source)->0.len() && #[trigger] feeds(
            world.container_spec(source)->0[i],
            Seq::empty(),
            definitions,
        )
}

/// Whether some source slot can feed the processor.
pub open spec fn can_feed(world: World, source: ObjectId, processor: ObjectId, definitions: Seq<
    crate::items::ItemDefinition,
>) -> bool {
    &&& source != processor
    &&& world.container_spec(source) is Some
    &&& exists|i: int|
        0 <= i < world.container_spec(source)->0.len() && #[trigger] feeds(
            world.container_spec(source)->0[i],
            slots_or_empty(world.container_spec(processor)),
            definitions,
        )
}

/// Whether source slot `i` is the first that can feed the processor.
pub open spec fn first_feeding_slot(world: World, source: ObjectId, processor: ObjectId, definitions: Seq<
    crate::items::ItemDefinition,
>, i: int) -> bool {
    let slots = world.container_spec(source)->0;
    let target = slots_or_empty(world.container_spec(processor));
    &&& 0 <= i < slots.len()
    &&& feeds(slots[i], target, definitions)
    &&& forall|j: int| 0 <= j < i ==> !#[trigger] feeds(slots[j], target, definitions)
}

/// The stores after source slot `i` feeds one item into the processor.
pub open spec fn feed_result(world: World, source: ObjectId, processor: ObjectId, i: int) -> Seq<
    Option<Seq<Option<ItemStack>>>,
> {
    let slots = world.container_spec(source)->0;
    let stack = slots[i]->0;
    world.spec_containers().update(
        index_of(world.spec_objects(), processor)->0,
        Some(fed_spec(world.container_spec(processor)->0, stack.spec_item())),
    ).update(
        index_of(world.spec_objects(), source)->0,
        Some(slots.update(i, stack_of(stack.spec_item(), (stack.spec_quantity() - 1) as u16))),
    )
}

/// Moves one item from the first source slot that can feed the processor
/// into the matching processor input.
pub fn transfer_one_to_processor(
    world: &mut World,
    source: ObjectId,
    processor: ObjectId,
    registry: &ItemRegistry,
) -> (moved: bool)
    requires
        old(world).wf(),
        feed_needs_store(*old(world), source, processor, registry@) ==> old(world).container_spec(processor) is Some,
    ensures
        final(world).wf(),
        moved == can_feed(*old(world), source, processor, registry@),
        !moved ==> final(world).spec_containers() == old(world).spec_containers(),
        moved ==> exists|i: int|
            #[trigger] first_feeding_slot(*old(world), source, processor, registry@, i)
                && final(world).spec_containers() == feed_result(*old(world), source, processor, i),
        final(world).spec_objects() == old(world).spec_objects(),
        final(world).spec_width() == old(world).spec_width(),
        final(world).spec_height() == old(world).spec_height(),
        final(world).spec_foreground() == old(world).spec_foreground(),
        final(world).spec_charges() == old(world).spec_charges(),
        final(world).spec_specialists() == old(world).spec_specialists(),
        final(world).spec_background() == old(world).spec_background(),
        final(world).spec_seed() == old(world).spec_seed(),
        final(world).spec_next_object() == old(world).spec_next_object(),
        final(world).item_transport_revision_spec() == old(world).item_transport_revision_spec(),
{
    if source == processor {
        return false;
    }
    let source_index = match world.index_of_object(source) {
        Some(i) => i,
        None => return false,
    };
    let slot_count = match world.container(source) {
        Some(container) => container.slots().len(),
        None => return false,
    };
    let ghost slots = world.container_spec(source)->0;
    let ghost target = slots_or_empty(world.container_spec(processor));
    let mut slot: usize = 0;
    while slot < slot_count
        invariant
            *world == *old(world),
            world.wf(),
            source != processor,
            world.container_spec(source) == Some(slots),
            target == slots_or_empty(world.container_spec(processor)),
            slot_count == slots.len(),
            slot <= slot_count,
            index_of(world.spec_objects(), source) == Some(source_index as int),
            source_index < world.spec_objects().len(),
            feed_needs_store(*old(world), source, processor, registry@) ==> old(world).container_spec(processor) is Some,
            forall|j: int| 0 <= j < slot ==> !#[trigger] feeds(slots[j], target, registry@),
        decreases slot_count - slot,
    {
        let stack = match world.container(source) {
            Some(container) => container.slot(slot),
            None => None,
        };
        if let Some(stack) = stack {
            if let Some(input_slot) = processor_input_slot(stack.item()) {
                if let Some(definition) = registry.get(stack.item()) {
                    let maximum = definition.max_stack;
                    let existing = match world.container(processor) {
                        Some(container) => container.slot(input_slot),
                        None => None,
                    };
                    let blocked = match existing {
                        Some(input) => input.item() != stack.item() || input.quantity() >= maximum,
                        None => false,
                    };
                    if !blocked {
                        proof {
                            assert(feeds(slots[slot as int], target, registry@));
                            if world.container_spec(processor) is None {
                                assert(old(world).container_spec(source)->0 == slots);
                                assert(feeds(old(world).container_spec(source)->0[slot as int], Seq::empty(), registry@));
                                assert(feed_needs_store(*old(world), source, processor, registry@));
                            }
                        }
                        let input_quantity = match existing {
                            Some(input) => input.quantity() + 1,
                            None => 1,
                        };
                        let processor_index = world.index_of_object(processor).unwrap();
                        proof {
                            world.lemma_wf();
                            assert(processor_index != source_index);
                        }
                        let ghost before = *world;
                        let mut target_store = world.take_container(processor_index).unwrap();
                        target_store.set_slot(input_slot, ItemStack::new(stack.item(), input_quantity));
                        proof {
                            assert(target_store@ == fed_spec(target, stack.item()));
                        }
                        world.put_container(processor_index, Some(target_store));
                        assert(world.spec_containers()[source_index as int] == before.spec_containers()[source_index as int]);
                        let mut source_store = world.take_container(source_index).unwrap();
                        proof {
                            assert(stack_wf(slots[slot as int]));
                        }
                        source_store.set_slot(slot, ItemStack::new(stack.item(), stack.quantity() - 1));
                        world.put_container(source_index, Some(source_store));
                        proof {
                            assert(first_feeding_slot(*old(world), source, processor, registry@, slot as int));
                            assert(world.spec_containers() =~= feed_result(*old(world), source, processor, slot as int));
                        }
                        return true;
                    }
                }
            }
        }
        assert(!feeds(slots[slot as int], target, registry@));
        slot = slot + 1;
    }
    false
}

/// Whether an assembler's output slot can give one product to a destination:
/// the product is no processor input, has a stack limit and fits.
pub open spec fn output_ready(world: World, processor: ObjectId, destination: ObjectId, definitions: Seq<
    crate::items::ItemDefinition,
>) -> bool {
    &&& processor != destination
    &&& world.object_spec(processor) is Some
    &&& world.object_spec(processor)->0.object_type == FurnitureObject::COMPOSITE_ASSEMBLER
    &&& world.container_spec(processor) is Some
    &&& slot_at(world.container_spec(processor)->0, OUTPUT_SLOT as int) is Some
    &&& input_slot_spec(slot_at(world.container_spec(processor)->0, OUTPUT_SLOT as int)->0.spec_item()) is None
    &&& max_stack_of(definitions, slot_at(world.container_spec(processor)->0, OUTPUT_SLOT as int)->0.spec_item()) is Some
    &&& world.container_spec(destination) is Some
    &&& fits(
        world.container_spec(destination)->0,
        slot_at(world.container_spec(processor)->0, OUTPUT_SLOT as int)->0.spec_item(),
        1,
        max_stack_of(definitions, slot_at(world.container_spec(processor)->0, OUTPUT_SLOT as int)->0.spec_item())->0,
    )
}

/// Moves one product from an assembler's output slot into a destination
/// store. Items that an input accepts never leave a processor this way.
pub fn transfer_one_from_processor(
    world: &mut World,
    processor: ObjectId,
    destination: ObjectId,
    registry: &ItemRegistry,
) -> (moved: bool)
    requires
        old(world).wf(),
    ensures
        final(world).wf(),
        moved == output_ready(*old(world), processor, destination, registry@),
        !moved ==> final(world).spec_containers() == old(world).spec_containers(),
        moved ==> {
            let slots = old(world).container_spec(processor)->0;
            let target = old(world).container_spec(destination)->0;
            let stack = slots[OUTPUT_SLOT as int]->0;
            let maximum = max_stack_of(registry@, stack.spec_item())->0;
            final(world).spec_containers() == old(world).spec_containers().update(
                index_of(old(world).spec_objects(), destination)->0,
                Some(add_to_slots(target, stack.spec_item(), 1, maximum).0),
            ).update(
                index_of(old(world).spec_objects(), processor)->0,
                Some(slots.update(OUTPUT_SLOT as int, stack_of(stack.spec_item(), (stack.spec_quantity() - 1) as u16))),
            )
        },
        final(world).spec_objects() == old(world).spec_objects(),
        final(world).spec_width() == old(world).spec_width(),
        final(world).spec_height() == old(world).spec_height(),
        final(world).spec_foreground() == old(world).spec_foreground(),
        final(world).spec_charges() == old(world).spec_charges(),
        final(world).spec_specialists() == old(world).spec_specialists(),
        final(world).spec_background() == old(world).spec_background(),
        final(world).spec_seed() == old(world).spec_seed(),
        final(world).spec_next_object() == old(world).spec_next_object(),
        final(world).item_transport_revision_spec() == old(world).item_transport_revision_spec(),
{
    if processor == destination {
        return false;
    }
    match world.object(processor) {
        Some(object) => {
            if object.object_type != FurnitureObject::COMPOSITE_ASSEMBLER {
                return false;
            }
        },
        None => return false,
    }
    let stack = match world.container(processor) {
        Some(container) => match container.slot(OUTPUT_SLOT) {
            Some(stack) => stack,
            None => return false,
        },
        None => return false,
    };
    if processor_input_slot(stack.item()).is_some() {
        return false;
    }
    let maximum = match registry.get(stack.item()) {
        Some(definition) => definition.max_stack,
        None => return false,
    };
    let fits_one = match world.container(destination) {
        Some(container) => {
            proof {
                lemma_capacity_bound(container@, stack.item(), maximum);
                assert(container@.len() * maximum <= 4096 * 65535) by (nonlinear_arith)
                    requires
                        container@.len() <= 4096,
                        maximum <= 65535,
                ;
            }
            container.can_add(stack.item(), 1, maximum)
        },
        None => false,
    };
    if !fits_one {
        return false;
    }
    let destination_index = world.index_of_object(destination).unwrap();
    let processor_index = world.index_of_object(processor).unwrap();
    proof {
        world.lemma_wf();
        assert(processor_index != destination_index);
    }
    let ghost before = *world;
    let mut target = world.take_container(destination_index).unwrap();
    proof {
        lemma_capacity_bound(target@, stack.item(), maximum);
        assert(target@.len() * maximum <= 4096 * 65535) by (nonlinear_arith)
            requires
                target@.len() <= 4096,
                maximum <= 65535,
        ;
    }
    target.try_add(stack.item(), 1, maximum);
    world.put_container(destination_index, Some(target));
    assert(world.spec_containers()[processor_index as int] == before.spec_containers()[processor_index as int]);
    let mut store = world.take_container(processor_index).unwrap();
    proof {
        assert(stack_wf(store@[OUTPUT_SLOT as int]));
    }
    store.set_slot(OUTPUT_SLOT, ItemStack::new(stack.item(), stack.quantity() - 1));
    world.put_container(processor_index, Some(store));
    proof {
        assert(world.spec_containers() =~= before.spec_containers().update(
            destination_index as int,
            Some(add_to_slots(before.container_spec(destination)->0, stack.item(), 1, maximum).0),
        ).update(
            processor_index as int,
            Some(before.container_spec(processor)->0.update(OUTPUT_SLOT as int, stack_of(stack.item(), (stack.quantity() - 1) as u16))),
        ));
    }
    true
}

/// The store after `count` runs of a recipe.
pub open spec fn repeat_processed(slots: Seq<Option<ItemStack>>, recipe: ProcessingRecipe, count: nat) -> Seq<
    Option<ItemStack>,
>
    decreases count,
{
    if count == 0 {
        slots
    } else {
        repeat_processed(processed_spec(slots, recipe), recipe, (count - 1) as nat)
    }
}

/// How many runs in a row a store allows, up to `limit`.
pub open spec fn runs(
    slots: Seq<Option<ItemStack>>,
    definitions: Seq<crate::items::ItemDefinition>,
    recipe: ProcessingRecipe,
    limit: nat,
) -> nat
    decreases limit,
{
    if limit == 0 || !can_process_spec(slots, definitions, recipe) {
        0
    } else {
        1 + runs(processed_spec(slots, recipe), definitions, recipe, (limit - 1) as nat)
    }
}

pub open spec fn min_nat(a: nat, b: nat) -> nat {
    if a <= b {
        a
    } else {
        b
    }
}

/// Progress after adding elapsed time, capped at eight recipe durations.
pub open spec fn charged_progress(progress: u64, elapsed: u64, duration: u64) -> nat {
    let sum: nat = if progress + elapsed > u64::MAX { u64::MAX as nat } else { (progress + elapsed) as nat };
    let cap: nat = if duration * 8 > u64::MAX { u64::MAX as nat } else { (duration * 8) as nat };
    min_nat(sum, cap)
}

/// The crafts owed by accumulated progress, at most eight.
pub open spec fn owed_crafts(budget: nat, duration: u64) -> nat {
    min_nat(budget / (duration as nat), MAX_CATCH_UP_CRAFTS as nat)
}

/// Spends accumulated progress on runs of one recipe in one machine. Each
/// full duration buys one run, at most eight; when a run cannot happen the
/// leftover progress is capped at one duration.
pub fn advance_machine(
    world: &mut World,
    registry: &ItemRegistry,
    machine: ObjectId,
    recipe: ProcessingRecipe,
    progress: u64,
    elapsed: u64,
) -> (result: (u64, usize))
    requires
        old(world).wf(),
        old(world).container_spec(machine) is Some,
        recipe.duration_nanos > 0,
    ensures
        final(world).wf(),
        ({
            let slots = old(world).container_spec(machine)->0;
            let budget = charged_progress(progress, elapsed, recipe.duration_nanos);
            let owed = owed_crafts(budget, recipe.duration_nanos);
            let crafts = runs(slots, registry@, recipe, owed);
            let rest = budget - crafts * recipe.duration_nanos;
            &&& result.1 == crafts
            &&& result.0 == (if crafts < owed { min_nat(rest as nat, recipe.duration_nanos as nat) } else { rest as nat })
            &&& final(world).spec_containers() == old(world).spec_containers().update(
                index_of(old(world).spec_objects(), machine)->0,
                Some(repeat_processed(slots, recipe, crafts)),
            )
        }),
        final(world).spec_objects() == old(world).spec_objects(),
        final(world).spec_width() == old(world).spec_width(),
        final(world).spec_height() == old(world).spec_height(),
        final(world).spec_foreground() == old(world).spec_foreground(),
        final(world).spec_charges() == old(world).spec_charges(),
        final(world).spec_specialists() == old(world).spec_specialists(),
        final(world).spec_background() == old(world).spec_background(),
        final(world).spec_seed() == old(world).spec_seed(),
        final(world).spec_next_object() == old(world).spec_next_object(),
        final(world).item_transport_revision_spec() == old(world).item_transport_revision_spec(),
{
    let duration = recipe.duration_nanos;
    let maximum: u64 = if duration <= u64::MAX / 8 { duration * 8 } else { u64::MAX };
    let charged = progress.saturating_add(elapsed);
    let mut current: u64 = if charged < maximum { charged } else { maximum };
    let ghost slots = world.container_spec(machine)->0;
    let ghost budget = current as nat;
    let ghost owed = owed_crafts(budget, duration);
    let ghost index = index_of(world.spec_objects(), machine)->0;
    let mut crafts: usize = 0;
    proof {
        world.lemma_wf();
        assert(budget == charged_progress(progress, elapsed, duration));
        if current < duration {
            lemma_owed_reached(budget, duration, 0);
        }
        assert(repeat_processed(slots, recipe, 0) == slots);
        assert(world.spec_containers() =~= old(world).spec_containers().update(index, Some(slots)));
    }
    while current >= duration && crafts < MAX_CATCH_UP_CRAFTS
        invariant_except_break
            world.wf(),
            0 <= index < world.spec_objects().len(),
            old(world).spec_containers().len() == old(world).spec_objects().len(),
            index_of(world.spec_objects(), machine) == Some(index),
            world.spec_objects() == old(world).spec_objects(),
            world.spec_width() == old(world).spec_width(),
            world.spec_height() == old(world).spec_height(),
            world.spec_foreground() == old(world).spec_foreground(),
            world.spec_charges() == old(world).spec_charges(),
            world.spec_specialists() == old(world).spec_specialists(),
            world.spec_background() == old(world).spec_background(),
            world.spec_seed() == old(world).spec_seed(),
            world.spec_next_object() == old(world).spec_next_object(),
            world.item_transport_revision_spec() == old(world).item_transport_revision_spec(),
            duration > 0,
            crafts <= owed,
            owed <= MAX_CATCH_UP_CRAFTS,
            current < duration ==> owed <= crafts,
            current == budget - crafts * duration,
            owed == owed_crafts(budget, duration),
            runs(slots, registry@, recipe, owed) == crafts + runs(
                repeat_processed(slots, recipe, crafts as nat),
                registry@,
                recipe,
                (owed - crafts) as nat,
            ),
            world.spec_containers() == old(world).spec_containers().update(
                index,
                Some(repeat_processed(slots, recipe, crafts as nat)),
            ),
        ensures
            world.wf(),
            world.spec_objects() == old(world).spec_objects(),
            world.spec_width() == old(world).spec_width(),
            world.spec_height() == old(world).spec_height(),
            world.spec_foreground() == old(world).spec_foreground(),
            world.spec_charges() == old(world).spec_charges(),
            world.spec_specialists() == old(world).spec_specialists(),
            world.spec_background() == old(world).spec_background(),
            world.spec_seed() == old(world).spec_seed(),
            world.spec_next_object() == old(world).spec_next_object(),
            world.item_transport_revision_spec() == old(world).item_transport_revision_spec(),
            crafts == runs(slots, registry@, recipe, owed),
            current == (if crafts < owed { min_nat((budget - crafts * duration) as nat, duration as nat) } else {
                (budget - crafts * duration) as nat
            }),
            world.spec_containers() == old(world).spec_containers().update(
                index,
                Some(repeat_processed(slots, recipe, crafts as nat)),
            ),
        decreases MAX_CATCH_UP_CRAFTS - crafts,
    {
        proof {
            world.lemma_wf();

        }
        assert(world.container_spec(machine) == Some(repeat_processed(slots, recipe, crafts as nat)));
        if !process_once(world, registry, machine, recipe) {
            proof {
                assert((crafts + 1) * duration == crafts * duration + duration) by (nonlinear_arith);
                lemma_owed_more(budget, duration, crafts as nat);
            }
            current = if current < duration { current } else { duration };
            proof {
                assert(runs(repeat_processed(slots, recipe, crafts as nat), registry@, recipe, (owed - crafts) as nat) == 0);
                assert(world.spec_containers() =~= old(world).spec_containers().update(
                    index,
                    Some(repeat_processed(slots, recipe, crafts as nat)),
                ));
            }
            break;
        }
        proof {
            let here = repeat_processed(slots, recipe, crafts as nat);
            lemma_repeat_step(slots, recipe, crafts as nat);
            assert(world.spec_containers() =~= old(world).spec_containers().update(
                index,
                Some(repeat_processed(slots, recipe, (crafts + 1) as nat)),
            ));
            assert((crafts + 1) * duration == crafts * duration + duration) by (nonlinear_arith);
            assert(owed - crafts > 0) by {
                assert((crafts + 1) * duration <= budget);
                lemma_owed_more(budget, duration, crafts as nat);
            }
            if current - duration < duration {
                lemma_owed_reached(budget, duration, (crafts + 1) as nat);
            }
        }
        current = current - duration;
        crafts = crafts + 1;
    }
    (current, crafts)
}

proof fn lemma_runs_bound(
    slots: Seq<Option<ItemStack>>,
    definitions: Seq<crate::items::ItemDefinition>,
    recipe: ProcessingRecipe,
    limit: nat,
)
    ensures
        runs(slots, definitions, recipe, limit) <= limit,
    decreases limit,
{
    if limit > 0 && can_process_spec(slots, definitions, recipe) {
        lemma_runs_bound(processed_spec(slots, recipe), definitions, recipe, (limit - 1) as nat);
    }
}

proof fn lemma_repeat_step(slots: Seq<Option<ItemStack>>, recipe: ProcessingRecipe, count: nat)
    ensures
        repeat_processed(slots, recipe, count + 1) == processed_spec(repeat_processed(slots, recipe, count), recipe),
    decreases count,
{
    reveal_with_fuel(repeat_processed, 2);
    if count > 0 {
        lemma_repeat_step(processed_spec(slots, recipe), recipe, (count - 1) as nat);
    }
}

proof fn lemma_owed_reached(budget: nat, duration: u64, crafts: nat)
    requires
        duration > 0,
        crafts * duration <= budget,
        budget - crafts * duration < duration,
    ensures
        owed_crafts(budget, duration) <= crafts,
{
    assert(budget / (duration as nat) <= crafts) by (nonlinear_arith)
        requires
            duration > 0,
            crafts * duration <= budget,
            budget - crafts * duration < duration,
    ;
}

proof fn lemma_owed_more(budget: nat, duration: u64, crafts: nat)
    requires
        duration > 0,
        (crafts + 1) * duration <= budget,
        crafts < MAX_CATCH_UP_CRAFTS,
    ensures
        crafts < owed_crafts(budget, duration),
{
    assert(crafts + 1 <= budget / (duration as nat)) by (nonlinear_arith)
        requires
            duration > 0,
            (crafts + 1) * duration <= budget,
    ;
}

/// What one processing update did.
#[derive(Clone, Copy, Debug, Default, PartialEq, Eq, Structural)]
pub struct MachineProcessingUpdate {
    pub machines_checked: usize,
    pub powered_machines: usize,
    pub crafts_completed: usize,
    pub iron_ore_processed: u64,
}

/// The progress entry of a machine, if it has one.
pub open spec fn progress_of(entries: Seq<(ObjectId, u64)>, machine: ObjectId) -> Option<u64> {
    if exists|i: int| 0 <= i < entries.len() && #[trigger] entries[i].0 == machine {
        Some(entries[choose|i: int| 0 <= i < entries.len() && #[trigger] entries[i].0 == machine].1)
    } else {
        None
    }
}

pub open spec fn unique_machines(entries: Seq<(ObjectId, u64)>) -> bool {
    forall|i: int, j: int|
        0 <= i < entries.len() && 0 <= j < entries.len() && #[trigger] entries[i].0 == #[trigger] entries[j].0 ==> i
            == j
}

/// Assembly progress carried between updates, per assembler.
#[derive(Clone, Debug, Default)]
pub struct MachineProcessingSystem {
    progress: Vec<(ObjectId, u64)>,
}

impl MachineProcessingSystem {
    pub closed spec fn entries(&self) -> Seq<(ObjectId, u64)> {
        self.progress@
    }

    pub closed spec fn wf(&self) -> bool {
        unique_machines(self.progress@)
    }

    pub fn new() -> (system: Self)
        ensures
            system.wf(),
            system.entries().len() == 0,
    {
        MachineProcessingSystem { progress: Vec::new() }
    }

    fn find(&self, machine: ObjectId) -> (index: Option<usize>)
        requires
            self.wf(),
        ensures
            match index {
                Some(i) => i < self.entries().len() && self.entries()[i as int].0 == machine
                    && progress_of(self.entries(), machine) == Some(self.entries()[i as int].1),
                None => progress_of(self.entries(), machine) is None,
            },
    {
        let mut index: usize = 0;
        while index < self.progress.len()
            invariant
                index <= self.progress@.len(),
                unique_machines(self.progress@),
                forall|i: int| 0 <= i < index ==> #[trigger] self.progress@[i].0 != machine,
            decreases self.progress@.len() - index,
        {
            if self.progress[index].0 == machine {
                return Some(index);
            }
            index = index + 1;
        }
        None
    }

    /// The time a machine has accumulated towards its next craft, in
    /// nanoseconds.
    pub fn progress(&self, machine: ObjectId) -> (progress: Option<u64>)
        requires
            self.wf(),
        ensures
            progress == progress_of(self.entries(), machine),
    {
        match self.find(machine) {
            Some(i) => Some(self.progress[i].1),
            None => None,
        }
    }

    fn store(&mut self, machine: ObjectId, value: u64)
        requires
            old(self).wf(),
        ensures
            final(self).wf(),
            progress_of(final(self).entries(), machine) == Some(value),
            forall|other: ObjectId| other != machine ==> #[trigger] progress_of(final(self).entries(), other)
                == progress_of(old(self).entries(), other),
    {
        match self.find(machine) {
            Some(i) => {
                self.progress.set(i, (machine, value));
                proof {
                    assert forall|a: int, b: int|
                        0 <= a < self.progress@.len() && 0 <= b < self.progress@.len() && #[trigger] self.progress@[a].0
                            == #[trigger] self.progress@[b].0 implies a == b by {
                        assert(self.progress@[a].0 == old(self).progress@[a].0);
                        assert(self.progress@[b].0 == old(self).progress@[b].0);
                    }
                    assert(self.progress@[i as int].0 == machine);
                    assert forall|other: ObjectId| other != machine implies #[trigger] progress_of(self.entries(), other)
                        == progress_of(old(self).entries(), other) by {
                        if exists|k: int| 0 <= k < old(self).progress@.len() && #[trigger] old(self).progress@[k].0 == other {
                            let k = choose|k: int| 0 <= k < old(self).progress@.len() && #[trigger] old(self).progress@[k].0 == other;
                            assert(self.progress@[k].0 == other);
                        } else {
                            assert forall|k: int| 0 <= k < self.progress@.len() implies #[trigger] self.progress@[k].0 != other by {
                                assert(self.progress@[k].0 == old(self).progress@[k].0 || k == i);
                            }
                        }
                    }
                }
            },
            None => {
                self.progress.push((machine, value));
                proof {
                    let n = old(self).progress@.len() as int;
                    assert(self.progress@[n].0 == machine);
                    assert forall|other: ObjectId| other != machine implies #[trigger] progress_of(self.entries(), other)
                        == progress_of(old(self).entries(), other) by {
                        if exists|k: int| 0 <= k < old(self).progress@.len() && #[trigger] old(self).progress@[k].0 == other {
                            let k = choose|k: int| 0 <= k < old(self).progress@.len() && #[trigger] old(self).progress@[k].0 == other;
                            assert(self.progress@[k].0 == other);
                        } else {
                            assert forall|k: int| 0 <= k < self.progress@.len() implies #[trigger] self.progress@[k].0 != other by {
                                if k < n {
                                    assert(self.progress@[k] == old(self).progress@[k]);
                                }
                            }
                        }
                    }
                }
            },
        }
    }

    fn forget(&mut self, machine: ObjectId)
        requires
            old(self).wf(),
        ensures
            final(self).wf(),
            progress_of(final(self).entries(), machine) is None,
            forall|other: ObjectId| other != machine ==> #[trigger] progress_of(final(self).entries(), other)
                == progress_of(old(self).entries(), other),
    {
        if let Some(i) = self.find(machine) {
            self.progress.remove(i);
            proof {
                let n = old(self).progress@.len() as int;
                assert forall|k: int| 0 <= k < self.progress@.len() implies #[trigger] self.progress@[k]
                    == old(self).progress@[if k < i { k } else { k + 1 }] by {
                }
                assert forall|a: int, b: int|
                    0 <= a < self.progress@.len() && 0 <= b < self.progress@.len() && #[trigger] self.progress@[a].0
                        == #[trigger] self.progress@[b].0 implies a == b by {
                    let oa = if a < i { a } else { a + 1 };
                    let ob = if b < i { b } else { b + 1 };
                    assert(old(self).progress@[oa].0 == old(self).progress@[ob].0);
                }
                assert forall|k: int| 0 <= k < self.progress@.len() implies #[trigger] self.progress@[k].0 != machine by {
                    let ok = if k < i { k } else { k + 1 };
                    assert(old(self).progress@[ok].0 == self.progress@[k].0);
                }
                assert forall|other: ObjectId| other != machine implies #[trigger] progress_of(self.entries(), other)
                    == progress_of(old(self).entries(), other) by {
                    if exists|k: int| 0 <= k < old(self).progress@.len() && #[trigger] old(self).progress@[k].0 == other {
                        let k = choose|k: int| 0 <= k < old(self).progress@.len() && #[trigger] old(self).progress@[k].0 == other;
                        assert(k != i);
                        let nk = if k < i { k } else { k - 1 };
                        assert(self.progress@[nk] == old(self).progress@[k]);
                    } else {
                        assert forall|k: int| 0 <= k < self.progress@.len() implies #[trigger] self.progress@[k].0 != other by {
                            let ok = if k < i { k } else { k + 1 };
                            assert(old(self).progress@[ok].0 == self.progress@[k].0);
                        }
                    }
                }
            }
        }
    }
}

pub fn contains_object(objects: &[ObjectId], id: ObjectId) -> (found: bool)
    ensures
        found == objects@.contains(id),
{
    let mut index: usize = 0;
    while index < objects.len()
        invariant
            index <= objects@.len(),
            forall|i: int| 0 <= i < index ==> #[trigger] objects@[i] != id,
        decreases objects@.len() - index,
    {
        if objects[index] == id {
            assert(objects@[index as int] == id);
            return true;
        }
        index = index + 1;
    }
    false
}

/// Whether an object is an assembler that runs this update.
pub open spec fn runs_now(object: crate::world::WorldObject, powered: Seq<ObjectId>) -> bool {
    object.object_type == FurnitureObject::COMPOSITE_ASSEMBLER && object.active && powered.contains(object.id)
}

/// The first of the iron and composite recipes a store can run.
pub open spec fn recipe_in(store: Option<Seq<Option<ItemStack>>>, definitions: Seq<crate::items::ItemDefinition>) -> Option<
    ProcessingRecipe,
> {
    match store {
        Some(slots) => if can_process_spec(slots, definitions, IRON_RECIPE()) {
            Some(IRON_RECIPE())
        } else if can_process_spec(slots, definitions, COMPOSITE_RECIPE()) {
            Some(COMPOSITE_RECIPE())
        } else {
            None
        },
        None => None,
    }
}

/// What the object at an index does in an update: when it is an active,
/// powered assembler whose store can run a recipe, the recipe, the runs it
/// completes with its progress plus the elapsed time, and its progress
/// afterwards.
pub open spec fn assembler_run(
    world: World,
    definitions: Seq<crate::items::ItemDefinition>,
    entries: Seq<(ObjectId, u64)>,
    powered: Seq<ObjectId>,
    elapsed: u64,
    index: int,
) -> Option<(ProcessingRecipe, nat, nat)> {
    let object = world.spec_objects()[index];
    if !runs_now(object, powered) {
        None
    } else {
        match recipe_in(world.spec_containers()[index], definitions) {
            None => None,
            Some(recipe) => {
                let slots = world.spec_containers()[index]->0;
                let current: u64 = match progress_of(entries, object.id) {
                    Some(value) => value,
                    None => 0,
                };
                let budget = charged_progress(current, elapsed, recipe.duration_nanos);
                let owed = owed_crafts(budget, recipe.duration_nanos);
                let crafts = runs(slots, definitions, recipe, owed);
                let rest = budget - crafts * recipe.duration_nanos;
                let next = if crafts < owed {
                    min_nat(rest as nat, recipe.duration_nanos as nat)
                } else {
                    rest as nat
                };
                Some((recipe, crafts, next))
            },
        }
    }
}

/// The store at an index after the update.
pub open spec fn store_after_run(
    world: World,
    definitions: Seq<crate::items::ItemDefinition>,
    entries: Seq<(ObjectId, u64)>,
    powered: Seq<ObjectId>,
    elapsed: u64,
    index: int,
) -> Option<Seq<Option<ItemStack>>> {
    match assembler_run(world, definitions, entries, powered, elapsed, index) {
        Some((recipe, crafts, _)) => Some(repeat_processed(world.spec_containers()[index]->0, recipe, crafts)),
        None => world.spec_containers()[index],
    }
}

/// A machine's progress after the update: gone with its object; for an
/// active, powered assembler its new progress, or none when it has nothing
/// to run; otherwise unchanged.
pub open spec fn progress_after(
    world: World,
    definitions: Seq<crate::items::ItemDefinition>,
    entries: Seq<(ObjectId, u64)>,
    powered: Seq<ObjectId>,
    elapsed: u64,
    machine: ObjectId,
) -> Option<u64> {
    match index_of(world.spec_objects(), machine) {
        None => None,
        Some(index) => if runs_now(world.spec_objects()[index], powered) {
            match assembler_run(world, definitions, entries, powered, elapsed, index) {
                Some((_, _, next)) => Some(next as u64),
                None => None,
            }
        } else {
            progress_of(entries, machine)
        },
    }
}

/// Counts over the first `count` objects: assemblers, active powered
/// assemblers, runs completed, and runs of the iron recipe.
pub struct ProcessingTotals {
    pub checked: nat,
    pub powered: nat,
    pub crafts: nat,
    pub iron: nat,
}

pub open spec fn processing_totals(
    world: World,
    definitions: Seq<crate::items::ItemDefinition>,
    entries: Seq<(ObjectId, u64)>,
    powered: Seq<ObjectId>,
    elapsed: u64,
    count: nat,
) -> ProcessingTotals
    decreases count,
{
    if count == 0 {
        ProcessingTotals { checked: 0, powered: 0, crafts: 0, iron: 0 }
    } else {
        let before = processing_totals(world, definitions, entries, powered, elapsed, (count - 1) as nat);
        let object = world.spec_objects()[count - 1];
        let run = assembler_run(world, definitions, entries, powered, elapsed, count - 1);
        ProcessingTotals {
            checked: before.checked + if object.object_type == FurnitureObject::COMPOSITE_ASSEMBLER {
                1nat
            } else {
                0nat
            },
            powered: before.powered + if runs_now(object, powered) {
                1nat
            } else {
                0nat
            },
            crafts: before.crafts + match run {
                Some((_, crafts, _)) => crafts,
                None => 0nat,
            },
            iron: before.iron + match run {
                Some((recipe, crafts, _)) => if recipe.output.0 == ItemId::IRON_INGOT {
                    crafts
                } else {
                    0nat
                },
                None => 0nat,
            },
        }
    }
}

pub proof fn lemma_totals_bound(
    world: World,
    definitions: Seq<crate::items::ItemDefinition>,
    entries: Seq<(ObjectId, u64)>,
    powered: Seq<ObjectId>,
    elapsed: u64,
    count: nat,
)
    requires
        count <= world.spec_objects().len(),
        world.spec_containers().len() == world.spec_objects().len(),
    ensures
        ({
            let totals = processing_totals(world, definitions, entries, powered, elapsed, count);
            &&& totals.powered <= totals.checked <= count
            &&& totals.crafts <= MAX_CATCH_UP_CRAFTS * totals.powered
            &&& totals.iron <= totals.crafts
        }),
    decreases count,
{
    if count > 0 {
        lemma_totals_bound(world, definitions, entries, powered, elapsed, (count - 1) as nat);
        let index = count - 1;
        let object = world.spec_objects()[index];
        if runs_now(object, powered) {
            match recipe_in(world.spec_containers()[index], definitions) {
                Some(recipe) => {
                    let slots = world.spec_containers()[index]->0;
                    let current: u64 = match progress_of(entries, object.id) {
                        Some(value) => value,
                        None => 0,
                    };
                    let budget = charged_progress(current, elapsed, recipe.duration_nanos);
                    lemma_runs_bound(slots, definitions, recipe, owed_crafts(budget, recipe.duration_nanos));
                },
                None => {},
            }
        }
    }
}

impl MachineProcessingSystem {
    /// One update at full speed.
    pub fn update(
        &mut self,
        world: &mut World,
        registry: &ItemRegistry,
        powered: &[ObjectId],
        elapsed_nanos: u64,
    ) -> (update: MachineProcessingUpdate)
        requires
            old(self).wf(),
            old(world).wf(),
        ensures
            final(self).wf(),
            final(world).wf(),
            ({
                let totals = processing_totals(
                    *old(world),
                    registry@,
                    old(self).entries(),
                    powered@,
                    elapsed_nanos,
                    old(world).spec_objects().len(),
                );
                &&& update.machines_checked == totals.checked
                &&& update.powered_machines == totals.powered
                &&& update.crafts_completed == totals.crafts
                &&& update.iron_ore_processed == totals.iron
            }),
            final(world).spec_containers().len() == old(world).spec_containers().len(),
            forall|i: int|
                0 <= i < old(world).spec_objects().len() ==> #[trigger] final(world).spec_containers()[i]
                    == store_after_run(*old(world), registry@, old(self).entries(), powered@, elapsed_nanos, i),
            forall|machine: ObjectId|
                #[trigger] progress_of(final(self).entries(), machine) == progress_after(
                    *old(world),
                    registry@,
                    old(self).entries(),
                    powered@,
                    elapsed_nanos,
                    machine,
                ),
            final(world).spec_objects() == old(world).spec_objects(),
            final(world).spec_width() == old(world).spec_width(),
            final(world).spec_height() == old(world).spec_height(),
            final(world).spec_foreground() == old(world).spec_foreground(),
            final(world).spec_charges() == old(world).spec_charges(),
            final(world).spec_specialists() == old(world).spec_specialists(),
            final(world).spec_background() == old(world).spec_background(),
            final(world).spec_seed() == old(world).spec_seed(),
            final(world).spec_next_object() == old(world).spec_next_object(),
            final(world).item_transport_revision_spec() == old(world).item_transport_revision_spec(),
    {
        proof {
            assert(elapsed_nanos * 100int / 100 == elapsed_nanos) by (nonlinear_arith);
            assert(scaled_spec(elapsed_nanos, 100) == elapsed_nanos);
        }
        self.update_with_speed(world, registry, powered, elapsed_nanos, 100)
    }

    /// Advances every active, powered assembler by the elapsed time scaled
    /// by a speed percentage, in placement order. Each runs the first of the
    /// iron and composite recipes its store can run, as `advance_machine`
    /// does; one with nothing to run loses its progress. Progress of removed
    /// machines is dropped; other machines keep theirs.
    pub fn update_with_speed(
        &mut self,
        world: &mut World,
        registry: &ItemRegistry,
        powered: &[ObjectId],
        elapsed_nanos: u64,
        speed_percent: u16,
    ) -> (update: MachineProcessingUpdate)
        requires
            old(self).wf(),
            old(world).wf(),
        ensures
            final(self).wf(),
            final(world).wf(),
            ({
                let elapsed = scaled_spec(elapsed_nanos, speed_percent);
                let totals = processing_totals(
                    *old(world),
                    registry@,
                    old(self).entries(),
                    powered@,
                    elapsed,
                    old(world).spec_objects().len(),
                );
                &&& update.machines_checked == totals.checked
                &&& update.powered_machines == totals.powered
                &&& update.crafts_completed == totals.crafts
                &&& update.iron_ore_processed == totals.iron
            }),
            final(world).spec_containers().len() == old(world).spec_containers().len(),
            forall|i: int|
                0 <= i < old(world).spec_objects().len() ==> #[trigger] final(world).spec_containers()[i]
                    == store_after_run(
                    *old(world),
                    registry@,
                    old(self).entries(),
                    powered@,
                    scaled_spec(elapsed_nanos, speed_percent),
                    i,
                ),
            forall|machine: ObjectId|
                #[trigger] progress_of(final(self).entries(), machine) == progress_after(
                    *old(world),
                    registry@,
                    old(self).entries(),
                    powered@,
                    scaled_spec(elapsed_nanos, speed_percent),
                    machine,
                ),
            final(world).spec_objects() == old(world).spec_objects(),
            final(world).spec_width() == old(world).spec_width(),
            final(world).spec_height() == old(world).spec_height(),
            final(world).spec_foreground() == old(world).spec_foreground(),
            final(world).spec_charges() == old(world).spec_charges(),
            final(world).spec_specialists() == old(world).spec_specialists(),
            final(world).spec_background() == old(world).spec_background(),
            final(world).spec_seed() == old(world).spec_seed(),
            final(world).spec_next_object() == old(world).spec_next_object(),
            final(world).item_transport_revision_spec() == old(world).item_transport_revision_spec(),
    {
        let elapsed = scale_duration(elapsed_nanos, speed_percent);
        let ghost start = *world;
        let ghost entries = self.progress@;
        let ghost objects = world.spec_objects();
        proof {
            world.lemma_wf();
        }
        let mut ids: Vec<ObjectId> = Vec::new();
        let mut index: usize = 0;
        while index < self.progress.len()
            invariant
                world.item_transport_revision_spec() == old(world).item_transport_revision_spec(),
                index <= self.progress@.len(),
                self.progress@ == entries,
                ids@ == entries.take(index as int).map_values(|entry: (ObjectId, u64)| entry.0),
            decreases self.progress@.len() - index,
        {
            ids.push(self.progress[index].0);
            proof {
                assert(ids@ =~= entries.take(index + 1).map_values(|entry: (ObjectId, u64)| entry.0));
            }
            index = index + 1;
        }
        proof {
            assert(entries.take(entries.len() as int) =~= entries);
        }
        let mut position: usize = 0;
        while position < ids.len()
            invariant
                world.item_transport_revision_spec() == old(world).item_transport_revision_spec(),
                position <= ids@.len(),
                ids@ == entries.map_values(|entry: (ObjectId, u64)| entry.0),
                self.wf(),
                *world == start,
                world.wf(),
                forall|machine: ObjectId|
                    #[trigger] progress_of(self.entries(), machine) == if ids@.take(position as int).contains(machine)
                        && start.object_spec(machine) is None {
                        None
                    } else {
                        progress_of(entries, machine)
                    },
            decreases ids@.len() - position,
        {
            let id = ids[position];
            let ghost before = self.entries();
            if world.object(id).is_none() {
                self.forget(id);
            }
            proof {
                assert(ids@.take(position + 1) =~= ids@.take(position as int).push(id));
                assert(ids@.take(position + 1)[position as int] == id);
                assert(ids@.take(position + 1).contains(id));
                assert forall|machine: ObjectId| #[trigger] progress_of(self.entries(), machine) == if ids@.take(
                    position + 1,
                ).contains(machine) && start.object_spec(machine) is None {
                    None
                } else {
                    progress_of(entries, machine)
                } by {
                    assert(progress_of(before, machine) == if ids@.take(position as int).contains(machine)
                        && start.object_spec(machine) is None {
                        None
                    } else {
                        progress_of(entries, machine)
                    });
                    if ids@.take(position + 1).contains(machine) && !ids@.take(position as int).contains(machine) {
                        let k = choose|k: int| 0 <= k < position + 1 && #[trigger] ids@.take(position + 1)[k] == machine;
                        if k < position {
                            assert(ids@.take(position as int)[k] == machine);
                        }
                    }
                    if ids@.take(position as int).contains(machine) {
                        let k = choose|k: int| 0 <= k < position && #[trigger] ids@.take(position as int)[k] == machine;
                        assert(ids@.take(position + 1)[k] == machine);
                    }
                }
            }
            position = position + 1;
        }
        proof {
            assert(ids@.take(ids@.len() as int) =~= ids@);
            assert forall|machine: ObjectId| #[trigger] progress_of(self.entries(), machine) == if start.object_spec(
                machine,
            ) is None {
                None
            } else {
                progress_of(entries, machine)
            } by {
                if progress_of(entries, machine) is Some {
                    let k = choose|k: int| 0 <= k < entries.len() && #[trigger] entries[k].0 == machine;
                    assert(ids@[k] == machine);
                }
            }
        }
        let ghost kept = self.entries();
        let mut update = MachineProcessingUpdate {
            machines_checked: 0,
            powered_machines: 0,
            crafts_completed: 0,
            iron_ore_processed: 0,
        };
        let count = world.object_count();
        let mut index: usize = 0;
        while index < count
            invariant
                world.item_transport_revision_spec() == old(world).item_transport_revision_spec(),
                self.wf(),
                world.wf(),
                index <= count,
                count == objects.len(),
                objects == start.spec_objects(),
                objects.len() <= crate::world::MAX_WORLD_CELLS,
                crate::world::unique_ids(objects),
                world.spec_objects() == objects,
                world.spec_width() == start.spec_width(),
                world.spec_height() == start.spec_height(),
                world.spec_foreground() == start.spec_foreground(),
                world.spec_charges() == start.spec_charges(),
                world.spec_specialists() == start.spec_specialists(),
                world.spec_background() == start.spec_background(),
                world.spec_seed() == start.spec_seed(),
                world.spec_next_object() == start.spec_next_object(),
                world.spec_containers().len() == objects.len(),
                start.spec_containers().len() == objects.len(),
                elapsed == scaled_spec(elapsed_nanos, speed_percent),
                forall|machine: ObjectId|
                    #[trigger] progress_of(kept, machine) == if start.object_spec(machine) is None {
                        None
                    } else {
                        progress_of(entries, machine)
                    },
                forall|i: int|
                    0 <= i < index ==> #[trigger] world.spec_containers()[i] == store_after_run(
                        start,
                        registry@,
                        entries,
                        powered@,
                        elapsed,
                        i,
                    ),
                forall|i: int| index <= i < objects.len() ==> #[trigger] world.spec_containers()[i] == start.spec_containers()[i],
                forall|machine: ObjectId|
                    #[trigger] progress_of(self.entries(), machine) == if exists|j: int|
                        0 <= j < index && objects[j].id == machine && runs_now(objects[j], powered@) {
                        progress_after(start, registry@, entries, powered@, elapsed, machine)
                    } else {
                        progress_of(kept, machine)
                    },
                ({
                    let totals = processing_totals(start, registry@, entries, powered@, elapsed, index as nat);
                    &&& update.machines_checked == totals.checked
                    &&& update.powered_machines == totals.powered
                    &&& update.crafts_completed == totals.crafts
                    &&& update.iron_ore_processed == totals.iron
                }),
            decreases count - index,
        {
            let machine = world.objects_at_index(index);
            let ghost before_step = *world;
            let ghost entries_before = self.entries();
            proof {
                crate::world::lemma_index_of(objects, machine.id, index as int);
                lemma_totals_bound(start, registry@, entries, powered@, elapsed, index as nat);
                lemma_totals_bound(start, registry@, entries, powered@, elapsed, (index + 1) as nat);
                assert(world.spec_containers()[index as int] == start.spec_containers()[index as int]);
                assert(world.container_spec(machine.id) == start.spec_containers()[index as int]);
            }
            if machine.object_type == FurnitureObject::COMPOSITE_ASSEMBLER {
                update.machines_checked = update.machines_checked + 1;
                if machine.active && contains_object(powered, machine.id) {
                    update.powered_machines = update.powered_machines + 1;
                    match available_recipe(world, registry, machine.id) {
                        None => {
                            self.forget(machine.id);
                        },
                        Some(recipe) => {
                            let current = match self.progress(machine.id) {
                                Some(value) => value,
                                None => 0,
                            };
                            proof {
                                assert(progress_of(entries_before, machine.id) == progress_of(kept, machine.id)) by {
                                    if exists|j: int|
                                        0 <= j < index && objects[j].id == machine.id && runs_now(objects[j], powered@) {
                                        let j = choose|j: int|
                                            0 <= j < index && objects[j].id == machine.id && runs_now(objects[j], powered@);
                                        assert(objects[j].id == objects[index as int].id);
                                    }
                                }
                                assert(recipe.duration_nanos > 0);
                            }
                            let (next, crafts) = advance_machine(world, registry, machine.id, recipe, current, elapsed);
                            self.store(machine.id, next);
                            update.crafts_completed = update.crafts_completed + crafts;
                            if recipe.output.0 == ItemId::IRON_INGOT {
                                update.iron_ore_processed = update.iron_ore_processed + crafts as u64;
                            }
                        },
                    }
                }
            }
            proof {
                assert forall|i: int| 0 <= i < index + 1 implies #[trigger] world.spec_containers()[i] == store_after_run(
                    start,
                    registry@,
                    entries,
                    powered@,
                    elapsed,
                    i,
                ) by {
                    if i < index {
                        assert(before_step.spec_containers()[i] == store_after_run(start, registry@, entries, powered@, elapsed, i));
                    }
                }
                assert forall|i: int| index + 1 <= i < objects.len() implies #[trigger] world.spec_containers()[i]
                    == start.spec_containers()[i] by {
                    assert(before_step.spec_containers()[i] == start.spec_containers()[i]);
                }
                assert forall|other: ObjectId| #[trigger] progress_of(self.entries(), other) == if exists|j: int|
                    0 <= j < index + 1 && objects[j].id == other && runs_now(objects[j], powered@) {
                    progress_after(start, registry@, entries, powered@, elapsed, other)
                } else {
                    progress_of(kept, other)
                } by {
                    if other != machine.id {
                        if exists|j: int| 0 <= j < index + 1 && objects[j].id == other && runs_now(objects[j], powered@) {
                            let j = choose|j: int| 0 <= j < index + 1 && objects[j].id == other && runs_now(objects[j], powered@);
                            assert(j != index);
                        }
                    } else {
                        if exists|j: int| 0 <= j < index && objects[j].id == other && runs_now(objects[j], powered@) {
                            let j = choose|j: int| 0 <= j < index && objects[j].id == other && runs_now(objects[j], powered@);
                            assert(objects[j].id == objects[index as int].id);
                        }
                    }
                }
            }
            index = index + 1;
        }
        proof {
            assert forall|machine: ObjectId| #[trigger] progress_of(self.entries(), machine) == progress_after(
                start,
                registry@,
                entries,
                powered@,
                elapsed,
                machine,
            ) by {
                if start.object_spec(machine) is Some {
                    let i = index_of(objects, machine)->0;
                    assert(objects[i].id == machine);
                    crate::world::lemma_index_of(objects, machine, i);
                }
                if exists|j: int| 0 <= j < count && objects[j].id == machine && runs_now(objects[j], powered@) {
                    let j = choose|j: int| 0 <= j < count && objects[j].id == machine && runs_now(objects[j], powered@);
                    crate::world::lemma_index_of(objects, machine, j);
                }
            }
        }
        update
    }
}

} // verus!
