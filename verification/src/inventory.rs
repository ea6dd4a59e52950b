use vstd::prelude::*;
use crate::items::{ItemDefinition, ItemId, ItemRegistry, ItemStack, max_stack_of, stack_of};

verus! {

broadcast use crate::items::group_item_stack;

pub const HOTBAR_SLOTS: usize = 10;
pub const INVENTORY_COLUMNS: usize = 10;
pub const INVENTORY_ROWS: usize = 4;
pub const INVENTORY_SLOTS: usize = INVENTORY_COLUMNS * INVENTORY_ROWS;
pub const CHEST_COLUMNS: usize = 10;
pub const CHEST_ROWS: usize = 4;
pub const CHEST_SLOTS: usize = CHEST_COLUMNS * CHEST_ROWS;

/// Which of the two mouse buttons clicked a slot.
#[derive(Clone, Copy, Debug, PartialEq, Eq, Structural)]
pub enum SlotClick {
    Primary,
    Secondary,
}

/// Every occupied slot holds at least one item.
pub open spec fn stack_wf(slot: Option<ItemStack>) -> bool {
    match slot {
        Some(stack) => stack.spec_quantity() > 0,
        None => true,
    }
}

pub open spec fn slots_wf(slots: Seq<Option<ItemStack>>) -> bool {
    forall|i: int| 0 <= i < slots.len() ==> stack_wf(#[trigger] slots[i])
}

/// How many items of `item` one slot holds.
pub open spec fn slot_quantity(slot: Option<ItemStack>, item: ItemId) -> nat {
    match slot {
        Some(stack) => if stack.spec_item() == item {
            stack.spec_quantity() as nat
        } else {
            0
        },
        None => 0,
    }
}

/// How many items of `item` a run of slots holds.
pub open spec fn quantity_in(slots: Seq<Option<ItemStack>>, item: ItemId) -> nat
    decreases slots.len(),
{
    if slots.len() == 0 {
        0
    } else {
        slot_quantity(slots[0], item) + quantity_in(slots.drop_first(), item)
    }
}

/// The three ways item moves sweep over slots in slot order: topping up the
/// existing stacks of an item, starting new stacks in empty slots, and
/// removing items of a kind.
#[derive(Clone, Copy, Debug, PartialEq, Eq, Structural)]
pub enum SlotPass {
    FillExisting,
    FillEmpty,
    Take,
}

/// How many items one slot can give or take in a sweep.
pub open spec fn pass_room(slot: Option<ItemStack>, item: ItemId, max_stack: u16, pass: SlotPass) -> nat {
    match pass {
        SlotPass::FillExisting => match slot {
            Some(stack) => if stack.spec_item() == item && stack.spec_quantity() < max_stack {
                (max_stack - stack.spec_quantity()) as nat
            } else {
                0
            },
            None => 0,
        },
        SlotPass::FillEmpty => match slot {
            Some(_) => 0,
            None => max_stack as nat,
        },
        SlotPass::Take => slot_quantity(slot, item),
    }
}

pub open spec fn room_in(slots: Seq<Option<ItemStack>>, item: ItemId, max_stack: u16, pass: SlotPass) -> nat
    decreases slots.len(),
{
    if slots.len() == 0 {
        0
    } else {
        pass_room(slots[0], item, max_stack, pass) + room_in(slots.drop_first(), item, max_stack, pass)
    }
}

/// How many more items of `item` the slots accept with the given stack limit:
/// the space left in its stacks plus a full stack per empty slot.
pub open spec fn capacity_for(slots: Seq<Option<ItemStack>>, item: ItemId, max_stack: u16) -> nat {
    room_in(slots, item, max_stack, SlotPass::FillExisting) + room_in(
        slots,
        item,
        max_stack,
        SlotPass::FillEmpty,
    )
}

/// One slot's step of a sweep with `remaining` items still to move: the new
/// slot and what is left to move.
pub open spec fn pass_slot(
    slot: Option<ItemStack>,
    item: ItemId,
    remaining: nat,
    max_stack: u16,
    pass: SlotPass,
) -> (Option<ItemStack>, nat) {
    let room = pass_room(slot, item, max_stack, pass);
    let moved = if remaining <= room {
        remaining
    } else {
        room
    };
    if moved == 0 {
        (slot, remaining)
    } else {
        let held = slot_quantity(slot, item);
        let quantity = match pass {
            SlotPass::FillExisting => (held + moved) as int,
            SlotPass::FillEmpty => moved as int,
            SlotPass::Take => held - moved,
        };
        (stack_of(item, quantity as u16), (remaining - moved) as nat)
    }
}

/// A whole sweep over the slots in slot order.
pub open spec fn pass_slots(
    slots: Seq<Option<ItemStack>>,
    item: ItemId,
    remaining: nat,
    max_stack: u16,
    pass: SlotPass,
) -> (Seq<Option<ItemStack>>, nat)
    decreases slots.len(),
{
    if slots.len() == 0 {
        (slots, remaining)
    } else {
        let head = pass_slot(slots[0], item, remaining, max_stack, pass);
        let tail = pass_slots(slots.drop_first(), item, head.1, max_stack, pass);
        (seq![head.0] + tail.0, tail.1)
    }
}

/// Adding first tops up existing stacks in slot order, then fills empty
/// slots in slot order; the result is the new slots and what did not fit.
pub open spec fn add_to_slots(
    slots: Seq<Option<ItemStack>>,
    item: ItemId,
    quantity: nat,
    max_stack: u16,
) -> (Seq<Option<ItemStack>>, nat) {
    let existing = pass_slots(slots, item, quantity, max_stack, SlotPass::FillExisting);
    pass_slots(existing.0, item, existing.1, max_stack, SlotPass::FillEmpty)
}

pub proof fn lemma_pass_slots_append(
    a: Seq<Option<ItemStack>>,
    b: Seq<Option<ItemStack>>,
    item: ItemId,
    remaining: nat,
    max_stack: u16,
    pass: SlotPass,
)
    ensures
        ({
            let first = pass_slots(a, item, remaining, max_stack, pass);
            let second = pass_slots(b, item, first.1, max_stack, pass);
            pass_slots(a + b, item, remaining, max_stack, pass) == (first.0 + second.0, second.1)
        }),
    decreases a.len(),
{
    if a.len() == 0 {
        assert(a + b =~= b);
        assert(pass_slots(a, item, remaining, max_stack, pass).0 + pass_slots(
            b,
            item,
            remaining,
            max_stack,
            pass,
        ).0 =~= pass_slots(b, item, remaining, max_stack, pass).0);
    } else {
        let head = pass_slot(a[0], item, remaining, max_stack, pass);
        assert((a + b)[0] == a[0]);
        assert((a + b).drop_first() =~= a.drop_first() + b);
        lemma_pass_slots_append(a.drop_first(), b, item, head.1, max_stack, pass);
        let rest = pass_slots(a.drop_first(), item, head.1, max_stack, pass);
        let second = pass_slots(b, item, rest.1, max_stack, pass);
        assert(seq![head.0] + (rest.0 + second.0) =~= (seq![head.0] + rest.0) + second.0);
    }
}

pub proof fn lemma_pass_slots_len(
    slots: Seq<Option<ItemStack>>,
    item: ItemId,
    remaining: nat,
    max_stack: u16,
    pass: SlotPass,
)
    ensures
        pass_slots(slots, item, remaining, max_stack, pass).0.len() == slots.len(),
    decreases slots.len(),
{
    if slots.len() > 0 {
        let head = pass_slot(slots[0], item, remaining, max_stack, pass);
        lemma_pass_slots_len(slots.drop_first(), item, head.1, max_stack, pass);
    }
}

pub proof fn lemma_quantity_append(a: Seq<Option<ItemStack>>, b: Seq<Option<ItemStack>>, item: ItemId)
    ensures
        quantity_in(a + b, item) == quantity_in(a, item) + quantity_in(b, item),
    decreases a.len(),
{
    if a.len() == 0 {
        assert(a + b =~= b);
    } else {
        assert((a + b)[0] == a[0]);
        assert((a + b).drop_first() =~= a.drop_first() + b);
        lemma_quantity_append(a.drop_first(), b, item);
    }
}

pub proof fn lemma_room_append(
    a: Seq<Option<ItemStack>>,
    b: Seq<Option<ItemStack>>,
    item: ItemId,
    max_stack: u16,
    pass: SlotPass,
)
    ensures
        room_in(a + b, item, max_stack, pass) == room_in(a, item, max_stack, pass) + room_in(
            b,
            item,
            max_stack,
            pass,
        ),
    decreases a.len(),
{
    if a.len() == 0 {
        assert(a + b =~= b);
    } else {
        assert((a + b)[0] == a[0]);
        assert((a + b).drop_first() =~= a.drop_first() + b);
        lemma_room_append(a.drop_first(), b, item, max_stack, pass);
    }
}

/// The quantity of a kind after one slot is replaced.
pub proof fn lemma_quantity_update(
    slots: Seq<Option<ItemStack>>,
    index: int,
    value: Option<ItemStack>,
    item: ItemId,
)
    requires
        0 <= index < slots.len(),
    ensures
        quantity_in(slots.update(index, value), item) + slot_quantity(slots[index], item)
            == quantity_in(slots, item) + slot_quantity(value, item),
    decreases slots.len(),
{
    if index == 0 {
        assert(slots.update(index, value).drop_first() =~= slots.drop_first());
    } else {
        assert(slots.update(index, value).drop_first() =~= slots.drop_first().update(
            index - 1,
            value,
        ));
        lemma_quantity_update(slots.drop_first(), index - 1, value, item);
    }
}

/// A sweep with nothing left to move changes nothing.
pub proof fn lemma_pass_slots_nothing(
    slots: Seq<Option<ItemStack>>,
    item: ItemId,
    max_stack: u16,
    pass: SlotPass,
)
    ensures
        pass_slots(slots, item, 0, max_stack, pass) == (slots, 0nat),
    decreases slots.len(),
{
    if slots.len() > 0 {
        lemma_pass_slots_nothing(slots.drop_first(), item, max_stack, pass);
        assert(seq![slots[0]] + slots.drop_first() =~= slots);
    }
}

/// What a sweep moves, what it leaves, and that it touches no other kind.
pub proof fn lemma_pass_slots_effect(
    slots: Seq<Option<ItemStack>>,
    item: ItemId,
    remaining: nat,
    max_stack: u16,
    pass: SlotPass,
    other: ItemId,
)
    requires
        slots_wf(slots),
    ensures
        ({
            let (result, left) = pass_slots(slots, item, remaining, max_stack, pass);
            let room = room_in(slots, item, max_stack, pass);
            &&& slots_wf(result)
            &&& left == remaining - (if remaining <= room {
                remaining
            } else {
                room
            })
            &&& pass == SlotPass::Take ==> quantity_in(result, item) + remaining == quantity_in(
                slots,
                item,
            ) + left
            &&& pass != SlotPass::Take ==> quantity_in(result, item) + left == quantity_in(
                slots,
                item,
            ) + remaining
            &&& other != item ==> quantity_in(result, other) == quantity_in(slots, other)
            &&& pass == SlotPass::FillExisting ==> room_in(
                result,
                item,
                max_stack,
                SlotPass::FillEmpty,
            ) == room_in(slots, item, max_stack, SlotPass::FillEmpty)
            &&& pass == SlotPass::Take ==> room == quantity_in(slots, item)
        }),
    decreases slots.len(),
{
    if slots.len() > 0 {
        let head = pass_slot(slots[0], item, remaining, max_stack, pass);
        assert(stack_wf(slots[0]));
        assert forall|i: int| 0 <= i < slots.drop_first().len() implies stack_wf(
            #[trigger] slots.drop_first()[i],
        ) by {
            assert(stack_wf(slots[i + 1]));
        }
        lemma_pass_slots_effect(slots.drop_first(), item, head.1, max_stack, pass, other);
        let tail = pass_slots(slots.drop_first(), item, head.1, max_stack, pass);
        let result = seq![head.0] + tail.0;
        assert(result[0] == head.0);
        assert(result.drop_first() =~= tail.0);
        assert forall|i: int| 0 <= i < result.len() implies stack_wf(#[trigger] result[i]) by {
            if i > 0 {
                assert(result[i] == tail.0[i - 1]);
            }
        }
    }
}

/// Whether the slots can take `quantity` more of `item`.
pub open spec fn fits(slots: Seq<Option<ItemStack>>, item: ItemId, quantity: nat, max_stack: u16) -> bool {
    quantity == 0 || (max_stack > 0 && capacity_for(slots, item, max_stack) >= quantity)
}

/// Adding leaves exactly what does not fit, conserves items, and touches no
/// other item kind.
pub proof fn lemma_add_to_slots(
    slots: Seq<Option<ItemStack>>,
    item: ItemId,
    quantity: nat,
    max_stack: u16,
    other: ItemId,
)
    requires
        slots_wf(slots),
    ensures
        ({
            let (result, left) = add_to_slots(slots, item, quantity, max_stack);
            let capacity = capacity_for(slots, item, max_stack);
            &&& slots_wf(result)
            &&& result.len() == slots.len()
            &&& left == quantity - (if quantity <= capacity {
                quantity
            } else {
                capacity
            })
            &&& quantity_in(result, item) + left == quantity_in(slots, item) + quantity
            &&& other != item ==> quantity_in(result, other) == quantity_in(slots, other)
        }),
{
    let existing = pass_slots(slots, item, quantity, max_stack, SlotPass::FillExisting);
    lemma_pass_slots_effect(slots, item, quantity, max_stack, SlotPass::FillExisting, other);
    lemma_pass_slots_effect(
        existing.0,
        item,
        existing.1,
        max_stack,
        SlotPass::FillEmpty,
        other,
    );
    lemma_pass_slots_len(slots, item, quantity, max_stack, SlotPass::FillExisting);
    lemma_pass_slots_len(existing.0, item, existing.1, max_stack, SlotPass::FillEmpty);
}

/// One slot's step of a sweep, computed.
fn pass_one(slot: Option<ItemStack>, item: ItemId, remaining: u16, max_stack: u16, pass: SlotPass) -> (result: (Option<ItemStack>, u16))
    requires
        stack_wf(slot),
    ensures
        result.0 == pass_slot(slot, item, remaining as nat, max_stack, pass).0,
        result.1 as nat == pass_slot(slot, item, remaining as nat, max_stack, pass).1,
{
    let (held, room): (u16, u16) = match pass {
        SlotPass::FillExisting => match slot {
            Some(stack) => if stack.item() == item && stack.quantity() < max_stack {
                (stack.quantity(), max_stack - stack.quantity())
            } else {
                (0, 0)
            },
            None => (0, 0),
        },
        SlotPass::FillEmpty => match slot {
            Some(_) => (0, 0),
            None => (0, max_stack),
        },
        SlotPass::Take => match slot {
            Some(stack) => if stack.item() == item {
                (stack.quantity(), stack.quantity())
            } else {
                (0, 0)
            },
            None => (0, 0),
        },
    };
    let moved = if remaining <= room {
        remaining
    } else {
        room
    };
    if moved == 0 {
        return (slot, remaining);
    }
    let quantity = match pass {
        SlotPass::FillExisting => held + moved,
        SlotPass::FillEmpty => moved,
        SlotPass::Take => held - moved,
    };
    (ItemStack::new(item, quantity), remaining - moved)
}

/// Runs a whole sweep over the slots in place and returns what is left to move.
fn run_pass(slots: &mut Vec<Option<ItemStack>>, item: ItemId, remaining: u16, max_stack: u16, pass: SlotPass) -> (left: u16)
    requires
        slots_wf(old(slots)@),
    ensures
        final(slots)@ == pass_slots(old(slots)@, item, remaining as nat, max_stack, pass).0,
        left as nat == pass_slots(old(slots)@, item, remaining as nat, max_stack, pass).1,
{
    let ghost original = slots@;
    let mut left = remaining;
    let mut index: usize = 0;
    assert(original.take(0) =~= Seq::<Option<ItemStack>>::empty());
    assert(original.skip(0) =~= original);
    while index < slots.len()
        invariant
            slots_wf(original),
            index <= original.len(),
            slots@.len() == original.len(),
            slots@ =~= pass_slots(original.take(index as int), item, remaining as nat, max_stack, pass).0
                + original.skip(index as int),
            left as nat == pass_slots(original.take(index as int), item, remaining as nat, max_stack, pass).1,
        decreases original.len() - index,
    {
        let ghost prefix = original.take(index as int);
        let ghost before = pass_slots(prefix, item, remaining as nat, max_stack, pass);
        proof {
            lemma_pass_slots_len(prefix, item, remaining as nat, max_stack, pass);
            assert(slots@[index as int] == original[index as int]);
            assert(stack_wf(original[index as int]));
        }
        let slot = slots[index];
        let (updated, rest) = pass_one(slot, item, left, max_stack, pass);
        slots.set(index, updated);
        left = rest;
        proof {
            let single = seq![original[index as int]];
            assert(original.take(index + 1) =~= prefix + single);
            lemma_pass_slots_append(prefix, single, item, remaining as nat, max_stack, pass);
            let step = pass_slots(single, item, before.1, max_stack, pass);
            assert(single[0] == original[index as int]);
            assert(single.drop_first() =~= Seq::<Option<ItemStack>>::empty());
            reveal_with_fuel(pass_slots, 2);
            assert(step.0 =~= seq![updated]);
            assert(step.1 == left as nat);
            assert(slots@ =~= (before.0 + step.0) + original.skip(index + 1));
        }
        index = index + 1;
    }
    assert(original.take(original.len() as int) =~= original);
    assert(slots@ =~= pass_slots(original, item, remaining as nat, max_stack, pass).0);
    left
}

/// Removes up to `quantity` items of a kind from the slots in slot order and
/// returns how many were removed.
fn remove_item_from_slots(slots: &mut Vec<Option<ItemStack>>, item: ItemId, quantity: u16) -> (removed: u16)
    requires
        slots_wf(old(slots)@),
    ensures
        final(slots)@ == pass_slots(old(slots)@, item, quantity as nat, 0, SlotPass::Take).0,
        removed == (if quantity <= quantity_in(old(slots)@, item) {
            quantity as nat
        } else {
            quantity_in(old(slots)@, item)
        }),
        slots_wf(final(slots)@),
        quantity_in(final(slots)@, item) == quantity_in(old(slots)@, item) - removed,
        forall|other: ItemId|
            other != item ==> #[trigger] quantity_in(final(slots)@, other) == quantity_in(
                old(slots)@,
                other,
            ),
{
    let ghost original = slots@;
    let left = run_pass(slots, item, quantity, 0, SlotPass::Take);
    proof {
        lemma_pass_slots_effect(original, item, quantity as nat, 0, SlotPass::Take, item);
        assert forall|other: ItemId| other != item implies #[trigger] quantity_in(slots@, other)
            == quantity_in(original, other) by {
            lemma_pass_slots_effect(original, item, quantity as nat, 0, SlotPass::Take, other);
        }
    }
    quantity - left
}


/// A primary click: merges the cursor into a stack of the same kind up to
/// the stack limit, and otherwise swaps slot and cursor.
pub open spec fn primary_click_result(
    slot: Option<ItemStack>,
    cursor: Option<ItemStack>,
    definitions: Seq<ItemDefinition>,
) -> (Option<ItemStack>, Option<ItemStack>) {
    match (slot, cursor) {
        (Some(held), Some(carried)) => if held.spec_item() != carried.spec_item() {
            (cursor, slot)
        } else {
            match max_stack_of(definitions, held.spec_item()) {
                None => (slot, cursor),
                Some(max_stack) => {
                    let room = if held.spec_quantity() < max_stack {
                        max_stack - held.spec_quantity()
                    } else {
                        0
                    };
                    let moved = if carried.spec_quantity() <= room {
                        carried.spec_quantity() as int
                    } else {
                        room
                    };
                    (
                        stack_of(held.spec_item(), (held.spec_quantity() + moved) as u16),
                        stack_of(held.spec_item(), (carried.spec_quantity() - moved) as u16),
                    )
                },
            }
        },
        _ => (cursor, slot),
    }
}

/// A secondary click: picks up half a stack (rounded up) with an empty
/// cursor, puts down a single item into an empty slot, or moves a single
/// item onto a stack of the same kind below its limit.
pub open spec fn secondary_click_result(
    slot: Option<ItemStack>,
    cursor: Option<ItemStack>,
    definitions: Seq<ItemDefinition>,
) -> (Option<ItemStack>, Option<ItemStack>) {
    match (slot, cursor) {
        (Some(held), None) => {
            let half = (held.spec_quantity() + 1) / 2;
            (
                stack_of(held.spec_item(), (held.spec_quantity() - half) as u16),
                stack_of(held.spec_item(), half as u16),
            )
        },
        (None, Some(carried)) => (
            stack_of(carried.spec_item(), 1),
            stack_of(carried.spec_item(), (carried.spec_quantity() - 1) as u16),
        ),
        (Some(held), Some(carried)) => if held.spec_item() == carried.spec_item() {
            match max_stack_of(definitions, held.spec_item()) {
                Some(max_stack) => if held.spec_quantity() < max_stack {
                    (
                        stack_of(held.spec_item(), (held.spec_quantity() + 1) as u16),
                        stack_of(held.spec_item(), (carried.spec_quantity() - 1) as u16),
                    )
                } else {
                    (slot, cursor)
                },
                None => (slot, cursor),
            }
        } else {
            (slot, cursor)
        },
        (None, None) => (slot, cursor),
    }
}

pub open spec fn click_result(
    slot: Option<ItemStack>,
    cursor: Option<ItemStack>,
    click: SlotClick,
    definitions: Seq<ItemDefinition>,
) -> (Option<ItemStack>, Option<ItemStack>) {
    match click {
        SlotClick::Primary => primary_click_result(slot, cursor, definitions),
        SlotClick::Secondary => secondary_click_result(slot, cursor, definitions),
    }
}

/// A secondary click with a carried stack onto a slot of the same item
/// below its stack limit moves exactly one item from the cursor to the
/// slot.
pub proof fn law_secondary_click_moves_one(
    held: ItemStack,
    carried: ItemStack,
    definitions: Seq<ItemDefinition>,
    max_stack: u16,
)
    requires
        held.spec_quantity() > 0,
        carried.spec_quantity() > 0,
        held.spec_item() == carried.spec_item(),
        max_stack_of(definitions, held.spec_item()) == Some(max_stack),
        held.spec_quantity() < max_stack,
    ensures
        ({
            let (slot, cursor) = click_result(Some(held), Some(carried), SlotClick::Secondary, definitions);
            let item = held.spec_item();
            &&& slot is Some && slot->0.spec_item() == item
            &&& slot_quantity(slot, item) == held.spec_quantity() + 1
            &&& slot_quantity(cursor, item) == carried.spec_quantity() - 1
            &&& cursor matches Some(rest) ==> rest.spec_item() == item
        }),
{
}

/// A secondary click with an empty cursor picks up half a stack, rounded
/// up, and leaves the rest; with an empty slot it puts down one carried
/// item.
pub proof fn law_secondary_click_halves_and_places(stack: ItemStack, definitions: Seq<ItemDefinition>)
    requires
        stack.spec_quantity() > 0,
    ensures
        ({
            let item = stack.spec_item();
            let q = stack.spec_quantity() as int;
            let (slot, cursor) = click_result(Some(stack), None, SlotClick::Secondary, definitions);
            &&& slot_quantity(cursor, item) == q - q / 2
            &&& slot_quantity(slot, item) == q / 2
            &&& slot_quantity(cursor, item) >= slot_quantity(slot, item)
        }),
        ({
            let item = stack.spec_item();
            let (slot, cursor) = click_result(None, Some(stack), SlotClick::Secondary, definitions);
            &&& slot is Some && slot->0.spec_item() == item && slot_quantity(slot, item) == 1
            &&& slot_quantity(cursor, item) == stack.spec_quantity() - 1
        }),
{
}

/// A click never creates or destroys items: for every kind, slot and cursor
/// together hold as many items before as after.
pub proof fn lemma_click_conserves(
    slot: Option<ItemStack>,
    cursor: Option<ItemStack>,
    click: SlotClick,
    definitions: Seq<ItemDefinition>,
    item: ItemId,
)
    requires
        stack_wf(slot),
        stack_wf(cursor),
    ensures
        ({
            let (new_slot, new_cursor) = click_result(slot, cursor, click, definitions);
            &&& stack_wf(new_slot)
            &&& stack_wf(new_cursor)
            &&& slot_quantity(new_slot, item) + slot_quantity(new_cursor, item) == slot_quantity(
                slot,
                item,
            ) + slot_quantity(cursor, item)
        }),
{
}

fn primary_click(slot: &mut Option<ItemStack>, cursor: &mut Option<ItemStack>, registry: &ItemRegistry)
    requires
        stack_wf(*old(slot)),
        stack_wf(*old(cursor)),
    ensures
        (*final(slot), *final(cursor)) == primary_click_result(*old(slot), *old(cursor), registry@),
{
    let (held, carried) = match (*slot, *cursor) {
        (Some(held), Some(carried)) => (held, carried),
        _ => {
            let previous = *slot;
            *slot = *cursor;
            *cursor = previous;
            return ;
        },
    };
    if held.item() != carried.item() {
        *slot = Some(carried);
        *cursor = Some(held);
        return ;
    }
    let max_stack = match registry.get(held.item()) {
        Some(definition) => definition.max_stack,
        None => return ,
    };
    let room = if held.quantity() < max_stack {
        max_stack - held.quantity()
    } else {
        0
    };
    let moved = if carried.quantity() <= room {
        carried.quantity()
    } else {
        room
    };
    *slot = ItemStack::new(held.item(), held.quantity() + moved);
    *cursor = ItemStack::new(held.item(), carried.quantity() - moved);
}

fn secondary_click(slot: &mut Option<ItemStack>, cursor: &mut Option<ItemStack>, registry: &ItemRegistry)
    requires
        stack_wf(*old(slot)),
        stack_wf(*old(cursor)),
    ensures
        (*final(slot), *final(cursor)) == secondary_click_result(*old(slot), *old(cursor), registry@),
{
    match (*slot, *cursor) {
        (Some(held), None) => {
            let half = held.quantity() / 2 + held.quantity() % 2;
            *slot = ItemStack::new(held.item(), held.quantity() - half);
            *cursor = ItemStack::new(held.item(), half);
        },
        (None, Some(carried)) => {
            *slot = ItemStack::new(carried.item(), 1);
            *cursor = ItemStack::new(carried.item(), carried.quantity() - 1);
        },
        (Some(held), Some(carried)) => {
            if held.item() == carried.item() {
                if let Some(definition) = registry.get(held.item()) {
                    if held.quantity() < definition.max_stack {
                        *slot = ItemStack::new(held.item(), held.quantity() + 1);
                        *cursor = ItemStack::new(held.item(), carried.quantity() - 1);
                    }
                }
            }
        },
        (None, None) => {},
    }
}

/// Applies a click to one slot of a slot vector.
fn click_slots(
    slots: &mut Vec<Option<ItemStack>>,
    index: usize,
    cursor: &mut Option<ItemStack>,
    click: SlotClick,
    registry: &ItemRegistry,
)
    requires
        slots_wf(old(slots)@),
        stack_wf(*old(cursor)),
    ensures
        index >= old(slots)@.len() ==> final(slots)@ == old(slots)@ && *final(cursor) == *old(
            cursor,
        ),
        index < old(slots)@.len() ==> ({
            let (new_slot, new_cursor) = click_result(
                old(slots)@[index as int],
                *old(cursor),
                click,
                registry@,
            );
            final(slots)@ == old(slots)@.update(index as int, new_slot) && *final(cursor)
                == new_cursor
        }),
        slots_wf(final(slots)@),
        stack_wf(*final(cursor)),
        forall|item: ItemId|
            #![trigger quantity_in(final(slots)@, item)]
            quantity_in(final(slots)@, item) + slot_quantity(*final(cursor), item) == quantity_in(
                old(slots)@,
                item,
            ) + slot_quantity(*old(cursor), item),
{
    if index >= slots.len() {
        return ;
    }
    let ghost original = slots@;
    let ghost carried = *cursor;
    let mut slot = slots[index];
    proof {
        assert(stack_wf(original[index as int]));
    }
    match click {
        SlotClick::Primary => primary_click(&mut slot, cursor, registry),
        SlotClick::Secondary => secondary_click(&mut slot, cursor, registry),
    }
    slots.set(index, slot);
    proof {
        lemma_click_conserves(original[index as int], carried, click, registry@, ItemId::DIRT_BLOCK);
        assert forall|i: int| 0 <= i < slots@.len() implies stack_wf(#[trigger] slots@[i]) by {
            if i != index {
                assert(slots@[i] == original[i]);
            }
        }
        assert forall|item: ItemId| #![trigger quantity_in(slots@, item)]
            quantity_in(slots@, item) + slot_quantity(*cursor, item) == quantity_in(original, item)
                + slot_quantity(carried, item) by {
            lemma_click_conserves(original[index as int], carried, click, registry@, item);
            lemma_quantity_update(original, index as int, slot, item);
        }
    }
}

/// A fixed-capacity item store for chests and machine furniture.
#[derive(Clone, Debug, PartialEq, Eq)]
pub struct ItemContainer {
    slots: Vec<Option<ItemStack>>,
}

impl View for ItemContainer {
    type V = Seq<Option<ItemStack>>;

    closed spec fn view(&self) -> Seq<Option<ItemStack>> {
        self.slots@
    }
}

/// Whether a source slot can give one item to a destination.
pub open spec fn gives_one(
    slot: Option<ItemStack>,
    destination: Seq<Option<ItemStack>>,
    definitions: Seq<ItemDefinition>,
) -> bool {
    match slot {
        Some(stack) => match max_stack_of(definitions, stack.spec_item()) {
            Some(max_stack) => fits(destination, stack.spec_item(), 1, max_stack),
            None => false,
        },
        None => false,
    }
}

impl ItemContainer {
    pub open spec fn wf(&self) -> bool {
        slots_wf(self@)
    }

    /// A container of `slot_count` empty slots.
    pub fn new(slot_count: usize) -> (container: Self)
        ensures
            container.wf(),
            container@ == Seq::new(slot_count as nat, |i: int| None::<ItemStack>),
    {
        let mut slots: Vec<Option<ItemStack>> = Vec::new();
        while slots.len() < slot_count
            invariant
                slots@.len() <= slot_count,
                forall|i: int| 0 <= i < slots@.len() ==> #[trigger] slots@[i] == None::<ItemStack>,
            decreases slot_count - slots@.len(),
        {
            slots.push(None);
        }
        let container = ItemContainer { slots };
        assert(container@ =~= Seq::new(slot_count as nat, |i: int| None::<ItemStack>));
        container
    }

    /// An empty chest.
    pub fn chest() -> (container: Self)
        ensures
            container.wf(),
            container@ == Seq::new(CHEST_SLOTS as nat, |i: int| None::<ItemStack>),
    {
        Self::new(CHEST_SLOTS)
    }

    pub fn slots(&self) -> (slots: &[Option<ItemStack>])
        ensures
            slots@ == self@,
    {
        self.slots.as_slice()
    }

    /// The stack in a slot; none for an empty or missing slot.
    pub fn slot(&self, index: usize) -> (stack: Option<ItemStack>)
        ensures
            stack == (if index < self@.len() {
                self@[index as int]
            } else {
                None
            }),
    {
        if index < self.slots.len() {
            self.slots[index]
        } else {
            None
        }
    }

    pub fn is_empty(&self) -> (empty: bool)
        ensures
            empty == (forall|i: int| 0 <= i < self@.len() ==> #[trigger] self@[i] is None),
    {
        let mut index: usize = 0;
        while index < self.slots.len()
            invariant
                index <= self@.len(),
                forall|i: int| 0 <= i < index ==> #[trigger] self@[i] is None,
            decreases self@.len() - index,
        {
            if self.slots[index].is_some() {
                return false;
            }
            index = index + 1;
        }
        true
    }

    /// Removes and returns the first stack in slot order.
    pub fn take_first_stack(&mut self) -> (stack: Option<ItemStack>)
        requires
            old(self).wf(),
        ensures
            final(self).wf(),
            stack is None ==> final(self)@ == old(self)@ && forall|i: int|
                0 <= i < old(self)@.len() ==> #[trigger] old(self)@[i] is None,
            stack is Some ==> exists|index: int|
                0 <= index < old(self)@.len() && old(self)@[index] == stack && (forall|i: int|
                    0 <= i < index ==> #[trigger] old(self)@[i] is None) && final(self)@ == old(
                    self,
                )@.update(index, None),
    {
        let mut index: usize = 0;
        while index < self.slots.len()
            invariant
                index <= self@.len(),
                self@ == old(self)@,
                slots_wf(old(self)@),
                forall|i: int| 0 <= i < index ==> #[trigger] self@[i] is None,
            decreases self@.len() - index,
        {
            let slot = self.slots[index];
            if slot.is_some() {
                self.slots.set(index, None);
                proof {
                    assert forall|i: int| 0 <= i < self@.len() implies stack_wf(#[trigger] self@[i]) by {
                        if i != index {
                            assert(self@[i] == old(self)@[i]);
                        }
                    }
                }
                return slot;
            }
            index = index + 1;
        }
        None
    }

    /// Removes and returns the stack in one slot.
    pub fn take_stack(&mut self, index: usize) -> (stack: Option<ItemStack>)
        requires
            old(self).wf(),
        ensures
            final(self).wf(),
            index < old(self)@.len() ==> stack == old(self)@[index as int] && final(self)@ == old(
                self,
            )@.update(index as int, None),
            index >= old(self)@.len() ==> stack is None && final(self)@ == old(self)@,
    {
        if index >= self.slots.len() {
            return None;
        }
        let stack = self.slots[index];
        self.slots.set(index, None);
        proof {
            assert forall|i: int| 0 <= i < self@.len() implies stack_wf(#[trigger] self@[i]) by {
                if i != index {
                    assert(self@[i] == old(self)@[i]);
                }
            }
        }
        stack
    }

    /// Removes up to `quantity` items of a kind in slot order and returns how
    /// many were removed.
    pub fn remove_item(&mut self, item: ItemId, quantity: u16) -> (removed: u16)
        requires
            old(self).wf(),
        ensures
            final(self).wf(),
            final(self)@ == pass_slots(old(self)@, item, quantity as nat, 0, SlotPass::Take).0,
            removed == (if quantity <= quantity_in(old(self)@, item) {
                quantity as nat
            } else {
                quantity_in(old(self)@, item)
            }),
            quantity_in(final(self)@, item) == quantity_in(old(self)@, item) - removed,
            forall|other: ItemId|
                other != item ==> #[trigger] quantity_in(final(self)@, other) == quantity_in(
                    old(self)@,
                    other,
                ),
    {
        remove_item_from_slots(&mut self.slots, item, quantity)
    }

    /// Whether the whole quantity fits with the given stack limit.
    pub fn can_add(&self, item: ItemId, quantity: u16, max_stack: u16) -> (fits_all: bool)
        requires
            quantity > 0 && max_stack > 0 ==> capacity_for(self@, item, max_stack) <= u32::MAX,
        ensures
            fits_all == fits(self@, item, quantity as nat, max_stack),
    {
        if quantity == 0 {
            return true;
        }
        if max_stack == 0 {
            return false;
        }
        let mut capacity: u32 = 0;
        let mut index: usize = 0;
        let ghost slots = self@;
        assert(slots.take(0) =~= Seq::<Option<ItemStack>>::empty());
        while index < self.slots.len()
            invariant
                slots == self@,
                index <= slots.len(),
                capacity == capacity_for(slots.take(index as int), item, max_stack),
                capacity_for(slots, item, max_stack) <= u32::MAX,
            decreases slots.len() - index,
        {
            let ghost prefix = slots.take(index as int);
            let ghost single = seq![slots[index as int]];
            proof {
                assert(slots.take(index + 1) =~= prefix + single);
                assert(slots =~= slots.take(index + 1) + slots.skip(index + 1));
                lemma_room_append(prefix, single, item, max_stack, SlotPass::FillExisting);
                lemma_room_append(prefix, single, item, max_stack, SlotPass::FillEmpty);
                lemma_room_append(slots.take(index + 1), slots.skip(index + 1), item, max_stack, SlotPass::FillExisting);
                lemma_room_append(slots.take(index + 1), slots.skip(index + 1), item, max_stack, SlotPass::FillEmpty);
                assert(single.drop_first() =~= Seq::<Option<ItemStack>>::empty());
                reveal_with_fuel(room_in, 2);
            }
            let room: u32 = match self.slots[index] {
                Some(stack) => if stack.item() == item {
                    if stack.quantity() < max_stack {
                        (max_stack - stack.quantity()) as u32
                    } else {
                        0
                    }
                } else {
                    0
                },
                None => max_stack as u32,
            };
            capacity = capacity + room;
            index = index + 1;
        }
        assert(slots.take(slots.len() as int) =~= slots);
        capacity >= quantity as u32
    }

    /// Adds the complete quantity, or leaves the container unchanged when it
    /// does not all fit.
    pub fn try_add(&mut self, item: ItemId, quantity: u16, max_stack: u16) -> (added: bool)
        requires
            old(self).wf(),
            quantity > 0 && max_stack > 0 ==> capacity_for(old(self)@, item, max_stack) <= u32::MAX,
        ensures
            final(self).wf(),
            final(self)@.len() == old(self)@.len(),
            added == fits(old(self)@, item, quantity as nat, max_stack),
            added ==> final(self)@ == add_to_slots(old(self)@, item, quantity as nat, max_stack).0,
            added ==> quantity_in(final(self)@, item) == quantity_in(old(self)@, item) + quantity,
            !added ==> final(self)@ == old(self)@,
            forall|other: ItemId|
                other != item ==> #[trigger] quantity_in(final(self)@, other) == quantity_in(
                    old(self)@,
                    other,
                ),
    {
        if !self.can_add(item, quantity, max_stack) {
            return false;
        }
        let ghost original = self@;
        let left = run_pass(&mut self.slots, item, quantity, max_stack, SlotPass::FillExisting);
        proof {
            lemma_pass_slots_effect(original, item, quantity as nat, max_stack, SlotPass::FillExisting, item);
        }
        let unplaced = run_pass(&mut self.slots, item, left, max_stack, SlotPass::FillEmpty);
        proof {
            lemma_add_to_slots(original, item, quantity as nat, max_stack, item);
            assert forall|other: ItemId| other != item implies #[trigger] quantity_in(self@, other)
                == quantity_in(original, other) by {
                lemma_add_to_slots(original, item, quantity as nat, max_stack, other);
            }
            if quantity == 0 {
                lemma_pass_slots_nothing(original, item, max_stack, SlotPass::FillExisting);
                lemma_pass_slots_nothing(original, item, max_stack, SlotPass::FillEmpty);
            }
        }
        true
    }

    /// Moves one item from the first source slot whose item fits into the
    /// destination; both stay unchanged when no slot can give one.
    pub fn transfer_one_to(&mut self, destination: &mut Self, registry: &ItemRegistry) -> (moved: bool)
        requires
            old(self).wf(),
            old(destination).wf(),
            old(destination)@.len() * (u16::MAX as int) <= u32::MAX,
        ensures
            final(self).wf(),
            final(destination).wf(),
            final(self)@.len() == old(self)@.len(),
            final(destination)@.len() == old(destination)@.len(),
            moved == exists|i: int|
                0 <= i < old(self)@.len() && gives_one(
                    #[trigger] old(self)@[i],
                    old(destination)@,
                    registry@,
                ),
            !moved ==> final(self)@ == old(self)@ && final(destination)@ == old(destination)@,
            moved ==> exists|index: int|
                0 <= index < old(self)@.len() && gives_one(
                    #[trigger] old(self)@[index],
                    old(destination)@,
                    registry@,
                ) && (forall|i: int|
                    0 <= i < index ==> !gives_one(
                        #[trigger] old(self)@[i],
                        old(destination)@,
                        registry@,
                    )) && ({
                    let stack = old(self)@[index]->0;
                    &&& final(self)@ == old(self)@.update(
                        index,
                        stack_of(stack.spec_item(), (stack.spec_quantity() - 1) as u16),
                    )
                    &&& final(destination)@ == add_to_slots(
                        old(destination)@,
                        stack.spec_item(),
                        1,
                        max_stack_of(registry@, stack.spec_item())->0,
                    ).0
                }),
    {
        let mut index: usize = 0;
        while index < self.slots.len()
            invariant
                index <= self@.len(),
                self@ == old(self)@,
                destination@ == old(destination)@,
                self.wf(),
                destination.wf(),
                old(destination)@.len() * (u16::MAX as int) <= u32::MAX,
                forall|i: int| 0 <= i < index ==> !gives_one(#[trigger] self@[i], destination@, registry@),
            decreases self@.len() - index,
        {
            if let Some(stack) = self.slots[index] {
                if let Some(definition) = registry.get(stack.item()) {
                    let max_stack = definition.max_stack;
                    proof {
                        lemma_capacity_bound(destination@, stack.item(), max_stack);
                        assert(max_stack <= u16::MAX);
                        assert(destination@.len() * max_stack <= destination@.len() * (u16::MAX as int)) by (nonlinear_arith)
                            requires max_stack <= u16::MAX;
                    }
                    if destination.try_add(stack.item(), 1, max_stack) {
                        proof {
                            assert(stack_wf(self@[index as int]));
                        }
                        self.slots.set(index, ItemStack::new(stack.item(), stack.quantity() - 1));
                        proof {
                            assert(gives_one(old(self)@[index as int], old(destination)@, registry@));
                            assert forall|i: int| 0 <= i < self@.len() implies stack_wf(#[trigger] self@[i]) by {
                                if i != index {
                                    assert(self@[i] == old(self)@[i]);
                                }
                            }
                        }
                        return true;
                    }
                }
            }
            index = index + 1;
        }
        false
    }

    /// Applies a primary or secondary click to one slot with the cursor stack.
    pub fn click_slot(
        &mut self,
        index: usize,
        cursor: &mut Option<ItemStack>,
        click: SlotClick,
        registry: &ItemRegistry,
    )
        requires
            old(self).wf(),
            stack_wf(*old(cursor)),
        ensures
            final(self).wf(),
            stack_wf(*final(cursor)),
            index >= old(self)@.len() ==> final(self)@ == old(self)@ && *final(cursor) == *old(
                cursor,
            ),
            index < old(self)@.len() ==> ({
                let (new_slot, new_cursor) = click_result(
                    old(self)@[index as int],
                    *old(cursor),
                    click,
                    registry@,
                );
                final(self)@ == old(self)@.update(index as int, new_slot) && *final(cursor)
                    == new_cursor
            }),
            forall|item: ItemId|
                #![trigger quantity_in(final(self)@, item)]
                quantity_in(final(self)@, item) + slot_quantity(*final(cursor), item)
                    == quantity_in(old(self)@, item) + slot_quantity(*old(cursor), item),
    {
        click_slots(&mut self.slots, index, cursor, click, registry);
    }

    /// Replaces one slot; false when the slot does not exist.
    pub fn set_slot(&mut self, index: usize, stack: Option<ItemStack>) -> (set: bool)
        requires
            old(self).wf(),
            stack_wf(stack),
        ensures
            final(self).wf(),
            set == (index < old(self)@.len()),
            set ==> final(self)@ == old(self)@.update(index as int, stack),
            !set ==> final(self)@ == old(self)@,
    {
        if index >= self.slots.len() {
            return false;
        }
        self.slots.set(index, stack);
        proof {
            assert forall|i: int| 0 <= i < self@.len() implies stack_wf(#[trigger] self@[i]) by {
                if i != index {
                    assert(self@[i] == old(self)@[i]);
                }
            }
        }
        true
    }
}

/// The capacity for one kind is at most a full stack per slot.
pub proof fn lemma_capacity_bound(slots: Seq<Option<ItemStack>>, item: ItemId, max_stack: u16)
    ensures
        capacity_for(slots, item, max_stack) <= slots.len() * max_stack,
    decreases slots.len(),
{
    if slots.len() > 0 {
        lemma_capacity_bound(slots.drop_first(), item, max_stack);
        assert(slots.len() * max_stack == slots.drop_first().len() * max_stack + max_stack) by (nonlinear_arith)
            requires slots.len() == slots.drop_first().len() + 1;
    }
}

/// The player's slots, the first row of which is the hotbar, and the
/// selected hotbar slot.
#[derive(Debug, PartialEq, Eq)]
pub struct Inventory {
    slots: Vec<Option<ItemStack>>,
    selected_hotbar: usize,
}

/// Moving one item between two stores conserves items: whichever slot gives
/// the item, the two stores together hold as many of every kind as before.
pub proof fn law_transfer_conserves_items(
    source: Seq<Option<ItemStack>>,
    destination: Seq<Option<ItemStack>>,
    definitions: Seq<ItemDefinition>,
    index: int,
    kind: ItemId,
)
    requires
        slots_wf(source),
        slots_wf(destination),
        0 <= index < source.len(),
        gives_one(source[index], destination, definitions),
    ensures
        ({
            let stack = source[index]->0;
            let source_after = source.update(index, stack_of(stack.spec_item(), (stack.spec_quantity() - 1) as u16));
            let destination_after = add_to_slots(
                destination,
                stack.spec_item(),
                1,
                max_stack_of(definitions, stack.spec_item())->0,
            ).0;
            quantity_in(source_after, kind) + quantity_in(destination_after, kind) == quantity_in(source, kind)
                + quantity_in(destination, kind)
        }),
{
    let stack = source[index]->0;
    let item = stack.spec_item();
    let remaining = stack_of(item, (stack.spec_quantity() - 1) as u16);
    let max_stack = max_stack_of(definitions, item)->0;
    lemma_quantity_update(source, index, remaining, kind);
    lemma_add_to_slots(destination, item, 1, max_stack, kind);
}

/// Whether saved slots and a selection fit the inventory layout.
pub open spec fn saved_inventory_accepted(slots: Seq<Option<ItemStack>>, selected_hotbar: usize) -> bool {
    slots.len() == INVENTORY_SLOTS && selected_hotbar < HOTBAR_SLOTS
}

/// Saving and restoring gives the same inventory back: the slots and the
/// selection of a valid inventory are always accepted.
pub proof fn law_saved_inventory_restores(inventory: Inventory)
    requires
        inventory.wf(),
    ensures
        saved_inventory_accepted(inventory.spec_slots(), inventory.spec_selected_hotbar()),
        slots_wf(inventory.spec_slots()),
{
}

impl Inventory {
    pub closed spec fn spec_slots(&self) -> Seq<Option<ItemStack>> {
        self.slots@
    }

    pub closed spec fn spec_selected_hotbar(&self) -> usize {
        self.selected_hotbar
    }

    /// A fixed number of well-formed slots and a selection inside the hotbar.
    pub open spec fn wf(&self) -> bool {
        &&& self.spec_slots().len() == INVENTORY_SLOTS
        &&& slots_wf(self.spec_slots())
        &&& self.spec_selected_hotbar() < HOTBAR_SLOTS
    }

    /// An empty inventory with the first hotbar slot selected.
    pub fn new() -> (inventory: Self)
        ensures
            inventory.wf(),
            inventory.spec_slots() == Seq::new(INVENTORY_SLOTS as nat, |i: int| None::<ItemStack>),
            inventory.spec_selected_hotbar() == 0,
    {
        let container = ItemContainer::new(INVENTORY_SLOTS);
        Inventory { slots: container.slots, selected_hotbar: 0 }
    }

    /// Restores saved slots, refusing a slot count or selection that this
    /// layout cannot hold.
    pub fn from_saved_slots(slots: Vec<Option<ItemStack>>, selected_hotbar: usize) -> (inventory: Option<Self>)
        requires
            slots_wf(slots@),
        ensures
            inventory is Some == saved_inventory_accepted(slots@, selected_hotbar),
            inventory matches Some(inventory) ==> inventory.wf() && inventory.spec_slots() == slots@
                && inventory.spec_selected_hotbar() == selected_hotbar,
    {
        if slots.len() == INVENTORY_SLOTS && selected_hotbar < HOTBAR_SLOTS {
            Some(Inventory { slots, selected_hotbar })
        } else {
            None
        }
    }

    /// A new prospector's kit: a pickaxe, 100 rope and 20 glow sticks, each
    /// added as by `add`. The kit must fit the registry's stack limits.
    pub fn starter(registry: &ItemRegistry) -> (inventory: Self)
        requires
            starter_kit(registry@) is Some,
        ensures
            inventory.wf(),
            inventory.spec_selected_hotbar() == 0,
            inventory.spec_slots() == starter_kit(registry@)->0,
    {
        let mut inventory = Self::new();
        let _pickaxes = inventory.add(ItemId::PICKAXE, 1, registry);
        let _rope = inventory.add(ItemId::ROPE, 100, registry);
        let _glow_sticks = inventory.add(ItemId::GLOW_STICK, 20, registry);
        inventory
    }

    pub fn slots(&self) -> (slots: &[Option<ItemStack>])
        ensures
            slots@ == self.spec_slots(),
    {
        self.slots.as_slice()
    }

    /// The stack in a slot; none for an empty or missing slot.
    pub fn slot(&self, index: usize) -> (stack: Option<ItemStack>)
        ensures
            stack == (if index < self.spec_slots().len() {
                self.spec_slots()[index as int]
            } else {
                None
            }),
    {
        if index < self.slots.len() {
            self.slots[index]
        } else {
            None
        }
    }

    pub fn selected_hotbar(&self) -> (selected: usize)
        ensures
            selected == self.spec_selected_hotbar(),
    {
        self.selected_hotbar
    }

    /// Selects a hotbar slot, clamping to the last one.
    pub fn select_hotbar(&mut self, index: usize)
        requires
            old(self).wf(),
        ensures
            final(self).wf(),
            final(self).spec_slots() == old(self).spec_slots(),
            final(self).spec_selected_hotbar() == (if index < HOTBAR_SLOTS {
                index
            } else {
                (HOTBAR_SLOTS - 1) as usize
            }),
    {
        self.selected_hotbar = if index < HOTBAR_SLOTS - 1 {
            index
        } else {
            HOTBAR_SLOTS - 1
        };
    }

    /// Moves the selection by `offset` slots, wrapping around the hotbar.
    pub fn cycle_hotbar(&mut self, offset: i32)
        requires
            old(self).wf(),
            old(self).spec_selected_hotbar() + offset <= i32::MAX,
        ensures
            final(self).wf(),
            final(self).spec_slots() == old(self).spec_slots(),
            final(self).spec_selected_hotbar() == (old(self).spec_selected_hotbar() + offset) % (
            HOTBAR_SLOTS as int),
    {
        let position: i64 = self.selected_hotbar as i64 + offset as i64;
        let count: i64 = HOTBAR_SLOTS as i64;
        let wrapped: i64 = if position >= 0 {
            position % count
        } else {
            let below: i64 = (-position) % count;
            if below == 0 {
                0
            } else {
                count - below
            }
        };
        proof {
            if position < 0 {
                let p = position as int;
                let b = (-p) % 10;
                assert((-p) == ((-p) / 10) * 10 + b) by (nonlinear_arith)
                    requires 0 <= -p, 0 <= b < 10, b == (-p) % 10;
                if b == 0 {
                    assert(p == (-((-p) / 10)) * 10) by (nonlinear_arith)
                        requires (-p) == ((-p) / 10) * 10;
                    vstd::arithmetic::div_mod::lemma_mod_multiples_basic(-((-p) / 10), 10);
                } else {
                    assert(p == (-((-p) / 10) - 1) * 10 + (10 - b)) by (nonlinear_arith)
                        requires (-p) == ((-p) / 10) * 10 + b;
                    vstd::arithmetic::div_mod::lemma_fundamental_div_mod_converse(p, 10, -((-p) / 10) - 1, 10 - b);
                }
            }
        }
        self.selected_hotbar = wrapped as usize;
    }

    /// The stack in the selected hotbar slot.
    pub fn selected_stack(&self) -> (stack: Option<ItemStack>)
        requires
            self.wf(),
        ensures
            stack == self.spec_slots()[self.spec_selected_hotbar() as int],
    {
        self.slot(self.selected_hotbar)
    }

    /// How many items of a kind the inventory holds.
    pub fn quantity(&self, item: ItemId) -> (total: u32)
        requires
            self.wf(),
        ensures
            total == quantity_in(self.spec_slots(), item),
    {
        let ghost slots = self.slots@;
        let mut total: u32 = 0;
        let mut index: usize = 0;
        assert(slots.take(0) =~= Seq::<Option<ItemStack>>::empty());
        while index < self.slots.len()
            invariant
                slots == self.slots@,
                slots.len() == INVENTORY_SLOTS,
                index <= slots.len(),
                total == quantity_in(slots.take(index as int), item),
                total <= index * (u16::MAX as int),
            decreases slots.len() - index,
        {
            let ghost prefix = slots.take(index as int);
            let ghost single = seq![slots[index as int]];
            proof {
                assert(slots.take(index + 1) =~= prefix + single);
                lemma_quantity_append(prefix, single, item);
                assert(single.drop_first() =~= Seq::<Option<ItemStack>>::empty());
                reveal_with_fuel(quantity_in, 2);
            }
            let held: u32 = match self.slots[index] {
                Some(stack) => if stack.item() == item {
                    stack.quantity() as u32
                } else {
                    0
                },
                None => 0,
            };
            total = total + held;
            index = index + 1;
        }
        assert(slots.take(slots.len() as int) =~= slots);
        total
    }

    /// Adds as much as fits and returns the quantity that did not fit.
    /// Existing stacks of the item are topped up first, in slot order, then
    /// empty slots are filled in slot order.
    pub fn add(&mut self, item: ItemId, quantity: u16, registry: &ItemRegistry) -> (left: u16)
        requires
            old(self).wf(),
        ensures
            final(self).wf(),
            final(self).spec_selected_hotbar() == old(self).spec_selected_hotbar(),
            match max_stack_of(registry@, item) {
                None => left == quantity && final(self).spec_slots() == old(self).spec_slots(),
                Some(max_stack) => ({
                    let capacity = capacity_for(old(self).spec_slots(), item, max_stack);
                    &&& (final(self).spec_slots(), left as nat) == add_to_slots(
                        old(self).spec_slots(),
                        item,
                        quantity as nat,
                        max_stack,
                    )
                    &&& left == quantity - (if quantity <= capacity {
                        quantity as int
                    } else {
                        capacity as int
                    })
                }),
            },
            quantity_in(final(self).spec_slots(), item) + left == quantity_in(
                old(self).spec_slots(),
                item,
            ) + quantity,
            forall|other: ItemId|
                other != item ==> #[trigger] quantity_in(final(self).spec_slots(), other)
                    == quantity_in(old(self).spec_slots(), other),
    {
        let max_stack = match registry.get(item) {
            Some(definition) => definition.max_stack,
            None => return quantity,
        };
        let ghost original = self.slots@;
        let rest = run_pass(&mut self.slots, item, quantity, max_stack, SlotPass::FillExisting);
        proof {
            lemma_pass_slots_effect(original, item, quantity as nat, max_stack, SlotPass::FillExisting, item);
        }
        let left = run_pass(&mut self.slots, item, rest, max_stack, SlotPass::FillEmpty);
        proof {
            lemma_add_to_slots(original, item, quantity as nat, max_stack, item);
            assert forall|other: ItemId| other != item implies #[trigger] quantity_in(self.slots@, other)
                == quantity_in(original, other) by {
                lemma_add_to_slots(original, item, quantity as nat, max_stack, other);
            }
        }
        left
    }

    /// Removes up to `quantity` items from one slot and returns how many were
    /// removed.
    pub fn remove_from_slot(&mut self, index: usize, quantity: u16) -> (removed: u16)
        requires
            old(self).wf(),
        ensures
            final(self).wf(),
            final(self).spec_selected_hotbar() == old(self).spec_selected_hotbar(),
            index >= INVENTORY_SLOTS || old(self).spec_slots()[index as int] is None ==> removed == 0
                && final(self).spec_slots() == old(self).spec_slots(),
            index < INVENTORY_SLOTS && old(self).spec_slots()[index as int] is Some ==> ({
                let stack = old(self).spec_slots()[index as int]->0;
                &&& removed == (if quantity <= stack.spec_quantity() {
                    quantity
                } else {
                    stack.spec_quantity()
                })
                &&& final(self).spec_slots() == old(self).spec_slots().update(
                    index as int,
                    stack_of(stack.spec_item(), (stack.spec_quantity() - removed) as u16),
                )
            }),
    {
        if index >= self.slots.len() {
            return 0;
        }
        let stack = match self.slots[index] {
            Some(stack) => stack,
            None => return 0,
        };
        let removed = if quantity <= stack.quantity() {
            quantity
        } else {
            stack.quantity()
        };
        self.slots.set(index, ItemStack::new(stack.item(), stack.quantity() - removed));
        proof {
            assert forall|i: int| 0 <= i < self.slots@.len() implies stack_wf(#[trigger] self.slots@[i]) by {
                if i != index {
                    assert(self.slots@[i] == old(self).slots@[i]);
                }
            }
        }
        removed
    }

    /// Removes up to `quantity` items of a kind in slot order and returns how
    /// many were removed.
    pub fn remove_item(&mut self, item: ItemId, quantity: u16) -> (removed: u16)
        requires
            old(self).wf(),
        ensures
            final(self).wf(),
            final(self).spec_selected_hotbar() == old(self).spec_selected_hotbar(),
            final(self).spec_slots() == pass_slots(
                old(self).spec_slots(),
                item,
                quantity as nat,
                0,
                SlotPass::Take,
            ).0,
            removed == (if quantity <= quantity_in(old(self).spec_slots(), item) {
                quantity as nat
            } else {
                quantity_in(old(self).spec_slots(), item)
            }),
            quantity_in(final(self).spec_slots(), item) == quantity_in(old(self).spec_slots(), item)
                - removed,
            forall|other: ItemId|
                other != item ==> #[trigger] quantity_in(final(self).spec_slots(), other)
                    == quantity_in(old(self).spec_slots(), other),
    {
        let ghost original = self.slots@;
        let removed = remove_item_from_slots(&mut self.slots, item, quantity);
        proof {
            lemma_pass_slots_len(original, item, quantity as nat, 0, SlotPass::Take);
        }
        removed
    }

    /// Removes up to `quantity` items from the selected hotbar slot.
    pub fn consume_selected(&mut self, quantity: u16) -> (removed: u16)
        requires
            old(self).wf(),
        ensures
            final(self).wf(),
            final(self).spec_selected_hotbar() == old(self).spec_selected_hotbar(),
            old(self).spec_slots()[old(self).spec_selected_hotbar() as int] is None ==> removed == 0
                && final(self).spec_slots() == old(self).spec_slots(),
            old(self).spec_slots()[old(self).spec_selected_hotbar() as int] is Some ==> ({
                let index = old(self).spec_selected_hotbar() as int;
                let stack = old(self).spec_slots()[index]->0;
                &&& removed == (if quantity <= stack.spec_quantity() {
                    quantity
                } else {
                    stack.spec_quantity()
                })
                &&& final(self).spec_slots() == old(self).spec_slots().update(
                    index,
                    stack_of(stack.spec_item(), (stack.spec_quantity() - removed) as u16),
                )
            }),
    {
        self.remove_from_slot(self.selected_hotbar, quantity)
    }

    /// Applies a primary or secondary click to one slot with the cursor stack.
    pub fn click_slot(
        &mut self,
        index: usize,
        cursor: &mut Option<ItemStack>,
        click: SlotClick,
        registry: &ItemRegistry,
    )
        requires
            old(self).wf(),
            stack_wf(*old(cursor)),
        ensures
            final(self).wf(),
            stack_wf(*final(cursor)),
            final(self).spec_selected_hotbar() == old(self).spec_selected_hotbar(),
            index >= INVENTORY_SLOTS ==> final(self).spec_slots() == old(self).spec_slots()
                && *final(cursor) == *old(cursor),
            index < INVENTORY_SLOTS ==> ({
                let (new_slot, new_cursor) = click_result(
                    old(self).spec_slots()[index as int],
                    *old(cursor),
                    click,
                    registry@,
                );
                final(self).spec_slots() == old(self).spec_slots().update(index as int, new_slot)
                    && *final(cursor) == new_cursor
            }),
            forall|item: ItemId|
                #![trigger quantity_in(final(self).spec_slots(), item)]
                quantity_in(final(self).spec_slots(), item) + slot_quantity(*final(cursor), item)
                    == quantity_in(old(self).spec_slots(), item) + slot_quantity(*old(cursor), item),
    {
        click_slots(&mut self.slots, index, cursor, click, registry);
    }
}

/// A slot-by-slot copy of a slot vector.
fn copy_slots(slots: &Vec<Option<ItemStack>>) -> (copy: Vec<Option<ItemStack>>)
    ensures
        copy@ == slots@,
{
    let mut copy: Vec<Option<ItemStack>> = Vec::new();
    let mut index: usize = 0;
    while index < slots.len()
        invariant
            index <= slots@.len(),
            copy@ == slots@.take(index as int),
        decreases slots@.len() - index,
    {
        copy.push(slots[index]);
        index = index + 1;
        assert(copy@ =~= slots@.take(index as int));
    }
    assert(slots@.take(slots@.len() as int) =~= slots@);
    copy
}

impl Clone for Inventory {
    fn clone(&self) -> (copy: Self)
        ensures
            copy.spec_slots() == self.spec_slots(),
            copy.spec_selected_hotbar() == self.spec_selected_hotbar(),
    {
        Inventory { slots: copy_slots(&self.slots), selected_hotbar: self.selected_hotbar }
    }
}

impl Default for Inventory {
    fn default() -> (inventory: Self)
        ensures
            inventory.wf(),
            inventory.spec_slots() == Seq::new(INVENTORY_SLOTS as nat, |i: int| None::<ItemStack>),
            inventory.spec_selected_hotbar() == 0,
    {
        Self::new()
    }
}

/// The starting kit added in order to an empty inventory, when every item
/// is registered and everything fits.
pub open spec fn starter_kit(definitions: Seq<ItemDefinition>) -> Option<Seq<Option<ItemStack>>> {
    match (
        max_stack_of(definitions, ItemId::PICKAXE),
        max_stack_of(definitions, ItemId::ROPE),
        max_stack_of(definitions, ItemId::GLOW_STICK),
    ) {
        (Some(pickaxe_stack), Some(rope_stack), Some(glow_stack)) => {
            let empty = Seq::new(INVENTORY_SLOTS as nat, |i: int| None::<ItemStack>);
            let first = add_to_slots(empty, ItemId::PICKAXE, 1, pickaxe_stack);
            let second = add_to_slots(first.0, ItemId::ROPE, 100, rope_stack);
            let third = add_to_slots(second.0, ItemId::GLOW_STICK, 20, glow_stack);
            if first.1 == 0 && second.1 == 0 && third.1 == 0 {
                Some(third.0)
            } else {
                None
            }
        },
        _ => None,
    }
}

} // verus!
