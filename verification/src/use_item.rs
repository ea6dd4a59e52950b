use vstd::prelude::*;
use crate::components::Health;
use crate::furniture::{footprint, footprint_spec, starts_active_spec};
use crate::inventory::{Inventory, add_to_slots};
use crate::items::{ItemId, ItemRegistry, ItemStack, max_stack_of, stack_of};
use crate::terrain::{FurnitureObject, ObjectTypeId, TilePos};
use crate::world::{EMPTY_TILE, MAX_WORLD_CELLS, World, WorldObject, footprints_overlap, index_of, object_at_spec};

verus! {

/// What a thrown item becomes.
#[derive(Clone, Copy, Debug, PartialEq, Eq, Structural)]
pub enum ProjectileKind {
    Bomb,
}

/// The outcome of using the selected item.
#[derive(Clone, Copy, Debug, PartialEq, Eq, Structural)]
pub enum ItemUseResult {
    NoItem,
    OutOfReach,
    Blocked,
    Placed(TilePos),
    Removed(TilePos),
    Consumed,
    Thrown(ProjectileKind),
    Unsupported,
}

/// Whether and why the selected item can act on the aimed tile.
#[derive(Clone, Copy, Debug, PartialEq, Eq, Structural)]
pub enum ItemTargetStatus {
    NotTargeted,
    Valid(TilePos),
    OutOfReach(TilePos),
    Blocked(TilePos),
}

/// The target of a valid status, or the use result that explains why there
/// is none.
pub fn valid_target_or_result(status: ItemTargetStatus) -> (result: Result<TilePos, ItemUseResult>)
    ensures
        result == (match status {
            ItemTargetStatus::Valid(target) => Ok(target),
            ItemTargetStatus::OutOfReach(_) => Err(ItemUseResult::OutOfReach),
            _ => Err(ItemUseResult::Blocked),
        }),
{
    match status {
        ItemTargetStatus::Valid(target) => Ok(target),
        ItemTargetStatus::OutOfReach(_) => Err(ItemUseResult::OutOfReach),
        ItemTargetStatus::Blocked(_) | ItemTargetStatus::NotTargeted => Err(ItemUseResult::Blocked),
    }
}

/// The anchor of furniture placed from the aimed tile, which is its
/// bottom-left cell; none when the footprint would rise above the world.
pub fn furniture_anchor_from_target(object_type: ObjectTypeId, target: TilePos) -> (anchor: Option<TilePos>)
    ensures
        anchor == (if target.y >= footprint_spec(object_type).1 - 1 {
            Some(TilePos { x: target.x, y: (target.y - (footprint_spec(object_type).1 - 1)) as u32 })
        } else {
            None
        }),
{
    let (_, height) = footprint(object_type);
    let rise = height as u32 - 1;
    if target.y < rise {
        return None;
    }
    Some(TilePos::new(target.x, target.y - rise))
}


/// What using an item does.
#[derive(Clone, Copy, Debug, PartialEq, Eq, Structural)]
pub enum ItemAction {
    /// Places a tile in the foreground or the background.
    PlaceTile { foreground: bool, tile: u16 },
    /// Places a piece of furniture.
    PlaceFurniture(FurnitureObject),
    /// Digs out a tile, or picks up the furniture on it.
    RemoveTile { foreground: bool },
    /// Restores health.
    Heal(u16),
    /// Throws the item.
    Throw(ProjectileKind),
    /// Hangs or extends a rope. Where a rope goes is decided by rope rules
    /// that the world model here does not hold, so within reach the item
    /// has no target and its use is unsupported.
    PlaceRope,
    /// Hangs or extends a powered cable; as with rope, the cable rules are
    /// not part of the world model, so within reach there is no target.
    PlacePoweredCable,
    /// Sets a cargo lift on a cable; the lift rules are not part of the
    /// world model, so within reach there is no target.
    PlaceCargoLift,
    /// Anything else: nothing happens.
    Other,
}

/// Actions that aim at one tile of the world.
pub open spec fn aims_at_tile(action: ItemAction) -> bool {
    action is PlaceTile || action is RemoveTile
}

/// The area, in tiles, that the selected item's action marks around the
/// aimed tile: a furniture footprint, one tile for rope and cable, two by
/// two for a cargo lift, one tile for other aimed actions; none without a
/// selected item, a definition, or an aimed action.
pub open spec fn target_size_spec(selected: bool, action: Option<ItemAction>) -> Option<[u16; 2]> {
    if !selected || action is None {
        None
    } else {
        match action->0 {
            ItemAction::PlaceFurniture(object_type) => Some(
                [footprint_spec(object_type).0 as u16, footprint_spec(object_type).1 as u16],
            ),
            ItemAction::PlaceRope | ItemAction::PlacePoweredCable => Some([1u16, 1u16]),
            ItemAction::PlaceCargoLift => Some([2u16, 2u16]),
            a => if aims_at_tile(a) {
                Some([1u16, 1u16])
            } else {
                None
            },
        }
    }
}

/// The area that the selected item marks around the aimed tile.
pub fn selected_item_target_size(inventory: &Inventory, action: Option<ItemAction>) -> (size: Option<[u16; 2]>)
    requires
        inventory.wf(),
    ensures
        size == target_size_spec(inventory.spec_slots()[inventory.spec_selected_hotbar() as int] is Some, action),
{
    if inventory.selected_stack().is_none() {
        return None;
    }
    let action = match action {
        Some(action) => action,
        None => return None,
    };
    match action {
        ItemAction::PlaceFurniture(object_type) => {
            let (width, height) = footprint(object_type);
            Some([width as u16, height as u16])
        },
        ItemAction::PlaceRope | ItemAction::PlacePoweredCable => Some([1, 1]),
        ItemAction::PlaceCargoLift => Some([2, 2]),
        ItemAction::PlaceTile { .. } | ItemAction::RemoveTile { .. } => Some([1, 1]),
        _ => None,
    }
}

/// The tile of a layer at an in-bounds position.
pub open spec fn layer_tile(world: World, foreground: bool, position: TilePos) -> u16 {
    if foreground {
        world.tile(position.x, position.y)
    } else {
        world.back_tile(position.x, position.y)
    }
}

pub open spec fn in_world(world: World, position: TilePos) -> bool {
    position.x < world.spec_width() && position.y < world.spec_height()
}

/// Whether an in-bounds tile holds a block in either layer.
pub open spec fn filled(world: World, x: u32, y: u32) -> bool {
    world.tile(x, y) != EMPTY_TILE || world.back_tile(x, y) != EMPTY_TILE
}

/// Whether a cardinal neighbour of a tile holds a block in either layer.
pub open spec fn next_to_block(world: World, position: TilePos) -> bool {
    ||| position.x > 0 && filled(world, (position.x - 1) as u32, position.y)
    ||| position.x + 1 < world.spec_width() && filled(world, (position.x + 1) as u32, position.y)
    ||| position.y > 0 && filled(world, position.x, (position.y - 1) as u32)
    ||| position.y + 1 < world.spec_height() && filled(world, position.x, (position.y + 1) as u32)
}

/// A tile can go where the layer is empty, next to another block and, in
/// the foreground, where no furniture stands.
pub open spec fn tile_placeable(world: World, position: TilePos, foreground: bool) -> bool {
    &&& in_world(world, position)
    &&& layer_tile(world, foreground, position) == EMPTY_TILE
    &&& next_to_block(world, position)
    &&& !(foreground && object_at_spec(world.spec_objects(), position) is Some)
}

/// Whether a tile inside the world holds a foreground block.
pub open spec fn solid_ground(world: World, x: int, y: int) -> bool {
    0 <= x < world.spec_width() && 0 <= y < world.spec_height() && world.tile(x as u32, y as u32) != EMPTY_TILE
}

/// Furniture stands on solid ground under both of its bottom corners.
pub open spec fn furniture_supported(world: World, object_type: FurnitureObject, anchor: TilePos) -> bool {
    let bottom = anchor.y + footprint_spec(object_type).1;
    &&& solid_ground(world, anchor.x as int, bottom)
    &&& solid_ground(world, anchor.x + footprint_spec(object_type).0 - 1, bottom)
}

/// The furniture placed at an anchor, with the identifier it would get.
pub open spec fn furniture_at(world: World, object_type: FurnitureObject, anchor: TilePos) -> WorldObject {
    WorldObject {
        id: crate::terrain::ObjectId::spec_new(world.spec_next_object()),
        object_type,
        anchor,
        width: footprint_spec(object_type).0,
        height: footprint_spec(object_type).1,
        active: starts_active_spec(object_type),
    }
}

/// Furniture fits at an anchor: inside the world, on no other object, and
/// within the object limits.
pub open spec fn furniture_fits(world: World, object_type: FurnitureObject, anchor: TilePos) -> bool {
    &&& anchor.x + footprint_spec(object_type).0 <= world.spec_width()
    &&& anchor.y + footprint_spec(object_type).1 <= world.spec_height()
    &&& world.spec_next_object() < u64::MAX
    &&& world.spec_objects().len() < MAX_WORLD_CELLS
    &&& forall|i: int|
        0 <= i < world.spec_objects().len() ==> !#[trigger] footprints_overlap(
            world.spec_objects()[i],
            furniture_at(world, object_type, anchor),
        )
}

/// Whether an object's store holds anything.
pub open spec fn holds_items(world: World, object: WorldObject) -> bool {
    world.container_spec(object.id) matches Some(slots) && exists|i: int| 0 <= i < slots.len() && #[trigger] slots[i] is Some
}

/// Whether and why the selected item can act on the aimed tile. Reach and
/// overlap with the user's body are worked out by the caller.
pub open spec fn target_status_spec(
    selected: bool,
    action: Option<ItemAction>,
    world: World,
    target: Option<TilePos>,
    in_reach: bool,
    overlaps_user: bool,
) -> ItemTargetStatus {
    if !selected || action is None || target is None {
        ItemTargetStatus::NotTargeted
    } else {
        let t = target->0;
        match action->0 {
            ItemAction::PlaceTile { foreground, .. } => if !in_reach {
                ItemTargetStatus::OutOfReach(t)
            } else if !tile_placeable(world, t, foreground) || (foreground && overlaps_user) {
                ItemTargetStatus::Blocked(t)
            } else {
                ItemTargetStatus::Valid(t)
            },
            ItemAction::PlaceFurniture(object_type) => if t.y < footprint_spec(object_type).1 - 1 {
                ItemTargetStatus::Blocked(t)
            } else {
                let anchor = TilePos { x: t.x, y: (t.y - (footprint_spec(object_type).1 - 1)) as u32 };
                if !in_reach {
                    ItemTargetStatus::OutOfReach(anchor)
                } else if !furniture_fits(world, object_type, anchor) || !furniture_supported(world, object_type, anchor) {
                    ItemTargetStatus::Blocked(anchor)
                } else {
                    ItemTargetStatus::Valid(anchor)
                }
            },
            ItemAction::RemoveTile { foreground } => {
                let object = if foreground {
                    object_at_spec(world.spec_objects(), t)
                } else {
                    None
                };
                if !in_reach {
                    ItemTargetStatus::OutOfReach(t)
                } else if (object matches Some(o) && holds_items(world, o)) || (in_world(world, t) && layer_tile(
                    world,
                    foreground,
                    t,
                ) == EMPTY_TILE && object is None) {
                    ItemTargetStatus::Blocked(t)
                } else {
                    ItemTargetStatus::Valid(t)
                }
            },
            ItemAction::PlaceRope | ItemAction::PlacePoweredCable | ItemAction::PlaceCargoLift => if !in_reach {
                ItemTargetStatus::OutOfReach(t)
            } else {
                ItemTargetStatus::NotTargeted
            },
            _ => ItemTargetStatus::NotTargeted,
        }
    }
}

fn layer_tile_at(world: &World, foreground: bool, position: TilePos) -> (tile: u16)
    requires
        world.wf(),
        in_world(*world, position),
    ensures
        tile == layer_tile(*world, foreground, position),
{
    if foreground {
        world.foreground_tile(position.x, position.y)
    } else {
        world.background_tile(position.x, position.y)
    }
}

fn filled_at(world: &World, x: u32, y: u32) -> (is_filled: bool)
    requires
        world.wf(),
        x < world.spec_width(),
        y < world.spec_height(),
    ensures
        is_filled == filled(*world, x, y),
{
    world.foreground_tile(x, y) != EMPTY_TILE || world.background_tile(x, y) != EMPTY_TILE
}

fn beside_block(world: &World, position: TilePos) -> (beside: bool)
    requires
        world.wf(),
        in_world(*world, position),
    ensures
        beside == next_to_block(*world, position),
{
    (position.x > 0 && filled_at(world, position.x - 1, position.y)) || (position.x + 1 < world.width()
        && filled_at(world, position.x + 1, position.y)) || (position.y > 0 && filled_at(world, position.x, position.y - 1))
        || (position.y + 1 < world.height() && filled_at(world, position.x, position.y + 1))
}

fn ground_at(world: &World, x: u64, y: u64) -> (solid: bool)
    requires
        world.wf(),
    ensures
        solid == solid_ground(*world, x as int, y as int),
{
    if x >= world.width() as u64 || y >= world.height() as u64 {
        return false;
    }
    world.foreground_tile(x as u32, y as u32) != EMPTY_TILE
}

fn supported_at(world: &World, object_type: FurnitureObject, anchor: TilePos) -> (supported: bool)
    requires
        world.wf(),
    ensures
        supported == furniture_supported(*world, object_type, anchor),
{
    let (width, height) = footprint(object_type);
    let bottom = anchor.y as u64 + height as u64;
    ground_at(world, anchor.x as u64, bottom) && ground_at(world, anchor.x as u64 + width as u64 - 1, bottom)
}

fn tile_can_be_placed(world: &World, position: TilePos, foreground: bool) -> (placeable: bool)
    requires
        world.wf(),
    ensures
        placeable == tile_placeable(*world, position, foreground),
{
    if position.x >= world.width() || position.y >= world.height() {
        return false;
    }
    if layer_tile_at(world, foreground, position) != EMPTY_TILE {
        return false;
    }
    if !beside_block(world, position) {
        return false;
    }
    !(foreground && world.object_at(position).is_some())
}

/// Whether furniture fits at an anchor.
pub fn furniture_fits_at(world: &World, object_type: FurnitureObject, anchor: TilePos) -> (fits: bool)
    requires
        world.wf(),
    ensures
        fits == furniture_fits(*world, object_type, anchor),
{
    let (width, height) = footprint(object_type);
    if anchor.x as u64 + width as u64 > world.width() as u64 || anchor.y as u64 + height as u64 > world.height() as u64 {
        return false;
    }
    if world.next_object_id() == u64::MAX || world.object_count() as u64 >= MAX_WORLD_CELLS {
        return false;
    }
    let candidate = WorldObject {
        id: crate::terrain::ObjectId::new(world.next_object_id()),
        object_type,
        anchor,
        width,
        height,
        active: crate::furniture::starts_active(object_type),
    };
    assert(candidate == furniture_at(*world, object_type, anchor));
    let mut index: usize = 0;
    while index < world.object_count()
        invariant
            world.wf(),
            index <= world.spec_objects().len(),
            candidate == furniture_at(*world, object_type, anchor),
            candidate.width == width,
            candidate.height == height,
            candidate.anchor == anchor,
            forall|i: int| 0 <= i < index ==> !#[trigger] footprints_overlap(world.spec_objects()[i], candidate),
        decreases world.spec_objects().len() - index,
    {
        let other = world.objects_at_index(index);
        if (other.anchor.x as u64) < anchor.x as u64 + width as u64 && (anchor.x as u64) < other.anchor.x as u64
            + other.width as u64 && (other.anchor.y as u64) < anchor.y as u64 + height as u64 && (anchor.y as u64)
            < other.anchor.y as u64 + other.height as u64 {
            assert(footprints_overlap(world.spec_objects()[index as int], candidate));
            return false;
        }
        index = index + 1;
    }
    true
}

fn store_holds_items(world: &World, object: WorldObject) -> (holds: bool)
    requires
        world.wf(),
    ensures
        holds == holds_items(*world, object),
{
    match world.container(object.id) {
        Some(container) => !container.is_empty(),
        None => false,
    }
}

/// Whether and why the selected item can act on the aimed tile.
pub fn selected_item_target_status(
    inventory: &Inventory,
    action: Option<ItemAction>,
    world: &World,
    target: Option<TilePos>,
    in_reach: bool,
    overlaps_user: bool,
) -> (status: ItemTargetStatus)
    requires
        inventory.wf(),
        world.wf(),
    ensures
        status == target_status_spec(
            inventory.spec_slots()[inventory.spec_selected_hotbar() as int] is Some,
            action,
            *world,
            target,
            in_reach,
            overlaps_user,
        ),
{
    if inventory.selected_stack().is_none() {
        return ItemTargetStatus::NotTargeted;
    }
    let action = match action {
        Some(action) => action,
        None => return ItemTargetStatus::NotTargeted,
    };
    let t = match target {
        Some(t) => t,
        None => return ItemTargetStatus::NotTargeted,
    };
    match action {
        ItemAction::PlaceTile { foreground, .. } => {
            if !in_reach {
                ItemTargetStatus::OutOfReach(t)
            } else if !tile_can_be_placed(world, t, foreground) || (foreground && overlaps_user) {
                ItemTargetStatus::Blocked(t)
            } else {
                ItemTargetStatus::Valid(t)
            }
        },
        ItemAction::PlaceFurniture(object_type) => {
            let anchor = match furniture_anchor_from_target(object_type, t) {
                Some(anchor) => anchor,
                None => return ItemTargetStatus::Blocked(t),
            };
            if !in_reach {
                ItemTargetStatus::OutOfReach(anchor)
            } else if !furniture_fits_at(world, object_type, anchor) || !supported_at(world, object_type, anchor) {
                ItemTargetStatus::Blocked(anchor)
            } else {
                ItemTargetStatus::Valid(anchor)
            }
        },
        ItemAction::RemoveTile { foreground } => {
            let object = if foreground {
                world.object_at(t)
            } else {
                None
            };
            if !in_reach {
                return ItemTargetStatus::OutOfReach(t);
            }
            let holds = match object {
                Some(o) => store_holds_items(world, o),
                None => false,
            };
            let empty_tile = t.x < world.width() && t.y < world.height() && layer_tile_at(world, foreground, t)
                == EMPTY_TILE;
            if holds || (empty_tile && object.is_none()) {
                ItemTargetStatus::Blocked(t)
            } else {
                ItemTargetStatus::Valid(t)
            }
        },
        ItemAction::PlaceRope | ItemAction::PlacePoweredCable | ItemAction::PlaceCargoLift => {
            if !in_reach {
                ItemTargetStatus::OutOfReach(t)
            } else {
                ItemTargetStatus::NotTargeted
            }
        },
        _ => ItemTargetStatus::NotTargeted,
    }
}

/// What picking up a removed object gives: a rope or a powered cable gives
/// one item per tile of its length, other furniture its own item.
pub open spec fn removal_drop_spec(object: WorldObject) -> Option<(ItemId, u16)> {
    if object.object_type == FurnitureObject::ROPE {
        Some((ItemId::ROPE, object.height as u16))
    } else if object.object_type == FurnitureObject::POWERED_CABLE {
        Some((ItemId::POWERED_CABLE, object.height as u16))
    } else {
        match furniture_item_spec(object.object_type) {
            Some(item) => Some((item, 1u16)),
            None => None,
        }
    }
}

pub fn removal_drop(object: WorldObject) -> (drop: Option<(ItemId, u16)>)
    ensures
        drop == removal_drop_spec(object),
{
    if object.object_type == FurnitureObject::ROPE {
        Some((ItemId::ROPE, object.height as u16))
    } else if object.object_type == FurnitureObject::POWERED_CABLE {
        Some((ItemId::POWERED_CABLE, object.height as u16))
    } else {
        match furniture_item(object.object_type) {
            Some(item) => Some((item, 1)),
            None => None,
        }
    }
}

/// The item a piece of furniture is picked up as.
pub open spec fn furniture_item_spec(object_type: FurnitureObject) -> Option<ItemId> {
    match object_type {
        FurnitureObject::CHEST => Some(ItemId::CHEST),
        FurnitureObject::LASER_BORE => Some(ItemId::LASER_BORE),
        FurnitureObject::TURRET => Some(ItemId::TURRET),
        FurnitureObject::ORBITAL_EXPORT_LAUNCHER => Some(ItemId::ORBITAL_EXPORT_LAUNCHER),
        FurnitureObject::CARGO_CONVEYOR => Some(ItemId::CARGO_CONVEYOR),
        FurnitureObject::SOLAR_ARRAY => Some(ItemId::SOLAR_ARRAY),
        FurnitureObject::PYLON => Some(ItemId::PYLON),
        FurnitureObject::BATTERY => Some(ItemId::BATTERY),
        FurnitureObject::CARGO_LIFT => Some(ItemId::CARGO_LIFT),
        FurnitureObject::LIFT_STATION => Some(ItemId::LIFT_STATION),
        FurnitureObject::POWER_CONNECTOR => Some(ItemId::POWER_CONNECTOR),
        FurnitureObject::COMPOSITE_ASSEMBLER => Some(ItemId::COMPOSITE_ASSEMBLER),
        FurnitureObject::RED_SHAFT_BORE => Some(ItemId::RED_SHAFT_BORE),
        FurnitureObject::PROCUREMENT_TERMINAL => Some(ItemId::PROCUREMENT_TERMINAL),
        FurnitureObject::LASER_DRILL => Some(ItemId::LASER_DRILL),
        FurnitureObject::AMMO_TURRET => Some(ItemId::AMMO_TURRET),
        FurnitureObject::DIRECTIONAL_SENTRY => Some(ItemId::DIRECTIONAL_SENTRY),
        FurnitureObject::SPIKES => Some(ItemId::SPIKES),
        FurnitureObject::DOOR => Some(ItemId::DOOR),
        FurnitureObject::BED => Some(ItemId::BED),
        FurnitureObject::SUBSURFACE_SURVEYOR => Some(ItemId::SUBSURFACE_SURVEYOR),
        _ => None,
    }
}

pub fn furniture_item(object_type: FurnitureObject) -> (item: Option<ItemId>)
    ensures
        item == furniture_item_spec(object_type),
{
    match object_type {
        FurnitureObject::CHEST => Some(ItemId::CHEST),
        FurnitureObject::LASER_BORE => Some(ItemId::LASER_BORE),
        FurnitureObject::TURRET => Some(ItemId::TURRET),
        FurnitureObject::ORBITAL_EXPORT_LAUNCHER => Some(ItemId::ORBITAL_EXPORT_LAUNCHER),
        FurnitureObject::CARGO_CONVEYOR => Some(ItemId::CARGO_CONVEYOR),
        FurnitureObject::SOLAR_ARRAY => Some(ItemId::SOLAR_ARRAY),
        FurnitureObject::PYLON => Some(ItemId::PYLON),
        FurnitureObject::BATTERY => Some(ItemId::BATTERY),
        FurnitureObject::CARGO_LIFT => Some(ItemId::CARGO_LIFT),
        FurnitureObject::LIFT_STATION => Some(ItemId::LIFT_STATION),
        FurnitureObject::POWER_CONNECTOR => Some(ItemId::POWER_CONNECTOR),
        FurnitureObject::COMPOSITE_ASSEMBLER => Some(ItemId::COMPOSITE_ASSEMBLER),
        FurnitureObject::RED_SHAFT_BORE => Some(ItemId::RED_SHAFT_BORE),
        FurnitureObject::PROCUREMENT_TERMINAL => Some(ItemId::PROCUREMENT_TERMINAL),
        FurnitureObject::LASER_DRILL => Some(ItemId::LASER_DRILL),
        FurnitureObject::AMMO_TURRET => Some(ItemId::AMMO_TURRET),
        FurnitureObject::DIRECTIONAL_SENTRY => Some(ItemId::DIRECTIONAL_SENTRY),
        FurnitureObject::SPIKES => Some(ItemId::SPIKES),
        FurnitureObject::DOOR => Some(ItemId::DOOR),
        FurnitureObject::BED => Some(ItemId::BED),
        FurnitureObject::SUBSURFACE_SURVEYOR => Some(ItemId::SUBSURFACE_SURVEYOR),
        _ => None,
    }
}

/// What using the selected item gives, from the state before: no item, no
/// definition, the target status's refusal, or the act itself.
pub open spec fn use_result_spec(
    selected: bool,
    action: Option<ItemAction>,
    world: World,
    target: Option<TilePos>,
    in_reach: bool,
    overlaps_user: bool,
    health: Health,
) -> ItemUseResult {
    let status = target_status_spec(selected, action, world, target, in_reach, overlaps_user);
    if !selected {
        ItemUseResult::NoItem
    } else if action is None {
        ItemUseResult::Unsupported
    } else {
        match action->0 {
            ItemAction::PlaceTile { .. } | ItemAction::PlaceFurniture(_) => match status {
                ItemTargetStatus::Valid(t) => ItemUseResult::Placed(t),
                ItemTargetStatus::OutOfReach(_) => ItemUseResult::OutOfReach,
                _ => ItemUseResult::Blocked,
            },
            ItemAction::RemoveTile { foreground } => match status {
                ItemTargetStatus::Valid(t) => if foreground && object_at_spec(world.spec_objects(), t) is Some {
                    ItemUseResult::Removed(object_at_spec(world.spec_objects(), t)->0.anchor)
                } else if in_world(world, t) {
                    ItemUseResult::Removed(t)
                } else {
                    ItemUseResult::Blocked
                },
                ItemTargetStatus::OutOfReach(_) => ItemUseResult::OutOfReach,
                _ => ItemUseResult::Blocked,
            },
            ItemAction::Heal(amount) => if amount == 0 || health.spec_current() >= health.spec_maximum() {
                ItemUseResult::Blocked
            } else {
                ItemUseResult::Consumed
            },
            ItemAction::Throw(kind) => ItemUseResult::Thrown(kind),
            ItemAction::PlaceRope | ItemAction::PlacePoweredCable | ItemAction::PlaceCargoLift => match status {
                ItemTargetStatus::OutOfReach(_) => ItemUseResult::OutOfReach,
                ItemTargetStatus::NotTargeted => if target is None {
                    ItemUseResult::Blocked
                } else {
                    ItemUseResult::Unsupported
                },
                _ => ItemUseResult::Blocked,
            },
            ItemAction::Other => ItemUseResult::Unsupported,
        }
    }
}

/// The slots after one item of the selected stack is used up.
pub open spec fn used_one(slots: Seq<Option<ItemStack>>, selected: int) -> Seq<Option<ItemStack>> {
    let stack = slots[selected]->0;
    slots.update(
        selected,
        stack_of(stack.spec_item(), (stack.spec_quantity() - (if 1 <= stack.spec_quantity() { 1int } else { stack.spec_quantity() as int })) as u16),
    )
}

/// The world is as it was.
pub open spec fn world_kept(before: World, after: World) -> bool {
    &&& after.spec_objects() == before.spec_objects()
    &&& after.spec_containers() == before.spec_containers()
    &&& after.spec_charges() == before.spec_charges()
    &&& after.spec_foreground() == before.spec_foreground()
    &&& after.spec_background() == before.spec_background()
    &&& after.spec_width() == before.spec_width()
    &&& after.spec_height() == before.spec_height()
    &&& after.spec_seed() == before.spec_seed()
    &&& after.spec_next_object() == before.spec_next_object()
}

/// The layer after a tile is written at an in-bounds position.
pub open spec fn layer_written(before: World, after: World, foreground: bool, position: TilePos, tile: u16) -> bool {
    let cell = position.y * before.spec_width() + position.x;
    &&& after.spec_objects() == before.spec_objects()
    &&& after.spec_containers() == before.spec_containers()
    &&& after.spec_width() == before.spec_width()
    &&& after.spec_height() == before.spec_height()
    &&& after.spec_seed() == before.spec_seed()
    &&& after.spec_next_object() == before.spec_next_object()
    &&& foreground ==> after.spec_foreground() == before.spec_foreground().update(cell, tile)
        && after.spec_background() == before.spec_background()
    &&& !foreground ==> after.spec_background() == before.spec_background().update(cell, tile)
        && after.spec_foreground() == before.spec_foreground()
}

fn write_layer(world: &mut World, foreground: bool, position: TilePos, tile: u16) -> (written: bool)
    requires
        old(world).wf(),
    ensures
        final(world).wf(),
        written == in_world(*old(world), position),
        written ==> layer_written(*old(world), *final(world), foreground, position, tile),
        !written ==> world_kept(*old(world), *final(world)),
{
    if foreground {
        world.set_foreground_tile(position.x, position.y, tile)
    } else {
        world.set_background_tile(position.x, position.y, tile)
    }
}

/// Uses the selected item on the aimed tile: places a tile or furniture,
/// digs a tile out or picks furniture up, heals the user, or throws the
/// item. Reach and overlap with the user's body are worked out by the
/// caller; `action` is what the item registry defines for the selected item.
pub fn use_selected_item(
    inventory: &mut Inventory,
    registry: &ItemRegistry,
    action: Option<ItemAction>,
    world: &mut World,
    health: &mut Health,
    target: Option<TilePos>,
    in_reach: bool,
    overlaps_user: bool,
) -> (result: ItemUseResult)
    requires
        old(inventory).wf(),
        old(world).wf(),
        old(health).wf(),
    ensures
        final(inventory).wf(),
        final(world).wf(),
        final(health).wf(),
        final(inventory).spec_selected_hotbar() == old(inventory).spec_selected_hotbar(),
        result == use_result_spec(
            old(inventory).spec_slots()[old(inventory).spec_selected_hotbar() as int] is Some,
            action,
            *old(world),
            target,
            in_reach,
            overlaps_user,
            *old(health),
        ),
        ({
            let slots = old(inventory).spec_slots();
            let selected = old(inventory).spec_selected_hotbar() as int;
            match (action, result) {
                (Some(ItemAction::PlaceTile { foreground, tile }), ItemUseResult::Placed(t)) => {
                    &&& layer_written(*old(world), *final(world), foreground, t, tile)
                    &&& final(inventory).spec_slots() == used_one(slots, selected)
                },
                (Some(ItemAction::PlaceFurniture(object_type)), ItemUseResult::Placed(anchor)) => {
                    &&& final(world).spec_objects() == old(world).spec_objects().push(
                        furniture_at(*old(world), object_type, anchor),
                    )
                    &&& final(world).spec_foreground() == old(world).spec_foreground()
                    &&& final(world).spec_background() == old(world).spec_background()
                    &&& final(inventory).spec_slots() == used_one(slots, selected)
                },
                (Some(ItemAction::RemoveTile { foreground }), ItemUseResult::Removed(_)) => {
                    let t = target->0;
                    if foreground && object_at_spec(old(world).spec_objects(), t) is Some {
                        let object = object_at_spec(old(world).spec_objects(), t)->0;
                        let index = index_of(old(world).spec_objects(), object.id)->0;
                        &&& final(world).spec_objects() == old(world).spec_objects().remove(index)
                        &&& final(world).spec_containers() == old(world).spec_containers().remove(index)
                        &&& final(world).spec_foreground() == old(world).spec_foreground()
                        &&& final(world).spec_background() == old(world).spec_background()
                        &&& final(inventory).spec_slots() == match removal_drop_spec(object) {
                            Some((item, quantity)) => match max_stack_of(registry@, item) {
                                Some(max_stack) => add_to_slots(slots, item, quantity as nat, max_stack).0,
                                None => slots,
                            },
                            None => slots,
                        }
                    } else {
                        &&& layer_written(*old(world), *final(world), foreground, t, EMPTY_TILE)
                        &&& final(inventory).spec_slots() == slots
                    }
                },
                (Some(ItemAction::Heal(amount)), ItemUseResult::Consumed) => {
                    &&& world_kept(*old(world), *final(world))
                    &&& final(health).spec_current() == old(health).spec_current() + vstd::math::min(
                        amount as int,
                        old(health).spec_maximum() - old(health).spec_current(),
                    )
                    &&& final(inventory).spec_slots() == used_one(slots, selected)
                },
                (Some(ItemAction::Throw(_)), ItemUseResult::Thrown(_)) => {
                    &&& world_kept(*old(world), *final(world))
                    &&& final(inventory).spec_slots() == used_one(slots, selected)
                },
                _ => {
                    &&& world_kept(*old(world), *final(world))
                    &&& final(inventory).spec_slots() == slots
                },
            }
        }),
        !(action matches Some(ItemAction::Heal(_)) && result == ItemUseResult::Consumed) ==> final(health).spec_current()
            == old(health).spec_current(),
        final(health).spec_maximum() == old(health).spec_maximum(),
        final(world).spec_seed() == old(world).spec_seed(),
{
    let selected = inventory.selected_stack();
    if selected.is_none() {
        return ItemUseResult::NoItem;
    }
    let action = match action {
        Some(action) => action,
        None => return ItemUseResult::Unsupported,
    };
    let status = selected_item_target_status(inventory, Some(action), world, target, in_reach, overlaps_user);
    match action {
        ItemAction::PlaceTile { foreground, tile } => {
            let t = match valid_target_or_result(status) {
                Ok(t) => t,
                Err(result) => return result,
            };
            write_layer(world, foreground, t, tile);
            inventory.consume_selected(1);
            ItemUseResult::Placed(t)
        },
        ItemAction::PlaceFurniture(object_type) => {
            let anchor = match valid_target_or_result(status) {
                Ok(anchor) => anchor,
                Err(result) => return result,
            };
            proof {
                let objects = world.spec_objects();
                assert forall|i: int| 0 <= i < objects.len() implies !#[trigger] footprints_overlap(
                    objects[i],
                    WorldObject {
                        id: objects[i].id,
                        object_type,
                        anchor,
                        width: footprint_spec(object_type).0,
                        height: footprint_spec(object_type).1,
                        active: starts_active_spec(object_type),
                    },
                ) by {
                    assert(!footprints_overlap(objects[i], furniture_at(*world, object_type, anchor)));
                }
            }
            let placed = world.place_furniture(object_type, anchor);
            if placed.is_err() {
                return ItemUseResult::Blocked;
            }
            inventory.consume_selected(1);
            ItemUseResult::Placed(anchor)
        },
        ItemAction::RemoveTile { foreground } => {
            let t = match valid_target_or_result(status) {
                Ok(t) => t,
                Err(result) => return result,
            };
            if foreground {
                if let Some(object) = world.object_at(t) {
                    proof {
                        crate::item_transport::lemma_object_at_placed(*world, t);
                    }
                    world.remove_object(object.id);
                    if let Some((item, quantity)) = removal_drop(object) {
                        inventory.add(item, quantity, registry);
                    }
                    return ItemUseResult::Removed(object.anchor);
                }
            }
            if !write_layer(world, foreground, t, EMPTY_TILE) {
                return ItemUseResult::Blocked;
            }
            ItemUseResult::Removed(t)
        },
        ItemAction::Heal(amount) => {
            if health.heal(amount) == 0 {
                return ItemUseResult::Blocked;
            }
            inventory.consume_selected(1);
            ItemUseResult::Consumed
        },
        ItemAction::Throw(kind) => {
            inventory.consume_selected(1);
            ItemUseResult::Thrown(kind)
        },
        ItemAction::PlaceRope | ItemAction::PlacePoweredCable | ItemAction::PlaceCargoLift => {
            match valid_target_or_result(status) {
                Ok(_) => ItemUseResult::Blocked,
                Err(ItemUseResult::OutOfReach) => ItemUseResult::OutOfReach,
                Err(_) => if target.is_none() {
                    ItemUseResult::Blocked
                } else {
                    ItemUseResult::Unsupported
                },
            }
        },
        ItemAction::Other => ItemUseResult::Unsupported,
    }
}

} // verus!