use vstd::prelude::*;
use crate::inventory::CHEST_SLOTS;
use crate::terrain::{FurnitureObject, ItemTransportRole, PowerRole};

verus! {

/// Width and height in tiles of a placed object, measured right and down
/// from its anchor.
pub open spec fn footprint_spec(object: FurnitureObject) -> (u8, u8) {
    match object {
        FurnitureObject::CHEST => (2, 2),
        FurnitureObject::LASER_BORE => (3, 3),
        FurnitureObject::ORBITAL_EXPORT_LAUNCHER => (3, 3),
        FurnitureObject::SOLAR_ARRAY => (2, 3),
        FurnitureObject::PYLON => (1, 2),
        FurnitureObject::COMPOSITE_ASSEMBLER => (3, 2),
        FurnitureObject::PROCUREMENT_TERMINAL => (2, 2),
        FurnitureObject::BED => (2, 1),
        FurnitureObject::DOOR => (1, 3),
        _ => (1, 1),
    }
}

pub fn footprint(object: FurnitureObject) -> (size: (u8, u8))
    ensures
        size == footprint_spec(object),
        size.0 >= 1 && size.1 >= 1,
{
    match object {
        FurnitureObject::CHEST => (2, 2),
        FurnitureObject::LASER_BORE => (3, 3),
        FurnitureObject::ORBITAL_EXPORT_LAUNCHER => (3, 3),
        FurnitureObject::SOLAR_ARRAY => (2, 3),
        FurnitureObject::PYLON => (1, 2),
        FurnitureObject::COMPOSITE_ASSEMBLER => (3, 2),
        FurnitureObject::PROCUREMENT_TERMINAL => (2, 2),
        FurnitureObject::BED => (2, 1),
        FurnitureObject::DOOR => (1, 3),
        _ => (1, 1),
    }
}

/// Whether furniture is switched on when placed: machines with an on/off
/// switch (drills, turrets, sentries and assemblers) start off, everything
/// else starts on.
pub open spec fn starts_active_spec(object: FurnitureObject) -> bool {
    match object {
        FurnitureObject::LASER_BORE
        | FurnitureObject::RED_SHAFT_BORE
        | FurnitureObject::LASER_DRILL
        | FurnitureObject::TURRET
        | FurnitureObject::AMMO_TURRET
        | FurnitureObject::DIRECTIONAL_SENTRY
        | FurnitureObject::COMPOSITE_ASSEMBLER => false,
        _ => true,
    }
}

pub fn starts_active(object: FurnitureObject) -> (active: bool)
    ensures
        active == starts_active_spec(object),
{
    match object {
        FurnitureObject::LASER_BORE
        | FurnitureObject::RED_SHAFT_BORE
        | FurnitureObject::LASER_DRILL
        | FurnitureObject::TURRET
        | FurnitureObject::AMMO_TURRET
        | FurnitureObject::DIRECTIONAL_SENTRY
        | FurnitureObject::COMPOSITE_ASSEMBLER => false,
        _ => true,
    }
}

/// The number of item slots an object stores, if it stores items.
pub open spec fn storage_slots_spec(object: FurnitureObject) -> Option<usize> {
    match object {
        FurnitureObject::CHEST => Some(CHEST_SLOTS),
        FurnitureObject::LASER_BORE => Some(1),
        FurnitureObject::ORBITAL_EXPORT_LAUNCHER => Some(10),
        FurnitureObject::COMPOSITE_ASSEMBLER => Some(3),
        _ => None,
    }
}

pub fn storage_slots(object: FurnitureObject) -> (slots: Option<usize>)
    ensures
        slots == storage_slots_spec(object),
{
    match object {
        FurnitureObject::CHEST => Some(CHEST_SLOTS),
        FurnitureObject::LASER_BORE => Some(1),
        FurnitureObject::ORBITAL_EXPORT_LAUNCHER => Some(10),
        FurnitureObject::COMPOSITE_ASSEMBLER => Some(3),
        _ => None,
    }
}

/// Whether the object is a one-tile item transport connector.
pub open spec fn is_connector_spec(object: FurnitureObject) -> bool {
    object == FurnitureObject::CARGO_CONVEYOR
}

pub fn is_item_transport_connector(object: FurnitureObject) -> (connector: bool)
    ensures
        connector == is_connector_spec(object),
{
    match object {
        FurnitureObject::CARGO_CONVEYOR => true,
        _ => false,
    }
}

/// How a machine attaches to item transport: drills give, exporters take,
/// chests and assemblers hold.
pub open spec fn transport_role_spec(object: FurnitureObject) -> Option<ItemTransportRole> {
    match object {
        FurnitureObject::LASER_BORE => Some(ItemTransportRole::Output),
        FurnitureObject::ORBITAL_EXPORT_LAUNCHER => Some(ItemTransportRole::Input),
        FurnitureObject::CHEST => Some(ItemTransportRole::Buffer),
        FurnitureObject::COMPOSITE_ASSEMBLER => Some(ItemTransportRole::Buffer),
        _ => None,
    }
}

pub fn item_transport_role(object: FurnitureObject) -> (role: Option<ItemTransportRole>)
    ensures
        role == transport_role_spec(object),
{
    match object {
        FurnitureObject::LASER_BORE => Some(ItemTransportRole::Output),
        FurnitureObject::ORBITAL_EXPORT_LAUNCHER => Some(ItemTransportRole::Input),
        FurnitureObject::CHEST => Some(ItemTransportRole::Buffer),
        FurnitureObject::COMPOSITE_ASSEMBLER => Some(ItemTransportRole::Buffer),
        _ => None,
    }
}

/// How an object takes part in a power network, if at all.
pub open spec fn power_role_spec(object: FurnitureObject) -> Option<PowerRole> {
    match object {
        FurnitureObject::SOLAR_ARRAY => Some(PowerRole::Generator),
        FurnitureObject::BATTERY => Some(PowerRole::Storage),
        FurnitureObject::PYLON => Some(PowerRole::Relay),
        FurnitureObject::POWER_CONNECTOR => Some(PowerRole::Relay),
        FurnitureObject::POWERED_CABLE_ANCHOR => Some(PowerRole::Relay),
        FurnitureObject::LASER_BORE => Some(PowerRole::Consumer),
        FurnitureObject::TURRET => Some(PowerRole::Consumer),
        FurnitureObject::ORBITAL_EXPORT_LAUNCHER => Some(PowerRole::Consumer),
        FurnitureObject::CARGO_LIFT => Some(PowerRole::Consumer),
        FurnitureObject::COMPOSITE_ASSEMBLER => Some(PowerRole::Consumer),
        FurnitureObject::PROCUREMENT_TERMINAL => Some(PowerRole::Consumer),
        _ => None,
    }
}

pub fn power_role(object: FurnitureObject) -> (role: Option<PowerRole>)
    ensures
        role == power_role_spec(object),
{
    match object {
        FurnitureObject::SOLAR_ARRAY => Some(PowerRole::Generator),
        FurnitureObject::BATTERY => Some(PowerRole::Storage),
        FurnitureObject::PYLON => Some(PowerRole::Relay),
        FurnitureObject::POWER_CONNECTOR => Some(PowerRole::Relay),
        FurnitureObject::POWERED_CABLE_ANCHOR => Some(PowerRole::Relay),
        FurnitureObject::LASER_BORE => Some(PowerRole::Consumer),
        FurnitureObject::TURRET => Some(PowerRole::Consumer),
        FurnitureObject::ORBITAL_EXPORT_LAUNCHER => Some(PowerRole::Consumer),
        FurnitureObject::CARGO_LIFT => Some(PowerRole::Consumer),
        FurnitureObject::COMPOSITE_ASSEMBLER => Some(PowerRole::Consumer),
        FurnitureObject::PROCUREMENT_TERMINAL => Some(PowerRole::Consumer),
        _ => None,
    }
}

} // verus!
