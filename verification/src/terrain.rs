use vstd::prelude::*;

verus! {

/// Kinds of placeable world objects.
#[allow(non_camel_case_types)]
#[derive(Clone, Copy, Debug, PartialEq, Eq, Hash, Structural)]
pub enum FurnitureObject {
    CHEST,
    LASER_BORE,
    TURRET,
    ORBITAL_EXPORT_LAUNCHER,
    CARGO_CONVEYOR,
    SOLAR_ARRAY,
    PYLON,
    BATTERY,
    POWERED_CABLE_ANCHOR,
    POWERED_CABLE,
    CARGO_LIFT,
    LIFT_STATION,
    POWER_CONNECTOR,
    COMPOSITE_ASSEMBLER,
    RED_SHAFT_BORE,
    PROCUREMENT_TERMINAL,
    LASER_DRILL,
    AMMO_TURRET,
    DIRECTIONAL_SENTRY,
    SPIKES,
    DOOR,
    BED,
    SUBSURFACE_SURVEYOR,
    ROPE,
}

/// The kind of a placed world object.
pub type ObjectTypeId = FurnitureObject;

/// Stable identifier of one placed world object.
#[derive(Clone, Copy, Debug, PartialEq, Eq, Hash, PartialOrd, Ord, Structural)]
pub struct ObjectId(u64);

impl ObjectId {
    pub closed spec fn spec_raw(self) -> u64 {
        self.0
    }

    /// The identifier with a raw value.
    pub closed spec fn spec_new(raw: u64) -> ObjectId {
        ObjectId(raw)
    }

    pub fn new(raw: u64) -> (id: Self)
        ensures
            id.spec_raw() == raw,
            id == ObjectId::spec_new(raw),
    {
        ObjectId(raw)
    }

    #[verifier::when_used_as_spec(spec_raw)]
    pub fn raw(self) -> (raw: u64)
        ensures
            raw == self.spec_raw(),
    {
        self.0
    }
}


/// A tile coordinate: `x` to the right, `y` downwards.
#[derive(Clone, Copy, Debug, PartialEq, Eq, Hash, Structural)]
pub struct TilePos {
    pub x: u32,
    pub y: u32,
}

impl TilePos {
    pub fn new(x: u32, y: u32) -> (position: Self)
        ensures
            position == (TilePos { x, y }),
    {
        TilePos { x, y }
    }
}

/// Side length of a square chunk, in tiles.
pub const CHUNK_SIZE: usize = 64;

/// A chunk coordinate.
#[derive(Clone, Copy, Debug, PartialEq, Eq, Hash, Structural)]
pub struct ChunkPos {
    pub x: u32,
    pub y: u32,
}

/// How a machine takes part in item transport.
#[derive(Clone, Copy, Debug, PartialEq, Eq, Hash, Structural)]
pub enum ItemTransportRole {
    Input,
    Output,
    Buffer,
}

/// How a machine takes part in a power network.
#[derive(Clone, Copy, Debug, PartialEq, Eq, Hash, Structural)]
pub enum PowerRole {
    Generator,
    Consumer,
    Storage,
    Relay,
}

/// Surface biomes that a location can belong to.
#[allow(non_camel_case_types)]
#[derive(Clone, Copy, Debug, PartialEq, Eq, Hash, Structural)]
pub enum BiomeId {
    NORMAL,
    GLOWING_CRYSTAL,
}

/// Reach of an automatic power link, in tiles and in half tiles.
pub const POWER_CONNECTION_RANGE_TILES: u32 = 22;
pub const POWER_CONNECTION_RANGE_HALF_TILES: u32 = 44;

} // verus!
