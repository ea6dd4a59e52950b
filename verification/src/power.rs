use vstd::prelude::*;
use crate::terrain::{FurnitureObject, ObjectId, POWER_CONNECTION_RANGE_HALF_TILES, PowerRole, TilePos};
use crate::world::{EMPTY_TILE, World, WorldObject, index_of, lemma_sky_clear_same, sky_access};

verus! {

/// Socket coordinates count half tiles.
pub const SOCKET_UNITS_PER_TILE: i64 = 2;
/// Reach of an automatic link, in socket units.
pub const CONNECTION_RANGE_SOCKET_UNITS: i64 = 44;
/// Most links a pylon makes.
pub const PYLON_CONNECTION_LIMIT: usize = 10;
/// Most links a power connector makes.
pub const POWER_CONNECTOR_CONNECTION_LIMIT: usize = 5;
/// Most links any machine makes.
pub const MACHINE_CONNECTION_LIMIT: usize = 1;

pub open spec fn energy_spec(rate_milli_per_second: u32, elapsed_nanos: u64) -> u64 {
    let energy = rate_milli_per_second * elapsed_nanos / 1_000_000_000int;
    if energy > u64::MAX {
        u64::MAX
    } else {
        energy as u64
    }
}

/// Energy in milli-units that a rate supplies or demands over an elapsed
/// time, rounded down and capped at the largest `u64`.
pub fn energy_for_rate(rate_milli_per_second: u32, elapsed_nanos: u64) -> (energy: u64)
    ensures
        energy == energy_spec(rate_milli_per_second, elapsed_nanos),
{
    assert(rate_milli_per_second as u128 * elapsed_nanos as u128 <= u32::MAX as u128 * u64::MAX as u128) by (nonlinear_arith);
    let energy: u128 = rate_milli_per_second as u128 * elapsed_nanos as u128 / 1_000_000_000;
    if energy > u64::MAX as u128 {
        u64::MAX
    } else {
        energy as u64
    }
}

/// The rounded-down quotient of a socket coordinate by the link range.
fn floor_bucket(value: i64) -> (bucket: i64)
    ensures
        bucket == value / CONNECTION_RANGE_SOCKET_UNITS,
{
    if value >= 0 {
        value / CONNECTION_RANGE_SOCKET_UNITS
    } else {
        let magnitude = -(value + 1);
        let bucket = -(magnitude / CONNECTION_RANGE_SOCKET_UNITS) - 1;
        assert(bucket == value / 44) by (nonlinear_arith)
            requires
                value < 0,
                magnitude == -(value + 1),
                bucket == -(magnitude / 44) - 1,
        ;
        bucket
    }
}

/// The spatial bucket of a socket: each coordinate divided by the link
/// range, rounded towards negative infinity.
pub fn socket_bucket(socket: [i64; 2]) -> (bucket: [i64; 2])
    ensures
        bucket[0] == socket[0] / CONNECTION_RANGE_SOCKET_UNITS,
        bucket[1] == socket[1] / CONNECTION_RANGE_SOCKET_UNITS,
{
    [floor_bucket(socket[0]), floor_bucket(socket[1])]
}

pub open spec fn squared_distance_spec(left: [i64; 2], right: [i64; 2]) -> int {
    (right[0] - left[0]) * (right[0] - left[0]) + (right[1] - left[1]) * (right[1] - left[1])
}

/// The squared distance between two sockets.
pub fn squared_socket_distance(left: [i64; 2], right: [i64; 2]) -> (distance: i64)
    requires
        i64::MIN <= right[0] - left[0] <= i64::MAX,
        i64::MIN <= right[1] - left[1] <= i64::MAX,
        squared_distance_spec(left, right) <= i64::MAX,
    ensures
        distance == squared_distance_spec(left, right),
{
    let dx = right[0] - left[0];
    let dy = right[1] - left[1];
    assert(0 <= dx * dx && 0 <= dy * dy) by (nonlinear_arith);
    dx * dx + dy * dy
}

/// The tile of a cell whose coordinates both fit in `u32`.
pub open spec fn cell_tile(cell: [i64; 2]) -> Option<TilePos> {
    if 0 <= cell[0] <= u32::MAX && 0 <= cell[1] <= u32::MAX {
        Some(TilePos { x: cell[0] as u32, y: cell[1] as u32 })
    } else {
        None
    }
}

/// Appends a traversed cell once, skipping cells outside the `u32` range.
pub fn push_cell(output: &mut Vec<TilePos>, cell: [i64; 2])
    ensures
        final(output)@ == (match cell_tile(cell) {
            Some(tile) => if old(output)@.contains(tile) {
                old(output)@
            } else {
                old(output)@.push(tile)
            },
            None => old(output)@,
        }),
{
    if cell[0] < 0 || cell[0] > u32::MAX as i64 || cell[1] < 0 || cell[1] > u32::MAX as i64 {
        return;
    }
    let position = TilePos::new(cell[0] as u32, cell[1] as u32);
    assert(cell_tile(cell) == Some(position));
    let mut index: usize = 0;
    while index < output.len()
        invariant
            index <= output@.len(),
            output@ == old(output)@,
            cell_tile(cell) == Some(position),
            forall|i: int| 0 <= i < index ==> #[trigger] output@[i] != position,
        decreases output@.len() - index,
    {
        if output[index] == position {
            assert(old(output)@[index as int] == position);
            assert(old(output)@.contains(position));
            return;
        }
        index = index + 1;
    }
    output.push(position);
}

/// Whether every traversed tile is inside the world with no foreground
/// tile in it.
pub open spec fn clear_path(world: World, tiles: Seq<TilePos>) -> bool {
    forall|i: int|
        0 <= i < tiles.len() ==> #[trigger] tiles[i].x < world.spec_width() && tiles[i].y < world.spec_height()
            && world.tile(tiles[i].x, tiles[i].y) == EMPTY_TILE
}

pub fn has_line_of_sight(world: &World, crossed_tiles: &[TilePos]) -> (visible: bool)
    requires
        world.wf(),
    ensures
        visible == clear_path(*world, crossed_tiles@),
{
    let mut index: usize = 0;
    while index < crossed_tiles.len()
        invariant
            world.wf(),
            index <= crossed_tiles@.len(),
            forall|i: int|
                0 <= i < index ==> #[trigger] crossed_tiles@[i].x < world.spec_width() && crossed_tiles@[i].y
                    < world.spec_height() && world.tile(crossed_tiles@[i].x, crossed_tiles@[i].y) == EMPTY_TILE,
        decreases crossed_tiles@.len() - index,
    {
        let position = crossed_tiles[index];
        if position.x >= world.width() || position.y >= world.height() || world.foreground_tile(position.x, position.y)
            != EMPTY_TILE {
            return false;
        }
        index = index + 1;
    }
    true
}

/// Whether two placed objects may be linked automatically: never a cargo
/// lift, and a powered cable anchor only to a pylon or power connector.
pub open spec fn connection_allowed_spec(left: Option<FurnitureObject>, right: Option<FurnitureObject>) -> bool {
    match (left, right) {
        (Some(l), Some(r)) => if l == FurnitureObject::CARGO_LIFT || r == FurnitureObject::CARGO_LIFT {
            false
        } else if l == FurnitureObject::POWERED_CABLE_ANCHOR || r == FurnitureObject::POWERED_CABLE_ANCHOR {
            (l == FurnitureObject::POWERED_CABLE_ANCHOR && (r == FurnitureObject::PYLON || r
                == FurnitureObject::POWER_CONNECTOR)) || (r == FurnitureObject::POWERED_CABLE_ANCHOR && (l
                == FurnitureObject::PYLON || l == FurnitureObject::POWER_CONNECTOR))
        } else {
            true
        },
        _ => false,
    }
}

pub fn automatic_connection_allowed(world: &World, left: ObjectId, right: ObjectId) -> (allowed: bool)
    requires
        world.wf(),
    ensures
        allowed == connection_allowed_spec(
            match world.object_spec(left) {
                Some(o) => Some(o.object_type),
                None => None,
            },
            match world.object_spec(right) {
                Some(o) => Some(o.object_type),
                None => None,
            },
        ),
{
    let left_type = match world.object(left) {
        Some(object) => object.object_type,
        None => return false,
    };
    let right_type = match world.object(right) {
        Some(object) => object.object_type,
        None => return false,
    };
    if left_type == FurnitureObject::CARGO_LIFT || right_type == FurnitureObject::CARGO_LIFT {
        return false;
    }
    if left_type == FurnitureObject::POWERED_CABLE_ANCHOR || right_type == FurnitureObject::POWERED_CABLE_ANCHOR {
        return (left_type == FurnitureObject::POWERED_CABLE_ANCHOR && (right_type == FurnitureObject::PYLON
            || right_type == FurnitureObject::POWER_CONNECTOR)) || (right_type
            == FurnitureObject::POWERED_CABLE_ANCHOR && (left_type == FurnitureObject::PYLON || left_type
            == FurnitureObject::POWER_CONNECTOR));
    }
    true
}

/// A battery's stored charge in a charge table aligned with the objects.
pub open spec fn charge_at(charges: Seq<Option<u32>>, objects: Seq<WorldObject>, id: ObjectId) -> Option<u32> {
    match index_of(objects, id) {
        Some(i) => charges[i],
        None => None,
    }
}

pub open spec fn min_nat(a: nat, b: nat) -> nat {
    if a <= b {
        a
    } else {
        b
    }
}

/// Charges after drawing `amount` from the batteries in order, each giving
/// what it holds until the amount is met.
pub open spec fn discharge_spec(
    charges: Seq<Option<u32>>,
    objects: Seq<WorldObject>,
    batteries: Seq<(ObjectId, u32)>,
    amount: nat,
) -> Seq<Option<u32>>
    decreases batteries.len(),
{
    if batteries.len() == 0 || amount == 0 {
        charges
    } else {
        let id = batteries[0].0;
        let charge: nat = match charge_at(charges, objects, id) {
            Some(c) => c as nat,
            None => 0,
        };
        let taken = min_nat(charge, amount);
        let next = if taken > 0 {
            charges.update(index_of(objects, id)->0, Some((charge - taken) as u32))
        } else {
            charges
        };
        discharge_spec(next, objects, batteries.drop_first(), (amount - taken) as nat)
    }
}

/// Charges after storing up to `amount` in the batteries in order, each up
/// to its capacity, and the amount that found no room.
pub open spec fn charge_spec(
    charges: Seq<Option<u32>>,
    objects: Seq<WorldObject>,
    batteries: Seq<(ObjectId, u32)>,
    amount: nat,
) -> (Seq<Option<u32>>, nat)
    decreases batteries.len(),
{
    if batteries.len() == 0 || amount == 0 {
        (charges, amount)
    } else {
        let id = batteries[0].0;
        let capacity = batteries[0].1;
        let charge: nat = match charge_at(charges, objects, id) {
            Some(c) => c as nat,
            None => 0,
        };
        let room: nat = if capacity > charge { (capacity - charge) as nat } else { 0 };
        let accepted = min_nat(room, amount);
        let next = if accepted > 0 {
            match charge_at(charges, objects, id) {
                Some(_) => charges.update(index_of(objects, id)->0, Some((charge + accepted) as u32)),
                None => charges,
            }
        } else {
            charges
        };
        charge_spec(next, objects, batteries.drop_first(), (amount - accepted) as nat)
    }
}

/// Draws `amount` milli-units from the batteries in order.
pub fn discharge_batteries(world: &mut World, batteries: &[(ObjectId, u32)], amount: u64)
    requires
        old(world).wf(),
    ensures
        final(world).wf(),
        final(world).spec_charges() == discharge_spec(
            old(world).spec_charges(),
            old(world).spec_objects(),
            batteries@,
            amount as nat,
        ),
        final(world).spec_objects() == old(world).spec_objects(),
        final(world).spec_containers() == old(world).spec_containers(),
        final(world).spec_width() == old(world).spec_width(),
        final(world).spec_height() == old(world).spec_height(),
        final(world).spec_foreground() == old(world).spec_foreground(),
        final(world).spec_specialists() == old(world).spec_specialists(),
        final(world).spec_background() == old(world).spec_background(),
        final(world).spec_seed() == old(world).spec_seed(),
        final(world).spec_next_object() == old(world).spec_next_object(),
        final(world).item_transport_revision_spec() == old(world).item_transport_revision_spec(),
{
    let mut remaining = amount;
    let mut index: usize = 0;
    proof {
        assert(batteries@.skip(0) =~= batteries@);
    }
    while index < batteries.len()
        invariant_except_break
            index <= batteries@.len(),
        invariant
            world.item_transport_revision_spec() == old(world).item_transport_revision_spec(),
            world.wf(),
            world.spec_objects() == old(world).spec_objects(),
            world.spec_containers() == old(world).spec_containers(),
            world.spec_width() == old(world).spec_width(),
            world.spec_height() == old(world).spec_height(),
            world.spec_foreground() == old(world).spec_foreground(),
            world.spec_specialists() == old(world).spec_specialists(),
            world.spec_background() == old(world).spec_background(),
            world.spec_seed() == old(world).spec_seed(),
            world.spec_next_object() == old(world).spec_next_object(),
            discharge_spec(world.spec_charges(), world.spec_objects(), batteries@.skip(index as int), remaining as nat)
                == discharge_spec(old(world).spec_charges(), old(world).spec_objects(), batteries@, amount as nat),
        ensures
            world.spec_charges() == discharge_spec(old(world).spec_charges(), old(world).spec_objects(), batteries@, amount as nat),
        decreases batteries@.len() - index,
    {
        proof {
            assert(batteries@.skip(index as int).drop_first() =~= batteries@.skip(index + 1));
            assert(batteries@.skip(index as int)[0] == batteries@[index as int]);
        }
        if remaining == 0 {
            break;
        }
        let (battery, _) = batteries[index];
        let charge: u32 = match world.battery_charge_milli(battery) {
            Some(charge) => charge,
            None => 0,
        };
        let taken: u32 = if (charge as u64) < remaining { charge } else { remaining as u32 };
        if taken > 0 {
            world.set_battery_charge_milli(battery, charge - taken);
            remaining = remaining - taken as u64;
        }
        index = index + 1;
    }
    proof {
        assert(batteries@.skip(batteries@.len() as int) =~= Seq::<(ObjectId, u32)>::empty());
    }
}

/// Stores up to `amount` milli-units in the batteries in order and returns
/// how much was stored.
pub fn charge_batteries(world: &mut World, batteries: &[(ObjectId, u32)], amount: u64) -> (accepted: u64)
    requires
        old(world).wf(),
    ensures
        final(world).wf(),
        final(world).spec_charges() == charge_spec(
            old(world).spec_charges(),
            old(world).spec_objects(),
            batteries@,
            amount as nat,
        ).0,
        accepted == amount - charge_spec(old(world).spec_charges(), old(world).spec_objects(), batteries@, amount as nat).1,
        final(world).spec_objects() == old(world).spec_objects(),
        final(world).spec_containers() == old(world).spec_containers(),
        final(world).spec_width() == old(world).spec_width(),
        final(world).spec_height() == old(world).spec_height(),
        final(world).spec_foreground() == old(world).spec_foreground(),
        final(world).spec_specialists() == old(world).spec_specialists(),
        final(world).spec_background() == old(world).spec_background(),
        final(world).spec_seed() == old(world).spec_seed(),
        final(world).spec_next_object() == old(world).spec_next_object(),
        final(world).item_transport_revision_spec() == old(world).item_transport_revision_spec(),
{
    let mut remaining = amount;
    let mut index: usize = 0;
    proof {
        assert(batteries@.skip(0) =~= batteries@);
    }
    while index < batteries.len()
        invariant_except_break
            index <= batteries@.len(),
        invariant
            world.item_transport_revision_spec() == old(world).item_transport_revision_spec(),
            world.wf(),
            remaining <= amount,
            world.spec_objects() == old(world).spec_objects(),
            world.spec_containers() == old(world).spec_containers(),
            world.spec_width() == old(world).spec_width(),
            world.spec_height() == old(world).spec_height(),
            world.spec_foreground() == old(world).spec_foreground(),
            world.spec_specialists() == old(world).spec_specialists(),
            world.spec_background() == old(world).spec_background(),
            world.spec_seed() == old(world).spec_seed(),
            world.spec_next_object() == old(world).spec_next_object(),
            charge_spec(world.spec_charges(), world.spec_objects(), batteries@.skip(index as int), remaining as nat)
                == charge_spec(old(world).spec_charges(), old(world).spec_objects(), batteries@, amount as nat),
        ensures
            (world.spec_charges(), remaining as nat) == charge_spec(
                old(world).spec_charges(),
                old(world).spec_objects(),
                batteries@,
                amount as nat,
            ),
        decreases batteries@.len() - index,
    {
        proof {
            assert(batteries@.skip(index as int).drop_first() =~= batteries@.skip(index + 1));
            assert(batteries@.skip(index as int)[0] == batteries@[index as int]);
        }
        if remaining == 0 {
            break;
        }
        let (battery, capacity) = batteries[index];
        let charge: u32 = match world.battery_charge_milli(battery) {
            Some(charge) => charge,
            None => 0,
        };
        let room: u32 = if capacity > charge { capacity - charge } else { 0 };
        let accepted: u32 = if (room as u64) < remaining { room } else { remaining as u32 };
        if accepted > 0 {
            world.set_battery_charge_milli(battery, charge + accepted);
            remaining = remaining - accepted as u64;
        }
        index = index + 1;
    }
    proof {
        assert(batteries@.skip(batteries@.len() as int) =~= Seq::<(ObjectId, u32)>::empty());
    }
    amount - remaining
}

/// Whether a consumer draws power now: drills and turrets while active,
/// a launcher while it holds items under open sky, anything else always.
pub open spec fn demanding_spec(world: World, object: ObjectId) -> bool {
    match world.object_spec(object) {
        Some(o) => if o.object_type == FurnitureObject::LASER_BORE || o.object_type == FurnitureObject::TURRET {
            o.active
        } else if o.object_type == FurnitureObject::ORBITAL_EXPORT_LAUNCHER {
            &&& world.container_spec(object) is Some
            &&& exists|i: int|
                0 <= i < world.container_spec(object)->0.len() && #[trigger] world.container_spec(object)->0[i] is Some
            &&& sky_access(world, o)
        } else {
            true
        },
        None => false,
    }
}

/// A launcher whose store holds no item is never a demanding consumer,
/// whatever the sky above it.
pub proof fn law_empty_launcher_never_demands(world: World, object: ObjectId)
    requires
        world.object_spec(object) matches Some(o) && o.object_type == FurnitureObject::ORBITAL_EXPORT_LAUNCHER,
        match world.container_spec(object) {
            Some(slots) => forall|i: int| 0 <= i < slots.len() ==> #[trigger] slots[i] is None,
            None => true,
        },
    ensures
        !demanding_spec(world, object),
{
}

/// A consumer that is an empty launcher adds nothing to a network's
/// consumed energy, supplied consumers or energy left, wherever it stands
/// in the node order.
pub proof fn law_empty_launcher_draws_nothing(
    nodes: Seq<PowerNode>,
    node: PowerNode,
    world: World,
    energized: bool,
    generating: bool,
    elapsed_nanos: u64,
    available: int,
)
    requires
        node.role == PowerRole::Consumer,
        world.object_spec(node.object) matches Some(o) && o.object_type == FurnitureObject::ORBITAL_EXPORT_LAUNCHER,
        match world.container_spec(node.object) {
            Some(slots) => forall|i: int| 0 <= i < slots.len() ==> #[trigger] slots[i] is None,
            None => true,
        },
    ensures
        ({
            let before = allocation(nodes, world, energized, generating, elapsed_nanos, available);
            let after = allocation(nodes.push(node), world, energized, generating, elapsed_nanos, available);
            &&& after.consumed == before.consumed
            &&& after.supplied == before.supplied
            &&& after.available == before.available
        }),
{
    law_empty_launcher_never_demands(world, node.object);
    assert(nodes.push(node).drop_last() =~= nodes);
    assert(nodes.push(node).last() == node);
}

/// A switched-off drill or turret never demands power; a switched-on one
/// always does.
pub proof fn law_switched_machines_demand_when_on(world: World, object: ObjectId)
    requires
        world.object_spec(object) matches Some(o) && (o.object_type == FurnitureObject::LASER_BORE || o.object_type
            == FurnitureObject::TURRET),
    ensures
        demanding_spec(world, object) == world.object_spec(object)->0.active,
{
}

pub fn consumer_is_demanding(world: &World, object: ObjectId) -> (demanding: bool)
    requires
        world.wf(),
    ensures
        demanding == demanding_spec(*world, object),
{
    let placed = match world.object(object) {
        Some(placed) => placed,
        None => return false,
    };
    match placed.object_type {
        FurnitureObject::LASER_BORE | FurnitureObject::TURRET => placed.active,
        FurnitureObject::ORBITAL_EXPORT_LAUNCHER => {
            let holds_items = match world.container(object) {
                Some(container) => !container.is_empty(),
                None => false,
            };
            holds_items && world.orbital_export_has_sky_access(object)
        },
        _ => true,
    }
}

/// One powered object of a network: what it does, its socket, its rate
/// (generation or demand, in milli-units per second), its battery capacity,
/// and how many and how long automatic links it makes.
#[derive(Clone, Copy, Debug)]
pub struct PowerNode {
    pub object: ObjectId,
    pub role: PowerRole,
    pub socket: [i64; 2],
    pub rate_milli_per_second: u32,
    pub capacity_milli: u32,
    pub connection_limit: usize,
    pub connection_range_squared: i64,
}

/// What one distribution step moved, in milli-units.
#[derive(Clone, Copy, Debug, Default, PartialEq, Eq, Structural)]
pub struct PowerFlow {
    pub daytime: bool,
    pub generated_milli: u64,
    pub consumed_milli: u64,
    pub stored_milli: u64,
    pub curtailed_milli: u64,
    pub supplied_consumers: usize,
}

/// What one network moved and which of its objects are powered.
#[derive(Clone, Debug)]
pub struct NetworkFlow {
    pub powered: Vec<ObjectId>,
    pub generated_milli: u64,
    pub consumed_milli: u64,
    pub curtailed_milli: u64,
    pub supplied_consumers: usize,
}

pub open spec fn capped_u64(total: int) -> u64 {
    if total > u64::MAX {
        u64::MAX
    } else {
        total as u64
    }
}

/// The energy the generators of a network supply over the elapsed time.
pub open spec fn generation_sum(nodes: Seq<PowerNode>, elapsed_nanos: u64) -> nat
    decreases nodes.len(),
{
    if nodes.len() == 0 {
        0
    } else {
        generation_sum(nodes.drop_last(), elapsed_nanos) + if nodes.last().role == PowerRole::Generator {
            energy_spec(nodes.last().rate_milli_per_second, elapsed_nanos) as nat
        } else {
            0nat
        }
    }
}

pub open spec fn has_generator(nodes: Seq<PowerNode>) -> bool {
    exists|i: int| 0 <= i < nodes.len() && (#[trigger] nodes[i]).role == PowerRole::Generator
}

/// The charge stored in the batteries of a network.
pub open spec fn stored_sum(nodes: Seq<PowerNode>, charges: Seq<Option<u32>>, objects: Seq<WorldObject>) -> nat
    decreases nodes.len(),
{
    if nodes.len() == 0 {
        0
    } else {
        stored_sum(nodes.drop_last(), charges, objects) + if nodes.last().role == PowerRole::Storage {
            match charge_at(charges, objects, nodes.last().object) {
                Some(charge) => charge as nat,
                None => 0nat,
            }
        } else {
            0nat
        }
    }
}

/// The batteries of a network with their capacities, in node order.
pub open spec fn batteries_of(nodes: Seq<PowerNode>) -> Seq<(ObjectId, u32)>
    decreases nodes.len(),
{
    if nodes.len() == 0 {
        Seq::empty()
    } else {
        batteries_of(nodes.drop_last()) + if nodes.last().role == PowerRole::Storage {
            seq![(nodes.last().object, nodes.last().capacity_milli)]
        } else {
            Seq::empty()
        }
    }
}

/// The state of a network's allocation after some of its nodes: energy
/// left, energy consumed, consumers supplied, and powered objects.
pub struct Allocation {
    pub available: int,
    pub consumed: int,
    pub supplied: int,
    pub powered: Seq<ObjectId>,
}

/// Allocates energy to the nodes in order. A relay, generator or battery is
/// powered when the network is energised (a generator only while it
/// generates); an idle consumer is powered when the network is energised;
/// a demanding consumer is powered, and draws its demand, only when the
/// network is energised and enough energy is left.
pub open spec fn allocation(
    nodes: Seq<PowerNode>,
    world: World,
    energized: bool,
    generating: bool,
    elapsed_nanos: u64,
    available: int,
) -> Allocation
    decreases nodes.len(),
{
    if nodes.len() == 0 {
        Allocation { available, consumed: 0, supplied: 0, powered: Seq::empty() }
    } else {
        let before = allocation(nodes.drop_last(), world, energized, generating, elapsed_nanos, available);
        let node = nodes.last();
        if node.role != PowerRole::Consumer {
            if energized && (node.role != PowerRole::Generator || generating) {
                Allocation { powered: before.powered.push(node.object), ..before }
            } else {
                before
            }
        } else if !demanding_spec(world, node.object) {
            if energized {
                Allocation { powered: before.powered.push(node.object), ..before }
            } else {
                before
            }
        } else {
            let demand = energy_spec(node.rate_milli_per_second, elapsed_nanos) as int;
            if energized && before.available >= demand {
                Allocation {
                    available: before.available - demand,
                    consumed: before.consumed + demand,
                    supplied: before.supplied + 1,
                    powered: before.powered.push(node.object),
                }
            } else {
                before
            }
        }
    }
}

pub proof fn lemma_allocation_bounds(
    nodes: Seq<PowerNode>,
    world: World,
    energized: bool,
    generating: bool,
    elapsed_nanos: u64,
    available: int,
)
    requires
        available >= 0,
    ensures
        ({
            let result = allocation(nodes, world, energized, generating, elapsed_nanos, available);
            &&& result.available >= 0
            &&& result.consumed + result.available == available
            &&& 0 <= result.supplied <= nodes.len()
            &&& result.consumed >= 0
        }),
    decreases nodes.len(),
{
    if nodes.len() > 0 {
        lemma_allocation_bounds(nodes.drop_last(), world, energized, generating, elapsed_nanos, available);
    }
}

pub proof fn lemma_take_step(nodes: Seq<PowerNode>, index: int)
    requires
        0 <= index < nodes.len(),
    ensures
        nodes.take(index + 1).drop_last() == nodes.take(index),
        nodes.take(index + 1).last() == nodes[index],
{
    assert(nodes.take(index + 1).drop_last() =~= nodes.take(index));
}

/// The energy a network generates: its generators' supply by day, none at
/// night; capped at the largest `u64`.
pub open spec fn network_generated(nodes: Seq<PowerNode>, daytime: bool, elapsed_nanos: u64) -> u64 {
    if daytime {
        capped_u64(generation_sum(nodes, elapsed_nanos) as int)
    } else {
        0
    }
}

/// Whether a network has a generator working now.
pub open spec fn network_generating(nodes: Seq<PowerNode>, daytime: bool) -> bool {
    daytime && has_generator(nodes)
}

pub open spec fn network_stored(nodes: Seq<PowerNode>, world: World) -> u64 {
    capped_u64(stored_sum(nodes, world.spec_charges(), world.spec_objects()) as int)
}

/// A network is energised while a generator works or a battery holds
/// charge.
pub open spec fn network_energized(nodes: Seq<PowerNode>, world: World, daytime: bool) -> bool {
    network_generating(nodes, daytime) || network_stored(nodes, world) > 0
}

pub open spec fn network_allocation(nodes: Seq<PowerNode>, world: World, daytime: bool, elapsed_nanos: u64) -> Allocation {
    allocation(
        nodes,
        world,
        network_energized(nodes, world, daytime),
        network_generating(nodes, daytime),
        elapsed_nanos,
        capped_u64(network_generated(nodes, daytime, elapsed_nanos) + network_stored(nodes, world)) as int,
    )
}

/// Powers one network for the elapsed time. Generators (by day) and
/// batteries make up the energy; consumers are served in node order as
/// `allocation` describes. When consumers used more than was generated, the
/// batteries give the difference in order; otherwise the surplus charges
/// them in order and what finds no room is curtailed.
pub fn distribute_network(world: &mut World, nodes: &[PowerNode], daytime: bool, elapsed_nanos: u64) -> (flow:
    NetworkFlow)
    requires
        old(world).wf(),
    ensures
        final(world).wf(),
        ({
            let generated = network_generated(nodes@, daytime, elapsed_nanos);
            let result = network_allocation(nodes@, *old(world), daytime, elapsed_nanos);
            let batteries = batteries_of(nodes@);
            let charges = old(world).spec_charges();
            let objects = old(world).spec_objects();
            &&& flow.generated_milli == generated
            &&& flow.consumed_milli == result.consumed
            &&& flow.supplied_consumers == result.supplied
            &&& flow.powered@ == result.powered
            &&& result.consumed > generated ==> final(world).spec_charges() == discharge_spec(
                charges,
                objects,
                batteries,
                (result.consumed - generated) as nat,
            ) && flow.curtailed_milli == 0
            &&& result.consumed <= generated ==> final(world).spec_charges() == charge_spec(
                charges,
                objects,
                batteries,
                (generated - result.consumed) as nat,
            ).0 && flow.curtailed_milli == charge_spec(
                charges,
                objects,
                batteries,
                (generated - result.consumed) as nat,
            ).1
        }),
        final(world).spec_objects() == old(world).spec_objects(),
        final(world).spec_containers() == old(world).spec_containers(),
        final(world).spec_width() == old(world).spec_width(),
        final(world).spec_height() == old(world).spec_height(),
        final(world).spec_foreground() == old(world).spec_foreground(),
        final(world).spec_specialists() == old(world).spec_specialists(),
        final(world).spec_background() == old(world).spec_background(),
        final(world).spec_seed() == old(world).spec_seed(),
        final(world).spec_next_object() == old(world).spec_next_object(),
        final(world).item_transport_revision_spec() == old(world).item_transport_revision_spec(),
{
    let ghost start = *world;
    let ghost all = nodes@;
    let mut generated: u64 = 0;
    let mut stored: u64 = 0;
    let mut generating = false;
    let mut batteries: Vec<(ObjectId, u32)> = Vec::new();
    let mut index: usize = 0;
    while index < nodes.len()
        invariant
            index <= all.len(),
            all == nodes@,
            *world == start,
            world.wf(),
            generated == network_generated(all.take(index as int), daytime, elapsed_nanos),
            generating == network_generating(all.take(index as int), daytime),
            stored == network_stored(all.take(index as int), start),
            batteries@ == batteries_of(all.take(index as int)),
        decreases all.len() - index,
    {
        let node = nodes[index];
        proof {
            lemma_take_step(all, index as int);
            let next = all.take(index + 1);
            if has_generator(next) && !has_generator(all.take(index as int)) {
                let j = choose|j: int| 0 <= j < next.len() && (#[trigger] next[j]).role == PowerRole::Generator;
                if j < index {
                    assert(all.take(index as int)[j] == next[j]);
                }
            }
            if has_generator(all.take(index as int)) {
                let j = choose|j: int| 0 <= j < index && (#[trigger] all.take(index as int)[j]).role
                    == PowerRole::Generator;
                assert(next[j] == all.take(index as int)[j]);
            }
        }
        match node.role {
            PowerRole::Generator => {
                if daytime {
                    generating = true;
                    generated = generated.saturating_add(energy_for_rate(node.rate_milli_per_second, elapsed_nanos));
                }
            },
            PowerRole::Storage => {
                let charge: u32 = match world.battery_charge_milli(node.object) {
                    Some(charge) => charge,
                    None => 0,
                };
                stored = stored.saturating_add(charge as u64);
                batteries.push((node.object, node.capacity_milli));
            },
            _ => {},
        }
        proof {
            assert(all.take(index + 1).last() == node);
        }
        index = index + 1;
    }
    proof {
        assert(all.take(all.len() as int) =~= all);
    }
    let energized = generating || stored > 0;
    let initial = generated.saturating_add(stored);
    let mut available = initial;
    let mut consumed: u64 = 0;
    let mut supplied: usize = 0;
    let mut powered: Vec<ObjectId> = Vec::new();
    let mut index: usize = 0;
    while index < nodes.len()
        invariant
            index <= all.len(),
            all == nodes@,
            *world == start,
            world.wf(),
            energized == network_energized(all, start, daytime),
            generating == network_generating(all, daytime),
            initial == capped_u64(network_generated(all, daytime, elapsed_nanos) + network_stored(all, start)),
            allocation(all.take(index as int), start, energized, generating, elapsed_nanos, initial as int)
                == (Allocation {
                available: available as int,
                consumed: consumed as int,
                supplied: supplied as int,
                powered: powered@,
            }),
        decreases all.len() - index,
    {
        let node = nodes[index];
        proof {
            lemma_take_step(all, index as int);
            lemma_allocation_bounds(all.take(index as int), start, energized, generating, elapsed_nanos, initial as int);
        }
        if node.role != PowerRole::Consumer {
            if energized && (node.role != PowerRole::Generator || generating) {
                powered.push(node.object);
            }
        } else if !consumer_is_demanding(world, node.object) {
            if energized {
                powered.push(node.object);
            }
        } else {
            let demand = energy_for_rate(node.rate_milli_per_second, elapsed_nanos);
            if energized && available >= demand {
                available = available - demand;
                consumed = consumed + demand;
                supplied = supplied + 1;
                powered.push(node.object);
            }
        }
        index = index + 1;
    }
    proof {
        assert(all.take(all.len() as int) =~= all);
    }
    let curtailed: u64 = if consumed > generated {
        discharge_batteries(world, &batteries, consumed - generated);
        0
    } else {
        let surplus = generated - consumed;
        let accepted = charge_batteries(world, &batteries, surplus);
        surplus - accepted
    };
    NetworkFlow { powered, generated_milli: generated, consumed_milli: consumed, curtailed_milli: curtailed, supplied_consumers: supplied }
}

/// Whether a consumer demands power does not depend on battery charges.
pub proof fn lemma_demanding_same(first: World, second: World, object: ObjectId)
    requires
        first.spec_objects() == second.spec_objects(),
        first.spec_containers() == second.spec_containers(),
        first.spec_foreground() == second.spec_foreground(),
        first.spec_width() == second.spec_width(),
    ensures
        demanding_spec(first, object) == demanding_spec(second, object),
{
    if first.object_spec(object) is Some {
        lemma_sky_clear_same(first, second, first.object_spec(object)->0);
    }
}

/// Nor does the allocation of a network's energy.
pub proof fn lemma_allocation_same(
    nodes: Seq<PowerNode>,
    first: World,
    second: World,
    energized: bool,
    generating: bool,
    elapsed_nanos: u64,
    available: int,
)
    requires
        first.spec_objects() == second.spec_objects(),
        first.spec_containers() == second.spec_containers(),
        first.spec_foreground() == second.spec_foreground(),
        first.spec_width() == second.spec_width(),
    ensures
        allocation(nodes, first, energized, generating, elapsed_nanos, available) == allocation(
            nodes,
            second,
            energized,
            generating,
            elapsed_nanos,
            available,
        ),
    decreases nodes.len(),
{
    if nodes.len() > 0 {
        lemma_allocation_same(nodes.drop_last(), first, second, energized, generating, elapsed_nanos, available);
        lemma_demanding_same(first, second, nodes.last().object);
    }
}

/// The nodes of each network, from node indices.
pub open spec fn network_members(nodes: Seq<PowerNode>, networks: Seq<Vec<usize>>) -> Seq<Seq<PowerNode>> {
    networks.map_values(|members: Vec<usize>| members@.map_values(|index: usize| nodes[index as int]))
}

/// What one network does when its batteries hold `charges`: energy
/// generated, the allocation, and the charges afterwards.
pub struct NetworkStep {
    pub generated: u64,
    pub allocation: Allocation,
    pub charges: Seq<Option<u32>>,
    pub curtailed: nat,
}

pub open spec fn network_step(
    nodes: Seq<PowerNode>,
    world: World,
    charges: Seq<Option<u32>>,
    daytime: bool,
    elapsed_nanos: u64,
) -> NetworkStep {
    let objects = world.spec_objects();
    let generated = network_generated(nodes, daytime, elapsed_nanos);
    let generating = network_generating(nodes, daytime);
    let stored = capped_u64(stored_sum(nodes, charges, objects) as int);
    let result = allocation(
        nodes,
        world,
        generating || stored > 0,
        generating,
        elapsed_nanos,
        capped_u64(generated + stored) as int,
    );
    if result.consumed > generated {
        NetworkStep {
            generated,
            allocation: result,
            charges: discharge_spec(charges, objects, batteries_of(nodes), (result.consumed - generated) as nat),
            curtailed: 0,
        }
    } else {
        let charged = charge_spec(charges, objects, batteries_of(nodes), (generated - result.consumed) as nat);
        NetworkStep { generated, allocation: result, charges: charged.0, curtailed: charged.1 }
    }
}

/// Battery charges after the first `count` networks are powered in turn.
pub open spec fn charges_after(
    networks: Seq<Seq<PowerNode>>,
    world: World,
    daytime: bool,
    elapsed_nanos: u64,
    count: nat,
) -> Seq<Option<u32>>
    decreases count,
{
    if count == 0 {
        world.spec_charges()
    } else {
        network_step(
            networks[count - 1],
            world,
            charges_after(networks, world, daytime, elapsed_nanos, (count - 1) as nat),
            daytime,
            elapsed_nanos,
        ).charges
    }
}

/// The step of network `k`, after the networks before it.
pub open spec fn step_of(networks: Seq<Seq<PowerNode>>, world: World, daytime: bool, elapsed_nanos: u64, k: int) -> NetworkStep {
    network_step(networks[k], world, charges_after(networks, world, daytime, elapsed_nanos, k as nat), daytime, elapsed_nanos)
}

/// Totals over the first `count` networks: generated, consumed, curtailed,
/// consumers supplied, and the powered objects in network order.
pub struct FlowTotals {
    pub generated: nat,
    pub consumed: nat,
    pub curtailed: nat,
    pub supplied: nat,
    pub powered: Seq<ObjectId>,
}

pub open spec fn flow_totals(
    networks: Seq<Seq<PowerNode>>,
    world: World,
    daytime: bool,
    elapsed_nanos: u64,
    count: nat,
) -> FlowTotals
    decreases count,
{
    if count == 0 {
        FlowTotals { generated: 0, consumed: 0, curtailed: 0, supplied: 0, powered: Seq::empty() }
    } else {
        let before = flow_totals(networks, world, daytime, elapsed_nanos, (count - 1) as nat);
        let step = step_of(networks, world, daytime, elapsed_nanos, count - 1);
        FlowTotals {
            generated: before.generated + step.generated as nat,
            consumed: before.consumed + step.allocation.consumed as nat,
            curtailed: before.curtailed + step.curtailed,
            supplied: before.supplied + step.allocation.supplied as nat,
            powered: before.powered + step.allocation.powered,
        }
    }
}

pub open spec fn capped_usize(total: nat) -> usize {
    if total > usize::MAX {
        usize::MAX
    } else {
        total as usize
    }
}

/// The charge held by every battery node, after the step.
pub open spec fn storage_total(nodes: Seq<PowerNode>, world: World) -> nat {
    stored_sum(nodes, world.spec_charges(), world.spec_objects())
}

pub proof fn lemma_stored_bound(nodes: Seq<PowerNode>, charges: Seq<Option<u32>>, objects: Seq<WorldObject>)
    ensures
        stored_sum(nodes, charges, objects) <= nodes.len() * (u32::MAX as nat),
    decreases nodes.len(),
{
    if nodes.len() > 0 {
        lemma_stored_bound(nodes.drop_last(), charges, objects);
    }
}

/// Powers each network in turn, as `distribute_network` does, and sums what
/// they moved. Each network is given by the indices of its nodes. The
/// stored total is the charge of every battery node afterwards. Totals
/// saturate. Returns the flow and the powered objects, network by network,
/// followed by each cable (given with its two anchors) that has a powered
/// anchor.
pub fn distribute_networks(
    world: &mut World,
    nodes: &[PowerNode],
    networks: &[Vec<usize>],
    cables: &[(ObjectId, Option<ObjectId>, Option<ObjectId>)],
    daytime: bool,
    elapsed_nanos: u64,
) -> (result: (PowerFlow, Vec<ObjectId>))
    requires
        old(world).wf(),
        nodes@.len() <= u32::MAX,
        forall|k: int, i: int|
            0 <= k < networks@.len() && 0 <= i < networks@[k]@.len() ==> #[trigger] networks@[k]@[i] < nodes@.len(),
    ensures
        final(world).wf(),
        ({
            let members = network_members(nodes@, networks@);
            let totals = flow_totals(members, *old(world), daytime, elapsed_nanos, networks@.len());
            &&& final(world).spec_charges() == charges_after(
                members,
                *old(world),
                daytime,
                elapsed_nanos,
                networks@.len(),
            )
            &&& result.0.daytime == daytime
            &&& result.0.generated_milli == capped_u64(totals.generated as int)
            &&& result.0.consumed_milli == capped_u64(totals.consumed as int)
            &&& result.0.curtailed_milli == capped_u64(totals.curtailed as int)
            &&& result.0.supplied_consumers == capped_usize(totals.supplied)
            &&& result.1@ == totals.powered + powered_cables(cables@, totals.powered)
            &&& result.0.stored_milli == storage_total(nodes@, *final(world))
        }),
        final(world).spec_objects() == old(world).spec_objects(),
        final(world).spec_containers() == old(world).spec_containers(),
        final(world).spec_width() == old(world).spec_width(),
        final(world).spec_height() == old(world).spec_height(),
        final(world).spec_foreground() == old(world).spec_foreground(),
        final(world).spec_specialists() == old(world).spec_specialists(),
        final(world).spec_background() == old(world).spec_background(),
        final(world).spec_seed() == old(world).spec_seed(),
        final(world).spec_next_object() == old(world).spec_next_object(),
        final(world).item_transport_revision_spec() == old(world).item_transport_revision_spec(),
{
    let ghost start = *world;
    let ghost members = network_members(nodes@, networks@);
    let mut flow = PowerFlow {
        daytime,
        generated_milli: 0,
        consumed_milli: 0,
        stored_milli: 0,
        curtailed_milli: 0,
        supplied_consumers: 0,
    };
    let mut powered: Vec<ObjectId> = Vec::new();
    let mut network: usize = 0;
    while network < networks.len()
        invariant
            world.item_transport_revision_spec() == old(world).item_transport_revision_spec(),
            network <= networks@.len(),
            members == network_members(nodes@, networks@),
            forall|k: int, i: int|
                0 <= k < networks@.len() && 0 <= i < networks@[k]@.len() ==> #[trigger] networks@[k]@[i]
                    < nodes@.len(),
            world.wf(),
            world.spec_objects() == start.spec_objects(),
            world.spec_containers() == start.spec_containers(),
            world.spec_width() == start.spec_width(),
            world.spec_height() == start.spec_height(),
            world.spec_foreground() == start.spec_foreground(),
            world.spec_specialists() == start.spec_specialists(),
            world.spec_background() == start.spec_background(),
            world.spec_seed() == start.spec_seed(),
            world.spec_next_object() == start.spec_next_object(),
            world.spec_charges() == charges_after(members, start, daytime, elapsed_nanos, network as nat),
            flow.daytime == daytime,
            flow.stored_milli == 0,
            ({
                let totals = flow_totals(members, start, daytime, elapsed_nanos, network as nat);
                &&& flow.generated_milli == capped_u64(totals.generated as int)
                &&& flow.consumed_milli == capped_u64(totals.consumed as int)
                &&& flow.curtailed_milli == capped_u64(totals.curtailed as int)
                &&& flow.supplied_consumers == capped_usize(totals.supplied)
                &&& powered@ == totals.powered
            }),
        decreases networks@.len() - network,
    {
        let indices = &networks[network];
        let mut member_nodes: Vec<PowerNode> = Vec::new();
        let mut position: usize = 0;
        while position < indices.len()
            invariant
                world.item_transport_revision_spec() == old(world).item_transport_revision_spec(),
                position <= indices@.len(),
                indices == networks@[network as int],
                network < networks@.len(),
                forall|i: int| 0 <= i < indices@.len() ==> #[trigger] indices@[i] < nodes@.len(),
                member_nodes@ == indices@.take(position as int).map_values(|index: usize| nodes@[index as int]),
            decreases indices@.len() - position,
        {
            proof {
                assert(indices@[position as int] < nodes@.len());
            }
            member_nodes.push(nodes[indices[position]]);
            proof {
                assert(member_nodes@ =~= indices@.take(position + 1).map_values(|index: usize| nodes@[index as int]));
            }
            position = position + 1;
        }
        proof {
            assert(indices@.take(indices@.len() as int) =~= indices@);
            assert(member_nodes@ == members[network as int]);
        }
        let ghost before = *world;
        let network_flow = distribute_network(world, &member_nodes, daytime, elapsed_nanos);
        proof {
            let net = members[network as int];
            lemma_allocation_same(
                net,
                before,
                start,
                network_energized(net, before, daytime),
                network_generating(net, daytime),
                elapsed_nanos,
                capped_u64(network_generated(net, daytime, elapsed_nanos) + network_stored(net, before)) as int,
            );
            lemma_allocation_bounds(
                net,
                start,
                network_energized(net, before, daytime),
                network_generating(net, daytime),
                elapsed_nanos,
                capped_u64(network_generated(net, daytime, elapsed_nanos) + network_stored(net, before)) as int,
            );
            assert(step_of(members, start, daytime, elapsed_nanos, network as int).charges == world.spec_charges());
        }
        flow.generated_milli = flow.generated_milli.saturating_add(network_flow.generated_milli);
        flow.consumed_milli = flow.consumed_milli.saturating_add(network_flow.consumed_milli);
        flow.curtailed_milli = flow.curtailed_milli.saturating_add(network_flow.curtailed_milli);
        flow.supplied_consumers = flow.supplied_consumers.saturating_add(network_flow.supplied_consumers);
        let mut added: usize = 0;
        let ghost powered_before = powered@;
        while added < network_flow.powered.len()
            invariant
                world.item_transport_revision_spec() == old(world).item_transport_revision_spec(),
                added <= network_flow.powered@.len(),
                powered@ == powered_before + network_flow.powered@.take(added as int),
            decreases network_flow.powered@.len() - added,
        {
            powered.push(network_flow.powered[added]);
            proof {
                assert(network_flow.powered@.take(added + 1) =~= network_flow.powered@.take(added as int).push(
                    network_flow.powered@[added as int],
                ));
            }
            added = added + 1;
        }
        proof {
            assert(network_flow.powered@.take(network_flow.powered@.len() as int) =~= network_flow.powered@);
        }
        network = network + 1;
    }
    let mut stored: u64 = 0;
    let mut index: usize = 0;
    proof {
        lemma_stored_bound(nodes@, world.spec_charges(), world.spec_objects());
    }
    while index < nodes.len()
        invariant
            world.item_transport_revision_spec() == old(world).item_transport_revision_spec(),
            index <= nodes@.len(),
            nodes@.len() <= u32::MAX,
            world.wf(),
            stored == stored_sum(nodes@.take(index as int), world.spec_charges(), world.spec_objects()),
        decreases nodes@.len() - index,
    {
        let node = nodes[index];
        proof {
            lemma_take_step(nodes@, index as int);
            lemma_stored_bound(nodes@.take(index + 1), world.spec_charges(), world.spec_objects());
            assert((index + 1) * (u32::MAX as nat) <= u32::MAX as nat * u32::MAX as nat) by (nonlinear_arith)
                requires
                    index + 1 <= u32::MAX,
            ;
        }
        if node.role == PowerRole::Storage {
            let charge: u32 = match world.battery_charge_milli(node.object) {
                Some(charge) => charge,
                None => 0,
            };
            stored = stored + charge as u64;
        }
        index = index + 1;
    }
    proof {
        assert(nodes@.take(nodes@.len() as int) =~= nodes@);
    }
    flow.stored_milli = stored;
    let lit = powered_cable_ids(cables, &powered);
    let ghost nodes_powered = powered@;
    let mut c: usize = 0;
    while c < lit.len()
        invariant
            c <= lit@.len(),
            powered@ == nodes_powered + lit@.take(c as int),
        decreases lit@.len() - c,
    {
        powered.push(lit[c]);
        proof {
            assert(lit@.take(c + 1) =~= lit@.take(c as int).push(lit@[c as int]));
        }
        c = c + 1;
    }
    proof {
        assert(lit@.take(lit@.len() as int) =~= lit@);
    }
    (flow, powered)
}

/// Whether one of a cable's anchors is powered.
pub open spec fn cable_lit(cable: (ObjectId, Option<ObjectId>, Option<ObjectId>), powered: Seq<ObjectId>) -> bool {
    (cable.1 matches Some(a) && powered.contains(a)) || (cable.2 matches Some(b) && powered.contains(b))
}

/// The cables, in order, that a powered anchor powers.
pub open spec fn powered_cables(
    cables: Seq<(ObjectId, Option<ObjectId>, Option<ObjectId>)>,
    powered: Seq<ObjectId>,
) -> Seq<ObjectId>
    decreases cables.len(),
{
    if cables.len() == 0 {
        Seq::empty()
    } else {
        powered_cables(cables.drop_last(), powered) + if cable_lit(cables.last(), powered) {
            seq![cables.last().0]
        } else {
            Seq::empty()
        }
    }
}

fn object_listed(objects: &Vec<ObjectId>, object: ObjectId) -> (found: bool)
    ensures
        found == objects@.contains(object),
{
    let mut index: usize = 0;
    while index < objects.len()
        invariant
            index <= objects@.len(),
            forall|i: int| 0 <= i < index ==> objects@[i] != object,
        decreases objects@.len() - index,
    {
        if objects[index] == object {
            assert(objects@[index as int] == object);
            return true;
        }
        index = index + 1;
    }
    false
}

/// The cables with a powered anchor.
fn powered_cable_ids(cables: &[(ObjectId, Option<ObjectId>, Option<ObjectId>)], powered: &Vec<ObjectId>) -> (lit: Vec<
    ObjectId,
>)
    ensures
        lit@ == powered_cables(cables@, powered@),
{
    let mut lit: Vec<ObjectId> = Vec::new();
    let mut index: usize = 0;
    while index < cables.len()
        invariant
            index <= cables@.len(),
            lit@ == powered_cables(cables@.take(index as int), powered@),
        decreases cables@.len() - index,
    {
        let (cable, first, second) = cables[index];
        let first_lit = match first {
            Some(a) => object_listed(powered, a),
            None => false,
        };
        let second_lit = match second {
            Some(b) => object_listed(powered, b),
            None => false,
        };
        proof {
            assert(cables@.take(index + 1).drop_last() =~= cables@.take(index as int));
            assert(cables@.take(index + 1).last() == cables@[index as int]);
        }
        if first_lit || second_lit {
            lit.push(cable);
        }
        proof {
            if first_lit || second_lit {
                assert(lit@ =~= powered_cables(cables@.take(index as int), powered@) + seq![cable]);
            } else {
                assert(lit@ =~= powered_cables(cables@.take(index as int), powered@) + Seq::<ObjectId>::empty());
            }
        }
        index = index + 1;
    }
    proof {
        assert(cables@.take(cables@.len() as int) =~= cables@);
    }
    lit
}

/// A network never consumes more than it has: what its consumers draw is
/// at most what it generated plus what its batteries held, and it serves
/// at most one consumer per node.
pub proof fn law_consumption_within_supply(nodes: Seq<PowerNode>, world: World, daytime: bool, elapsed_nanos: u64)
    ensures
        network_allocation(nodes, world, daytime, elapsed_nanos).consumed <= network_generated(
            nodes,
            daytime,
            elapsed_nanos,
        ) + network_stored(nodes, world),
        0 <= network_allocation(nodes, world, daytime, elapsed_nanos).supplied <= nodes.len(),
{
    lemma_allocation_bounds(
        nodes,
        world,
        network_energized(nodes, world, daytime),
        network_generating(nodes, daytime),
        elapsed_nanos,
        capped_u64(network_generated(nodes, daytime, elapsed_nanos) + network_stored(nodes, world)) as int,
    );
}

} // verus!
