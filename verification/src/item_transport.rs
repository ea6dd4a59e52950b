use vstd::prelude::*;
use crate::furniture::{is_connector_spec, is_item_transport_connector, item_transport_role, transport_role_spec};
use crate::terrain::{ItemTransportRole, ObjectId, TilePos};
use crate::inventory::{add_to_slots, gives_one, lemma_capacity_bound};
use crate::items::{ItemDefinition, ItemRegistry, ItemStack, max_stack_of, stack_of};
use crate::machine_processing::{
    OUTPUT_SLOT, can_feed, feed_result, first_feeding_slot, output_ready, slot_at, transfer_one_from_processor,
    transfer_one_to_processor,
};
use crate::terrain::FurnitureObject;
use crate::union_find::{UnionFind, classes_of, labels_after, lemma_merge_classes, same_classes};
use crate::world::{World, WorldObject, covers, index_of, lemma_index_of, object_at_spec, of_type};

verus! {

/// The visual path through a one-tile item transport connector.
#[derive(Clone, Copy, Debug, PartialEq, Eq, Structural)]
pub enum ItemTransportShape {
    Horizontal,
    Vertical,
    NorthEast,
    SouthEast,
    SouthWest,
    NorthWest,
}

/// The connector shape for its connected cardinal neighbours: the four
/// corners for two perpendicular neighbours, vertical for north-south runs
/// and dead ends, horizontal otherwise.
pub open spec fn shape_for(north: bool, east: bool, south: bool, west: bool) -> ItemTransportShape {
    if north && east && !south && !west {
        ItemTransportShape::NorthEast
    } else if !north && east && south && !west {
        ItemTransportShape::SouthEast
    } else if !north && !east && south && west {
        ItemTransportShape::SouthWest
    } else if north && !east && !south && west {
        ItemTransportShape::NorthWest
    } else if !west && ((north && south && !east) || (!north && south) || (north && !east && !south)) {
        ItemTransportShape::Vertical
    } else {
        ItemTransportShape::Horizontal
    }
}

pub fn shape_from_connections(north: bool, east: bool, south: bool, west: bool) -> (shape: ItemTransportShape)
    ensures
        shape == shape_for(north, east, south, west),
{
    match (north, east, south, west) {
        (true, true, false, false) => ItemTransportShape::NorthEast,
        (false, true, true, false) => ItemTransportShape::SouthEast,
        (false, false, true, true) => ItemTransportShape::SouthWest,
        (true, false, false, true) => ItemTransportShape::NorthWest,
        (true, false, true, false) => ItemTransportShape::Vertical,
        (false, _, true, false) | (true, false, false, false) => ItemTransportShape::Vertical,
        _ => ItemTransportShape::Horizontal,
    }
}

/// A machine attached to a transport network.
#[derive(Clone, Copy, Debug, PartialEq, Eq, Structural)]
pub struct TransportEndpoint {
    pub object: ObjectId,
    pub role: ItemTransportRole,
}

pub open spec fn has_role(endpoints: Seq<TransportEndpoint>, role: ItemTransportRole) -> bool {
    exists|i: int| 0 <= i < endpoints.len() && #[trigger] endpoints[i].role == role
}

/// A network moves items when it can route output to an input, output to a
/// buffer, or a buffer to an input.
pub open spec fn operational(endpoints: Seq<TransportEndpoint>) -> bool {
    ||| has_role(endpoints, ItemTransportRole::Output) && has_role(endpoints, ItemTransportRole::Input)
    ||| has_role(endpoints, ItemTransportRole::Output) && has_role(endpoints, ItemTransportRole::Buffer)
    ||| has_role(endpoints, ItemTransportRole::Buffer) && has_role(endpoints, ItemTransportRole::Input)
}

fn contains_role(endpoints: &[TransportEndpoint], role: ItemTransportRole) -> (found: bool)
    ensures
        found == has_role(endpoints@, role),
{
    let mut index: usize = 0;
    while index < endpoints.len()
        invariant
            index <= endpoints@.len(),
            forall|i: int| 0 <= i < index ==> #[trigger] endpoints@[i].role != role,
        decreases endpoints@.len() - index,
    {
        if endpoints[index].role == role {
            return true;
        }
        index = index + 1;
    }
    false
}

pub fn is_operational(endpoints: &[TransportEndpoint]) -> (operates: bool)
    ensures
        operates == operational(endpoints@),
{
    let output = contains_role(endpoints, ItemTransportRole::Output);
    let input = contains_role(endpoints, ItemTransportRole::Input);
    let buffer = contains_role(endpoints, ItemTransportRole::Buffer);
    (output && input) || (output && buffer) || (buffer && input)
}

/// The in-bounds cardinal neighbours of a tile: west, east, north, south.
pub open spec fn adjacent_spec(position: TilePos, width: u32, height: u32) -> Seq<TilePos> {
    let west = if position.x > 0 {
        seq![TilePos { x: (position.x - 1) as u32, y: position.y }]
    } else {
        seq![]
    };
    let east = if position.x < u32::MAX && position.x + 1 < width {
        seq![TilePos { x: (position.x + 1) as u32, y: position.y }]
    } else {
        seq![]
    };
    let north = if position.y > 0 {
        seq![TilePos { x: position.x, y: (position.y - 1) as u32 }]
    } else {
        seq![]
    };
    let south = if position.y < u32::MAX && position.y + 1 < height {
        seq![TilePos { x: position.x, y: (position.y + 1) as u32 }]
    } else {
        seq![]
    };
    west + east + north + south
}

pub fn adjacent_positions(position: TilePos, width: u32, height: u32) -> (neighbours: Vec<TilePos>)
    ensures
        neighbours@ == adjacent_spec(position, width, height),
{
    let mut neighbours: Vec<TilePos> = Vec::new();
    if position.x > 0 {
        neighbours.push(TilePos::new(position.x - 1, position.y));
    }
    if position.x < u32::MAX && position.x + 1 < width {
        neighbours.push(TilePos::new(position.x + 1, position.y));
    }
    if position.y > 0 {
        neighbours.push(TilePos::new(position.x, position.y - 1));
    }
    if position.y < u32::MAX && position.y + 1 < height {
        neighbours.push(TilePos::new(position.x, position.y + 1));
    }
    assert(neighbours@ =~= adjacent_spec(position, width, height));
    neighbours
}

/// Whether a tile holds a connector or a machine that attaches to one.
pub open spec fn links_at(world: World, position: TilePos) -> bool {
    match object_at_spec(world.spec_objects(), position) {
        Some(object) => is_connector_spec(object.object_type) || transport_role_spec(object.object_type) is Some,
        None => false,
    }
}

/// The shape of a connector from its in-bounds cardinal neighbours; none
/// for anything that is not a placed connector.
pub open spec fn connector_shape(world: World, connector: ObjectId) -> Option<ItemTransportShape> {
    match world.object_spec(connector) {
        Some(object) => if is_connector_spec(object.object_type) {
            let a = object.anchor;
            let west = a.x > 0 && links_at(world, TilePos { x: (a.x - 1) as u32, y: a.y });
            let east = a.x + 1 < world.spec_width() && links_at(world, TilePos { x: (a.x + 1) as u32, y: a.y });
            let north = a.y > 0 && links_at(world, TilePos { x: a.x, y: (a.y - 1) as u32 });
            let south = a.y + 1 < world.spec_height() && links_at(world, TilePos { x: a.x, y: (a.y + 1) as u32 });
            Some(shape_for(north, east, south, west))
        } else {
            None
        },
        None => None,
    }
}

fn links(world: &World, position: TilePos) -> (linked: bool)
    ensures
        linked == links_at(*world, position),
{
    match world.object_at(position) {
        Some(neighbour) => is_item_transport_connector(neighbour.object_type) || item_transport_role(
            neighbour.object_type,
        ).is_some(),
        None => false,
    }
}

/// The sprite shape of a connector, derived from its current neighbours.
pub fn item_transport_shape(world: &World, connector: ObjectId) -> (shape: Option<ItemTransportShape>)
    requires
        world.wf(),
    ensures
        shape == connector_shape(*world, connector),
{
    let object = match world.object(connector) {
        Some(object) => object,
        None => return None,
    };
    if !is_item_transport_connector(object.object_type) {
        return None;
    }
    let anchor = object.anchor;
    let west = anchor.x > 0 && links(world, TilePos::new(anchor.x - 1, anchor.y));
    let east = anchor.x < u32::MAX && anchor.x + 1 < world.width() && links(
        world,
        TilePos::new(anchor.x + 1, anchor.y),
    );
    let north = anchor.y > 0 && links(world, TilePos::new(anchor.x, anchor.y - 1));
    let south = anchor.y < u32::MAX && anchor.y + 1 < world.height() && links(
        world,
        TilePos::new(anchor.x, anchor.y + 1),
    );
    Some(shape_from_connections(north, east, south, west))
}

/// Whether one item can move between two stores: into an assembler's
/// matching input, out of an assembler's output, or otherwise from the first
/// source slot that fits the destination.
pub open spec fn container_transfer_possible(
    world: World,
    source: ObjectId,
    destination: ObjectId,
    definitions: Seq<ItemDefinition>,
) -> bool {
    &&& source != destination
    &&& world.container_spec(source) is Some
    &&& world.container_spec(destination) is Some
    &&& if world.object_spec(destination)->0.object_type == FurnitureObject::COMPOSITE_ASSEMBLER {
        can_feed(world, source, destination, definitions)
    } else if world.object_spec(source)->0.object_type == FurnitureObject::COMPOSITE_ASSEMBLER {
        output_ready(world, source, destination, definitions)
    } else {
        exists|i: int|
            0 <= i < world.container_spec(source)->0.len() && gives_one(
                #[trigger] world.container_spec(source)->0[i],
                world.container_spec(destination)->0,
                definitions,
            )
    }
}

/// Whether slot `i` is the first source slot that gives one item to a
/// store.
pub open spec fn first_giving_slot(
    slots: Seq<Option<ItemStack>>,
    target: Seq<Option<ItemStack>>,
    definitions: Seq<ItemDefinition>,
    i: int,
) -> bool {
    &&& 0 <= i < slots.len()
    &&& gives_one(slots[i], target, definitions)
    &&& forall|j: int| 0 <= j < i ==> !#[trigger] gives_one(slots[j], target, definitions)
}

/// Whether slot `i` is the first source slot that can feed a processor.
pub open spec fn first_feeding_index(
    slots: Seq<Option<ItemStack>>,
    processor: Seq<Option<ItemStack>>,
    definitions: Seq<ItemDefinition>,
    i: int,
) -> bool {
    &&& 0 <= i < slots.len()
    &&& crate::machine_processing::feeds(slots[i], processor, definitions)
    &&& forall|j: int| 0 <= j < i ==> !#[trigger] crate::machine_processing::feeds(slots[j], processor, definitions)
}

/// The stores after one item moves between two stores: into an
/// assembler's matching input from the first slot that feeds it, out of an
/// assembler's output, or otherwise from the first source slot that gives
/// one to the destination.
pub open spec fn transfer_result(
    world: World,
    source: ObjectId,
    destination: ObjectId,
    definitions: Seq<ItemDefinition>,
) -> Seq<Option<Seq<Option<ItemStack>>>> {
    let slots = world.container_spec(source)->0;
    let target = world.container_spec(destination)->0;
    let source_index = index_of(world.spec_objects(), source)->0;
    let destination_index = index_of(world.spec_objects(), destination)->0;
    if world.object_spec(destination)->0.object_type == FurnitureObject::COMPOSITE_ASSEMBLER {
        let processor = crate::machine_processing::slots_or_empty(world.container_spec(destination));
        feed_result(world, source, destination, choose|i: int| first_feeding_index(slots, processor, definitions, i))
    } else if world.object_spec(source)->0.object_type == FurnitureObject::COMPOSITE_ASSEMBLER {
        let stack = slots[OUTPUT_SLOT as int]->0;
        world.spec_containers().update(
            destination_index,
            Some(add_to_slots(target, stack.spec_item(), 1, max_stack_of(definitions, stack.spec_item())->0).0),
        ).update(
            source_index,
            Some(slots.update(OUTPUT_SLOT as int, stack_of(stack.spec_item(), (stack.spec_quantity() - 1) as u16))),
        )
    } else {
        let i = choose|i: int| first_giving_slot(slots, target, definitions, i);
        let stack = slots[i]->0;
        world.spec_containers().update(
            destination_index,
            Some(add_to_slots(target, stack.spec_item(), 1, max_stack_of(definitions, stack.spec_item())->0).0),
        ).update(source_index, Some(slots.update(i, stack_of(stack.spec_item(), (stack.spec_quantity() - 1) as u16))))
    }
}

/// Two worlds with the same objects and stores give the same result for a
/// move between two stores.
proof fn lemma_transfer_result_same(
    a: World,
    b: World,
    source: ObjectId,
    destination: ObjectId,
    definitions: Seq<ItemDefinition>,
)
    requires
        a.spec_objects() == b.spec_objects(),
        a.spec_containers() == b.spec_containers(),
    ensures
        transfer_result(a, source, destination, definitions) == transfer_result(b, source, destination, definitions),
        container_transfer_possible(a, source, destination, definitions) == container_transfer_possible(
            b,
            source,
            destination,
            definitions,
        ),
{
    assert(a.container_spec(source) == b.container_spec(source));
    assert(a.container_spec(destination) == b.container_spec(destination));
    assert(a.object_spec(source) == b.object_spec(source));
    assert(a.object_spec(destination) == b.object_spec(destination));
}

/// Only the stores of two objects differ between two worlds.
pub open spec fn only_stores_changed(before: World, after: World, first: ObjectId, second: ObjectId) -> bool {
    forall|i: int|
        0 <= i < before.spec_containers().len() && Some(i) != index_of(before.spec_objects(), first) && Some(i)
            != index_of(before.spec_objects(), second) ==> #[trigger] after.spec_containers()[i]
            == before.spec_containers()[i]
}

/// The parts of a world that item moves leave alone.
pub open spec fn same_layout(before: World, after: World) -> bool {
    &&& after.spec_objects() == before.spec_objects()
    &&& after.spec_width() == before.spec_width()
    &&& after.spec_height() == before.spec_height()
    &&& after.spec_foreground() == before.spec_foreground()
    &&& after.spec_charges() == before.spec_charges()
    &&& after.spec_specialists() == before.spec_specialists()
    &&& after.spec_containers().len() == before.spec_containers().len()
    &&& after.item_transport_revision_spec() == before.item_transport_revision_spec()
    &&& after.spec_background() == before.spec_background()
    &&& after.spec_seed() == before.spec_seed()
    &&& after.spec_next_object() == before.spec_next_object()
}

impl World {
    /// Moves one item between two objects' stores.
    pub fn transfer_one_container_item(
        &mut self,
        source: ObjectId,
        destination: ObjectId,
        registry: &ItemRegistry,
    ) -> (moved: bool)
        requires
            old(self).wf(),
        ensures
            final(self).wf(),
            same_layout(*old(self), *final(self)),
            moved == container_transfer_possible(*old(self), source, destination, registry@),
            !moved ==> final(self).spec_containers() == old(self).spec_containers(),
            moved ==> final(self).spec_containers() == transfer_result(*old(self), source, destination, registry@),
            only_stores_changed(*old(self), *final(self), source, destination),
    {
        if source == destination {
            return false;
        }
        let source_index = match self.index_of_object(source) {
            Some(i) => i,
            None => return false,
        };
        let destination_index = match self.index_of_object(destination) {
            Some(i) => i,
            None => return false,
        };
        proof {
            self.lemma_wf();
        }
        if self.container(source).is_none() || self.container(destination).is_none() {
            return false;
        }
        let destination_type = self.objects_at_index(destination_index).object_type;
        let source_type = self.objects_at_index(source_index).object_type;
        if destination_type == FurnitureObject::COMPOSITE_ASSEMBLER {
            let ghost before = *self;
            let moved = transfer_one_to_processor(self, source, destination, registry);
            proof {
                if moved {
                    let i = choose|i: int| #[trigger] first_feeding_slot(before, source, destination, registry@, i)
                        && self.spec_containers() == feed_result(before, source, destination, i);
                    let j = choose|j: int|
                        first_feeding_index(
                            before.container_spec(source)->0,
                            crate::machine_processing::slots_or_empty(before.container_spec(destination)),
                            registry@,
                            j,
                        );
                    assert(first_feeding_index(
                        before.container_spec(source)->0,
                        crate::machine_processing::slots_or_empty(before.container_spec(destination)),
                        registry@,
                        i,
                    ));
                    if i < j {
                        assert(!crate::machine_processing::feeds(
                            before.container_spec(source)->0[i],
                            crate::machine_processing::slots_or_empty(before.container_spec(destination)),
                            registry@,
                        ));
                    } else if j < i {
                        assert(!crate::machine_processing::feeds(
                            before.container_spec(source)->0[j],
                            crate::machine_processing::slots_or_empty(before.container_spec(destination)),
                            registry@,
                        ));
                    }
                }
            }
            return moved;
        }
        if source_type == FurnitureObject::COMPOSITE_ASSEMBLER {
            return transfer_one_from_processor(self, source, destination, registry);
        }
        let ghost before = *self;
        let mut giver = self.take_container(source_index).unwrap();
        let mut taker = self.take_container(destination_index).unwrap();
        let ghost giver_before = giver@;
        let ghost taker_before = taker@;
        let moved = giver.transfer_one_to(&mut taker, registry);
        self.put_container(destination_index, Some(taker));
        self.put_container(source_index, Some(giver));
        proof {
            if !moved {
                assert(self.spec_containers() =~= before.spec_containers());
            } else {
                let k = choose|k: int| 0 <= k < giver_before.len() && gives_one(
                    #[trigger] giver_before[k],
                    taker_before,
                    registry@,
                ) && (forall|i: int| 0 <= i < k ==> !gives_one(#[trigger] giver_before[i], taker_before, registry@)) && ({
                    let stack = giver_before[k]->0;
                    &&& giver@ == giver_before.update(
                        k,
                        stack_of(stack.spec_item(), (stack.spec_quantity() - 1) as u16),
                    )
                    &&& taker@ == add_to_slots(
                        taker_before,
                        stack.spec_item(),
                        1,
                        max_stack_of(registry@, stack.spec_item())->0,
                    ).0
                });
                let first = choose|i: int| first_giving_slot(giver_before, taker_before, registry@, i);
                assert(first_giving_slot(giver_before, taker_before, registry@, k));
                if first < k {
                    assert(!gives_one(giver_before[first], taker_before, registry@));
                } else if k < first {
                    assert(!gives_one(giver_before[k], taker_before, registry@));
                }
            }
        }
        moved
    }
}

/// The source and destination roles of the three routing phases, in the
/// order they are tried: output to input, output to buffer, buffer to input.
pub open spec fn phase_roles(phase: int) -> (ItemTransportRole, ItemTransportRole) {
    if phase == 0 {
        (ItemTransportRole::Output, ItemTransportRole::Input)
    } else if phase == 1 {
        (ItemTransportRole::Output, ItemTransportRole::Buffer)
    } else {
        (ItemTransportRole::Buffer, ItemTransportRole::Input)
    }
}

fn route_phase(phase: usize) -> (roles: (ItemTransportRole, ItemTransportRole))
    ensures
        roles == phase_roles(phase as int),
{
    if phase == 0 {
        (ItemTransportRole::Output, ItemTransportRole::Input)
    } else if phase == 1 {
        (ItemTransportRole::Output, ItemTransportRole::Buffer)
    } else {
        (ItemTransportRole::Buffer, ItemTransportRole::Input)
    }
}

/// Whether a routing phase may move items from `source` to `destination`
/// within a network.
pub open spec fn routes_between(endpoints: Seq<TransportEndpoint>, source: ObjectId, destination: ObjectId) -> bool {
    exists|i: int, j: int, phase: int|
        0 <= i < endpoints.len() && 0 <= j < endpoints.len() && 0 <= phase < 3 && #[trigger] endpoints[i].object
            == source && #[trigger] endpoints[j].object == destination && source != destination
            && endpoints[i].role == #[trigger] phase_roles(phase).0 && endpoints[j].role == phase_roles(phase).1
}

/// A connected group of machines that exchange items.
#[derive(Clone, Debug)]
struct TransportNetwork {
    endpoints: Vec<TransportEndpoint>,
}

/// Whether a route can move one item now: in the phase's roles, from a
/// filled slot of a defined item in the source to a different destination
/// with room for one, and the stores allow the move.
pub open spec fn route_viable(
    world: World,
    definitions: Seq<ItemDefinition>,
    endpoints: Seq<TransportEndpoint>,
    phase: int,
    s: int,
    slot: int,
    d: int,
) -> bool {
    let source = endpoints[s];
    let destination = endpoints[d];
    let roles = phase_roles(phase);
    &&& 0 <= phase < 3
    &&& 0 <= s < endpoints.len()
    &&& 0 <= d < endpoints.len()
    &&& source.role == roles.0
    &&& world.container_spec(source.object) is Some
    &&& 0 <= slot < world.container_spec(source.object)->0.len()
    &&& world.container_spec(source.object)->0[slot] is Some
    &&& max_stack_of(definitions, world.container_spec(source.object)->0[slot]->0.spec_item()) is Some
    &&& destination.role == roles.1
    &&& destination.object != source.object
    &&& world.container_spec(destination.object) is Some
    &&& crate::inventory::fits(
        world.container_spec(destination.object)->0,
        world.container_spec(source.object)->0[slot]->0.spec_item(),
        1,
        max_stack_of(definitions, world.container_spec(source.object)->0[slot]->0.spec_item())->0,
    )
    &&& container_transfer_possible(world, source.object, destination.object, definitions)
}

/// Lexicographic order of routes: phase, source, slot, destination.
pub open spec fn route_before(first: (int, int, int, int), second: (int, int, int, int)) -> bool {
    ||| first.0 < second.0
    ||| first.0 == second.0 && first.1 < second.1
    ||| first.0 == second.0 && first.1 == second.1 && first.2 < second.2
    ||| first.0 == second.0 && first.1 == second.1 && first.2 == second.2 && first.3 < second.3
}

/// No route before a position is viable.
pub open spec fn none_viable_before(
    world: World,
    definitions: Seq<ItemDefinition>,
    endpoints: Seq<TransportEndpoint>,
    position: (int, int, int, int),
) -> bool {
    forall|phase: int, s: int, slot: int, d: int|
        #[trigger] route_viable(world, definitions, endpoints, phase, s, slot, d) ==> !route_before(
            (phase, s, slot, d),
            position,
        )
}

/// Whether some route of a network can move one item now.
pub open spec fn can_move(world: World, definitions: Seq<ItemDefinition>, endpoints: Seq<TransportEndpoint>) -> bool {
    exists|phase: int, s: int, slot: int, d: int| #[trigger] route_viable(world, definitions, endpoints, phase, s, slot, d)
}

/// One transfer step of a network: where a route can move an item, the
/// first viable route in order moves one; otherwise the stores stay as they
/// were. Nothing but the stores changes.
pub open spec fn network_step(
    before: World,
    after: World,
    definitions: Seq<ItemDefinition>,
    endpoints: Seq<TransportEndpoint>,
) -> bool {
    &&& same_layout(before, after)
    &&& !can_move(before, definitions, endpoints) ==> after.spec_containers() == before.spec_containers()
    &&& can_move(before, definitions, endpoints) ==> exists|phase: int, s: int, slot: int, d: int|
        #[trigger] route_viable(before, definitions, endpoints, phase, s, slot, d) && none_viable_before(
            before,
            definitions,
            endpoints,
            (phase, s, slot, d),
        ) && after.spec_containers() == transfer_result(
            before,
            endpoints[s].object,
            endpoints[d].object,
            definitions,
        )
}

/// Moves one item along the first viable route: phases in order, then
/// sources, their slots and destinations in network order.
fn transfer_one_item(world: &mut World, registry: &ItemRegistry, network: &TransportNetwork) -> (moved: bool)
    requires
        old(world).wf(),
    ensures
        final(world).wf(),
        moved == can_move(*old(world), registry@, network.endpoints@),
        network_step(*old(world), *final(world), registry@, network.endpoints@),
{
    let ghost endpoints = network.endpoints@;
    let ghost start = *world;
    let mut phase: usize = 0;
    while phase < 3
        invariant
            same_layout(start, *world),
            world.spec_containers() == start.spec_containers(),
            start == *old(world),
            world.wf(),
            endpoints == network.endpoints@,
            phase <= 3,
            none_viable_before(start, registry@, endpoints, (phase as int, 0, 0, 0)),
        decreases 3 - phase,
    {
        let (source_role, destination_role) = route_phase(phase);
        let mut s: usize = 0;
        while s < network.endpoints.len()
            invariant
                same_layout(start, *world),
                world.spec_containers() == start.spec_containers(),
                start == *old(world),
                world.wf(),
                endpoints == network.endpoints@,
                phase < 3,
                s <= endpoints.len(),
                (source_role, destination_role) == phase_roles(phase as int),
                none_viable_before(start, registry@, endpoints, (phase as int, s as int, 0, 0)),
            decreases network.endpoints@.len() - s,
        {
            let source = network.endpoints[s];
            let slot_count = match world.container(source.object) {
                Some(container) => container.slots().len(),
                None => 0,
            };
            if source.role == source_role {
                let mut slot: usize = 0;
                while slot < slot_count
                    invariant
                        same_layout(start, *world),
                        world.spec_containers() == start.spec_containers(),
                        start == *old(world),
                        world.wf(),
                        endpoints == network.endpoints@,
                        phase < 3,
                        s < endpoints.len(),
                        source == endpoints[s as int],
                        source.role == phase_roles(phase as int).0,
                        destination_role == phase_roles(phase as int).1,
                        slot_count == (match start.container_spec(source.object) {
                            Some(slots) => slots.len(),
                            None => 0,
                        }),
                        slot <= slot_count,
                        none_viable_before(start, registry@, endpoints, (phase as int, s as int, slot as int, 0)),
                    decreases slot_count - slot,
                {
                    let stack = match world.container(source.object) {
                        Some(container) => container.slot(slot),
                        None => None,
                    };
                    if let Some(stack) = stack {
                        if let Some(definition) = registry.get(stack.item()) {
                            let maximum = definition.max_stack;
                            let mut d: usize = 0;
                            while d < network.endpoints.len()
                                invariant
                                    same_layout(start, *world),
                                    world.spec_containers() == start.spec_containers(),
                                    start == *old(world),
                                    world.wf(),
                                    endpoints == network.endpoints@,
                                    phase < 3,
                                    s < endpoints.len(),
                                    source == endpoints[s as int],
                                    source.role == phase_roles(phase as int).0,
                                    destination_role == phase_roles(phase as int).1,
                                    slot < slot_count,
                                    start.container_spec(source.object) is Some,
                                    slot_count == start.container_spec(source.object)->0.len(),
                                    start.container_spec(source.object)->0[slot as int] == Some(stack),
                                    max_stack_of(registry@, stack.spec_item()) == Some(maximum),
                                    d <= endpoints.len(),
                                    none_viable_before(
                                        start,
                                        registry@,
                                        endpoints,
                                        (phase as int, s as int, slot as int, d as int),
                                    ),
                                decreases network.endpoints@.len() - d,
                            {
                                let destination = network.endpoints[d];
                                let mut fits_one = false;
                                if destination.role == destination_role && destination.object != source.object {
                                    fits_one = match world.container(destination.object) {
                                        Some(container) => {
                                            proof {
                                                lemma_capacity_bound(container@, stack.item(), maximum);
                                                assert(container@.len() * maximum <= 4096 * 65535) by (nonlinear_arith)
                                                    requires
                                                        container@.len() <= 4096,
                                                        maximum <= 65535,
                                                ;
                                            }
                                            container.can_add(stack.item(), 1, maximum)
                                        },
                                        None => false,
                                    };
                                }
                                if fits_one {
                                    let ghost before_call = *world;
                                    if world.transfer_one_container_item(source.object, destination.object, registry) {
                                        proof {
                                            lemma_transfer_result_same(
                                                before_call,
                                                start,
                                                source.object,
                                                destination.object,
                                                registry@,
                                            );
                                            assert(route_viable(
                                                start,
                                                registry@,
                                                endpoints,
                                                phase as int,
                                                s as int,
                                                slot as int,
                                                d as int,
                                            ));
                                        }
                                        return true;
                                    }
                                }
                                proof {
                                    assert(!route_viable(
                                        start,
                                        registry@,
                                        endpoints,
                                        phase as int,
                                        s as int,
                                        slot as int,
                                        d as int,
                                    ));
                                    assert forall|p: int, a: int, b: int, c: int|
                                        #[trigger] route_viable(start, registry@, endpoints, p, a, b, c) implies !route_before(
                                        (p, a, b, c),
                                        (phase as int, s as int, slot as int, d + 1),
                                    ) by {
                                        assert(!route_before((p, a, b, c), (phase as int, s as int, slot as int, d as int)));
                                    }
                                }
                                d = d + 1;
                            }
                        }
                    }
                    proof {
                        assert forall|p: int, a: int, b: int, c: int|
                            #[trigger] route_viable(start, registry@, endpoints, p, a, b, c) implies !route_before(
                            (p, a, b, c),
                            (phase as int, s as int, slot + 1, 0),
                        ) by {
                            if p == phase && a == s && b == slot {
                                assert(c < endpoints.len());
                            }
                        }
                    }
                    slot = slot + 1;
                }
            }
            proof {
                assert forall|p: int, a: int, b: int, c: int|
                    #[trigger] route_viable(start, registry@, endpoints, p, a, b, c) implies !route_before(
                    (p, a, b, c),
                    (phase as int, s + 1, 0, 0),
                ) by {
                    if p == phase && a == s {
                        assert(b < slot_count);
                    }
                }
            }
            s = s + 1;
        }
        proof {
            assert forall|p: int, a: int, b: int, c: int|
                #[trigger] route_viable(start, registry@, endpoints, p, a, b, c) implies !route_before(
                (p, a, b, c),
                (phase + 1, 0, 0, 0),
            ) by {
                if p == phase {
                    assert(a < endpoints.len());
                }
            }
        }
        phase = phase + 1;
    }
    proof {
        assert forall|p: int, a: int, b: int, c: int|
            #[trigger] route_viable(start, registry@, endpoints, p, a, b, c) implies false by {
            assert(!route_before((p, a, b, c), (3, 0, 0, 0)));
        }
    }
    false
}

/// The connector whose footprint was recorded last at a tile.
fn lookup_cell(cells: &Vec<(TilePos, usize)>, position: TilePos) -> (found: Option<usize>)
    ensures
        match found {
            Some(k) => exists|i: int| 0 <= i < cells@.len() && #[trigger] cells@[i] == (position, k),
            None => forall|i: int| 0 <= i < cells@.len() ==> #[trigger] cells@[i].0 != position,
        },
{
    let mut index = cells.len();
    while index > 0
        invariant
            index <= cells@.len(),
            forall|i: int| index <= i < cells@.len() ==> #[trigger] cells@[i].0 != position,
        decreases index,
    {
        index = index - 1;
        if cells[index].0 == position {
            assert(cells@[index as int] == (position, cells@[index as int].1));
            return Some(cells[index].1);
        }
    }
    None
}

/// Whether endpoints are ordered by object identifier.
pub open spec fn sorted_by_object(endpoints: Seq<TransportEndpoint>) -> bool {
    forall|i: int, j: int|
        0 <= i < j < endpoints.len() ==> #[trigger] endpoints[i].object.spec_raw() <= #[trigger] endpoints[j].object.spec_raw()
}

/// Sorts endpoints by object identifier, keeping every endpoint.
fn sort_endpoints(endpoints: Vec<TransportEndpoint>) -> (sorted: Vec<TransportEndpoint>)
    ensures
        sorted@.len() == endpoints@.len(),
        sorted_by_object(sorted@),
        forall|e: TransportEndpoint| #[trigger] sorted@.contains(e) <==> endpoints@.contains(e),
        endpoints@.no_duplicates() ==> sorted@.no_duplicates(),
{
    let mut sorted: Vec<TransportEndpoint> = Vec::new();
    let mut index: usize = 0;
    while index < endpoints.len()
        invariant
            index <= endpoints@.len(),
            sorted@.len() == index,
            sorted_by_object(sorted@),
            forall|e: TransportEndpoint| #[trigger] sorted@.contains(e) <==> endpoints@.take(index as int).contains(e),
            endpoints@.no_duplicates() ==> sorted@.no_duplicates(),
        decreases endpoints@.len() - index,
    {
        let item = endpoints[index];
        let mut position: usize = 0;
        while position < sorted.len() && sorted[position].object.raw() <= item.object.raw()
            invariant
                position <= sorted@.len(),
                sorted_by_object(sorted@),
                forall|k: int| 0 <= k < position ==> #[trigger] sorted@[k].object.spec_raw() <= item.object.spec_raw(),
            decreases sorted@.len() - position,
        {
            position = position + 1;
        }
        let ghost previous = sorted@;
        sorted.insert(position, item);
        proof {
            assert(sorted@ == previous.insert(position as int, item));
            if endpoints@.no_duplicates() {
                if previous.contains(item) {
                    let m = choose|m: int| 0 <= m < index && #[trigger] endpoints@.take(index as int)[m] == item;
                    assert(endpoints@[m] == endpoints@[index as int]);
                }
                assert forall|i: int, j: int| 0 <= i < sorted@.len() && 0 <= j < sorted@.len() && i != j implies sorted@[i]
                    != sorted@[j] by {
                    let pi = if i < position { i } else { i - 1 };
                    let pj = if j < position { j } else { j - 1 };
                    if i == position {
                        assert(sorted@[j] == previous[pj]);
                        assert(previous.contains(previous[pj]));
                    } else if j == position {
                        assert(sorted@[i] == previous[pi]);
                        assert(previous.contains(previous[pi]));
                    } else {
                        assert(sorted@[i] == previous[pi]);
                        assert(sorted@[j] == previous[pj]);
                    }
                }
            }
            assert forall|i: int, j: int| 0 <= i < j < sorted@.len() implies #[trigger] sorted@[i].object.spec_raw()
                <= #[trigger] sorted@[j].object.spec_raw() by {
                if j < position {
                } else if j == position {
                    assert(sorted@[i] == previous[i]);
                } else if i < position {
                    assert(sorted@[j] == previous[j - 1]);
                    if position < previous.len() {
                        assert(previous[position as int].object.spec_raw() > item.object.spec_raw());
                        assert(previous[position as int].object.spec_raw() <= previous[j - 1].object.spec_raw());
                    }
                } else if i == position {
                    assert(sorted@[j] == previous[j - 1]);
                    assert(previous[position as int].object.spec_raw() > item.object.spec_raw());
                    if j - 1 > position {
                        assert(previous[position as int].object.spec_raw() <= previous[j - 1].object.spec_raw());
                    }
                } else {
                    assert(sorted@[i] == previous[i - 1]);
                    assert(sorted@[j] == previous[j - 1]);
                }
            }
            assert(endpoints@.take(index + 1) =~= endpoints@.take(index as int).push(item));
            assert forall|e: TransportEndpoint| #[trigger] sorted@.contains(e) <==> endpoints@.take(index + 1).contains(e) by {
                if sorted@.contains(e) {
                    let k = choose|k: int| 0 <= k < sorted@.len() && #[trigger] sorted@[k] == e;
                    if k < position {
                        assert(previous[k] == e);
                    } else if k > position {
                        assert(previous[k - 1] == e);
                    }
                    if e != item {
                        assert(previous.contains(e));
                        assert(endpoints@.take(index as int).contains(e));
                        let m = choose|m: int| 0 <= m < endpoints@.take(index as int).len() && #[trigger] endpoints@.take(index as int)[m] == e;
                        assert(endpoints@.take(index + 1)[m] == e);
                    } else {
                        assert(endpoints@.take(index + 1)[index as int] == e);
                    }
                }
                if endpoints@.take(index + 1).contains(e) {
                    let m = choose|m: int| 0 <= m < endpoints@.take(index + 1).len() && #[trigger] endpoints@.take(index + 1)[m] == e;
                    if m == index {
                        assert(sorted@[position as int] == e);
                    } else {
                        assert(endpoints@.take(index as int)[m] == e);
                        assert(previous.contains(e));
                        let k = choose|k: int| 0 <= k < previous.len() && #[trigger] previous[k] == e;
                        if k < position {
                            assert(sorted@[k] == e);
                        } else {
                            assert(sorted@[k + 1] == e);
                        }
                    }
                }
            }
        }
        index = index + 1;
    }
    proof {
        assert(endpoints@.take(index as int) =~= endpoints@);
    }
    sorted
}

/// Whether an endpoint names a placed machine attached in its own role.
pub open spec fn endpoint_valid(world: World, endpoint: TransportEndpoint) -> bool {
    &&& world.object_spec(endpoint.object) is Some
    &&& transport_role_spec(world.object_spec(endpoint.object)->0.object_type) == Some(endpoint.role)
}

/// A network that can move items, with its machines ordered by identifier.
pub open spec fn network_valid(world: World, endpoints: Seq<TransportEndpoint>) -> bool {
    &&& operational(endpoints)
    &&& endpoints.len() > 0
    &&& sorted_by_object(endpoints)
    &&& forall|k: int| 0 <= k < endpoints.len() ==> #[trigger] endpoint_valid(world, endpoints[k])
}

/// A machine next to connectors, with the connectors it touches.
struct EndpointLink {
    object: ObjectId,
    role: ItemTransportRole,
    connectors: Vec<usize>,
}

pub proof fn lemma_object_at_placed(world: World, position: TilePos)
    requires
        world.wf(),
        object_at_spec(world.spec_objects(), position) is Some,
    ensures
        world.object_spec(object_at_spec(world.spec_objects(), position)->0.id) == object_at_spec(
            world.spec_objects(),
            position,
        ),
{
    world.lemma_wf();
    let objects = world.spec_objects();
    let k = choose|k: int| 0 <= k < objects.len() && #[trigger] covers(objects[k], position);
    lemma_first_cover(objects, position, k);
    let i = choose|i: int|
        0 <= i < objects.len() && #[trigger] covers(objects[i], position) && forall|j: int|
            0 <= j < i ==> !#[trigger] covers(objects[j], position);
    lemma_index_of(objects, objects[i].id, i);
}

/// Some covering object is the earliest one.
pub proof fn lemma_first_cover(objects: Seq<WorldObject>, position: TilePos, k: int)
    requires
        0 <= k < objects.len(),
        covers(objects[k], position),
    ensures
        exists|i: int|
            0 <= i < objects.len() && #[trigger] covers(objects[i], position) && forall|j: int|
                0 <= j < i ==> !#[trigger] covers(objects[j], position),
    decreases k,
{
    if exists|j: int| 0 <= j < k && #[trigger] covers(objects[j], position) {
        let j = choose|j: int| 0 <= j < k && #[trigger] covers(objects[j], position);
        lemma_first_cover(objects, position, j);
    } else {
        assert(forall|j: int| 0 <= j < k ==> !#[trigger] covers(objects[j], position));
    }
}

fn contains_connector(connectors: &Vec<usize>, connector: usize) -> (found: bool)
    ensures
        found == connectors@.contains(connector),
{
    let mut index: usize = 0;
    while index < connectors.len()
        invariant
            index <= connectors@.len(),
            forall|i: int| 0 <= i < index ==> #[trigger] connectors@[i] != connector,
        decreases connectors@.len() - index,
    {
        if connectors[index] == connector {
            assert(connectors@[index as int] == connector);
            return true;
        }
        index = index + 1;
    }
    false
}

fn find_link(links: &Vec<EndpointLink>, object: ObjectId) -> (found: Option<usize>)
    ensures
        match found {
            Some(i) => i < links@.len() && links@[i as int].object == object,
            None => forall|i: int| 0 <= i < links@.len() ==> #[trigger] links@[i].object != object,
        },
{
    let mut index: usize = 0;
    while index < links.len()
        invariant
            index <= links@.len(),
            forall|i: int| 0 <= i < index ==> #[trigger] links@[i].object != object,
        decreases links@.len() - index,
    {
        if links[index].object == object {
            return Some(index);
        }
        index = index + 1;
    }
    None
}

proof fn lemma_of_type_member_bounds(world: World, k: int)
    requires
        world.wf(),
        0 <= k < of_type(world.spec_objects(), FurnitureObject::CARGO_CONVEYOR).len(),
    ensures
        ({
            let object = of_type(world.spec_objects(), FurnitureObject::CARGO_CONVEYOR)[k];
            object.anchor.x + object.width <= world.spec_width() && object.anchor.y + object.height
                <= world.spec_height()
        }),
{
    world.lemma_wf();
    crate::world::lemma_of_type_member(world.spec_objects(), FurnitureObject::CARGO_CONVEYOR, k);
    let object = of_type(world.spec_objects(), FurnitureObject::CARGO_CONVEYOR)[k];
    let i = choose|i: int| 0 <= i < world.spec_objects().len() && #[trigger] world.spec_objects()[i] == object;
    assert(crate::world::in_bounds(world.spec_objects()[i], world.spec_width(), world.spec_height()));
}

/// Adds a network, keeping the list ordered by first machine.
fn insert_network(networks: &mut Vec<TransportNetwork>, network: TransportNetwork, Ghost(world): Ghost<World>) -> (position: usize)
    requires
        network_valid(world, network.endpoints@),
        forall|k: int| 0 <= k < old(networks)@.len() ==> #[trigger] network_valid(world, old(networks)@[k].endpoints@),
        forall|k: int, m: int|
            0 <= k < m < old(networks)@.len() ==> #[trigger] old(networks)@[k].endpoints@[0].object.spec_raw()
                <= #[trigger] old(networks)@[m].endpoints@[0].object.spec_raw(),
    ensures
        final(networks)@.len() == old(networks)@.len() + 1,
        position <= old(networks)@.len(),
        final(networks)@ == old(networks)@.insert(position as int, network),
        forall|k: int| 0 <= k < final(networks)@.len() ==> #[trigger] network_valid(world, final(networks)@[k].endpoints@),
        forall|k: int, m: int|
            0 <= k < m < final(networks)@.len() ==> #[trigger] final(networks)@[k].endpoints@[0].object.spec_raw()
                <= #[trigger] final(networks)@[m].endpoints@[0].object.spec_raw(),
{
    let key = network.endpoints[0].object.raw();
    let mut position: usize = 0;
    while position < networks.len() && networks[position].endpoints.len() > 0
        && networks[position].endpoints[0].object.raw() <= key
        invariant
            position <= networks@.len(),
            networks@ == old(networks)@,
            forall|k: int| 0 <= k < networks@.len() ==> #[trigger] network_valid(world, networks@[k].endpoints@),
            forall|k: int| 0 <= k < position ==> #[trigger] networks@[k].endpoints@[0].object.spec_raw() <= key,
        decreases networks@.len() - position,
    {
        position = position + 1;
    }
    let ghost previous = networks@;
    proof {
        if position < previous.len() {
            assert(network_valid(world, previous[position as int].endpoints@));
        }
    }
    networks.insert(position, network);
    proof {
        assert(networks@ == previous.insert(position as int, network));
        assert forall|k: int| 0 <= k < networks@.len() implies #[trigger] network_valid(world, networks@[k].endpoints@) by {
            if k < position {
                assert(networks@[k] == previous[k]);
            } else if k > position {
                assert(networks@[k] == previous[k - 1]);
            }
        }
        assert forall|k: int, m: int| 0 <= k < m < networks@.len() implies #[trigger] networks@[k].endpoints@[0].object.spec_raw()
            <= #[trigger] networks@[m].endpoints@[0].object.spec_raw() by {
            if m < position {
            } else if m == position {
                assert(networks@[k] == previous[k]);
            } else if k < position {
                assert(networks@[m] == previous[m - 1]);
                assert(previous[position as int].endpoints@[0].object.spec_raw() > key);
                if m - 1 > position {
                    assert(previous[position as int].endpoints@[0].object.spec_raw() <= previous[m - 1].endpoints@[0].object.spec_raw());
                }
            } else if k == position {
                assert(networks@[m] == previous[m - 1]);
                assert(previous[position as int].endpoints@[0].object.spec_raw() > key);
                if m - 1 > position {
                    assert(previous[position as int].endpoints@[0].object.spec_raw() <= previous[m - 1].endpoints@[0].object.spec_raw());
                }
            } else {
                assert(networks@[k] == previous[k - 1]);
                assert(networks@[m] == previous[m - 1]);
            }
        }
    }
    position
}

/// The connectors of a world, in placement order; a connector is known by
/// its position in this list.
pub open spec fn conveyors(world: World) -> Seq<WorldObject> {
    of_type(world.spec_objects(), FurnitureObject::CARGO_CONVEYOR)
}

/// Whether a tile is an in-bounds cardinal neighbour of a tile of connector
/// `c`.
pub open spec fn touches(world: World, c: int, q: TilePos) -> bool {
    &&& 0 <= c < conveyors(world).len()
    &&& exists|p: TilePos, n: int|
        covers(conveyors(world)[c], p) && 0 <= n < adjacent_spec(p, world.spec_width(), world.spec_height()).len()
            && #[trigger] adjacent_spec(p, world.spec_width(), world.spec_height())[n] == q
}

/// Whether some connector covers a tile.
pub open spec fn conveyor_at(world: World, q: TilePos) -> bool {
    exists|b: int| 0 <= b < conveyors(world).len() && #[trigger] covers(conveyors(world)[b], q)
}

/// Whether connector `b` covers a neighbour of a tile of connector `a`.
pub open spec fn conveyors_touch(world: World, a: int, b: int) -> bool {
    exists|q: TilePos| #[trigger] touches(world, a, q) && covers(conveyors(world)[b], q)
}

/// Whether a machine with a transport role covers a tile next to connector
/// `c` that no connector covers.
#[verifier::opaque]
pub open spec fn attached(world: World, c: int, id: ObjectId) -> bool {
    exists|q: TilePos|
        #[trigger] touches(world, c, q) && !conveyor_at(world, q) && (object_at_spec(world.spec_objects(), q) matches Some(
            o,
        ) && o.id == id && transport_role_spec(o.object_type) is Some)
}

/// Whether two connectors are attached to one machine.
pub open spec fn share_machine(world: World, a: int, b: int) -> bool {
    exists|id: ObjectId| #[trigger] attached(world, a, id) && #[trigger] attached(world, b, id)
}

/// Two connectors that join one network directly: they touch, or they are
/// attached to the same machine.
pub open spec fn conveyor_edge(world: World, a: int, b: int) -> bool {
    &&& 0 <= a < conveyors(world).len()
    &&& 0 <= b < conveyors(world).len()
    &&& conveyors_touch(world, a, b) || share_machine(world, a, b)
}

/// Edges that join only directly joined connectors and join every such
/// pair: their classes are the groups of connectors linked through touching
/// connectors and shared machines.
pub open spec fn conveyor_classes(world: World, edges: Seq<(int, int)>) -> bool {
    let labels = labels_after(conveyors(world).len(), edges);
    &&& forall|k: int| 0 <= k < edges.len() ==> conveyor_edge(world, (#[trigger] edges[k]).0, edges[k].1)
    &&& forall|a: int, b: int| #[trigger] conveyor_edge(world, a, b) ==> labels[a] == labels[b]
}

/// Whether a machine of some connector of class `class` has a role.
pub open spec fn class_has_role(world: World, labels: Seq<int>, class: int, role: ItemTransportRole) -> bool {
    exists|c: int, id: ObjectId|
        #[trigger] attached(world, c, id) && labels[c] == class && transport_role_spec(
            world.object_spec(id)->0.object_type,
        ) == Some(role)
}

/// Whether the machines of a class can move items in some routing phase.
pub open spec fn class_operational(world: World, labels: Seq<int>, class: int) -> bool {
    exists|phase: int|
        0 <= phase < 3 && class_has_role(world, labels, class, #[trigger] phase_roles(phase).0) && class_has_role(
            world,
            labels,
            class,
            phase_roles(phase).1,
        )
}

/// The networks are exactly the classes whose machines can move items:
/// each lists the machines attached to one class, once each and ordered by
/// identifier; different networks are different classes; and every machine
/// of a class that can move items is in a network.
pub open spec fn networks_of_classes(world: World, labels: Seq<int>, networks: Seq<Seq<TransportEndpoint>>) -> bool {
    &&& forall|k: int| 0 <= k < networks.len() ==> #[trigger] network_valid(world, networks[k])
    &&& forall|k: int, i: int, j: int|
        0 <= k < networks.len() && 0 <= i < j < networks[k].len() ==> (#[trigger] networks[k][i]).object
            != (#[trigger] networks[k][j]).object
    &&& forall|k: int, i: int|
        0 <= k < networks.len() && 0 <= i < networks[k].len() ==> exists|c: int|
            #[trigger] attached(world, c, (#[trigger] networks[k][i]).object)
    &&& forall|k: int, m: int, i: int, j: int, c: int, d: int|
        0 <= k < networks.len() && 0 <= m < networks.len() && 0 <= i < networks[k].len() && 0 <= j
            < networks[m].len() && #[trigger] attached(world, c, networks[k][i].object) && #[trigger] attached(
            world,
            d,
            networks[m][j].object,
        ) ==> ((k == m) == (labels[c] == labels[d]))
    &&& forall|c: int, id: ObjectId|
        #[trigger] attached(world, c, id) && class_operational(world, labels, labels[c]) ==> exists|k: int, i: int|
            0 <= k < networks.len() && 0 <= i < networks[k].len() && (#[trigger] networks[k][i]).object == id
}

/// A world holds no more connectors than it has cells.
proof fn lemma_conveyors_bound(world: World)
    requires
        world.wf(),
    ensures
        conveyors(world).len() <= crate::world::MAX_WORLD_CELLS,
{
    world.lemma_wf();
    world.spec_objects().filter_lemma(|o: WorldObject| o.object_type == FurnitureObject::CARGO_CONVEYOR);
}

/// Among connectors, at most one covers a tile.
proof fn lemma_one_conveyor(world: World, q: TilePos, b1: int, b2: int)
    requires
        world.wf(),
        0 <= b1 < conveyors(world).len(),
        0 <= b2 < conveyors(world).len(),
        covers(conveyors(world)[b1], q),
        covers(conveyors(world)[b2], q),
    ensures
        b1 == b2,
{
    world.lemma_wf();
    let objects = world.spec_objects();
    crate::world::lemma_of_type_member(objects, FurnitureObject::CARGO_CONVEYOR, b1);
    crate::world::lemma_of_type_member(objects, FurnitureObject::CARGO_CONVEYOR, b2);
    let i1 = choose|i: int| 0 <= i < objects.len() && #[trigger] objects[i] == conveyors(world)[b1];
    let i2 = choose|i: int| 0 <= i < objects.len() && #[trigger] objects[i] == conveyors(world)[b2];
    crate::world::lemma_single_cover(objects, q, i1, i2);
    crate::world::lemma_of_type_distinct(objects, FurnitureObject::CARGO_CONVEYOR);
}

/// Records every tile of every connector with the connector's position in
/// the list.
fn record_cells(world: &World, connectors: &Vec<WorldObject>) -> (cells: Vec<(TilePos, usize)>)
    requires
        world.wf(),
        connectors@ == conveyors(*world),
    ensures
        forall|i: int|
            0 <= i < cells@.len() ==> (#[trigger] cells@[i]).1 < connectors@.len() && covers(
                connectors@[cells@[i].1 as int],
                cells@[i].0,
            ),
        forall|c: int, p: TilePos|
            0 <= c < connectors@.len() && #[trigger] covers(connectors@[c], p) ==> cells@.contains((p, c as usize)),
{
    let count = connectors.len();
    let mut cells: Vec<(TilePos, usize)> = Vec::new();
    let mut k: usize = 0;
    while k < count
        invariant
            world.wf(),
            k <= count,
            count == connectors@.len(),
            connectors@ == conveyors(*world),
            forall|i: int|
                0 <= i < cells@.len() ==> (#[trigger] cells@[i]).1 < count && covers(
                    connectors@[cells@[i].1 as int],
                    cells@[i].0,
                ),
            forall|c: int, p: TilePos|
                0 <= c < k && #[trigger] covers(connectors@[c], p) ==> cells@.contains((p, c as usize)),
        decreases count - k,
    {
        let object = connectors[k];
        proof {
            lemma_of_type_member_bounds(*world, k as int);
        }
        let mut offset_y: u32 = 0;
        while offset_y < object.height as u32
            invariant
                k < count,
                count == connectors@.len(),
                object == connectors@[k as int],
                object.anchor.x + object.width <= u32::MAX,
                object.anchor.y + object.height <= u32::MAX,
                offset_y <= object.height,
                forall|i: int|
                    0 <= i < cells@.len() ==> (#[trigger] cells@[i]).1 < count && covers(
                        connectors@[cells@[i].1 as int],
                        cells@[i].0,
                    ),
                forall|c: int, p: TilePos|
                    0 <= c < k && #[trigger] covers(connectors@[c], p) ==> cells@.contains((p, c as usize)),
                forall|p: TilePos|
                    #[trigger] covers(object, p) && p.y < object.anchor.y + offset_y ==> cells@.contains((p, k)),
            decreases object.height - offset_y,
        {
            let mut offset_x: u32 = 0;
            while offset_x < object.width as u32
                invariant
                    k < count,
                    count == connectors@.len(),
                    object == connectors@[k as int],
                    offset_y < object.height,
                    offset_x <= object.width,
                    object.anchor.x + object.width <= u32::MAX,
                    object.anchor.y + object.height <= u32::MAX,
                    forall|i: int|
                        0 <= i < cells@.len() ==> (#[trigger] cells@[i]).1 < count && covers(
                            connectors@[cells@[i].1 as int],
                            cells@[i].0,
                        ),
                    forall|c: int, p: TilePos|
                        0 <= c < k && #[trigger] covers(connectors@[c], p) ==> cells@.contains((p, c as usize)),
                    forall|p: TilePos|
                        #[trigger] covers(object, p) && (p.y < object.anchor.y + offset_y || (p.y == object.anchor.y
                            + offset_y && p.x < object.anchor.x + offset_x)) ==> cells@.contains((p, k)),
                decreases object.width - offset_x,
            {
                let cell = TilePos::new(object.anchor.x + offset_x, object.anchor.y + offset_y);
                let ghost before = cells@;
                cells.push((cell, k));
                proof {
                    assert(cells@[before.len() as int] == (cell, k));
                    assert forall|c: int, p: TilePos|
                        0 <= c < k && #[trigger] covers(connectors@[c], p) implies cells@.contains((p, c as usize)) by {
                        assert(before.contains((p, c as usize)));
                        let i = choose|i: int| 0 <= i < before.len() && before[i] == (p, c as usize);
                        assert(cells@[i] == (p, c as usize));
                    }
                    assert forall|p: TilePos|
                        #[trigger] covers(object, p) && (p.y < object.anchor.y + offset_y || (p.y == object.anchor.y
                            + offset_y && p.x < object.anchor.x + offset_x + 1)) implies cells@.contains((p, k)) by {
                        if p == cell {
                        } else {
                            assert(before.contains((p, k)));
                            let i = choose|i: int| 0 <= i < before.len() && before[i] == (p, k);
                            assert(cells@[i] == (p, k));
                        }
                    }
                }
                offset_x = offset_x + 1;
            }
            offset_y = offset_y + 1;
        }
        k = k + 1;
    }
    cells
}

/// What the recorded tiles of every connector state.
pub open spec fn cells_recorded(world: World, cells: Seq<(TilePos, usize)>) -> bool {
    &&& forall|i: int|
        0 <= i < cells.len() ==> (#[trigger] cells[i]).1 < conveyors(world).len() && covers(
            conveyors(world)[cells[i].1 as int],
            cells[i].0,
        )
    &&& forall|c: int, p: TilePos|
        0 <= c < conveyors(world).len() && #[trigger] covers(conveyors(world)[c], p) ==> cells.contains(
            (p, c as usize),
        )
}

/// The connector covering a tile, if any.
fn conveyor_covering(cells: &Vec<(TilePos, usize)>, position: TilePos, Ghost(world): Ghost<World>) -> (found: Option<
    usize,
>)
    requires
        world.wf(),
        cells_recorded(world, cells@),
    ensures
        match found {
            Some(b) => b < conveyors(world).len() && covers(conveyors(world)[b as int], position),
            None => !conveyor_at(world, position),
        },
{
    let found = lookup_cell(cells, position);
    proof {
        match found {
            Some(b) => {
                let i = choose|i: int| 0 <= i < cells@.len() && #[trigger] cells@[i] == (position, b);
                assert(cells@[i].1 < conveyors(world).len());
            },
            None => {
                if conveyor_at(world, position) {
                    let b = choose|b: int| 0 <= b < conveyors(world).len() && #[trigger] covers(conveyors(world)[b], position);
                    assert(cells@.contains((position, b as usize)));
                    let i = choose|i: int| 0 <= i < cells@.len() && cells@[i] == (position, b as usize);
                    assert(cells@[i].0 == position);
                }
            },
        }
    }
    found
}

/// The union-find sets follow the classes of edges that each join two
/// directly joined connectors.
#[verifier::opaque]
pub open spec fn tracks(world: World, sets: UnionFind, edges: Seq<(int, int)>) -> bool {
    &&& sets.wf()
    &&& sets.len() == conveyors(world).len()
    &&& same_classes(sets, labels_after(conveyors(world).len(), edges))
    &&& forall|k: int| 0 <= k < edges.len() ==> conveyor_edge(world, (#[trigger] edges[k]).0, edges[k].1)
}

/// Sets that follow a longer list of edges keep together what sets that
/// follow a prefix of it kept together.
proof fn lemma_tracks_extend(world: World, a: UnionFind, edges: Seq<(int, int)>, b: UnionFind, grown: Seq<(int, int)>)
    requires
        tracks(world, a, edges),
        tracks(world, b, grown),
        edges.len() <= grown.len(),
        grown.take(edges.len() as int) == edges,
    ensures
        forall|x: int, y: int|
            0 <= x < conveyors(world).len() && 0 <= y < conveyors(world).len() && a.find(x) == a.find(y) ==> #[trigger] b.find(
                x,
            ) == #[trigger] b.find(y),
{
    reveal(tracks);
    let count = conveyors(world).len();
    let more = grown.skip(edges.len() as int);
    assert(edges + more =~= grown);
    crate::union_find::lemma_labels_extend(count, edges, more);
    assert forall|x: int, y: int|
        0 <= x < count && 0 <= y < count && a.find(x) == a.find(y) implies #[trigger] b.find(x) == #[trigger] b.find(y) by {
        assert(labels_after(count, edges)[x] == labels_after(count, edges)[y]);
        assert(labels_after(count, grown)[x] == labels_after(count, grown)[y]);
    }
}

/// Joins two directly joined connectors and records the edge.
fn join_conveyors(sets: &mut UnionFind, a: usize, b: usize, Ghost(world): Ghost<World>, Ghost(edges): Ghost<
    Seq<(int, int)>,
>) -> (grown: Ghost<Seq<(int, int)>>)
    requires
        tracks(world, *old(sets), edges),
        conveyor_edge(world, a as int, b as int),
    ensures
        grown@ == edges.push((a as int, b as int)),
        tracks(world, *final(sets), grown@),
        final(sets).find(a as int) == final(sets).find(b as int),
        forall|x: int, y: int|
            0 <= x < conveyors(world).len() && 0 <= y < conveyors(world).len() && old(sets).find(x) == old(
                sets,
            ).find(y) ==> #[trigger] final(sets).find(x) == #[trigger] final(sets).find(y),
{
    proof {
        reveal(tracks);
    }
    let ghost count = sets.len();
    let ghost before = *sets;
    sets.join(a, b);
    proof {
        let grown = edges.push((a as int, b as int));
        assert(grown.drop_last() =~= edges);
        let labels = labels_after(count, edges);
        assert forall|i: int, j: int|
            0 <= i < labels.len() && 0 <= j < labels.len() implies (#[trigger] classes_of(before, count)[i]
            == #[trigger] classes_of(before, count)[j]) == (labels[i] == labels[j]) by {
            assert(before.find(i) == before.find(j) <==> labels[i] == labels[j]);
        }
        lemma_merge_classes(classes_of(before, count), classes_of(*sets, count), labels, a as int, b as int);
        assert(labels_after(count, grown) =~= Seq::new(
            count,
            |i: int|
                if labels[i] == labels[a as int] || labels[i] == labels[b as int] {
                    labels[a as int]
                } else {
                    labels[i]
                },
        ));
        assert forall|i: int, j: int|
            0 <= i < count && 0 <= j < count implies (#[trigger] sets.find(i) == #[trigger] sets.find(j)) == (
            labels_after(count, grown)[i] == labels_after(count, grown)[j]) by {
            assert(classes_of(*sets, count)[i] == sets.find(i));
            assert(classes_of(*sets, count)[j] == sets.find(j));
        }
        assert forall|k: int| 0 <= k < grown.len() implies conveyor_edge(world, (#[trigger] grown[k]).0, grown[k].1) by {
            if k < edges.len() {
                assert(grown[k] == edges[k]);
            }
        }
    }
    Ghost(edges.push((a as int, b as int)))
}

/// Joins every connector with the connectors that cover its neighbouring
/// tiles.
fn join_touching(
    world: &World,
    cells: &Vec<(TilePos, usize)>,
    sets: &mut UnionFind,
    Ghost(edges): Ghost<Seq<(int, int)>>,
) -> (grown: Ghost<Seq<(int, int)>>)
    requires
        world.wf(),
        cells_recorded(*world, cells@),
        tracks(*world, *old(sets), edges),
    ensures
        tracks(*world, *final(sets), grown@),
        forall|a: int, b: int|
            0 <= a < conveyors(*world).len() && 0 <= b < conveyors(*world).len() && #[trigger] conveyors_touch(
                *world,
                a,
                b,
            ) ==> final(sets).find(a) == final(sets).find(b),
{
    let width = world.width();
    let height = world.height();
    let ghost mut edges = edges;
    let mut c: usize = 0;
    while c < cells.len()
        invariant
            world.wf(),
            width == world.spec_width(),
            height == world.spec_height(),
            cells_recorded(*world, cells@),
            tracks(*world, *sets, edges),
            c <= cells@.len(),
            forall|i: int, n: int, b: int|
                0 <= i < c && 0 <= n < adjacent_spec(cells@[i].0, width, height).len() && 0 <= b < conveyors(
                    *world,
                ).len() && #[trigger] covers(conveyors(*world)[b], adjacent_spec(cells@[i].0, width, height)[n])
                    ==> sets.find(cells@[i].1 as int) == sets.find(b),
        decreases cells@.len() - c,
    {
        let (position, connector) = cells[c];
        let neighbours = adjacent_positions(position, width, height);
        let mut n: usize = 0;
        while n < neighbours.len()
            invariant
                world.wf(),
                width == world.spec_width(),
                height == world.spec_height(),
                cells_recorded(*world, cells@),
                tracks(*world, *sets, edges),
                c < cells@.len(),
                (position, connector) == cells@[c as int],
                neighbours@ == adjacent_spec(position, width, height),
                n <= neighbours@.len(),
                forall|i: int, m: int, b: int|
                    0 <= i < c && 0 <= m < adjacent_spec(cells@[i].0, width, height).len() && 0 <= b < conveyors(
                        *world,
                    ).len() && #[trigger] covers(conveyors(*world)[b], adjacent_spec(cells@[i].0, width, height)[m])
                        ==> sets.find(cells@[i].1 as int) == sets.find(b),
                forall|m: int, b: int|
                    0 <= m < n && 0 <= b < conveyors(*world).len() && #[trigger] covers(
                        conveyors(*world)[b],
                        adjacent_spec(position, width, height)[m],
                    ) ==> sets.find(connector as int) == sets.find(b),
            decreases neighbours@.len() - n,
        {
            if let Some(other) = conveyor_covering(cells, neighbours[n], Ghost(*world)) {
                proof {
                    assert(cells@[c as int].1 < conveyors(*world).len());
                    assert(covers(conveyors(*world)[connector as int], position));
                    assert(touches(*world, connector as int, neighbours@[n as int]));
                    assert(conveyors_touch(*world, connector as int, other as int));
                }
                let ghost before = *sets;
                let grown = join_conveyors(sets, connector, other, Ghost(*world), Ghost(edges));
                proof {
                    edges = grown@;
                    assert forall|i: int, m: int, b: int|
                        0 <= i < c && 0 <= m < adjacent_spec(cells@[i].0, width, height).len() && 0 <= b
                            < conveyors(*world).len() && #[trigger] covers(
                            conveyors(*world)[b],
                            adjacent_spec(cells@[i].0, width, height)[m],
                        ) implies sets.find(cells@[i].1 as int) == sets.find(b) by {
                        assert(before.find(cells@[i].1 as int) == before.find(b));
                        assert(cells@[i].1 < conveyors(*world).len());
                    }
                    assert forall|m: int, b: int|
                        0 <= m < n + 1 && 0 <= b < conveyors(*world).len() && #[trigger] covers(
                            conveyors(*world)[b],
                            adjacent_spec(position, width, height)[m],
                        ) implies sets.find(connector as int) == sets.find(b) by {
                        if m < n {
                            assert(before.find(connector as int) == before.find(b));
                        } else {
                            lemma_one_conveyor(*world, neighbours@[n as int], b, other as int);
                        }
                    }
                }
            } else {
                proof {
                    assert forall|m: int, b: int|
                        0 <= m < n + 1 && 0 <= b < conveyors(*world).len() && #[trigger] covers(
                            conveyors(*world)[b],
                            adjacent_spec(position, width, height)[m],
                        ) implies sets.find(connector as int) == sets.find(b) by {
                        if m == n {
                            assert(conveyor_at(*world, neighbours@[n as int]));
                        }
                    }
                }
            }
            n = n + 1;
        }
        c = c + 1;
    }
    proof {
        assert forall|a: int, b: int|
            0 <= a < conveyors(*world).len() && 0 <= b < conveyors(*world).len() && #[trigger] conveyors_touch(
                *world,
                a,
                b,
            ) implies sets.find(a) == sets.find(b) by {
            lemma_conveyors_bound(*world);
            let q = choose|q: TilePos| #[trigger] touches(*world, a, q) && covers(conveyors(*world)[b], q);
            let (p, m) = choose|p: TilePos, m: int|
                covers(conveyors(*world)[a], p) && 0 <= m < adjacent_spec(p, width, height).len()
                    && #[trigger] adjacent_spec(p, width, height)[m] == q;
            assert(cells@.contains((p, a as usize)));
            let i = choose|i: int| 0 <= i < cells@.len() && cells@[i] == (p, a as usize);
            assert(covers(conveyors(*world)[b], adjacent_spec(cells@[i].0, width, height)[m]));
        }
    }
    Ghost(edges)
}

/// The machine with a transport role on a neighbouring tile of a tile, where
/// no connector covers that neighbour.
pub open spec fn machine_next(world: World, p: TilePos, n: int) -> Option<ObjectId> {
    let q = adjacent_spec(p, world.spec_width(), world.spec_height())[n];
    if !conveyor_at(world, q) && (object_at_spec(world.spec_objects(), q) matches Some(o) && transport_role_spec(
        o.object_type,
    ) is Some) {
        Some(object_at_spec(world.spec_objects(), q)->0.id)
    } else {
        None
    }
}

/// Whether the machine's link lists a connector.
spec fn linked(links: Seq<EndpointLink>, id: ObjectId, c: usize) -> bool {
    exists|l: int| 0 <= l < links.len() && links[l].object == id && (#[trigger] links[l].connectors@).contains(c)
}

/// What the links of the machines attached to connectors state: each
/// machine once, in its own role, with the connectors it is attached to,
/// and every attachment listed.
#[verifier::opaque]
spec fn links_recorded(world: World, links: Seq<EndpointLink>) -> bool {
    &&& forall|l: int| 0 <= l < links.len() ==> (#[trigger] links[l]).connectors@.len() > 0
    &&& forall|l: int, j: int|
        0 <= l < links.len() && 0 <= j < links[l].connectors@.len() ==> #[trigger] links[l].connectors@[j]
            < conveyors(world).len() && attached(world, links[l].connectors@[j] as int, links[l].object)
    &&& forall|l: int|
        0 <= l < links.len() ==> #[trigger] endpoint_valid(
            world,
            TransportEndpoint { object: links[l].object, role: links[l].role },
        )
    &&& forall|l: int, m: int|
        0 <= l < links.len() && 0 <= m < links.len() && l != m ==> (#[trigger] links[l]).object != (
        #[trigger] links[m]).object
}

/// Records that a machine is attached to a connector.
fn add_link(
    links: &mut Vec<EndpointLink>,
    id: ObjectId,
    role: ItemTransportRole,
    connector: usize,
    Ghost(world): Ghost<World>,
)
    requires
        links_recorded(world, old(links)@),
        connector < conveyors(world).len(),
        attached(world, connector as int, id),
        endpoint_valid(world, TransportEndpoint { object: id, role }),
    ensures
        links_recorded(world, final(links)@),
        linked(final(links)@, id, connector),
        forall|x: ObjectId, k: usize| #[trigger] linked(old(links)@, x, k) ==> linked(final(links)@, x, k),
{
    proof {
        reveal(links_recorded);
    }
    let ghost before = links@;
    match find_link(&links, id) {
    Some(l) => {
        let mut link = links.remove(l);
        let ghost old_connectors = link.connectors@;
        let already = contains_connector(&link.connectors, connector);
        if !already {
            link.connectors.push(connector);
        }
        links.insert(l, link);
        proof {
            assert(links@ =~= before.update(l as int, link));
            assert forall|k: usize| old_connectors.contains(k) implies #[trigger] link.connectors@.contains(k) by {
                let j = choose|j: int| 0 <= j < old_connectors.len() && old_connectors[j] == k;
                assert(link.connectors@[j] == old_connectors[j]);
            }
            if !already {
                assert(link.connectors@[link.connectors@.len() - 1] == connector);
            }
            assert(link.connectors@.contains(connector));
            assert forall|ll: int, j: int|
                0 <= ll < links@.len() && 0 <= j < links@[ll].connectors@.len() implies #[trigger] links@[ll].connectors@[j]
                    < conveyors(world).len() && attached(
                    world,
                    links@[ll].connectors@[j] as int,
                    links@[ll].object,
                ) by {
                if ll == l && j >= old_connectors.len() {
                    assert(links@[ll].connectors@[j] == connector);
                } else if ll == l {
                    assert(links@[ll].connectors@[j] == before[ll].connectors@[j]);
                }
            }
            assert forall|ll: int| 0 <= ll < links@.len() implies (#[trigger] links@[ll]).connectors@.len() > 0 by {
            }
            assert forall|ll: int, mm: int|
                0 <= ll < links@.len() && 0 <= mm < links@.len() && ll != mm implies (#[trigger] links@[ll]).object
                    != (#[trigger] links@[mm]).object by {
                assert(before[ll].object != before[mm].object);
            }
            assert forall|ll: int| 0 <= ll < links@.len() implies #[trigger] endpoint_valid(
                world,
                TransportEndpoint { object: links@[ll].object, role: links@[ll].role },
            ) by {
                assert(endpoint_valid(
                    world,
                    TransportEndpoint { object: before[ll].object, role: before[ll].role },
                ));
            }
            assert forall|id: ObjectId, k: usize| #[trigger] linked(before, id, k) implies linked(
                links@,
                id,
                k,
            ) by {
                let ll = choose|ll: int|
                    0 <= ll < before.len() && before[ll].object == id && (#[trigger] before[ll].connectors@).contains(k);
                if ll == l {
                    assert(old_connectors.contains(k));
                    assert(links@[ll].connectors@.contains(k));
                } else {
                    assert(links@[ll] == before[ll]);
                }
            }
            assert(links@[l as int].connectors@.contains(connector));
            assert(linked(links@, id, connector));
        }
    },
    None => {
        let mut attached_connectors: Vec<usize> = Vec::new();
        attached_connectors.push(connector);
        links.push(EndpointLink { object: id, role, connectors: attached_connectors });
        proof {
            assert forall|id: ObjectId, k: usize| #[trigger] linked(before, id, k) implies linked(
                links@,
                id,
                k,
            ) by {
                let ll = choose|ll: int|
                    0 <= ll < before.len() && before[ll].object == id && (#[trigger] before[ll].connectors@).contains(k);
                assert(links@[ll] == before[ll]);
            }
            assert(links@[before.len() as int].connectors@[0] == connector);
            assert(linked(links@, id, connector));
            assert forall|ll: int, j: int|
                0 <= ll < links@.len() && 0 <= j < links@[ll].connectors@.len() implies #[trigger] links@[ll].connectors@[j]
                    < conveyors(world).len() && attached(
                    world,
                    links@[ll].connectors@[j] as int,
                    links@[ll].object,
                ) by {
                if ll < before.len() {
                    assert(links@[ll] == before[ll]);
                }
            }
            assert forall|ll: int| 0 <= ll < links@.len() implies #[trigger] endpoint_valid(
                world,
                TransportEndpoint { object: links@[ll].object, role: links@[ll].role },
            ) by {
                if ll < before.len() {
                    assert(links@[ll] == before[ll]);
                }
            }
            assert forall|ll: int, mm: int|
                0 <= ll < links@.len() && 0 <= mm < links@.len() && ll != mm implies (#[trigger] links@[ll]).object
                    != (#[trigger] links@[mm]).object by {
                if ll < before.len() && mm < before.len() {
                    assert(before[ll].object != before[mm].object);
                }
            }
        }
    },
    }
}

/// The machine with a transport role on a tile that no connector covers.
fn machine_beside(world: &World, cells: &Vec<(TilePos, usize)>, q: TilePos) -> (found: Option<
    (ObjectId, ItemTransportRole),
>)
    requires
        world.wf(),
        cells_recorded(*world, cells@),
    ensures
        found == if !conveyor_at(*world, q) && (object_at_spec(world.spec_objects(), q) matches Some(o)
            && transport_role_spec(o.object_type) is Some) {
            Some(
                (
                    object_at_spec(world.spec_objects(), q)->0.id,
                    transport_role_spec(object_at_spec(world.spec_objects(), q)->0.object_type)->0,
                ),
            )
        } else {
            None
        },
        found matches Some(pair) ==> endpoint_valid(*world, TransportEndpoint { object: pair.0, role: pair.1 }),
{
    if conveyor_covering(cells, q, Ghost(*world)).is_some() {
        return None;
    }
    let object = match world.object_at(q) {
        Some(object) => object,
        None => return None,
    };
    let role = match item_transport_role(object.object_type) {
        Some(role) => role,
        None => return None,
    };
    proof {
        lemma_object_at_placed(*world, q);
    }
    Some((object.id, role))
}

/// Links that cover the machine beside every neighbour of every recorded
/// tile cover every attachment.
proof fn lemma_links_complete(world: World, cells: Seq<(TilePos, usize)>, links: Seq<EndpointLink>)
    requires
        world.wf(),
        cells_recorded(world, cells),
        forall|i: int, m: int|
            0 <= i < cells.len() && 0 <= m < adjacent_spec(cells[i].0, world.spec_width(), world.spec_height()).len()
                && #[trigger] machine_next(world, cells[i].0, m) is Some ==> linked(
                links,
                machine_next(world, cells[i].0, m)->0,
                cells[i].1,
            ),
    ensures
        forall|c: int, id: ObjectId| #[trigger] attached(world, c, id) ==> linked(links, id, c as usize),
{
    assert forall|cc: int, id: ObjectId| #[trigger] attached(world, cc, id) implies linked(links, id, cc as usize) by {
        let i = lemma_attachment_cell(world, cells, cc, id);
    }
}

/// An attachment is seen from a recorded tile of its connector.
proof fn lemma_attachment_cell(world: World, cells: Seq<(TilePos, usize)>, c: int, id: ObjectId) -> (im: (int, int))
    requires
        world.wf(),
        cells_recorded(world, cells),
        attached(world, c, id),
    ensures
        0 <= im.0 < cells.len(),
        cells[im.0].1 == c,
        0 <= im.1 < adjacent_spec(cells[im.0].0, world.spec_width(), world.spec_height()).len(),
        machine_next(world, cells[im.0].0, im.1) == Some(id),
{
    reveal(attached);
    let width = world.spec_width();
    let height = world.spec_height();
    lemma_conveyors_bound(world);
    let q = choose|q: TilePos|
        #[trigger] touches(world, c, q) && !conveyor_at(world, q) && (object_at_spec(world.spec_objects(), q) matches Some(
            o,
        ) && o.id == id && transport_role_spec(o.object_type) is Some);
    let (p, m) = choose|p: TilePos, m: int|
        covers(conveyors(world)[c], p) && 0 <= m < adjacent_spec(p, width, height).len()
            && #[trigger] adjacent_spec(p, width, height)[m] == q;
    assert(0 <= c < conveyors(world).len());
    assert(cells.contains((p, c as usize)));
    let i = choose|i: int| 0 <= i < cells.len() && cells[i] == (p, c as usize);
    (i, m)
}

/// Collects the machines next to connector tiles, each with the connectors
/// it touches.
#[verifier::spinoff_prover]
fn collect_links(world: &World, cells: &Vec<(TilePos, usize)>) -> (links: Vec<EndpointLink>)
    requires
        world.wf(),
        cells_recorded(*world, cells@),
    ensures
        links_recorded(*world, links@),
        forall|c: int, id: ObjectId| #[trigger] attached(*world, c, id) ==> linked(links@, id, c as usize),
{
    let width = world.width();
    let height = world.height();
    let mut links: Vec<EndpointLink> = Vec::new();
    proof {
        reveal(links_recorded);
    }
    let mut c: usize = 0;
    while c < cells.len()
        invariant
            world.wf(),
            width == world.spec_width(),
            height == world.spec_height(),
            cells_recorded(*world, cells@),
            c <= cells@.len(),
            links_recorded(*world, links@),
            forall|i: int, m: int|
                0 <= i < c && 0 <= m < adjacent_spec(cells@[i].0, width, height).len() && #[trigger] machine_next(
                    *world,
                    cells@[i].0,
                    m,
                ) is Some ==> linked(links@, machine_next(*world, cells@[i].0, m)->0, cells@[i].1),
        decreases cells@.len() - c,
    {
        let (position, connector) = cells[c];
        let neighbours = adjacent_positions(position, width, height);
        let mut n: usize = 0;
        while n < neighbours.len()
            invariant
                world.wf(),
                width == world.spec_width(),
                height == world.spec_height(),
                cells_recorded(*world, cells@),
                c < cells@.len(),
                (position, connector) == cells@[c as int],
                neighbours@ == adjacent_spec(position, width, height),
                n <= neighbours@.len(),
                links_recorded(*world, links@),
                forall|i: int, m: int|
                    0 <= i < c && 0 <= m < adjacent_spec(cells@[i].0, width, height).len() && #[trigger] machine_next(
                        *world,
                        cells@[i].0,
                        m,
                    ) is Some ==> linked(links@, machine_next(*world, cells@[i].0, m)->0, cells@[i].1),
                forall|m: int|
                    0 <= m < n && #[trigger] machine_next(*world, position, m) is Some ==> linked(
                        links@,
                        machine_next(*world, position, m)->0,
                        connector,
                    ),
            decreases neighbours@.len() - n,
        {
            let neighbour = neighbours[n];
            let ghost before = links@;
            let found = machine_beside(world, cells, neighbour);
            proof {
                assert(machine_next(*world, position, n as int) == match found {
                    Some(pair) => Some(pair.0),
                    None => None,
                });
            }
            if let Some((id, role)) = found {
                proof {
                    assert(cells@[c as int].1 < conveyors(*world).len());
                    assert(touches(*world, connector as int, neighbour));
                    assert(attached(*world, connector as int, id)) by {
                        reveal(attached);
                    }
                }
                add_link(&mut links, id, role, connector, Ghost(*world));
            }
            proof {
                assert forall|i: int, mm: int|
                    0 <= i < c && 0 <= mm < adjacent_spec(cells@[i].0, width, height).len() && #[trigger] machine_next(
                        *world,
                        cells@[i].0,
                        mm,
                    ) is Some implies linked(links@, machine_next(*world, cells@[i].0, mm)->0, cells@[i].1) by {
                    assert(linked(before, machine_next(*world, cells@[i].0, mm)->0, cells@[i].1));
                }
                assert forall|mm: int|
                    0 <= mm < n + 1 && #[trigger] machine_next(*world, position, mm) is Some implies linked(
                        links@,
                        machine_next(*world, position, mm)->0,
                        connector,
                    ) by {
                    if mm < n {
                        assert(linked(before, machine_next(*world, position, mm)->0, connector));
                    }
                }
            }
            n = n + 1;
        }
        c = c + 1;
    }
    proof {
        lemma_links_complete(*world, cells@, links@);
    }
    links
}

/// The facts a link records of one of its connectors.
proof fn lemma_link_facts(world: World, links: Seq<EndpointLink>, l: int, j: int)
    requires
        links_recorded(world, links),
        0 <= l < links.len(),
        0 <= j < links[l].connectors@.len(),
    ensures
        links[l].connectors@[j] < conveyors(world).len(),
        attached(world, links[l].connectors@[j] as int, links[l].object),
        endpoint_valid(world, TransportEndpoint { object: links[l].object, role: links[l].role }),
{
    reveal(links_recorded);
}

/// The links list each machine once, with at least one connector.
proof fn lemma_links_distinct(world: World, links: Seq<EndpointLink>)
    requires
        links_recorded(world, links),
    ensures
        forall|l: int| 0 <= l < links.len() ==> (#[trigger] links[l]).connectors@.len() > 0,
        forall|l: int, m: int|
            0 <= l < links.len() && 0 <= m < links.len() && l != m ==> (#[trigger] links[l]).object != (
            #[trigger] links[m]).object,
{
    reveal(links_recorded);
}

/// Joins the connectors one machine is attached to.
fn join_link(
    connectors: &Vec<usize>,
    sets: &mut UnionFind,
    Ghost(world): Ghost<World>,
    Ghost(id): Ghost<ObjectId>,
    Ghost(edges): Ghost<Seq<(int, int)>>,
) -> (grown: Ghost<Seq<(int, int)>>)
    requires
        tracks(world, *old(sets), edges),
        connectors@.len() > 0,
        forall|j: int|
            0 <= j < connectors@.len() ==> #[trigger] connectors@[j] < conveyors(world).len() && attached(
                world,
                connectors@[j] as int,
                id,
            ),
    ensures
        tracks(world, *final(sets), grown@),
        forall|j: int|
            0 <= j < connectors@.len() ==> final(sets).find(#[trigger] connectors@[j] as int) == final(sets).find(
                connectors@[0] as int,
            ),
        edges.len() <= grown@.len(),
        grown@.take(edges.len() as int) == edges,
{
    let ghost start = edges;
    let ghost mut edges = edges;
    let first = connectors[0];
    proof {
        assert(connectors@[0] < conveyors(world).len());
    }
    let mut j: usize = 1;
    while j < connectors.len()
        invariant
            tracks(world, *sets, edges),
            first == connectors@[0],
            first < conveyors(world).len(),
            attached(world, first as int, id),
            1 <= j <= connectors@.len(),
            forall|k: int|
                0 <= k < connectors@.len() ==> #[trigger] connectors@[k] < conveyors(world).len() && attached(
                    world,
                    connectors@[k] as int,
                    id,
                ),
            forall|i: int| 0 <= i < j ==> sets.find(#[trigger] connectors@[i] as int) == sets.find(first as int),
            start.len() <= edges.len(),
            edges.take(start.len() as int) == start,
        decreases connectors@.len() - j,
    {
        let other = connectors[j];
        proof {
            assert(attached(world, other as int, id));
            assert(share_machine(world, first as int, other as int));
        }
        let ghost before = *sets;
        let ghost previous = edges;
        let grown = join_conveyors(sets, first, other, Ghost(world), Ghost(edges));
        proof {
            edges = grown@;
            assert(previous.take(start.len() as int) == start);
            assert forall|i: int| 0 <= i < j + 1 implies sets.find(#[trigger] connectors@[i] as int) == sets.find(
                first as int,
            ) by {
                if i < j {
                    assert(before.find(connectors@[i] as int) == before.find(first as int));
                }
            }
            assert(edges.take(start.len() as int) =~= start);
        }
        j = j + 1;
    }
    Ghost(edges)
}

/// Joins the connectors that each machine is attached to.
fn join_shared(
    links: &Vec<EndpointLink>,
    sets: &mut UnionFind,
    Ghost(world): Ghost<World>,
    Ghost(edges): Ghost<Seq<(int, int)>>,
) -> (grown: Ghost<Seq<(int, int)>>)
    requires
        links_recorded(world, links@),
        tracks(world, *old(sets), edges),
    ensures
        tracks(world, *final(sets), grown@),
        forall|l: int, j: int|
            0 <= l < links@.len() && 0 <= j < links@[l].connectors@.len() ==> final(sets).find(
                #[trigger] links@[l].connectors@[j] as int,
            ) == final(sets).find(links@[l].connectors@[0] as int),
        edges.len() <= grown@.len(),
        grown@.take(edges.len() as int) == edges,
{
    let ghost first_edges = edges;
    let ghost mut edges = edges;
    let mut l: usize = 0;
    while l < links.len()
        invariant
            links_recorded(world, links@),
            tracks(world, *sets, edges),
            l <= links@.len(),
            forall|ll: int, j: int|
                0 <= ll < l && 0 <= j < links@[ll].connectors@.len() ==> sets.find(
                    #[trigger] links@[ll].connectors@[j] as int,
                ) == sets.find(links@[ll].connectors@[0] as int),
            first_edges.len() <= edges.len(),
            edges.take(first_edges.len() as int) == first_edges,
        decreases links@.len() - l,
    {
        proof {
            lemma_links_distinct(world, links@);
            assert forall|j: int| 0 <= j < links@[l as int].connectors@.len() implies #[trigger] links@[l as int].connectors@[j]
                < conveyors(world).len() && attached(world, links@[l as int].connectors@[j] as int, links@[l as int].object) by {
                lemma_link_facts(world, links@, l as int, j);
            }
        }
        let ghost before = *sets;
        let ghost previous = edges;
        let grown = join_link(&links[l].connectors, sets, Ghost(world), Ghost(links@[l as int].object), Ghost(edges));
        proof {
            edges = grown@;
            lemma_tracks_extend(world, before, previous, *sets, edges);
            assert forall|ll: int, j: int|
                0 <= ll < l + 1 && 0 <= j < links@[ll].connectors@.len() implies sets.find(
                    #[trigger] links@[ll].connectors@[j] as int,
                ) == sets.find(links@[ll].connectors@[0] as int) by {
                if ll < l {
                    lemma_link_facts(world, links@, ll, j);
                    lemma_link_facts(world, links@, ll, 0);
                    assert(before.find(links@[ll].connectors@[j] as int) == before.find(links@[ll].connectors@[0] as int));
                }
            }
            assert(edges.take(first_edges.len() as int) =~= first_edges);
        }
        l = l + 1;
    }
    Ghost(edges)
}

/// The endpoint a link stands for.
spec fn endpoint_of(link: EndpointLink) -> TransportEndpoint {
    TransportEndpoint { object: link.object, role: link.role }
}

/// Sorts the machines of the links by the set of their first connector.
fn group_endpoints(links: &Vec<EndpointLink>, sets: &mut UnionFind, count: usize, Ghost(world): Ghost<World>) -> (grouped: Vec<
    Vec<TransportEndpoint>,
>)
    requires
        links_recorded(world, links@),
        old(sets).wf(),
        old(sets).len() == conveyors(world).len(),
        count == conveyors(world).len(),
    ensures
        final(sets).wf(),
        final(sets).len() == old(sets).len(),
        forall|i: int| 0 <= i < old(sets).len() ==> #[trigger] final(sets).find(i) == old(sets).find(i),
        grouped@.len() == conveyors(world).len(),
        forall|g: int, e: int|
            0 <= g < grouped@.len() && 0 <= e < grouped@[g]@.len() ==> exists|l: int|
                0 <= l < links@.len() && #[trigger] endpoint_of(links@[l]) == (#[trigger] grouped@[g]@[e]) && old(
                    sets,
                ).find(links@[l].connectors@[0] as int) == g,
        forall|l: int|
            0 <= l < links@.len() ==> grouped@[old(sets).find(links@[l].connectors@[0] as int)]@.contains(
                #[trigger] endpoint_of(links@[l]),
            ),
        forall|g: int, a: int, b: int|
            0 <= g < grouped@.len() && 0 <= a < grouped@[g]@.len() && 0 <= b < grouped@[g]@.len() && a != b
                ==> (#[trigger] grouped@[g]@[a]).object != (#[trigger] grouped@[g]@[b]).object,
{
    let ghost start = *sets;
    let mut grouped: Vec<Vec<TransportEndpoint>> = Vec::new();
    while grouped.len() < count
        invariant
            grouped@.len() <= count,
            forall|g: int| 0 <= g < grouped@.len() ==> (#[trigger] grouped@[g])@.len() == 0,
        decreases count - grouped@.len(),
    {
        grouped.push(Vec::new());
    }
    proof {
        lemma_links_distinct(world, links@);
    }
    let mut l: usize = 0;
    while l < links.len()
        invariant
            links_recorded(world, links@),
            sets.wf(),
            sets.len() == count,
            count == conveyors(world).len(),
            start == *old(sets),
            start.wf(),
            start.len() == count,
            forall|i: int| 0 <= i < count ==> #[trigger] sets.find(i) == start.find(i),
            grouped@.len() == count,
            l <= links@.len(),
            forall|g: int, e: int|
                0 <= g < grouped@.len() && 0 <= e < grouped@[g]@.len() ==> exists|ll: int|
                    0 <= ll < l && #[trigger] endpoint_of(links@[ll]) == (#[trigger] grouped@[g]@[e])
                        && start.find(links@[ll].connectors@[0] as int) == g,
            forall|ll: int|
                0 <= ll < l ==> grouped@[start.find(links@[ll].connectors@[0] as int)]@.contains(
                    #[trigger] endpoint_of(links@[ll]),
                ),
            forall|g: int, a: int, b: int|
                0 <= g < grouped@.len() && 0 <= a < grouped@[g]@.len() && 0 <= b < grouped@[g]@.len() && a != b
                    ==> (#[trigger] grouped@[g]@[a]).object != (#[trigger] grouped@[g]@[b]).object,
        decreases links@.len() - l,
    {
        proof {
            lemma_links_distinct(world, links@);
            lemma_link_facts(world, links@, l as int, 0);
        }
        let root = sets.root(links[l].connectors[0]);
        let endpoint = TransportEndpoint { object: links[l].object, role: links[l].role };
        let ghost before = grouped@;
        let mut group = grouped.remove(root);
        let ghost old_group = group@;
        group.push(endpoint);
        grouped.insert(root, group);
        proof {
            assert(grouped@ =~= before.update(root as int, group));
            assert(endpoint == endpoint_of(links@[l as int]));
            assert forall|g: int, e: int|
                0 <= g < grouped@.len() && 0 <= e < grouped@[g]@.len() implies exists|ll: int|
                    0 <= ll < l + 1 && #[trigger] endpoint_of(links@[ll]) == (#[trigger] grouped@[g]@[e])
                        && start.find(links@[ll].connectors@[0] as int) == g by {
                if g == root && e == old_group.len() {
                    assert(endpoint_of(links@[l as int]) == grouped@[g]@[e]);
                } else {
                    assert(grouped@[g]@[e] == before[g]@[e]);
                    let ll = choose|ll: int|
                        0 <= ll < l && #[trigger] endpoint_of(links@[ll]) == (#[trigger] before[g]@[e])
                            && start.find(links@[ll].connectors@[0] as int) == g;
                    assert(endpoint_of(links@[ll]) == grouped@[g]@[e]);
                }
            }
            assert forall|ll: int| 0 <= ll < l + 1 implies grouped@[start.find(links@[ll].connectors@[0] as int)]@.contains(
                #[trigger] endpoint_of(links@[ll]),
            ) by {
                if ll == l {
                    assert(grouped@[root as int]@[old_group.len() as int] == endpoint);
                } else {
                    let g = start.find(links@[ll].connectors@[0] as int);
                    lemma_link_facts(world, links@, ll, 0);
                    start.lemma_find_in_range(links@[ll].connectors@[0] as int);
                    assert(before[g]@.contains(endpoint_of(links@[ll])));
                    let e = choose|e: int| 0 <= e < before[g]@.len() && before[g]@[e] == endpoint_of(links@[ll]);
                    assert(grouped@[g]@[e] == before[g]@[e]);
                }
            }
            assert forall|g: int, a: int, b: int|
                0 <= g < grouped@.len() && 0 <= a < grouped@[g]@.len() && 0 <= b < grouped@[g]@.len() && a != b
                    implies (#[trigger] grouped@[g]@[a]).object != (#[trigger] grouped@[g]@[b]).object by {
                if g == root && (a == old_group.len() || b == old_group.len()) {
                    let other = if a == old_group.len() { b } else { a };
                    assert(grouped@[g]@[other] == before[g]@[other]);
                    let ll = choose|ll: int|
                        0 <= ll < l && #[trigger] endpoint_of(links@[ll]) == (#[trigger] before[g]@[other])
                            && start.find(links@[ll].connectors@[0] as int) == g;
                    assert(links@[ll].object != links@[l as int].object);
                } else {
                    assert(grouped@[g]@[a] == before[g]@[a]);
                    assert(grouped@[g]@[b] == before[g]@[b]);
                }
            }
        }
        l = l + 1;
    }
    proof {
        assert forall|g: int, e: int|
            0 <= g < grouped@.len() && 0 <= e < grouped@[g]@.len() implies exists|ll: int|
                0 <= ll < links@.len() && #[trigger] endpoint_of(links@[ll]) == (#[trigger] grouped@[g]@[e])
                    && start.find(links@[ll].connectors@[0] as int) == g by {
            let ll = choose|ll: int|
                0 <= ll < l && #[trigger] endpoint_of(links@[ll]) == (#[trigger] grouped@[g]@[e])
                    && start.find(links@[ll].connectors@[0] as int) == g;
        }
    }
    grouped
}

/// Endpoint lists with the same members are operational together.
proof fn lemma_operational_members(a: Seq<TransportEndpoint>, b: Seq<TransportEndpoint>)
    requires
        forall|e: TransportEndpoint| #[trigger] a.contains(e) <==> b.contains(e),
    ensures
        operational(a) == operational(b),
        a.len() > 0 <==> b.len() > 0,
{
    assert forall|role: ItemTransportRole| has_role(a, role) implies #[trigger] has_role(b, role) by {
        let i = choose|i: int| 0 <= i < a.len() && #[trigger] a[i].role == role;
        assert(a.contains(a[i]));
        let j = choose|j: int| 0 <= j < b.len() && b[j] == a[i];
        assert(b[j].role == role);
    }
    assert forall|role: ItemTransportRole| has_role(b, role) implies #[trigger] has_role(a, role) by {
        let i = choose|i: int| 0 <= i < b.len() && #[trigger] b[i].role == role;
        assert(b.contains(b[i]));
        assert(a.contains(b[i]));
        let j = choose|j: int| 0 <= j < a.len() && a[j] == b[i];
        assert(a[j].role == role);
    }
    if a.len() > 0 {
        assert(a.contains(a[0]));
    }
    if b.len() > 0 {
        assert(b.contains(b[0]));
        assert(a.contains(b[0]));
    }
}

/// The groups as seen from the networks built from them.
pub open spec fn networks_from(
    networks: Seq<Seq<TransportEndpoint>>,
    groups: Seq<Seq<TransportEndpoint>>,
    origin: Seq<int>,
) -> bool {
    &&& origin.len() == networks.len()
    &&& forall|k: int| 0 <= k < networks.len() ==> 0 <= #[trigger] origin[k] < groups.len()
    &&& forall|k: int, e: TransportEndpoint|
        0 <= k < networks.len() ==> (#[trigger] networks[k].contains(e) <==> groups[origin[k]].contains(e))
    &&& forall|k: int, m: int| 0 <= k < networks.len() && 0 <= m < networks.len() && k != m ==> #[trigger] origin[k]
        != #[trigger] origin[m]
    &&& forall|k: int, i: int, j: int|
        0 <= k < networks.len() && 0 <= i < networks[k].len() && 0 <= j < networks[k].len() && i != j
            ==> (#[trigger] networks[k][i]).object != (#[trigger] networks[k][j]).object
}

/// The network views of a list of networks.
spec fn endpoint_lists(networks: Seq<TransportNetwork>) -> Seq<Seq<TransportEndpoint>> {
    networks.map_values(|network: TransportNetwork| network.endpoints@)
}

/// Builds a network from each group that can move items, ordered by first
/// machine.
fn networks_from_groups(grouped: Vec<Vec<TransportEndpoint>>, Ghost(world): Ghost<World>) -> (result: (
    Vec<TransportNetwork>,
    Ghost<Seq<int>>,
))
    requires
        forall|g: int, e: int|
            0 <= g < grouped@.len() && 0 <= e < grouped@[g]@.len() ==> #[trigger] endpoint_valid(
                world,
                grouped@[g]@[e],
            ),
        forall|g: int, a: int, b: int|
            0 <= g < grouped@.len() && 0 <= a < grouped@[g]@.len() && 0 <= b < grouped@[g]@.len() && a != b
                ==> (#[trigger] grouped@[g]@[a]).object != (#[trigger] grouped@[g]@[b]).object,
    ensures
        result.0@.len() <= grouped@.len(),
        forall|k: int| 0 <= k < result.0@.len() ==> #[trigger] network_valid(world, result.0@[k].endpoints@),
        forall|k: int, m: int|
            0 <= k < m < result.0@.len() ==> #[trigger] result.0@[k].endpoints@[0].object.spec_raw()
                <= #[trigger] result.0@[m].endpoints@[0].object.spec_raw(),
        networks_from(endpoint_lists(result.0@), grouped@.map_values(|g: Vec<TransportEndpoint>| g@), result.1@),
        forall|g: int|
            0 <= g < grouped@.len() && grouped@[g]@.len() > 0 && operational(#[trigger] grouped@[g]@) ==> exists|k: int|
                0 <= k < result.1@.len() && result.1@[k] == g,
{
    let ghost groups = grouped@.map_values(|g: Vec<TransportEndpoint>| g@);
    let ghost input = grouped@;
    let ghost total = grouped@.len();
    let mut remaining = grouped;
    let mut networks: Vec<TransportNetwork> = Vec::new();
    let ghost mut origin: Seq<int> = Seq::empty();
    while remaining.len() > 0
        invariant
            total == groups.len(),
            remaining@.len() <= total,
            forall|g: int| 0 <= g < remaining@.len() ==> (#[trigger] remaining@[g])@ == groups[g],
            forall|g: int, e: int|
                0 <= g < groups.len() && 0 <= e < groups[g].len() ==> #[trigger] endpoint_valid(world, groups[g][e]),
            forall|g: int, a: int, b: int|
                0 <= g < groups.len() && 0 <= a < groups[g].len() && 0 <= b < groups[g].len() && a != b
                    ==> (#[trigger] groups[g][a]).object != (#[trigger] groups[g][b]).object,
            networks@.len() + remaining@.len() <= total,
            forall|k: int| 0 <= k < networks@.len() ==> #[trigger] network_valid(world, networks@[k].endpoints@),
            forall|k: int, m: int|
                0 <= k < m < networks@.len() ==> #[trigger] networks@[k].endpoints@[0].object.spec_raw()
                    <= #[trigger] networks@[m].endpoints@[0].object.spec_raw(),
            networks_from(endpoint_lists(networks@), groups, origin),
            forall|k: int| 0 <= k < origin.len() ==> remaining@.len() <= #[trigger] origin[k],
            forall|g: int|
                remaining@.len() <= g < total && groups[g].len() > 0 && operational(#[trigger] groups[g]) ==> exists|k: int|
                    0 <= k < origin.len() && origin[k] == g,
        decreases remaining@.len(),
    {
        let ghost before = remaining@;
        let ghost g = remaining@.len() - 1;
        let group = remaining.pop().unwrap();
        proof {
            assert(group == before[g]);
            assert(group@ == groups[g]);
            if group@.len() > 0 {
            }
            assert(groups[g].no_duplicates()) by {
                assert forall|a: int, b: int| 0 <= a < groups[g].len() && 0 <= b < groups[g].len() && a != b implies groups[g][a]
                    != groups[g][b] by {
                    assert(groups[g][a].object != groups[g][b].object);
                }
            }
        }
        let endpoints = sort_endpoints(group);
        proof {
            lemma_operational_members(endpoints@, groups[g]);
        }
        if endpoints.len() > 0 && is_operational(endpoints.as_slice()) {
            proof {
                assert forall|e: int| 0 <= e < endpoints@.len() implies #[trigger] endpoint_valid(world, endpoints@[e]) by {
                    assert(endpoints@.contains(endpoints@[e]));
                    let j = choose|j: int| 0 <= j < groups[g].len() && groups[g][j] == endpoints@[e];
                }
            }
            let ghost previous = networks@;
            let network = TransportNetwork { endpoints };
            let position = insert_network(&mut networks, network, Ghost(world));
            proof {
                let new_origin = origin.insert(position as int, g);
                let lists = endpoint_lists(networks@);
                let old_lists = endpoint_lists(previous);
                assert forall|k: int| 0 <= k < lists.len() implies #[trigger] lists[k] == if k < position {
                    old_lists[k]
                } else if k == position {
                    endpoints@
                } else {
                    old_lists[k - 1]
                } by {
                }
                assert forall|k: int| 0 <= k < new_origin.len() implies new_origin[k] == if k < position {
                    origin[k]
                } else if k == position {
                    g
                } else {
                    origin[k - 1]
                } by {
                }
                assert forall|k: int, e: TransportEndpoint|
                    0 <= k < lists.len() implies (#[trigger] lists[k].contains(e) <==> groups[new_origin[k]].contains(
                    e,
                )) by {
                    if k < position {
                        assert(old_lists[k].contains(e) <==> groups[origin[k]].contains(e));
                    } else if k > position {
                        assert(old_lists[k - 1].contains(e) <==> groups[origin[k - 1]].contains(e));
                    }
                }
                assert forall|k: int, m: int|
                    0 <= k < lists.len() && 0 <= m < lists.len() && k != m implies #[trigger] new_origin[k]
                    != #[trigger] new_origin[m] by {
                    let ok = if k < position { k } else { k - 1 };
                    let om = if m < position { m } else { m - 1 };
                    if k != position && m != position {
                        assert(origin[ok] != origin[om]);
                    } else if k == position {
                        assert(origin[om] >= g + 1);
                    } else {
                        assert(origin[ok] >= g + 1);
                    }
                }
                assert forall|k: int, i: int, j: int|
                    0 <= k < lists.len() && 0 <= i < lists[k].len() && 0 <= j < lists[k].len() && i != j
                        implies (#[trigger] lists[k][i]).object != (#[trigger] lists[k][j]).object by {
                    if k < position {
                        assert(old_lists[k][i].object != old_lists[k][j].object);
                    } else if k > position {
                        assert(old_lists[k - 1][i].object != old_lists[k - 1][j].object);
                    } else {
                        assert(endpoints@.contains(endpoints@[i]));
                        assert(endpoints@.contains(endpoints@[j]));
                        let a = choose|a: int| 0 <= a < groups[g].len() && groups[g][a] == endpoints@[i];
                        let b = choose|b: int| 0 <= b < groups[g].len() && groups[g][b] == endpoints@[j];
                        assert(endpoints@[i] != endpoints@[j]);
                    }
                }
                assert(networks_from(lists, groups, new_origin));
                assert forall|gg: int|
                    remaining@.len() <= gg < total && groups[gg].len() > 0 && operational(#[trigger] groups[gg]) implies exists|k: int|
                        0 <= k < new_origin.len() && new_origin[k] == gg by {
                    if gg == g {
                        assert(new_origin[position as int] == g);
                    } else {
                        let k = choose|k: int| 0 <= k < origin.len() && origin[k] == gg;
                        if k < position {
                            assert(new_origin[k] == gg);
                        } else {
                            assert(new_origin[k + 1] == gg);
                        }
                    }
                }
                origin = new_origin;
            }
        }
    }
    proof {
        assert(input == grouped@);
        assert forall|g: int|
            0 <= g < grouped@.len() && grouped@[g]@.len() > 0 && operational(#[trigger] grouped@[g]@) implies exists|k: int|
                0 <= k < origin.len() && origin[k] == g by {
            assert(groups[g] == grouped@[g]@);
            assert(operational(groups[g]));
        }
        let ghost answer = (networks, Ghost(origin));
        assert(answer.1@ == origin);
        assert(forall|g: int|
            0 <= g < grouped@.len() && grouped@[g]@.len() > 0 && operational(#[trigger] grouped@[g]@) ==> exists|k: int|
                0 <= k < answer.1@.len() && answer.1@[k] == g);
    }
    (networks, Ghost(origin))
}

/// An attached connector is a connector.
proof fn lemma_attached_range(world: World, c: int, id: ObjectId)
    requires
        attached(world, c, id),
    ensures
        0 <= c < conveyors(world).len(),
{
    reveal(attached);
}

/// The link of a machine that lists a connector, and where it lists it.
proof fn lemma_link_of(world: World, links: Seq<EndpointLink>, id: ObjectId, c: int) -> (lj: (int, int))
    requires
        world.wf(),
        links_recorded(world, links),
        linked(links, id, c as usize),
        0 <= c,
        c < conveyors(world).len(),
    ensures
        0 <= lj.0 < links.len(),
        links[lj.0].object == id,
        0 <= lj.1 < links[lj.0].connectors@.len(),
        links[lj.0].connectors@[lj.1] == c,
        forall|m: int| 0 <= m < links.len() && (#[trigger] links[m]).object == id ==> m == lj.0,
{
    lemma_conveyors_bound(world);
    lemma_links_distinct(world, links);
    let l = choose|l: int| 0 <= l < links.len() && links[l].object == id && (#[trigger] links[l].connectors@).contains(
        c as usize,
    );
    let j = choose|j: int| 0 <= j < links[l].connectors@.len() && links[l].connectors@[j] == c as usize;
    (l, j)
}

/// Groups connectors into networks: touching connectors join, and so do the
/// connectors that touch one machine. Each network lists the machines next
/// to its connectors; only networks that can move items are kept, ordered
/// by their first machine. Also returns the number of connectors.
fn build_networks(world: &World) -> (result: (Vec<TransportNetwork>, usize))
    requires
        world.wf(),
    ensures
        result.1 == conveyors(*world).len(),
        result.0@.len() <= result.1,
        result.1 <= crate::world::MAX_WORLD_CELLS,
        forall|k: int| 0 <= k < result.0@.len() ==> #[trigger] network_valid(*world, result.0@[k].endpoints@),
        forall|k: int, m: int|
            0 <= k < m < result.0@.len() ==> #[trigger] result.0@[k].endpoints@[0].object.spec_raw()
                <= #[trigger] result.0@[m].endpoints@[0].object.spec_raw(),
        exists|edges: Seq<(int, int)>|
            #[trigger] conveyor_classes(*world, edges) && networks_of_classes(
                *world,
                labels_after(conveyors(*world).len(), edges),
                endpoint_lists(result.0@),
            ),
{
    let connectors = world.objects_of_type(FurnitureObject::CARGO_CONVEYOR);
    let count = connectors.len();
    proof {
        lemma_conveyors_bound(*world);
    }
    let cells = record_cells(world, &connectors);
    let mut sets = UnionFind::new(count);
    proof {
        reveal(tracks);
        assert forall|i: int, j: int|
            0 <= i < count && 0 <= j < count implies (#[trigger] sets.find(i) == #[trigger] sets.find(j)) == (
            labels_after(count as nat, Seq::<(int, int)>::empty())[i] == labels_after(
                count as nat,
                Seq::<(int, int)>::empty(),
            )[j]) by {
        }
    }
    let touching = join_touching(world, &cells, &mut sets, Ghost(Seq::empty()));
    let ghost after_touching = sets;
    let links = collect_links(world, &cells);
    let shared = join_shared(&links, &mut sets, Ghost(*world), touching);
    let ghost joined = sets;
    let grouped = group_endpoints(&links, &mut sets, count, Ghost(*world));
    proof {
        assert forall|g: int, e: int|
            0 <= g < grouped@.len() && 0 <= e < grouped@[g]@.len() implies #[trigger] endpoint_valid(
                *world,
                grouped@[g]@[e],
            ) by {
            let l = choose|l: int|
                0 <= l < links@.len() && #[trigger] endpoint_of(links@[l]) == (#[trigger] grouped@[g]@[e])
                    && joined.find(links@[l].connectors@[0] as int) == g;
            lemma_links_distinct(*world, links@);
            lemma_link_facts(*world, links@, l, 0);
        }
    }
    let ghost groups = grouped@.map_values(|g: Vec<TransportEndpoint>| g@);
    proof {
        assert forall|l: int| 0 <= l < links@.len() implies groups[joined.find(links@[l].connectors@[0] as int)].contains(
            #[trigger] endpoint_of(links@[l]),
        ) by {
            lemma_links_distinct(*world, links@);
            lemma_link_facts(*world, links@, l, 0);
            joined.lemma_find_in_range(links@[l].connectors@[0] as int);
            assert(groups[joined.find(links@[l].connectors@[0] as int)] == grouped@[joined.find(
                links@[l].connectors@[0] as int,
            )]@);
        }
        assert forall|g: int, e: int|
            0 <= g < groups.len() && 0 <= e < groups[g].len() implies exists|l: int|
                0 <= l < links@.len() && #[trigger] endpoint_of(links@[l]) == (#[trigger] groups[g][e]) && joined.find(
                    links@[l].connectors@[0] as int,
                ) == g by {
            assert(groups[g] == grouped@[g]@);
            assert(groups[g][e] == grouped@[g]@[e]);
        }
    }
    let (networks, origin) = networks_from_groups(grouped, Ghost(*world));
    proof {
        lemma_build_networks_classes(*world, links@, after_touching, touching@, joined, shared@, groups, endpoint_lists(networks@), origin@);
    }
    (networks, count)
}

/// What the network build knows of its links, sets, groups and networks.
spec fn build_facts(
    world: World,
    links: Seq<EndpointLink>,
    joined: UnionFind,
    edges: Seq<(int, int)>,
    groups: Seq<Seq<TransportEndpoint>>,
    networks: Seq<Seq<TransportEndpoint>>,
    origin: Seq<int>,
) -> bool {
    &&& world.wf()
    &&& links_recorded(world, links)
    &&& (forall|c: int, id: ObjectId| #[trigger] attached(world, c, id) ==> linked(links, id, c as usize))
    &&& tracks(world, joined, edges)
    &&& (forall|l: int, j: int|
        0 <= l < links.len() && 0 <= j < links[l].connectors@.len() ==> joined.find(
            #[trigger] links[l].connectors@[j] as int,
        ) == joined.find(links[l].connectors@[0] as int))
    &&& groups.len() == conveyors(world).len()
    &&& (forall|g: int, e: int|
        0 <= g < groups.len() && 0 <= e < groups[g].len() ==> exists|l: int|
            0 <= l < links.len() && #[trigger] endpoint_of(links[l]) == (#[trigger] groups[g][e]) && joined.find(
                links[l].connectors@[0] as int,
            ) == g)
    &&& (forall|l: int|
        0 <= l < links.len() ==> groups[joined.find(links[l].connectors@[0] as int)].contains(
            #[trigger] endpoint_of(links[l]),
        ))
    &&& (forall|k: int| 0 <= k < networks.len() ==> #[trigger] network_valid(world, networks[k]))
    &&& networks_from(networks, groups, origin)
    &&& (forall|g: int|
        0 <= g < groups.len() && groups[g].len() > 0 && operational(#[trigger] groups[g]) ==> exists|k: int|
            0 <= k < origin.len() && origin[k] == g)
}

/// A connector attached to a machine of a network is in the network's
/// class.
proof fn lemma_member_class(
    world: World,
    links: Seq<EndpointLink>,
    joined: UnionFind,
    edges: Seq<(int, int)>,
    groups: Seq<Seq<TransportEndpoint>>,
    networks: Seq<Seq<TransportEndpoint>>,
    origin: Seq<int>,
    k: int,
    i: int,
    c: int,
)
    requires
        build_facts(world, links, joined, edges, groups, networks, origin),
        0 <= k < networks.len(),
        0 <= i < networks[k].len(),
        attached(world, c, networks[k][i].object),
    ensures
        joined.find(c) == origin[k],
{
    lemma_links_distinct(world, links);
    let e = networks[k][i];
    assert(networks[k].contains(e));
    assert(groups[origin[k]].contains(e));
    let x = choose|x: int| 0 <= x < groups[origin[k]].len() && groups[origin[k]][x] == e;
    let l = choose|l: int|
        0 <= l < links.len() && #[trigger] endpoint_of(links[l]) == (#[trigger] groups[origin[k]][x])
            && joined.find(links[l].connectors@[0] as int) == origin[k];
    lemma_attached_range(world, c, e.object);
    let (l2, j) = lemma_link_of(world, links, e.object, c);
    assert(links[l].object == e.object);
    assert(l2 == l);
    assert(joined.find(links[l].connectors@[j] as int) == joined.find(links[l].connectors@[0] as int));
}

/// A role of a class is a role of the group of its connectors.
proof fn lemma_class_role(
    world: World,
    links: Seq<EndpointLink>,
    joined: UnionFind,
    edges: Seq<(int, int)>,
    groups: Seq<Seq<TransportEndpoint>>,
    networks: Seq<Seq<TransportEndpoint>>,
    origin: Seq<int>,
    c: int,
    role: ItemTransportRole,
)
    requires
        build_facts(world, links, joined, edges, groups, networks, origin),
        0 <= c < conveyors(world).len(),
        class_has_role(world, labels_after(conveyors(world).len(), edges), labels_after(conveyors(world).len(), edges)[c], role),
    ensures
        0 <= joined.find(c) < groups.len(),
        has_role(groups[joined.find(c)], role),
{
    reveal(tracks);
    let labels = labels_after(conveyors(world).len(), edges);
    joined.lemma_find_in_range(c);
    let (c2, id) = choose|c2: int, id: ObjectId|
        #[trigger] attached(world, c2, id) && labels[c2] == labels[c] && transport_role_spec(
            world.object_spec(id)->0.object_type,
        ) == Some(role);
    lemma_attached_range(world, c2, id);
    let (l, j) = lemma_link_of(world, links, id, c2);
    assert(joined.find(links[l].connectors@[j] as int) == joined.find(links[l].connectors@[0] as int));
    assert(joined.find(c2) == joined.find(c));
    let g = joined.find(c);
    assert(groups[g].contains(endpoint_of(links[l])));
    let x = choose|x: int| 0 <= x < groups[g].len() && groups[g][x] == endpoint_of(links[l]);
    lemma_link_facts(world, links, l, 0);
    assert(groups[g][x].role == role);
}

/// The networks built from the groups are the networks of the classes.
proof fn lemma_networks_of_classes(
    world: World,
    links: Seq<EndpointLink>,
    joined: UnionFind,
    edges: Seq<(int, int)>,
    groups: Seq<Seq<TransportEndpoint>>,
    networks: Seq<Seq<TransportEndpoint>>,
    origin: Seq<int>,
)
    requires
        build_facts(world, links, joined, edges, groups, networks, origin),
    ensures
        networks_of_classes(world, labels_after(conveyors(world).len(), edges), networks),
{
    reveal(tracks);
    let count = conveyors(world).len();
    let labels = labels_after(count, edges);
    lemma_links_distinct(world, links);
    assert forall|k: int, i: int| 0 <= k < networks.len() && 0 <= i < networks[k].len() implies exists|c: int|
        #[trigger] attached(world, c, (#[trigger] networks[k][i]).object) by {
        let e = networks[k][i];
        assert(networks[k].contains(e));
        assert(groups[origin[k]].contains(e));
        let x = choose|x: int| 0 <= x < groups[origin[k]].len() && groups[origin[k]][x] == e;
        let l = choose|l: int|
            0 <= l < links.len() && #[trigger] endpoint_of(links[l]) == (#[trigger] groups[origin[k]][x])
                && joined.find(links[l].connectors@[0] as int) == origin[k];
        lemma_link_facts(world, links, l, 0);
    }
    assert forall|k: int, m: int, i: int, j: int, c: int, d: int|
        0 <= k < networks.len() && 0 <= m < networks.len() && 0 <= i < networks[k].len() && 0 <= j
            < networks[m].len() && #[trigger] attached(world, c, networks[k][i].object) && #[trigger] attached(
            world,
            d,
            networks[m][j].object,
        ) implies ((k == m) == (labels[c] == labels[d])) by {
        lemma_member_class(world, links, joined, edges, groups, networks, origin, k, i, c);
        lemma_member_class(world, links, joined, edges, groups, networks, origin, m, j, d);
        lemma_attached_range(world, c, networks[k][i].object);
        lemma_attached_range(world, d, networks[m][j].object);
    }
    assert forall|c: int, id: ObjectId|
        #[trigger] attached(world, c, id) && class_operational(world, labels, labels[c]) implies exists|k: int, i: int|
        0 <= k < networks.len() && 0 <= i < networks[k].len() && (#[trigger] networks[k][i]).object == id by {
        lemma_attached_range(world, c, id);
        let (l, j) = lemma_link_of(world, links, id, c);
        assert(joined.find(links[l].connectors@[j] as int) == joined.find(links[l].connectors@[0] as int));
        let g = joined.find(c);
        joined.lemma_find_in_range(c);
        assert(groups[g].contains(endpoint_of(links[l])));
        let phase = choose|phase: int|
            0 <= phase < 3 && class_has_role(world, labels, labels[c], #[trigger] phase_roles(phase).0) && class_has_role(
                world,
                labels,
                labels[c],
                phase_roles(phase).1,
            );
        lemma_class_role(world, links, joined, edges, groups, networks, origin, c, phase_roles(phase).0);
        lemma_class_role(world, links, joined, edges, groups, networks, origin, c, phase_roles(phase).1);
        assert(operational(groups[g]));
        let k = choose|k: int| 0 <= k < origin.len() && origin[k] == g;
        assert(networks[k].contains(endpoint_of(links[l])));
        let i = choose|i: int| 0 <= i < networks[k].len() && networks[k][i] == endpoint_of(links[l]);
        assert(networks[k][i].object == id);
    }
}

/// The stages of the network build together give the classes' networks.
proof fn lemma_build_networks_classes(
    world: World,
    links: Seq<EndpointLink>,
    after_touching: UnionFind,
    touching: Seq<(int, int)>,
    joined: UnionFind,
    edges: Seq<(int, int)>,
    groups: Seq<Seq<TransportEndpoint>>,
    networks: Seq<Seq<TransportEndpoint>>,
    origin: Seq<int>,
)
    requires
        world.wf(),
        tracks(world, after_touching, touching),
        forall|a: int, b: int|
            0 <= a < conveyors(world).len() && 0 <= b < conveyors(world).len() && #[trigger] conveyors_touch(
                world,
                a,
                b,
            ) ==> after_touching.find(a) == after_touching.find(b),
        links_recorded(world, links),
        forall|c: int, id: ObjectId| #[trigger] attached(world, c, id) ==> linked(links, id, c as usize),
        tracks(world, joined, edges),
        touching.len() <= edges.len(),
        edges.take(touching.len() as int) == touching,
        forall|l: int, j: int|
            0 <= l < links.len() && 0 <= j < links[l].connectors@.len() ==> joined.find(
                #[trigger] links[l].connectors@[j] as int,
            ) == joined.find(links[l].connectors@[0] as int),
        groups.len() == conveyors(world).len(),
        forall|g: int, e: int|
            0 <= g < groups.len() && 0 <= e < groups[g].len() ==> exists|l: int|
                0 <= l < links.len() && #[trigger] endpoint_of(links[l]) == (#[trigger] groups[g][e]) && joined.find(
                    links[l].connectors@[0] as int,
                ) == g,
        forall|l: int|
            0 <= l < links.len() ==> groups[joined.find(links[l].connectors@[0] as int)].contains(
                #[trigger] endpoint_of(links[l]),
            ),
        forall|k: int| 0 <= k < networks.len() ==> #[trigger] network_valid(world, networks[k]),
        networks_from(networks, groups, origin),
        forall|g: int|
            0 <= g < groups.len() && groups[g].len() > 0 && operational(#[trigger] groups[g]) ==> exists|k: int|
                0 <= k < origin.len() && origin[k] == g,
    ensures
        conveyor_classes(world, edges),
        networks_of_classes(world, labels_after(conveyors(world).len(), edges), networks),
{
    reveal(tracks);
    let count = conveyors(world).len();
    let labels = labels_after(count, edges);
    lemma_links_distinct(world, links);
    lemma_tracks_extend(world, after_touching, touching, joined, edges);
    // Each attached connector is in the class of its machine's link.
    assert forall|c: int, id: ObjectId| #[trigger] attached(world, c, id) implies exists|l: int|
        0 <= l < links.len() && links[l].object == id && joined.find(c) == joined.find(
            links[l].connectors@[0] as int,
        ) by {
        lemma_attached_range(world, c, id);
        let (l, j) = lemma_link_of(world, links, id, c);
        assert(joined.find(links[l].connectors@[j] as int) == joined.find(links[l].connectors@[0] as int));
    }
    // Classes.
    assert forall|a: int, b: int| #[trigger] conveyor_edge(world, a, b) implies labels[a] == labels[b] by {
        if conveyors_touch(world, a, b) {
            assert(after_touching.find(a) == after_touching.find(b));
            assert(joined.find(a) == joined.find(b));
        } else {
            let id = choose|id: ObjectId| #[trigger] attached(world, a, id) && #[trigger] attached(world, b, id);
            lemma_attached_range(world, a, id);
            lemma_attached_range(world, b, id);
            let (la, ja) = lemma_link_of(world, links, id, a);
            let (lb, jb) = lemma_link_of(world, links, id, b);
            assert(la == lb);
            assert(joined.find(links[la].connectors@[ja] as int) == joined.find(links[la].connectors@[0] as int));
            assert(joined.find(links[lb].connectors@[jb] as int) == joined.find(links[lb].connectors@[0] as int));
        }
        assert(joined.find(a) == joined.find(b));
    }
    assert(conveyor_classes(world, edges));
    assert(build_facts(world, links, joined, edges, groups, networks, origin));
    lemma_networks_of_classes(world, links, joined, edges, groups, networks, origin);
}

/// Time between transfer ticks by default: fifty milliseconds.
pub const DEFAULT_ITEM_TRANSPORT_INTERVAL_NANOS: u64 = 50_000_000;
/// Most transfer ticks one update catches up on.
pub const MAX_CATCH_UP_TICKS: u64 = 20;

/// What one transport update did.
#[derive(Clone, Copy, Debug, Default, PartialEq, Eq, Structural)]
pub struct ItemTransportUpdate {
    pub topology_rebuilt: bool,
    pub connector_count: usize,
    pub network_count: usize,
    pub transfer_count: usize,
    pub items_transferred: u64,
}

/// The transfer ticks an accumulated time pays for, at most the catch-up
/// limit.
pub open spec fn due_ticks(total: nat, interval: u64) -> nat {
    let ticks = total / (interval as nat);
    if ticks > MAX_CATCH_UP_TICKS {
        MAX_CATCH_UP_TICKS as nat
    } else {
        ticks
    }
}

/// Conveyor networks moving items on a fixed tick, independent of what is
/// on screen. Topology is rebuilt only when transport furniture changes.
pub struct ItemTransportSystem {
    interval_nanos: u64,
    accumulator_nanos: u64,
    known_topology_revision: Option<u64>,
    connector_count: usize,
    networks: Vec<TransportNetwork>,
}

impl ItemTransportSystem {
    pub closed spec fn spec_interval(&self) -> u64 {
        self.interval_nanos
    }

    pub closed spec fn spec_accumulator(&self) -> u64 {
        self.accumulator_nanos
    }

    pub closed spec fn spec_known_revision(&self) -> Option<u64> {
        self.known_topology_revision
    }

    pub closed spec fn spec_connector_count(&self) -> usize {
        self.connector_count
    }

    /// The networks' endpoints, in the order the networks take their steps.
    pub closed spec fn spec_networks(&self) -> Seq<Seq<TransportEndpoint>> {
        endpoint_lists(self.networks@)
    }

    pub open spec fn spec_network_count(&self) -> nat {
        self.spec_networks().len()
    }

    pub closed spec fn wf(&self) -> bool {
        &&& self.interval_nanos > 0
        &&& self.accumulator_nanos < self.interval_nanos
        &&& self.networks@.len() <= crate::world::MAX_WORLD_CELLS
    }

    /// A system that ticks every `interval_nanos`, before its first build.
    pub fn new(interval_nanos: u64) -> (system: Self)
        requires
            interval_nanos > 0,
        ensures
            system.wf(),
            system.spec_interval() == interval_nanos,
            system.spec_accumulator() == 0,
            system.spec_known_revision() is None,
            system.spec_connector_count() == 0,
            system.spec_network_count() == 0,
    {
        ItemTransportSystem {
            interval_nanos,
            accumulator_nanos: 0,
            known_topology_revision: None,
            connector_count: 0,
            networks: Vec::new(),
        }
    }

    pub fn interval(&self) -> (interval: u64)
        ensures
            interval == self.spec_interval(),
    {
        self.interval_nanos
    }

    pub fn connector_count(&self) -> (count: usize)
        ensures
            count == self.spec_connector_count(),
    {
        self.connector_count
    }

    pub fn network_count(&self) -> (count: usize)
        ensures
            count == self.spec_network_count(),
    {
        self.networks.len()
    }

    /// Rebuilds the networks when transport furniture changed, then runs the
    /// transfer ticks that the elapsed time pays for; each tick gives every
    /// network, in order, one transfer step.
    pub fn update(&mut self, world: &mut World, registry: &ItemRegistry, elapsed_nanos: u64) -> (update:
        ItemTransportUpdate)
        requires
            old(self).wf(),
            old(world).wf(),
        ensures
            final(self).wf(),
            final(world).wf(),
            same_layout(*old(world), *final(world)),
            final(self).spec_interval() == old(self).spec_interval(),
            update.topology_rebuilt == (old(self).spec_known_revision() != Some(old(world).item_transport_revision_spec())),
            final(self).spec_known_revision() == Some(old(world).item_transport_revision_spec()),
            update.topology_rebuilt ==> final(self).spec_connector_count() == of_type(
                old(world).spec_objects(),
                FurnitureObject::CARGO_CONVEYOR,
            ).len(),
            update.topology_rebuilt ==> forall|k: int|
                0 <= k < final(self).spec_networks().len() ==> #[trigger] network_valid(
                    *old(world),
                    final(self).spec_networks()[k],
                ),
            update.topology_rebuilt ==> exists|edges: Seq<(int, int)>|
                #[trigger] conveyor_classes(*old(world), edges) && networks_of_classes(
                    *old(world),
                    labels_after(conveyors(*old(world)).len(), edges),
                    final(self).spec_networks(),
                ),
            !update.topology_rebuilt ==> final(self).spec_connector_count() == old(self).spec_connector_count()
                && final(self).spec_networks() == old(self).spec_networks(),
            update.connector_count == final(self).spec_connector_count(),
            update.network_count == final(self).spec_network_count(),
            final(self).spec_accumulator() == accumulated(old(self).spec_accumulator(), elapsed_nanos) % (old(
                self,
            ).spec_interval() as nat),
            exists|chain: Seq<World>|
                #[trigger] runs_schedule(
                    chain,
                    registry@,
                    repeated(
                        final(self).spec_networks(),
                        due_ticks(accumulated(old(self).spec_accumulator(), elapsed_nanos), old(self).spec_interval()),
                    ),
                    *old(world),
                    *final(world),
                    update.transfer_count as nat,
                ),
            update.items_transferred == update.transfer_count,
    {
        let revision = world.item_transport_revision();
        let rebuild = match self.known_topology_revision {
            Some(known) => known != revision,
            None => true,
        };
        if rebuild {
            let (networks, count) = build_networks(world);
            self.networks = networks;
            self.connector_count = count;
            self.known_topology_revision = Some(revision);
        }
        let total = self.accumulator_nanos.saturating_add(elapsed_nanos);
        let elapsed_ticks = total / self.interval_nanos;
        let ticks = if elapsed_ticks > MAX_CATCH_UP_TICKS { MAX_CATCH_UP_TICKS } else { elapsed_ticks };
        self.accumulator_nanos = total % self.interval_nanos;
        let mut update = ItemTransportUpdate {
            topology_rebuilt: rebuild,
            connector_count: self.connector_count,
            network_count: self.networks.len(),
            transfer_count: 0,
            items_transferred: 0,
        };
        let network_count = self.networks.len();
        let ghost nets = self.spec_networks();
        let ghost start = *world;
        let ghost mut chain: Seq<World> = seq![start];
        proof {
            assert(total as nat == accumulated(old(self).spec_accumulator(), elapsed_nanos));
            assert(repeated(nets, 0) + nets.take(0) =~= Seq::<Seq<TransportEndpoint>>::empty());
        }
        let mut tick: u64 = 0;
        while tick < ticks
            invariant
                tick <= ticks,
                ticks <= MAX_CATCH_UP_TICKS,
                network_count <= crate::world::MAX_WORLD_CELLS,
                network_count == self.networks@.len(),
                nets == self.spec_networks(),
                world.wf(),
                same_layout(*old(world), *world),
                chain[0] == start,
                start == *old(world),
                chain.last() == *world,
                step_chain(chain, registry@, repeated(nets, tick as nat)),
                update.transfer_count == moves_along(
                    chain,
                    registry@,
                    repeated(nets, tick as nat),
                    repeated(nets, tick as nat).len(),
                ),
                update.transfer_count <= tick * network_count,
                update.items_transferred == update.transfer_count,
                update.topology_rebuilt == rebuild,
                update.connector_count == self.connector_count,
                update.network_count == network_count,
            decreases ticks - tick,
        {
            let mut n: usize = 0;
            proof {
                assert(repeated(nets, tick as nat) + nets.take(0) =~= repeated(nets, tick as nat));
            }
            while n < self.networks.len()
                invariant
                    n <= network_count,
                    network_count <= crate::world::MAX_WORLD_CELLS,
                    tick < ticks,
                    ticks <= MAX_CATCH_UP_TICKS,
                    network_count == self.networks@.len(),
                    nets == self.spec_networks(),
                    world.wf(),
                    same_layout(*old(world), *world),
                    chain[0] == start,
                    start == *old(world),
                    chain.last() == *world,
                    step_chain(chain, registry@, repeated(nets, tick as nat) + nets.take(n as int)),
                    update.transfer_count == moves_along(
                        chain,
                        registry@,
                        repeated(nets, tick as nat) + nets.take(n as int),
                        (repeated(nets, tick as nat) + nets.take(n as int)).len(),
                    ),
                    update.transfer_count <= tick * network_count + n,
                    update.items_transferred == update.transfer_count,
                    update.topology_rebuilt == rebuild,
                    update.connector_count == self.connector_count,
                    update.network_count == network_count,
                decreases network_count - n,
            {
                proof {
                    assert(tick * network_count + n < MAX_CATCH_UP_TICKS * network_count + network_count) by (nonlinear_arith)
                        requires
                            tick < MAX_CATCH_UP_TICKS,
                            n < network_count,
                    ;
                }
                let ghost before = *world;
                let ghost schedule = repeated(nets, tick as nat) + nets.take(n as int);
                let moved = transfer_one_item(world, registry, &self.networks[n]);
                if moved {
                    update.transfer_count = update.transfer_count + 1;
                    update.items_transferred = update.items_transferred + 1;
                }
                proof {
                    let next_schedule = repeated(nets, tick as nat) + nets.take(n + 1);
                    let next_chain = chain.push(*world);
                    assert(next_schedule =~= schedule.push(nets[n as int]));
                    assert(nets[n as int] == self.networks@[n as int].endpoints@);
                    assert forall|k: int| 0 <= k < next_schedule.len() implies #[trigger] network_step(
                        next_chain[k],
                        next_chain[k + 1],
                        registry@,
                        next_schedule[k],
                    ) by {
                        if k < schedule.len() {
                            assert(network_step(chain[k], chain[k + 1], registry@, schedule[k]));
                        }
                    }
                    lemma_moves_prefix(chain, next_chain, registry@, schedule, next_schedule, schedule.len());
                    chain = next_chain;
                }
                n = n + 1;
            }
            proof {
                assert(repeated(nets, tick as nat) + nets.take(n as int) =~= repeated(nets, (tick + 1) as nat));
                assert(tick * network_count + network_count == (tick + 1) * network_count) by (nonlinear_arith);
            }
            tick = tick + 1;
        }
        proof {
            assert(ticks == due_ticks(total as nat, old(self).spec_interval()));
            assert(runs_schedule(
                chain,
                registry@,
                repeated(nets, ticks as nat),
                *old(world),
                *world,
                update.transfer_count as nat,
            ));
        }
        update
    }
}

/// The accumulated time of an update: the carried remainder plus the
/// elapsed time, saturating at the largest `u64`.
pub open spec fn accumulated(accumulator: u64, elapsed_nanos: u64) -> nat {
    if accumulator + elapsed_nanos > u64::MAX {
        u64::MAX as nat
    } else {
        (accumulator + elapsed_nanos) as nat
    }
}

/// The networks in order, one round per tick.
pub open spec fn repeated(networks: Seq<Seq<TransportEndpoint>>, times: nat) -> Seq<Seq<TransportEndpoint>>
    decreases times,
{
    if times == 0 {
        Seq::empty()
    } else {
        repeated(networks, (times - 1) as nat) + networks
    }
}

/// Worlds linked by one network step each, following a schedule of networks.
pub open spec fn step_chain(
    chain: Seq<World>,
    definitions: Seq<ItemDefinition>,
    schedule: Seq<Seq<TransportEndpoint>>,
) -> bool {
    &&& chain.len() == schedule.len() + 1
    &&& forall|k: int|
        0 <= k < schedule.len() ==> #[trigger] network_step(chain[k], chain[k + 1], definitions, schedule[k])
}

/// A chain of network steps from one world to another, following a schedule,
/// in which `transfers` steps moved an item.
pub open spec fn runs_schedule(
    chain: Seq<World>,
    definitions: Seq<ItemDefinition>,
    schedule: Seq<Seq<TransportEndpoint>>,
    before: World,
    after: World,
    transfers: nat,
) -> bool {
    &&& step_chain(chain, definitions, schedule)
    &&& chain[0] == before
    &&& chain.last() == after
    &&& transfers == moves_along(chain, definitions, schedule, schedule.len())
}

/// How many of the first `k` steps of a chain moved an item.
pub open spec fn moves_along(
    chain: Seq<World>,
    definitions: Seq<ItemDefinition>,
    schedule: Seq<Seq<TransportEndpoint>>,
    k: nat,
) -> nat
    decreases k,
{
    if k == 0 {
        0
    } else {
        moves_along(chain, definitions, schedule, (k - 1) as nat) + if can_move(
            chain[k - 1],
            definitions,
            schedule[k - 1],
        ) {
            1nat
        } else {
            0nat
        }
    }
}

proof fn lemma_moves_prefix(
    first: Seq<World>,
    second: Seq<World>,
    definitions: Seq<ItemDefinition>,
    first_schedule: Seq<Seq<TransportEndpoint>>,
    second_schedule: Seq<Seq<TransportEndpoint>>,
    k: nat,
)
    requires
        k <= first.len(),
        k <= second.len(),
        k <= first_schedule.len(),
        k <= second_schedule.len(),
        forall|i: int| 0 <= i < k ==> first[i] == second[i] && first_schedule[i] == second_schedule[i],
    ensures
        moves_along(first, definitions, first_schedule, k) == moves_along(second, definitions, second_schedule, k),
    decreases k,
{
    if k > 0 {
        lemma_moves_prefix(first, second, definitions, first_schedule, second_schedule, (k - 1) as nat);
        assert(first[k - 1] == second[k - 1]);
    }
}

} // verus!
