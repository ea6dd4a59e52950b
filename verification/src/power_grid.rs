use vstd::prelude::*;
use crate::furniture::{power_role, power_role_spec};
use crate::power::{
    CONNECTION_RANGE_SOCKET_UNITS, MACHINE_CONNECTION_LIMIT, POWER_CONNECTOR_CONNECTION_LIMIT,
    PYLON_CONNECTION_LIMIT, PowerNode, SOCKET_UNITS_PER_TILE, automatic_connection_allowed, connection_allowed_spec,
    squared_distance_spec, squared_socket_distance,
};
use crate::power_network::{CandidateLink, SOCKET_COORDINATE_LIMIT, socket_in_range};
use crate::terrain::{FurnitureObject, ObjectId, PowerRole};
use crate::world::{World, WorldObject};

verus! {

/// Generation of a generator or demand of a consumer, in milli-units per
/// second.
pub open spec fn power_rate_spec(object_type: FurnitureObject) -> u32 {
    match object_type {
        FurnitureObject::SOLAR_ARRAY => 12_000,
        FurnitureObject::LASER_BORE => 8_000,
        FurnitureObject::TURRET => 10_000,
        FurnitureObject::ORBITAL_EXPORT_LAUNCHER => 2_000,
        FurnitureObject::CARGO_LIFT => 4_000,
        FurnitureObject::COMPOSITE_ASSEMBLER => 6_000,
        FurnitureObject::PROCUREMENT_TERMINAL => 500,
        _ => 0,
    }
}

pub fn power_rate(object_type: FurnitureObject) -> (rate: u32)
    ensures
        rate == power_rate_spec(object_type),
{
    match object_type {
        FurnitureObject::SOLAR_ARRAY => 12_000,
        FurnitureObject::LASER_BORE => 8_000,
        FurnitureObject::TURRET => 10_000,
        FurnitureObject::ORBITAL_EXPORT_LAUNCHER => 2_000,
        FurnitureObject::CARGO_LIFT => 4_000,
        FurnitureObject::COMPOSITE_ASSEMBLER => 6_000,
        FurnitureObject::PROCUREMENT_TERMINAL => 500,
        _ => 0,
    }
}

/// Battery capacity, in milli-units.
pub open spec fn power_capacity_spec(object_type: FurnitureObject) -> u32 {
    if object_type == FurnitureObject::BATTERY {
        120_000
    } else {
        0
    }
}

/// Most automatic links a node of a kind makes.
pub open spec fn connection_limit_spec(object_type: FurnitureObject) -> usize {
    if object_type == FurnitureObject::PYLON {
        PYLON_CONNECTION_LIMIT
    } else if object_type == FurnitureObject::POWER_CONNECTOR {
        POWER_CONNECTOR_CONNECTION_LIMIT
    } else {
        MACHINE_CONNECTION_LIMIT
    }
}

/// The node of a powered object: its role, a socket at the middle of its top
/// edge in half tiles, its rate, capacity, link limit and link range.
pub open spec fn node_matches(node: PowerNode, object: WorldObject) -> bool {
    &&& node.object == object.id
    &&& Some(node.role) == power_role_spec(object.object_type)
    &&& node.socket[0] == object.anchor.x * SOCKET_UNITS_PER_TILE + object.width
    &&& node.socket[1] == object.anchor.y * SOCKET_UNITS_PER_TILE + 1
    &&& node.rate_milli_per_second == power_rate_spec(object.object_type)
    &&& node.capacity_milli == power_capacity_spec(object.object_type)
    &&& node.connection_limit == connection_limit_spec(object.object_type)
    &&& node.connection_range_squared == CONNECTION_RANGE_SOCKET_UNITS * CONNECTION_RANGE_SOCKET_UNITS
}

/// The objects that take part in power networks, in placement order.
pub open spec fn powered_objects(objects: Seq<WorldObject>) -> Seq<WorldObject>
    decreases objects.len(),
{
    if objects.len() == 0 {
        Seq::empty()
    } else {
        powered_objects(objects.drop_last()) + if power_role_spec(objects.last().object_type) is Some {
            seq![objects.last()]
        } else {
            Seq::empty()
        }
    }
}

/// The power nodes of a world: one for each powered object, in placement
/// order, which is the order of their identifiers.
pub open spec fn nodes_of(world: World, nodes: Seq<PowerNode>) -> bool {
    &&& nodes.len() == powered_objects(world.spec_objects()).len()
    &&& forall|k: int| 0 <= k < nodes.len() ==> #[trigger] node_matches(nodes[k], powered_objects(world.spec_objects())[k])
}

fn node_for(object: WorldObject, role: PowerRole) -> (node: PowerNode)
    requires
        Some(role) == power_role_spec(object.object_type),
        object.anchor.x + object.width <= crate::world::MAX_WORLD_WIDTH,
        object.anchor.y < crate::world::MAX_WORLD_HEIGHT,
    ensures
        node_matches(node, object),
{
    let limit = if object.object_type == FurnitureObject::PYLON {
        PYLON_CONNECTION_LIMIT
    } else if object.object_type == FurnitureObject::POWER_CONNECTOR {
        POWER_CONNECTOR_CONNECTION_LIMIT
    } else {
        MACHINE_CONNECTION_LIMIT
    };
    PowerNode {
        object: object.id,
        role,
        socket: [
            object.anchor.x as i64 * SOCKET_UNITS_PER_TILE + object.width as i64,
            object.anchor.y as i64 * SOCKET_UNITS_PER_TILE + 1,
        ],
        rate_milli_per_second: power_rate(object.object_type),
        capacity_milli: if object.object_type == FurnitureObject::BATTERY { 120_000 } else { 0 },
        connection_limit: limit,
        connection_range_squared: CONNECTION_RANGE_SOCKET_UNITS * CONNECTION_RANGE_SOCKET_UNITS,
    }
}

/// The power nodes of every powered object of a world.
pub fn power_nodes(world: &World) -> (nodes: Vec<PowerNode>)
    requires
        world.wf(),
    ensures
        nodes_of(*world, nodes@),
        forall|k: int| 0 <= k < nodes@.len() ==> #[trigger] socket_in_range(nodes@[k].socket),
        forall|i: int, j: int|
            0 <= i < j < nodes@.len() ==> #[trigger] nodes@[i].object.spec_raw() < #[trigger] nodes@[j].object.spec_raw(),
{
    let count = world.object_count();
    let ghost objects = world.spec_objects();
    let mut nodes: Vec<PowerNode> = Vec::new();
    let mut index: usize = 0;
    proof {
        world.lemma_wf();
        assert(objects.take(0) =~= Seq::<WorldObject>::empty());
    }
    while index < count
        invariant
            world.wf(),
            objects == world.spec_objects(),
            count == objects.len(),
            index <= count,
            crate::world::ascending_ids(objects),
            forall|i: int| 0 <= i < objects.len() ==> #[trigger] crate::world::in_bounds(
                objects[i],
                world.spec_width(),
                world.spec_height(),
            ),
            world.spec_width() <= crate::world::MAX_WORLD_WIDTH,
            world.spec_height() <= crate::world::MAX_WORLD_HEIGHT,
            nodes@.len() == powered_objects(objects.take(index as int)).len(),
            forall|k: int|
                0 <= k < nodes@.len() ==> #[trigger] node_matches(nodes@[k], powered_objects(objects.take(index as int))[k]),
            forall|k: int| 0 <= k < nodes@.len() ==> #[trigger] socket_in_range(nodes@[k].socket),
            forall|k: int|
                0 <= k < nodes@.len() ==> exists|i: int| 0 <= i < index && (#[trigger] nodes@[k]).object == objects[i].id,
            forall|i: int, j: int|
                0 <= i < j < nodes@.len() ==> #[trigger] nodes@[i].object.spec_raw() < #[trigger] nodes@[j].object.spec_raw(),
        decreases count - index,
    {
        let object = world.objects_at_index(index);
        let ghost before = nodes@;
        proof {
            assert(objects.take(index + 1).drop_last() =~= objects.take(index as int));
            assert(objects.take(index + 1).last() == object);
            assert(crate::world::in_bounds(objects[index as int], world.spec_width(), world.spec_height()));
        }
        match power_role(object.object_type) {
            Some(role) => {
                let node = node_for(object, role);
                nodes.push(node);
                proof {
                    assert(powered_objects(objects.take(index + 1)) =~= powered_objects(objects.take(index as int)).push(
                        object,
                    ));
                    assert forall|k: int| 0 <= k < nodes@.len() implies #[trigger] node_matches(
                        nodes@[k],
                        powered_objects(objects.take(index + 1))[k],
                    ) by {
                        if k < before.len() {
                            assert(nodes@[k] == before[k]);
                        }
                    }
                    assert forall|k: int| 0 <= k < nodes@.len() implies exists|i: int|
                        0 <= i < index + 1 && (#[trigger] nodes@[k]).object == objects[i].id by {
                        if k < before.len() {
                            assert(nodes@[k] == before[k]);
                            let i = choose|i: int| 0 <= i < index && before[k].object == objects[i].id;
                        } else {
                            assert(nodes@[k].object == objects[index as int].id);
                        }
                    }
                    assert forall|i: int, j: int|
                        0 <= i < j < nodes@.len() implies #[trigger] nodes@[i].object.spec_raw()
                        < #[trigger] nodes@[j].object.spec_raw() by {
                        if j < before.len() {
                            assert(nodes@[i] == before[i] && nodes@[j] == before[j]);
                        } else {
                            assert(nodes@[i] == before[i]);
                            let m = choose|m: int| 0 <= m < index && before[i].object == objects[m].id;
                            assert(objects[m].id.spec_raw() < objects[index as int].id.spec_raw());
                        }
                    }
                    assert forall|k: int| 0 <= k < nodes@.len() implies #[trigger] socket_in_range(nodes@[k].socket) by {
                        if k < before.len() {
                            assert(nodes@[k] == before[k]);
                        }
                    }
                }
            },
            None => {
                proof {
                    assert(powered_objects(objects.take(index + 1)) =~= powered_objects(objects.take(index as int)));
                    assert forall|k: int| 0 <= k < nodes@.len() implies exists|i: int|
                        0 <= i < index + 1 && (#[trigger] nodes@[k]).object == objects[i].id by {
                        let i = choose|i: int| 0 <= i < index && nodes@[k].object == objects[i].id;
                    }
                }
            },
        }
        index = index + 1;
    }
    proof {
        assert(objects.take(count as int) =~= objects);
    }
    nodes
}

/// The key a candidate is ordered by: its two objects, smaller first.
pub open spec fn pair_key(nodes: Seq<PowerNode>, pair: (usize, usize)) -> (u64, u64) {
    let a = nodes[pair.0 as int].object.spec_raw();
    let b = nodes[pair.1 as int].object.spec_raw();
    if a <= b {
        (a, b)
    } else {
        (b, a)
    }
}

pub open spec fn key_before(first: (u64, u64), second: (u64, u64)) -> bool {
    first.0 < second.0 || (first.0 == second.0 && first.1 < second.1)
}

/// The kind of a node's object.
pub open spec fn kind_of(world: World, object: ObjectId) -> Option<FurnitureObject> {
    match world.object_spec(object) {
        Some(o) => Some(o.object_type),
        None => None,
    }
}

/// Whether a relay and another node may be linked automatically: different
/// objects of kinds that may be linked, within both link ranges, and a pair
/// of relays only from the one with the smaller identifier.
pub open spec fn candidate_pair(world: World, nodes: Seq<PowerNode>, relay: int, other: int) -> bool {
    &&& 0 <= relay < nodes.len()
    &&& 0 <= other < nodes.len()
    &&& nodes[relay].role == PowerRole::Relay
    &&& nodes[other].object != nodes[relay].object
    &&& connection_allowed_spec(kind_of(world, nodes[relay].object), kind_of(world, nodes[other].object))
    &&& !(nodes[other].role == PowerRole::Relay && nodes[relay].object.spec_raw() > nodes[other].object.spec_raw())
    &&& squared_distance_spec(nodes[relay].socket, nodes[other].socket) <= nodes[relay].connection_range_squared
    &&& squared_distance_spec(nodes[relay].socket, nodes[other].socket) <= nodes[other].connection_range_squared
}

/// The candidate pairs, each once, ordered by their two objects.
pub open spec fn candidates_of(world: World, nodes: Seq<PowerNode>, pairs: Seq<(usize, usize)>) -> bool {
    &&& forall|k: int| 0 <= k < pairs.len() ==> #[trigger] candidate_pair(world, nodes, pairs[k].0 as int, pairs[k].1 as int)
    &&& forall|r: int, o: int| #[trigger] candidate_pair(world, nodes, r, o) ==> pairs.contains((r as usize, o as usize))
    &&& forall|i: int, j: int|
        0 <= i < j < pairs.len() ==> key_before(pair_key(nodes, #[trigger] pairs[i]), pair_key(nodes, #[trigger] pairs[j]))
}

proof fn lemma_sockets_close(left: [i64; 2], right: [i64; 2])
    requires
        socket_in_range(left),
        socket_in_range(right),
    ensures
        i64::MIN <= right[0] - left[0] <= i64::MAX,
        i64::MIN <= right[1] - left[1] <= i64::MAX,
        squared_distance_spec(left, right) <= i64::MAX,
{
    let dx = right[0] - left[0];
    let dy = right[1] - left[1];
    assert(dx * dx <= 4 * SOCKET_COORDINATE_LIMIT * SOCKET_COORDINATE_LIMIT) by (nonlinear_arith)
        requires
            -2 * SOCKET_COORDINATE_LIMIT <= dx <= 2 * SOCKET_COORDINATE_LIMIT,
    ;
    assert(dy * dy <= 4 * SOCKET_COORDINATE_LIMIT * SOCKET_COORDINATE_LIMIT) by (nonlinear_arith)
        requires
            -2 * SOCKET_COORDINATE_LIMIT <= dy <= 2 * SOCKET_COORDINATE_LIMIT,
    ;
}

/// Two candidates with the same two objects are the same candidate.
proof fn lemma_key_unique(world: World, nodes: Seq<PowerNode>, p: (usize, usize), q: (usize, usize))
    requires
        forall|i: int, j: int|
            0 <= i < j < nodes.len() ==> #[trigger] nodes[i].object.spec_raw() < #[trigger] nodes[j].object.spec_raw(),
        candidate_pair(world, nodes, p.0 as int, p.1 as int),
        candidate_pair(world, nodes, q.0 as int, q.1 as int),
        pair_key(nodes, p) == pair_key(nodes, q),
    ensures
        p == q,
{
    assert forall|i: int, j: int|
        0 <= i < nodes.len() && 0 <= j < nodes.len() && nodes[i].object.spec_raw() == nodes[j].object.spec_raw()
            implies i == j by {
        if i < j {
            assert(nodes[i].object.spec_raw() < nodes[j].object.spec_raw());
        } else if j < i {
            assert(nodes[j].object.spec_raw() < nodes[i].object.spec_raw());
        }
    }
}

fn key_of(nodes: &[PowerNode], pair: (usize, usize)) -> (key: (u64, u64))
    requires
        pair.0 < nodes@.len(),
        pair.1 < nodes@.len(),
    ensures
        key == pair_key(nodes@, pair),
{
    let a = nodes[pair.0].object.raw();
    let b = nodes[pair.1].object.raw();
    if a <= b { (a, b) } else { (b, a) }
}

fn key_less(first: (u64, u64), second: (u64, u64)) -> (less: bool)
    ensures
        less == key_before(first, second),
{
    first.0 < second.0 || (first.0 == second.0 && first.1 < second.1)
}

/// Inserts a candidate pair at its place in the order.
fn insert_pair(pairs: &mut Vec<(usize, usize)>, pair: (usize, usize), Ghost(world): Ghost<World>, nodes: &[PowerNode])
    requires
        forall|i: int, j: int|
            0 <= i < j < nodes@.len() ==> #[trigger] nodes@[i].object.spec_raw() < #[trigger] nodes@[j].object.spec_raw(),
        candidate_pair(world, nodes@, pair.0 as int, pair.1 as int),
        !old(pairs)@.contains(pair),
        forall|k: int| 0 <= k < old(pairs)@.len() ==> #[trigger] candidate_pair(
            world,
            nodes@,
            old(pairs)@[k].0 as int,
            old(pairs)@[k].1 as int,
        ),
        forall|i: int, j: int|
            0 <= i < j < old(pairs)@.len() ==> key_before(
                pair_key(nodes@, #[trigger] old(pairs)@[i]),
                pair_key(nodes@, #[trigger] old(pairs)@[j]),
            ),
    ensures
        forall|k: int| 0 <= k < final(pairs)@.len() ==> #[trigger] candidate_pair(
            world,
            nodes@,
            final(pairs)@[k].0 as int,
            final(pairs)@[k].1 as int,
        ),
        forall|i: int, j: int|
            0 <= i < j < final(pairs)@.len() ==> key_before(
                pair_key(nodes@, #[trigger] final(pairs)@[i]),
                pair_key(nodes@, #[trigger] final(pairs)@[j]),
            ),
        forall|e: (usize, usize)| #[trigger] final(pairs)@.contains(e) <==> old(pairs)@.contains(e) || e == pair,
{
    let key = key_of(nodes, pair);
    let mut position: usize = 0;
    proof {
        assert forall|k: int| 0 <= k < pairs@.len() implies (#[trigger] pairs@[k]).0 < nodes@.len() && pairs@[k].1
            < nodes@.len() by {
            assert(candidate_pair(world, nodes@, pairs@[k].0 as int, pairs@[k].1 as int));
        }
    }
    while position < pairs.len() && key_less(key_of(nodes, pairs[position]), key)
        invariant
            position <= pairs@.len(),
            pairs@ == old(pairs)@,
            key == pair_key(nodes@, pair),
            forall|k: int| 0 <= k < pairs@.len() ==> #[trigger] candidate_pair(
                world,
                nodes@,
                pairs@[k].0 as int,
                pairs@[k].1 as int,
            ),
            forall|k: int| 0 <= k < position ==> key_before(pair_key(nodes@, #[trigger] pairs@[k]), key),
            forall|k: int| 0 <= k < pairs@.len() ==> (#[trigger] pairs@[k]).0 < nodes@.len() && pairs@[k].1 < nodes@.len(),
        decreases pairs@.len() - position,
    {
        position = position + 1;
    }
    let ghost previous = pairs@;
    proof {
        if position < previous.len() {
            assert(candidate_pair(world, nodes@, previous[position as int].0 as int, previous[position as int].1 as int));
            if pair_key(nodes@, previous[position as int]) == key {
                lemma_key_unique(world, nodes@, previous[position as int], pair);
                assert(previous.contains(pair));
            }
        }
    }
    pairs.insert(position, pair);
    proof {
        assert(pairs@ == previous.insert(position as int, pair));
        assert forall|k: int| 0 <= k < pairs@.len() implies #[trigger] candidate_pair(
            world,
            nodes@,
            pairs@[k].0 as int,
            pairs@[k].1 as int,
        ) by {
            if k < position {
                assert(pairs@[k] == previous[k]);
            } else if k > position {
                assert(pairs@[k] == previous[k - 1]);
            }
        }
        assert forall|i: int, j: int|
            0 <= i < j < pairs@.len() implies key_before(
            pair_key(nodes@, #[trigger] pairs@[i]),
            pair_key(nodes@, #[trigger] pairs@[j]),
        ) by {
            if j < position {
                assert(pairs@[i] == previous[i] && pairs@[j] == previous[j]);
            } else if j == position {
                assert(pairs@[i] == previous[i]);
            } else if i < position {
                assert(pairs@[i] == previous[i] && pairs@[j] == previous[j - 1]);
                assert(key_before(key, pair_key(nodes@, previous[position as int])));
                if j - 1 > position {
                    assert(key_before(pair_key(nodes@, previous[position as int]), pair_key(nodes@, previous[j - 1])));
                }
            } else if i == position {
                assert(pairs@[j] == previous[j - 1]);
                assert(key_before(key, pair_key(nodes@, previous[position as int])));
                if j - 1 > position {
                    assert(key_before(pair_key(nodes@, previous[position as int]), pair_key(nodes@, previous[j - 1])));
                }
            } else {
                assert(pairs@[i] == previous[i - 1] && pairs@[j] == previous[j - 1]);
            }
        }
        assert forall|e: (usize, usize)| #[trigger] pairs@.contains(e) <==> previous.contains(e) || e == pair by {
            if pairs@.contains(e) {
                let k = choose|k: int| 0 <= k < pairs@.len() && pairs@[k] == e;
                if k < position {
                    assert(previous[k] == e);
                } else if k > position {
                    assert(previous[k - 1] == e);
                }
            }
            if previous.contains(e) {
                let k = choose|k: int| 0 <= k < previous.len() && previous[k] == e;
                if k < position {
                    assert(pairs@[k] == e);
                } else {
                    assert(pairs@[k + 1] == e);
                }
            }
            if e == pair {
                assert(pairs@[position as int] == pair);
            }
        }
    }
}

/// Whether one relay may link with another node.
fn is_candidate(world: &World, nodes: &[PowerNode], relay: usize, other: usize) -> (candidate: bool)
    requires
        world.wf(),
        relay < nodes@.len(),
        other < nodes@.len(),
        forall|k: int| 0 <= k < nodes@.len() ==> #[trigger] socket_in_range(nodes@[k].socket),
    ensures
        candidate == candidate_pair(*world, nodes@, relay as int, other as int),
{
    let first = nodes[relay];
    let second = nodes[other];
    if first.role != PowerRole::Relay || first.object == second.object {
        return false;
    }
    if !automatic_connection_allowed(world, first.object, second.object) {
        return false;
    }
    if second.role == PowerRole::Relay && first.object.raw() > second.object.raw() {
        return false;
    }
    proof {
        assert(socket_in_range(nodes@[relay as int].socket));
        assert(socket_in_range(nodes@[other as int].socket));
        lemma_sockets_close(first.socket, second.socket);
    }
    let distance = squared_socket_distance(first.socket, second.socket);
    distance <= first.connection_range_squared && distance <= second.connection_range_squared
}

/// Every pair of a relay and a node it may link with, each once, ordered by
/// their two objects.
pub fn candidate_pairs(world: &World, nodes: &[PowerNode]) -> (pairs: Vec<(usize, usize)>)
    requires
        world.wf(),
        forall|k: int| 0 <= k < nodes@.len() ==> #[trigger] socket_in_range(nodes@[k].socket),
        forall|i: int, j: int|
            0 <= i < j < nodes@.len() ==> #[trigger] nodes@[i].object.spec_raw() < #[trigger] nodes@[j].object.spec_raw(),
    ensures
        candidates_of(*world, nodes@, pairs@),
{
    let mut pairs: Vec<(usize, usize)> = Vec::new();
    let mut relay: usize = 0;
    while relay < nodes.len()
        invariant
            world.wf(),
            relay <= nodes@.len(),
            forall|k: int| 0 <= k < nodes@.len() ==> #[trigger] socket_in_range(nodes@[k].socket),
            forall|i: int, j: int|
                0 <= i < j < nodes@.len() ==> #[trigger] nodes@[i].object.spec_raw() < #[trigger] nodes@[j].object.spec_raw(),
            forall|k: int| 0 <= k < pairs@.len() ==> #[trigger] candidate_pair(
                *world,
                nodes@,
                pairs@[k].0 as int,
                pairs@[k].1 as int,
            ),
            forall|k: int| 0 <= k < pairs@.len() ==> (#[trigger] pairs@[k]).0 < relay,
            forall|i: int, j: int|
                0 <= i < j < pairs@.len() ==> key_before(pair_key(nodes@, #[trigger] pairs@[i]), pair_key(nodes@, #[trigger] pairs@[j])),
            forall|r: int, o: int| #[trigger] candidate_pair(*world, nodes@, r, o) && r < relay ==> pairs@.contains(
                (r as usize, o as usize),
            ),
        decreases nodes@.len() - relay,
    {
        let mut other: usize = 0;
        while other < nodes.len()
            invariant
                world.wf(),
                relay < nodes@.len(),
                other <= nodes@.len(),
                forall|k: int| 0 <= k < nodes@.len() ==> #[trigger] socket_in_range(nodes@[k].socket),
                forall|i: int, j: int|
                    0 <= i < j < nodes@.len() ==> #[trigger] nodes@[i].object.spec_raw() < #[trigger] nodes@[j].object.spec_raw(),
                forall|k: int| 0 <= k < pairs@.len() ==> #[trigger] candidate_pair(
                    *world,
                    nodes@,
                    pairs@[k].0 as int,
                    pairs@[k].1 as int,
                ),
                forall|k: int|
                    0 <= k < pairs@.len() ==> (#[trigger] pairs@[k]).0 < relay || (pairs@[k].0 == relay && pairs@[k].1
                        < other),
                forall|i: int, j: int|
                    0 <= i < j < pairs@.len() ==> key_before(
                        pair_key(nodes@, #[trigger] pairs@[i]),
                        pair_key(nodes@, #[trigger] pairs@[j]),
                    ),
                forall|r: int, o: int|
                    #[trigger] candidate_pair(*world, nodes@, r, o) && (r < relay || (r == relay && o < other))
                        ==> pairs@.contains((r as usize, o as usize)),
            decreases nodes@.len() - other,
        {
            if is_candidate(world, nodes, relay, other) {
                let ghost before = pairs@;
                proof {
                    if before.contains((relay, other)) {
                        let k = choose|k: int| 0 <= k < before.len() && before[k] == (relay, other);
                        assert(before[k].0 < relay || (before[k].0 == relay && before[k].1 < other));
                    }
                }
                insert_pair(&mut pairs, (relay, other), Ghost(*world), nodes);
                proof {
                    assert forall|k: int|
                        0 <= k < pairs@.len() implies (#[trigger] pairs@[k]).0 < relay || (pairs@[k].0 == relay
                            && pairs@[k].1 < other + 1) by {
                        assert(pairs@.contains(pairs@[k]));
                        if before.contains(pairs@[k]) {
                            let m = choose|m: int| 0 <= m < before.len() && before[m] == pairs@[k];
                            assert(before[m].0 < relay || (before[m].0 == relay && before[m].1 < other));
                        }
                    }
                    assert forall|r: int, o: int|
                        #[trigger] candidate_pair(*world, nodes@, r, o) && (r < relay || (r == relay && o < other + 1))
                            implies pairs@.contains((r as usize, o as usize)) by {
                        if r < relay || (r == relay && o < other) {
                            assert(before.contains((r as usize, o as usize)));
                        }
                    }
                }
            }
            other = other + 1;
        }
        relay = relay + 1;
    }
    pairs
}

/// The candidate links of the pairs, with whether each one's line of sight
/// is clear.
pub open spec fn link_of(nodes: Seq<PowerNode>, pair: (usize, usize), visible: bool) -> CandidateLink {
    CandidateLink {
        nodes: [pair.0, pair.1],
        endpoints: if nodes[pair.0 as int].object.spec_raw() <= nodes[pair.1 as int].object.spec_raw() {
            [nodes[pair.0 as int].object, nodes[pair.1 as int].object]
        } else {
            [nodes[pair.1 as int].object, nodes[pair.0 as int].object]
        },
        socket_start: nodes[pair.0 as int].socket,
        socket_end: nodes[pair.1 as int].socket,
        visible,
    }
}

/// The candidate links of the pairs; `visible` says for each pair whether
/// nothing solid lies between its sockets.
pub fn candidate_links(nodes: &[PowerNode], pairs: &[(usize, usize)], visible: &[bool]) -> (links: Vec<
    CandidateLink,
>)
    requires
        visible@.len() == pairs@.len(),
        forall|k: int| 0 <= k < pairs@.len() ==> (#[trigger] pairs@[k]).0 < nodes@.len() && pairs@[k].1 < nodes@.len(),
    ensures
        links@.len() == pairs@.len(),
        forall|k: int| 0 <= k < links@.len() ==> #[trigger] links@[k] == link_of(nodes@, pairs@[k], visible@[k]),
{
    let mut links: Vec<CandidateLink> = Vec::new();
    let mut index: usize = 0;
    while index < pairs.len()
        invariant
            index <= pairs@.len(),
            visible@.len() == pairs@.len(),
            forall|k: int| 0 <= k < pairs@.len() ==> (#[trigger] pairs@[k]).0 < nodes@.len() && pairs@[k].1 < nodes@.len(),
            links@.len() == index,
            forall|k: int| 0 <= k < index ==> #[trigger] links@[k] == link_of(nodes@, pairs@[k], visible@[k]),
        decreases pairs@.len() - index,
    {
        let (relay, other) = pairs[index];
        let first = nodes[relay].object;
        let second = nodes[other].object;
        let endpoints = if first.raw() <= second.raw() { [first, second] } else { [second, first] };
        let link = CandidateLink {
            nodes: [relay, other],
            endpoints,
            socket_start: nodes[relay].socket,
            socket_end: nodes[other].socket,
            visible: visible[index],
        };
        links.push(link);
        proof {
            assert(links@[index as int] == link_of(nodes@, pairs@[index as int], visible@[index as int]));
        }
        index = index + 1;
    }
    links
}

} // verus!
