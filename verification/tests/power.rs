use deep_tek::power::{
    automatic_connection_allowed, charge_batteries, consumer_is_demanding, discharge_batteries,
    energy_for_rate, has_line_of_sight, push_cell, socket_bucket, squared_socket_distance,
};
use deep_tek::{
    CandidateLink, rebuild_components, FurnitureObject, ObjectId, PowerNode, PowerRole, TilePos, World, distribute_network,
    distribute_networks,
};

#[test]
fn energy_is_rate_times_time_rounded_down_and_capped() {
    assert_eq!(energy_for_rate(1_500, 2_000_000_000), 3_000);
    assert_eq!(energy_for_rate(1_000, 1_500_000), 1);
    assert_eq!(energy_for_rate(999, 1_000_000), 0);
    assert_eq!(energy_for_rate(0, u64::MAX), 0);
    assert_eq!(energy_for_rate(u32::MAX, u64::MAX), u64::MAX);
}

#[test]
fn socket_buckets_round_towards_negative_infinity() {
    assert_eq!(socket_bucket([0, 43]), [0, 0]);
    assert_eq!(socket_bucket([44, 88]), [1, 2]);
    assert_eq!(socket_bucket([-1, -44]), [-1, -1]);
    assert_eq!(socket_bucket([-45, -88]), [-2, -2]);
}

#[test]
fn squared_socket_distance_is_exact() {
    assert_eq!(squared_socket_distance([0, 0], [3, 4]), 25);
    assert_eq!(squared_socket_distance([10, -2], [-34, -2]), 1_936);
}

#[test]
fn crossed_cells_are_listed_once_and_only_inside_the_tile_range() {
    let mut cells = Vec::new();
    push_cell(&mut cells, [3, 4]);
    push_cell(&mut cells, [3, 4]);
    push_cell(&mut cells, [-1, 4]);
    push_cell(&mut cells, [5, i64::from(u32::MAX) + 1]);
    push_cell(&mut cells, [5, 6]);
    assert_eq!(cells, vec![TilePos::new(3, 4), TilePos::new(5, 6)]);
}

#[test]
fn line_of_sight_needs_empty_tiles_inside_the_world() {
    let mut world = World::empty(8, 8, 1).unwrap();
    let path = [TilePos::new(1, 1), TilePos::new(2, 1), TilePos::new(3, 2)];
    assert!(has_line_of_sight(&world, &path));
    assert!(has_line_of_sight(&world, &[]));
    assert!(world.set_foreground_tile(2, 1, 3));
    assert!(!has_line_of_sight(&world, &path));
    assert!(!has_line_of_sight(&world, &[TilePos::new(8, 0)]));
}

#[test]
fn automatic_links_skip_lifts_and_tie_cable_anchors_to_relays() {
    let mut world = World::empty(32, 16, 1).unwrap();
    let pylon = world.place_furniture(FurnitureObject::PYLON, TilePos::new(1, 1)).unwrap();
    let anchor = world
        .place_furniture(FurnitureObject::POWERED_CABLE_ANCHOR, TilePos::new(4, 1))
        .unwrap();
    let lift = world.place_furniture(FurnitureObject::CARGO_LIFT, TilePos::new(6, 1)).unwrap();
    let battery = world.place_furniture(FurnitureObject::BATTERY, TilePos::new(8, 1)).unwrap();
    let solar = world.place_furniture(FurnitureObject::SOLAR_ARRAY, TilePos::new(10, 1)).unwrap();
    assert!(automatic_connection_allowed(&world, pylon, anchor));
    assert!(automatic_connection_allowed(&world, anchor, pylon));
    assert!(!automatic_connection_allowed(&world, anchor, battery));
    assert!(!automatic_connection_allowed(&world, pylon, lift));
    assert!(automatic_connection_allowed(&world, battery, solar));
    assert!(!automatic_connection_allowed(&world, battery, ObjectId::new(999)));
}

#[test]
fn batteries_fill_in_order_up_to_capacity_and_drain_in_order() {
    let mut world = World::empty(16, 8, 1).unwrap();
    let first = world.place_furniture(FurnitureObject::BATTERY, TilePos::new(1, 1)).unwrap();
    let second = world.place_furniture(FurnitureObject::BATTERY, TilePos::new(3, 1)).unwrap();
    let batteries = [(first, 1_000), (second, 1_000)];

    assert_eq!(charge_batteries(&mut world, &batteries, 1_500), 1_500);
    assert_eq!(world.battery_charge_milli(first), Some(1_000));
    assert_eq!(world.battery_charge_milli(second), Some(500));
    assert_eq!(charge_batteries(&mut world, &batteries, 800), 500);
    assert_eq!(world.battery_charge_milli(second), Some(1_000));

    discharge_batteries(&mut world, &batteries, 1_200);
    assert_eq!(world.battery_charge_milli(first), Some(0));
    assert_eq!(world.battery_charge_milli(second), Some(800));
    discharge_batteries(&mut world, &batteries, 5_000);
    assert_eq!(world.battery_charge_milli(second), Some(0));
}

#[test]
fn drills_demand_power_only_while_switched_on() {
    let mut world = World::empty(32, 16, 1).unwrap();
    let bore = world.place_furniture(FurnitureObject::LASER_BORE, TilePos::new(1, 1)).unwrap();
    let pylon = world.place_furniture(FurnitureObject::PYLON, TilePos::new(8, 1)).unwrap();
    assert!(!consumer_is_demanding(&world, bore));
    assert!(world.set_furniture_active(bore, true));
    assert!(consumer_is_demanding(&world, bore));
    assert!(consumer_is_demanding(&world, pylon));
    assert!(!consumer_is_demanding(&world, ObjectId::new(77)));
}

fn node(object: ObjectId, role: PowerRole, rate: u32, capacity: u32) -> PowerNode {
    PowerNode {
        object,
        role,
        socket: [0, 0],
        rate_milli_per_second: rate,
        capacity_milli: capacity,
        connection_limit: 1,
        connection_range_squared: 1_936,
    }
}

fn basic_grid() -> (World, ObjectId, ObjectId, ObjectId) {
    let mut world = World::empty(64, 32, 0).unwrap();
    let solar = world.place_furniture(FurnitureObject::SOLAR_ARRAY, TilePos::new(2, 9)).unwrap();
    let pylon = world.place_furniture(FurnitureObject::PYLON, TilePos::new(8, 10)).unwrap();
    let bore = world.place_furniture(FurnitureObject::LASER_BORE, TilePos::new(14, 9)).unwrap();
    (world, solar, pylon, bore)
}

#[test]
fn solar_generation_stops_at_night() {
    let (mut world, solar, pylon, bore) = basic_grid();
    let nodes = [
        node(solar, PowerRole::Generator, 12_000, 0),
        node(pylon, PowerRole::Relay, 0, 0),
        node(bore, PowerRole::Consumer, 8_000, 0),
    ];
    let flow = distribute_network(&mut world, &nodes, false, 1_000_000_000);
    assert_eq!(flow.generated_milli, 0);
    assert!(flow.powered.is_empty());

    let flow = distribute_network(&mut world, &nodes, true, 1_000_000_000);
    assert_eq!(flow.generated_milli, 12_000);
    assert_eq!(flow.powered, vec![solar, pylon, bore]);
    assert_eq!(flow.consumed_milli, 0);
    assert_eq!(flow.curtailed_milli, 12_000);
}

#[test]
fn battery_charges_by_day_and_supplies_an_active_bore_at_night() {
    let (mut world, solar, pylon, bore) = basic_grid();
    let battery = world.place_furniture(FurnitureObject::BATTERY, TilePos::new(10, 10)).unwrap();
    let nodes = [
        node(solar, PowerRole::Generator, 12_000, 0),
        node(pylon, PowerRole::Relay, 0, 0),
        node(battery, PowerRole::Storage, 0, 200_000),
        node(bore, PowerRole::Consumer, 8_000, 0),
    ];
    let daylight = distribute_network(&mut world, &nodes, true, 10_000_000_000);
    assert_eq!(daylight.generated_milli, 120_000);
    assert_eq!(world.battery_charge_milli(battery), Some(120_000));

    assert!(world.set_furniture_active(bore, true));
    let night = distribute_network(&mut world, &nodes, false, 1_000_000_000);
    assert!(night.powered.contains(&bore));
    assert!(!night.powered.contains(&solar));
    assert_eq!(night.consumed_milli, 8_000);
    assert_eq!(world.battery_charge_milli(battery), Some(112_000));

    distribute_network(&mut world, &nodes, false, 14_000_000_000);
    assert_eq!(world.battery_charge_milli(battery), Some(0));
    let drained = distribute_network(&mut world, &nodes, false, 1_000_000_000);
    assert!(!drained.powered.contains(&bore));
}

#[test]
fn insufficient_generation_load_sheds_consumers_in_stable_object_order() {
    let (mut world, solar, pylon, bore) = basic_grid();
    let turret = world.place_furniture(FurnitureObject::TURRET, TilePos::new(18, 10)).unwrap();
    assert!(world.set_furniture_active(bore, true));
    assert!(world.set_furniture_active(turret, true));
    let nodes = [
        node(solar, PowerRole::Generator, 12_000, 0),
        node(pylon, PowerRole::Relay, 0, 0),
        node(bore, PowerRole::Consumer, 8_000, 0),
        node(turret, PowerRole::Consumer, 10_000, 0),
    ];
    let flow = distribute_network(&mut world, &nodes, true, 1_000_000_000);
    assert_eq!(flow.generated_milli, 12_000);
    assert_eq!(flow.consumed_milli, 8_000);
    assert_eq!(flow.supplied_consumers, 1);
    assert!(flow.powered.contains(&bore));
    assert!(!flow.powered.contains(&turret));
}

#[test]
fn networks_are_powered_in_turn_and_their_flows_add_up() {
    let (mut world, solar, pylon, bore) = basic_grid();
    let battery = world.place_furniture(FurnitureObject::BATTERY, TilePos::new(20, 10)).unwrap();
    let lonely = world.place_furniture(FurnitureObject::PYLON, TilePos::new(30, 10)).unwrap();
    assert!(world.set_battery_charge_milli(battery, 5_000));
    assert!(world.set_furniture_active(bore, true));
    let nodes = [
        node(solar, PowerRole::Generator, 12_000, 0),
        node(pylon, PowerRole::Relay, 0, 0),
        node(bore, PowerRole::Consumer, 8_000, 0),
        node(battery, PowerRole::Storage, 0, 10_000),
        node(lonely, PowerRole::Relay, 0, 0),
    ];
    let networks = vec![vec![0, 1, 2], vec![3, 4]];
    let (flow, powered) = distribute_networks(&mut world, &nodes, &networks, &[], true, 1_000_000_000);
    assert!(flow.daytime);
    assert_eq!(flow.generated_milli, 12_000);
    assert_eq!(flow.consumed_milli, 8_000);
    assert_eq!(flow.curtailed_milli, 4_000);
    assert_eq!(flow.supplied_consumers, 1);
    assert_eq!(flow.stored_milli, 5_000);
    assert_eq!(powered, vec![solar, pylon, bore, battery, lonely]);
}

fn limited(object: u64, role: PowerRole, limit: usize, socket: [i64; 2]) -> PowerNode {
    PowerNode {
        object: ObjectId::new(object),
        role,
        socket,
        rate_milli_per_second: 0,
        capacity_milli: 0,
        connection_limit: limit,
        connection_range_squared: 1_936,
    }
}

fn candidate(nodes: &[PowerNode], left: usize, right: usize, visible: bool) -> CandidateLink {
    CandidateLink {
        nodes: [left, right],
        endpoints: [nodes[left].object, nodes[right].object],
        socket_start: nodes[left].socket,
        socket_end: nodes[right].socket,
        visible,
    }
}

#[test]
fn links_are_made_shortest_first_within_limits_and_group_into_networks() {
    let nodes = [
        limited(1, PowerRole::Generator, 1, [0, 0]),
        limited(2, PowerRole::Relay, 10, [6, 0]),
        limited(3, PowerRole::Consumer, 1, [14, 0]),
        limited(4, PowerRole::Relay, 10, [14, 5]),
        limited(5, PowerRole::Consumer, 1, [40, 0]),
        limited(6, PowerRole::Relay, 10, [60, 0]),
        limited(7, PowerRole::Storage, 1, [70, 0]),
    ];
    let links = [
        candidate(&nodes, 1, 2, true),
        candidate(&nodes, 1, 0, true),
        candidate(&nodes, 3, 2, true),
        candidate(&nodes, 1, 4, false),
    ];
    let wired = [[5, 6]];
    let topology = rebuild_components(&nodes, &wired, &links);
    assert_eq!(topology.link_order, vec![2, 1, 0]);
    assert_eq!(topology.connected, vec![false, true, true, false]);
    assert_eq!(topology.networks, vec![vec![0, 1], vec![2, 3], vec![5, 6]]);
}

#[test]
fn a_machine_takes_only_its_nearest_relay() {
    let nodes = [
        limited(1, PowerRole::Consumer, 1, [0, 0]),
        limited(2, PowerRole::Relay, 10, [4, 0]),
        limited(3, PowerRole::Relay, 10, [0, 5]),
    ];
    let links = [candidate(&nodes, 2, 0, true), candidate(&nodes, 1, 0, true), candidate(&nodes, 1, 2, true)];
    let topology = rebuild_components(&nodes, &[], &links);
    assert_eq!(topology.link_order, vec![1, 0, 2]);
    assert_eq!(topology.connected, vec![false, true, true]);
    assert_eq!(topology.networks, vec![vec![0, 1, 2]]);
}

#[test]
fn pylon_connections_are_limited_to_ten_nearest_nodes() {
    let mut nodes = vec![limited(1, PowerRole::Relay, deep_tek::PYLON_CONNECTION_LIMIT, [61, 20])];
    for (offset, x) in [8i64, 11, 14, 17, 20, 23, 34, 37, 40, 43, 46].into_iter().enumerate() {
        nodes.push(limited(10 + offset as u64, PowerRole::Generator, 1, [2 * x + 2, 20]));
    }
    let links: Vec<CandidateLink> = (1..nodes.len()).map(|other| candidate(&nodes, 0, other, true)).collect();
    let topology = rebuild_components(&nodes, &[], &links);
    let pylon_connections = topology.connected.iter().filter(|made| **made).count();
    assert_eq!(links.len(), 11);
    assert_eq!(pylon_connections, deep_tek::PYLON_CONNECTION_LIMIT);
    assert!(!topology.connected[0]);
    assert_eq!(topology.networks.len(), 1);
    assert_eq!(topology.networks[0].len(), 11);
}

#[test]
fn a_cable_is_powered_when_one_of_its_anchors_is_powered() {
    let (mut world, solar, pylon, bore) = basic_grid();
    assert!(world.set_furniture_active(bore, true));
    let nodes = [
        node(solar, PowerRole::Generator, 12_000, 0),
        node(pylon, PowerRole::Relay, 0, 0),
        node(bore, PowerRole::Consumer, 8_000, 0),
    ];
    let networks = vec![vec![0, 1, 2]];
    let lit_cable = ObjectId::new(900);
    let dark_cable = ObjectId::new(901);
    let cables = [(lit_cable, None, Some(pylon)), (dark_cable, Some(ObjectId::new(902)), None)];
    let (_, powered) = distribute_networks(&mut world, &nodes, &networks, &cables, true, 1_000_000_000);
    assert_eq!(powered, vec![solar, pylon, bore, lit_cable]);
}

#[test]
fn power_nodes_follow_the_placed_furniture() {
    let (world, solar, pylon, bore) = basic_grid();
    let nodes = deep_tek::power_nodes(&world);
    assert_eq!(nodes.len(), 3);
    assert_eq!(nodes[0].object, solar);
    assert_eq!(nodes[0].role, PowerRole::Generator);
    assert_eq!(nodes[0].rate_milli_per_second, 12_000);
    assert_eq!(nodes[1].object, pylon);
    assert_eq!(nodes[1].role, PowerRole::Relay);
    assert_eq!(nodes[1].connection_limit, 10);
    assert_eq!(nodes[2].object, bore);
    assert_eq!(nodes[2].role, PowerRole::Consumer);
    let size = world.object(pylon).unwrap().size();
    assert_eq!(nodes[1].socket, [16 + i64::from(size[0]), 21]);
}

#[test]
fn candidate_pairs_join_relays_to_nodes_in_reach_in_object_order() {
    let (mut world, _, _, _) = basic_grid();
    world.place_furniture(FurnitureObject::PYLON, TilePos::new(60, 10)).unwrap();
    let nodes = deep_tek::power_nodes(&world);
    let pairs = deep_tek::candidate_pairs(&world, &nodes);
    assert_eq!(pairs, vec![(1, 0), (1, 2)]);
    let links = deep_tek::candidate_links(&nodes, &pairs, &[true, false]);
    assert_eq!(links.len(), 2);
    assert_eq!(links[0].nodes, [1, 0]);
    assert_eq!(links[0].endpoints, [nodes[0].object, nodes[1].object]);
    assert!(links[0].visible);
    assert!(!links[1].visible);
}
