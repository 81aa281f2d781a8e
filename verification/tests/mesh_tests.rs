use noc_sim::links::{connection_link_list, count_link_usage, parse_tile_kind, Connection, TileKind};
use noc_sim::mesh::{route, route_address, route_links, split_address, tile_address, Link, Port, Side};
use noc_sim::ports::{parse_port_key, Flow, PortEntry, RouterPorts};
use noc_sim::tiles::{tile_destinations, tile_role, TileError, TileRole, NO_CONNECTION};
use noc_sim::wiring::{port_link, Wiring, WiringError};

fn hop(x: usize, y: usize, side: Side, tx: usize, ty: usize, tside: Side) -> Link {
    Link { from_x: x, from_y: y, from_side: side, to_x: tx, to_y: ty, to_side: tside }
}

fn from_tile(x: usize, y: usize) -> Link {
    hop(x, y, Side::FromLocal, x, y, Side::FromLocal)
}

fn to_tile(x: usize, y: usize) -> Link {
    hop(x, y, Side::ToLocal, x, y, Side::ToLocal)
}

fn conn(from: (usize, usize), to: (usize, usize)) -> Connection {
    Connection { from_kind: TileKind::Pcu, from_x: from.0, from_y: from.1, to_kind: TileKind::Pmu, to_x: to.0, to_y: to.1 }
}

#[test]
fn ports_are_numbered_in_scan_order() {
    let all = [Port::North, Port::South, Port::East, Port::West, Port::Local];
    for (i, p) in all.iter().enumerate() {
        assert_eq!(p.index(), i);
        assert_eq!(Port::at(i), Some(*p));
    }
    assert_eq!(Port::at(5), None);
}

#[test]
fn addresses_round_trip() {
    assert_eq!(tile_address(2, 1, 3), 7);
    assert_eq!(split_address(7, 3), (2, 1));
    for x in 0..4 {
        for y in 0..5 {
            assert_eq!(split_address(tile_address(x, y, 5), 5), (x, y));
        }
    }
}

#[test]
fn routing_goes_rows_first_unless_in_row() {
    assert_eq!(route(1, 1, 1, 1), Port::Local);
    assert_eq!(route(1, 0, 1, 1), Port::West);
    assert_eq!(route(1, 2, 1, 1), Port::East);
    assert_eq!(route(0, 0, 1, 1), Port::North);
    assert_eq!(route(0, 1, 1, 1), Port::North);
    assert_eq!(route(0, 2, 1, 1), Port::North);
    assert_eq!(route(2, 0, 1, 1), Port::South);
    assert_eq!(route(2, 1, 1, 1), Port::South);
    assert_eq!(route(2, 2, 1, 1), Port::South);
    assert_eq!(route_address(5, 3, 1, 1), Port::East);
    assert_eq!(route_address(0, 3, 1, 1), Port::North);
}

#[test]
fn route_links_follow_the_route() {
    assert_eq!(
        route_links(0, 0, 2, 1),
        vec![
            hop(0, 0, Side::South, 1, 0, Side::North),
            hop(1, 0, Side::South, 2, 0, Side::North),
            hop(2, 0, Side::East, 2, 1, Side::West),
        ]
    );
    assert_eq!(
        route_links(2, 2, 0, 0),
        vec![
            hop(2, 2, Side::North, 1, 2, Side::South),
            hop(1, 2, Side::North, 0, 2, Side::South),
            hop(0, 2, Side::West, 0, 1, Side::East),
            hop(0, 1, Side::West, 0, 0, Side::East),
        ]
    );
    assert!(route_links(3, 3, 3, 3).is_empty());
    // the path is as long as the Manhattan distance
    assert_eq!(route_links(1, 4, 3, 0).len(), 6);
}

#[test]
fn connection_links_include_both_tiles() {
    let c = conn((0, 0), (0, 2));
    assert_eq!(
        connection_link_list(&c),
        vec![
            from_tile(0, 0),
            to_tile(0, 2),
            hop(0, 0, Side::East, 0, 1, Side::West),
            hop(0, 1, Side::East, 0, 2, Side::West),
        ]
    );
}

#[test]
fn link_usage_counts_connections() {
    let conns = vec![conn((0, 0), (0, 2)), conn((0, 1), (0, 2))];
    let usage = count_link_usage(&conns);
    assert_eq!(usage.count(&hop(0, 1, Side::East, 0, 2, Side::West)), 2);
    assert_eq!(usage.count(&hop(0, 0, Side::East, 0, 1, Side::West)), 1);
    assert_eq!(usage.count(&to_tile(0, 2)), 2);
    assert_eq!(usage.count(&from_tile(0, 1)), 1);
    assert_eq!(usage.count(&from_tile(1, 1)), 0);
    assert_eq!(usage.lookup(&to_tile(0, 2)), Some(2));
    assert_eq!(usage.lookup(&to_tile(0, 0)), None);
    let mut used = usage.used_links();
    assert_eq!(used.len(), 5);
    used.dedup();
    assert_eq!(used.len(), 5);
}

#[test]
fn tile_kinds() {
    assert_eq!(parse_tile_kind(&"pcu".chars().collect()), TileKind::Pcu);
    assert_eq!(parse_tile_kind(&"pmu".chars().collect()), TileKind::Pmu);
    assert_eq!(parse_tile_kind(&"pcu ".chars().collect()), TileKind::Other);
    assert_eq!(parse_tile_kind(&"".chars().collect()), TileKind::Other);
}

#[test]
fn port_keys() {
    assert_eq!(parse_port_key("N_in"), Some((Port::North, Flow::In)));
    assert_eq!(parse_port_key("L_out"), Some((Port::Local, Flow::Out)));
    assert_eq!(parse_port_key("W_out"), Some((Port::West, Flow::Out)));
    assert_eq!(parse_port_key("X_in"), None);
    assert_eq!(parse_port_key("N_inn"), None);
    assert_eq!(parse_port_key("N-in"), None);
    let mut ports = RouterPorts::new();
    assert!(ports.assign("E_out", 3, 2));
    assert!(!ports.assign("bogus", 1, 1));
    assert_eq!(ports.outputs.east, Some(PortEntry { stream: 3, per_item: 2 }));
    assert_eq!(ports.inputs.east, None);
}

#[test]
fn routers_take_the_channels_of_their_links() {
    let conns = vec![conn((0, 0), (0, 2)), conn((0, 1), (0, 2))];
    let mut wiring = Wiring::new(count_link_usage(&conns));

    let ports = wiring.claim_router(0, 1, true, false).unwrap();
    assert_eq!(ports.inputs.west, Some(PortEntry { stream: 0, per_item: 1 }));
    assert_eq!(ports.inputs.local, Some(PortEntry { stream: 1, per_item: 1 }));
    assert_eq!(ports.inputs.north, None);
    assert_eq!(ports.outputs.east, Some(PortEntry { stream: 0, per_item: 2 }));
    assert_eq!(ports.outputs.local, None);

    // the channels are gone once taken
    let again = wiring.claim_router(0, 1, true, false).unwrap();
    assert_eq!(again.inputs.west, None);
    assert_eq!(again.outputs.east, None);
    assert_eq!(again.inputs.local, Some(PortEntry { stream: 0, per_item: 1 }));

    let end = wiring.claim_router(0, 2, false, true).unwrap();
    assert_eq!(end.inputs.west, Some(PortEntry { stream: 0, per_item: 2 }));
    assert_eq!(end.outputs.local, Some(PortEntry { stream: 0, per_item: 2 }));

    assert_eq!(wiring.claim_router(1, 1, true, false), Err(WiringError::NoTrafficFromTile));
    assert_eq!(wiring.claim_router(0, 0, false, true), Err(WiringError::NoTrafficToTile));
}

#[test]
fn extra_routers_have_no_tile() {
    let conns = vec![conn((0, 0), (0, 2)), conn((0, 1), (0, 2))];
    let wiring = Wiring::new(count_link_usage(&conns));
    let mut used = wiring.routers_in_use();
    used.sort();
    assert_eq!(used, vec![(0, 0), (0, 1), (0, 2)]);
    assert_eq!(wiring.extra_routers(&vec![(0, 0), (0, 2)]), vec![(0, 1)]);
    assert!(wiring.extra_routers(&vec![(0, 0), (0, 1), (0, 2)]).is_empty());
}

#[test]
fn port_links_name_neighbours() {
    assert_eq!(port_link(1, 1, Port::North, true), Some(hop(0, 1, Side::South, 1, 1, Side::North)));
    assert_eq!(port_link(1, 1, Port::North, false), Some(hop(1, 1, Side::North, 0, 1, Side::South)));
    assert_eq!(port_link(0, 0, Port::West, true), None);
    assert_eq!(port_link(0, 0, Port::Local, false), None);
}

#[test]
fn tile_roles() {
    assert_eq!(tile_role(&vec![1], &vec![NO_CONNECTION]), Ok(TileRole::Source));
    assert_eq!(tile_role(&vec![NO_CONNECTION], &vec![2]), Ok(TileRole::Sink));
    assert_eq!(tile_role(&vec![1], &vec![2]), Ok(TileRole::Relay));
    assert_eq!(tile_role(&vec![NO_CONNECTION], &vec![NO_CONNECTION]), Ok(TileRole::Source));
    assert_eq!(tile_role(&vec![1], &vec![]), Err(TileError::EmptyList));
    assert_eq!(tile_role(&vec![], &vec![2]), Err(TileError::EmptyList));
}

#[test]
fn tile_destinations_are_addresses() {
    let conns = vec![conn((0, 0), (0, 2)), conn((0, 0), (1, 1))];
    assert_eq!(tile_destinations(&conns, &vec![0, 1], TileKind::Pcu, 0, 0, 3), Ok(vec![2, 4]));
    assert_eq!(tile_destinations(&conns, &vec![1, 5], TileKind::Pcu, 0, 0, 3), Err(TileError::UnknownConnection { id: 5 }));
    assert_eq!(tile_destinations(&conns, &vec![0], TileKind::Pmu, 0, 0, 3), Err(TileError::ForeignConnection { id: 0 }));
    assert_eq!(tile_destinations(&conns, &vec![0], TileKind::Pcu, 0, 1, 3), Err(TileError::ForeignConnection { id: 0 }));
    let far = vec![conn((0, 0), (usize::MAX, 1))];
    assert_eq!(tile_destinations(&far, &vec![0], TileKind::Pcu, 0, 0, 2), Err(TileError::AddressOverflow { id: 0 }));
    assert_eq!(tile_destinations(&conns, &vec![], TileKind::Pcu, 0, 0, 3), Ok(vec![]));
}

#[test]
fn routes_arrive_and_never_repeat() {
    for (x, y, dx, dy) in [(0, 0, 3, 2), (3, 2, 0, 0), (1, 4, 1, 0), (2, 0, 0, 3)] {
        let links = route_links(x, y, dx, dy);
        let last = links.last().unwrap();
        assert_eq!((last.to_x, last.to_y), (dx, dy));
        assert_eq!((links[0].from_x, links[0].from_y), (x, y));
        for i in 0..links.len() {
            for j in 0..i {
                assert_ne!(links[i], links[j]);
            }
            if i > 0 {
                assert_eq!((links[i].from_x, links[i].from_y), (links[i - 1].to_x, links[i - 1].to_y));
            }
        }
    }
}

#[test]
fn port_tables_take_keys_of_their_direction() {
    let mut ports = RouterPorts::new();
    assert!(ports.assign_input("N_in", 2, 3));
    assert!(!ports.assign_input("N_out", 0, 1));
    assert!(!ports.assign_input("bogus", 0, 1));
    assert!(ports.assign_output("L_out", 1, 4));
    assert!(!ports.assign_output("L_in", 0, 1));
    assert_eq!(ports.inputs.north, Some(PortEntry { stream: 2, per_item: 3 }));
    assert_eq!(ports.outputs.north, None);
    assert_eq!(ports.outputs.local, Some(PortEntry { stream: 1, per_item: 4 }));
    assert_eq!(ports.inputs.local, None);
}
