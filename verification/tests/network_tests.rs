use osm_router::network::{Arc, Node, NetworkBuilder, WayInfo};
use osm_router::osm::{calculate_cost, create_arcs};
use osm_router::utils::bytes_to_string;

fn zero_node(id: u64) -> Node {
    Node { id, latitude: 0, longitude: 0 }
}

fn both_ways(b: &mut NetworkBuilder, from: u64, to: u64, cost: u64, way: u64) {
    b.insert_arc(
        from,
        Arc { head_node: to, distance: cost, cost, part_of_way: way },
    );
    b.insert_arc(
        to,
        Arc { head_node: from, distance: cost, cost, part_of_way: way },
    );
}

#[test]
fn build_network() {
    let mut builder = NetworkBuilder::new();
    for id in 1u64..=7 {
        builder.insert_node(zero_node(id));
    }
    for (id, name) in [
        (12u64, "1->2"),
        (13, "1->3"),
        (14, "1->4"),
        (21, "2->1"),
        (23, "2->3"),
        (31, "3->1"),
        (32, "3->2"),
        (34, "3->4"),
        (35, "3->5"),
        (41, "4->1"),
        (43, "4->3"),
        (51, "5->1"),
        (53, "5->3"),
    ] {
        builder.insert_way_info(WayInfo { id, name: Some(name.to_string()) });
    }
    for (from, to, cost, way) in [
        (1u64, 4u64, 4u64, 14u64),
        (1, 2, 5, 12),
        (1, 3, 2, 13),
        (2, 1, 5, 21),
        (2, 3, 4, 23),
        (2, 5, 8, 25),
        (3, 1, 2, 31),
        (3, 2, 4, 32),
        (3, 5, 2, 35),
        (3, 4, 3, 34),
        (4, 1, 4, 41),
        (4, 3, 3, 43),
        (5, 2, 8, 51),
        (5, 3, 2, 53),
    ] {
        builder.insert_arc(
            from,
            Arc { head_node: to, distance: cost, cost, part_of_way: way },
        );
    }

    let total = builder.total_arcs();
    let network = builder.build_network().unwrap();

    assert_eq!(5, network.node_count());
    assert_eq!(total, network.arc_count());

    let node = network.get_node(&5);
    assert!(node.is_some());
    assert_eq!(5, node.unwrap().id);
}

#[test]
fn fresh_builder_is_empty() {
    let b = NetworkBuilder::new();
    assert_eq!(0, b.total_arcs());
    assert!(b.get_node(&1).is_none());
}

#[test]
fn insert_arc_raises_total_by_one() {
    let mut b = NetworkBuilder::new();
    b.insert_node(zero_node(1));
    b.insert_node(zero_node(2));
    assert_eq!(0, b.total_arcs());
    b.insert_arc(
        1,
        Arc { head_node: 2, distance: 3, cost: 3, part_of_way: 77 },
    );
    assert_eq!(1, b.total_arcs());
    b.insert_node(zero_node(9));
    b.insert_way_info(WayInfo { id: 77, name: None });
    assert_eq!(1, b.total_arcs());
}

#[test]
fn insert_node_overwrites_by_id() {
    let mut b = NetworkBuilder::new();
    b.insert_node(Node { id: 9, latitude: 1, longitude: 2 });
    b.insert_node(Node { id: 9, latitude: 30, longitude: 40 });
    let n = b.get_node(&9).unwrap();
    assert_eq!(30, n.latitude);
    assert_eq!(40, n.longitude);
    assert!(b.get_node(&8).is_none());
}

#[test]
fn total_arcs_counts_parallel_arcs() {
    let mut b = NetworkBuilder::new();
    b.insert_node(zero_node(1));
    b.insert_node(zero_node(2));
    let arc = Arc { head_node: 2u64, distance: 3, cost: 3, part_of_way: 77 };
    b.insert_arc(1, arc);
    b.insert_arc(1, arc);
    assert_eq!(2, b.total_arcs());
}

#[test]
fn build_fails_on_missing_arc_endpoint() {
    let mut b = NetworkBuilder::new();
    b.insert_node(zero_node(1));
    b.insert_arc(
        1,
        Arc { head_node: 2, distance: 1, cost: 1, part_of_way: 5 },
    );
    assert!(b.build_network().is_none());
}

#[test]
fn build_drops_isolated_nodes() {
    let mut b = NetworkBuilder::new();
    b.insert_node(zero_node(1));
    b.insert_node(zero_node(2));
    b.insert_node(zero_node(3));
    both_ways(&mut b, 1, 2, 4, 10);
    let net = b.build_network().unwrap();
    assert_eq!(2, net.node_count());
    assert!(net.get_node(&1).is_some());
    assert!(net.get_node(&2).is_some());
    assert!(net.get_node(&3).is_none());
}

#[test]
fn compacted_nodes_round_trip() {
    let mut b = NetworkBuilder::new();
    b.insert_node(Node { id: 21, latitude: 515074000, longitude: -1278000 });
    b.insert_node(Node { id: 22, latitude: 515080000, longitude: -1280000 });
    both_ways(&mut b, 21, 22, 9, 3);
    let net = b.build_network().unwrap();
    let n = net.get_node(&21).unwrap();
    assert_eq!(21, n.id);
    assert_eq!(515074000, n.latitude);
    assert_eq!(-1278000, n.longitude);
}

#[test]
fn forward_arcs_keep_costs_and_ways() {
    let mut b = NetworkBuilder::new();
    b.insert_node(zero_node(1));
    b.insert_node(zero_node(2));
    b.insert_way_info(WayInfo { id: 7, name: Some("High Street".to_string()) });
    b.insert_arc(
        1,
        Arc { head_node: 2, distance: 15, cost: 15, part_of_way: 7 },
    );
    b.insert_arc(
        2,
        Arc { head_node: 1, distance: 15, cost: 15, part_of_way: 7 },
    );
    let net = b.build_network().unwrap();
    let arcs = net.fwd_arcs_from_node(&1).unwrap();
    assert_eq!(1, arcs.len());
    assert_eq!(15, arcs[0].cost);
    assert_eq!(15, arcs[0].distance);
    assert_eq!(7, arcs[0].part_of_way);
    let way = net.get_way_info(&arcs[0]).unwrap();
    assert_eq!(Some("High Street".to_string()), way.name);
    assert!(net.fwd_arcs_from_node(&99).is_none());
    assert_eq!(Some(0), net.node_index(&1));
    assert_eq!(None, net.node_index(&99));
}

#[test]
fn create_arcs_two_way() {
    let mut b = NetworkBuilder::new();
    for id in [1u64, 2, 3] {
        b.insert_node(zero_node(id));
    }
    let way_nodes = vec![1u64, 2, 3];
    let distances = vec![5u64, 7];
    let arcs = create_arcs(&b, &way_nodes, &distances, false, 99);
    assert_eq!(4, arcs.len());
    assert_eq!((1, 2, 5), (arcs[0].0, arcs[0].1.head_node, arcs[0].1.cost));
    assert_eq!((2, 1, 5), (arcs[1].0, arcs[1].1.head_node, arcs[1].1.cost));
    assert_eq!((2, 3, 7), (arcs[2].0, arcs[2].1.head_node, arcs[2].1.cost));
    assert_eq!((3, 2, 7), (arcs[3].0, arcs[3].1.head_node, arcs[3].1.cost));
    assert_eq!(99, arcs[0].1.part_of_way);
    assert_eq!(5, arcs[0].1.distance);
}

#[test]
fn create_arcs_oneway() {
    let mut b = NetworkBuilder::new();
    for id in [1u64, 2, 3] {
        b.insert_node(zero_node(id));
    }
    let way_nodes = vec![1u64, 2, 3];
    let distances = vec![5u64, 7];
    let arcs = create_arcs(&b, &way_nodes, &distances, true, 99);
    assert_eq!(2, arcs.len());
    assert_eq!((1, 2, 5), (arcs[0].0, arcs[0].1.head_node, arcs[0].1.cost));
    assert_eq!((2, 3, 7), (arcs[1].0, arcs[1].1.head_node, arcs[1].1.cost));
}

#[test]
fn create_arcs_skips_unknown_nodes() {
    let mut b = NetworkBuilder::new();
    b.insert_node(zero_node(1));
    b.insert_node(zero_node(3));
    let way_nodes = vec![1u64, 9, 3];
    let distances = vec![5u64, 7];
    let arcs = create_arcs(&b, &way_nodes, &distances, false, 99);
    assert_eq!(0, arcs.len());
}

#[test]
fn cost_is_distance() {
    assert_eq!(0, calculate_cost(0));
    assert_eq!(1500, calculate_cost(1500));
}

#[test]
fn bytes_decode_as_utf8() {
    assert_eq!(Some("Chestnut Close".to_string()), bytes_to_string(b"Chestnut Close"));
    assert_eq!(None, bytes_to_string(&[0xffu8, 0xfe]));
}
