//! Queries against a small built network: a four-node residential road
//! (its nodes joined by two-way arcs), one sampled node with fixed-point
//! coordinates, and one node that belongs to no road at all.

use osm_router::network::{Arc, Network, NetworkBuilder, Node, OSMNodeId, WayInfo};

const SAMPLED_NODE: OSMNodeId = 488432;
const ROAD_WAY: u64 = 3753821;
const LANDUSE_BOUNDARY_START: OSMNodeId = 19549583;

fn both_ways(b: &mut NetworkBuilder, from: u64, to: u64, cost: u64, way: u64) {
    b.insert_arc(
        from,
        Arc { head_node: to, distance: cost, cost, part_of_way: way },
    );
    b.insert_arc(
        to,
        Arc { head_node: from, distance: cost, cost, part_of_way: way },
    );
}

/// A road of four consecutive nodes, the sampled node joined at its start,
/// and one node that no arc touches.
fn small_graph() -> Network {
    let mut b = NetworkBuilder::new();
    b.insert_node(Node { id: SAMPLED_NODE, latitude: 526555853, longitude: -5134241 });
    for id in [18328098u64, 18328116, 18328115, 18328114] {
        b.insert_node(Node { id, latitude: 526000000, longitude: -5100000 });
    }
    b.insert_node(Node { id: LANDUSE_BOUNDARY_START, latitude: 0, longitude: 0 });
    b.insert_way_info(WayInfo { id: ROAD_WAY, name: Some("Chestnut Close".to_string()) });
    both_ways(&mut b, 18328098, 18328116, 30, ROAD_WAY);
    both_ways(&mut b, 18328116, 18328115, 25, ROAD_WAY);
    both_ways(&mut b, 18328115, 18328114, 40, ROAD_WAY);
    both_ways(&mut b, SAMPLED_NODE, 18328098, 10, ROAD_WAY);
    b.build_network().unwrap()
}

#[test]
fn sample_node() {
    let graph = small_graph();

    let node = graph.get_node(&SAMPLED_NODE);
    assert!(node.is_some());
    assert_eq!(526555853, node.unwrap().latitude);
    assert_eq!(-5134241, node.unwrap().longitude);
}

#[test]
fn total_nodes() {
    let graph = small_graph();
    // The landuse-boundary node is touched by no arc, so it is dropped.
    assert_eq!(5, graph.node_count());
}

#[test]
fn total_arcs() {
    let graph = small_graph();
    assert_eq!(8, graph.arc_count());
}

#[test]
fn not_a_highway() {
    let graph = small_graph();
    assert!(graph.fwd_arcs_from_node(&LANDUSE_BOUNDARY_START).is_none());
}
