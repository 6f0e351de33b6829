use std::collections::HashMap;

use osm_router::dijkstra::{run_dijsktra, Entry};
use osm_router::network::{Arc, Network, NetworkBuilder, Node, OSMNodeId};

fn insert_both(b: &mut NetworkBuilder, from: u64, to: u64, cost: u64, way: u64) {
    b.insert_arc(
        from,
        Arc { head_node: to, distance: cost, cost, part_of_way: way },
    );
    b.insert_arc(
        to,
        Arc { head_node: from, distance: cost, cost, part_of_way: way },
    );
}

fn make_dummy_network() -> Network {
    let mut b = NetworkBuilder::new();
    for id in [91u64, 92, 93, 94, 95] {
        b.insert_node(Node { id, latitude: 0, longitude: 0 });
    }
    insert_both(&mut b, 91, 94, 4, 1);
    insert_both(&mut b, 91, 92, 5, 1);
    insert_both(&mut b, 91, 93, 2, 1);
    insert_both(&mut b, 92, 93, 4, 1);
    insert_both(&mut b, 92, 95, 8, 1);
    insert_both(&mut b, 93, 95, 2, 1);
    insert_both(&mut b, 93, 94, 3, 1);
    b.build_network().unwrap()
}

fn do_disjktra(network: &Network, source: OSMNodeId, destination: OSMNodeId, expected_cost: u64) {
    let maybe_entry = run_dijsktra(source, destination, network, 0, true);
    assert!(maybe_entry.is_some());
    let entry = maybe_entry.unwrap();
    assert_eq!(expected_cost, entry.cost);
}

#[test]
fn test_best_cost() {
    assert_eq!(
        true,
        osm_router::dijkstra::is_best_cost(
            &Entry { node: 1, cost: 10, arc_name: None, prev_entry: None },
            &HashMap::new()
        )
    );

    let mut best_costs = HashMap::new();
    best_costs.insert(1, 9);

    assert_eq!(
        true,
        osm_router::dijkstra::is_best_cost(
            &Entry { node: 1, cost: 8, arc_name: None, prev_entry: None },
            &best_costs
        )
    );
    assert_eq!(
        false,
        osm_router::dijkstra::is_best_cost(
            &Entry { node: 1, cost: 11, arc_name: None, prev_entry: None },
            &best_costs
        )
    );
}

#[test]
fn test_dijsktra() {
    let dummy_network = make_dummy_network();

    do_disjktra(&dummy_network, 94, 92, 7);
    do_disjktra(&dummy_network, 91, 94, 4);
    do_disjktra(&dummy_network, 91, 93, 2);
    do_disjktra(&dummy_network, 91, 95, 4);
    do_disjktra(&dummy_network, 92, 95, 6);
    do_disjktra(&dummy_network, 95, 94, 5);
}

#[test]
fn best_cost_rejects_equal_cost() {
    let mut best_costs = HashMap::new();
    best_costs.insert(7usize, 10u64);
    let same = Entry { node: 7, cost: 10, arc_name: None, prev_entry: None };
    assert!(!osm_router::dijkstra::is_best_cost(&same, &best_costs));
}

#[test]
fn run_dijsktra_unknown_endpoint_is_none() {
    let net = make_dummy_network();
    assert!(run_dijsktra(91, 404, &net, 0, false).is_none());
    assert!(run_dijsktra(404, 91, &net, 0, false).is_none());
}

#[test]
fn run_dijsktra_without_trace_has_no_chain() {
    let net = make_dummy_network();
    let entry = run_dijsktra(94, 92, &net, 0, false).unwrap();
    assert_eq!(7, entry.cost);
    assert!(entry.arc_name.is_none());
    assert!(entry.prev_entry.is_none());
}

#[test]
fn repeated_runs_agree() {
    let net = make_dummy_network();
    for _ in 0..3 {
        let a = run_dijsktra(94, 92, &net, 0, true).unwrap();
        let b = run_dijsktra(94, 92, &net, 0, true).unwrap();
        assert_eq!(a.cost, b.cost);
        assert_eq!(a.node, b.node);
        assert_eq!(a.report_traversed_ways(), b.report_traversed_ways());
    }
}
