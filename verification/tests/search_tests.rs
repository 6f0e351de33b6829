use osm_router::dijkstra::{search, SearchResult};
use osm_router::network::{Arc, Network, NetworkBuilder, Node, WayInfo};

fn zero_node(id: u64) -> Node {
    Node { id, latitude: 0, longitude: 0 }
}

fn both_ways(b: &mut NetworkBuilder, from: u64, to: u64, cost: u64, way: u64) {
    b.insert_arc(
        from,
        Arc { head_node: to, distance: cost, cost, part_of_way: way },
    );
    b.insert_arc(
        to,
        Arc { head_node: from, distance: cost, cost, part_of_way: way },
    );
}

/// The five-node graph: arcs 1-4 cost 4, 1-2 cost 5, 1-3 cost 2,
/// 2-3 cost 4, 2-5 cost 8, 3-5 cost 2, 3-4 cost 3, all two-way.
fn five_node_network() -> Network {
    let mut b = NetworkBuilder::new();
    for id in 1u64..=5 {
        b.insert_node(zero_node(id));
    }
    both_ways(&mut b, 1, 4, 4, 1);
    both_ways(&mut b, 1, 2, 5, 1);
    both_ways(&mut b, 1, 3, 2, 1);
    both_ways(&mut b, 2, 3, 4, 1);
    both_ways(&mut b, 2, 5, 8, 1);
    both_ways(&mut b, 3, 5, 2, 1);
    both_ways(&mut b, 3, 4, 3, 1);
    b.build_network().unwrap()
}

fn found_cost(r: SearchResult) -> u64 {
    match r {
        SearchResult::Found(e) => e.cost,
        _ => panic!("expected a found path"),
    }
}

#[test]
fn five_node_shortest_costs() {
    let net = five_node_network();
    assert_eq!(7, found_cost(search(4, 2, &net, 0, false)));
    assert_eq!(4, found_cost(search(1, 4, &net, 0, false)));
    assert_eq!(2, found_cost(search(1, 3, &net, 0, false)));
    assert_eq!(4, found_cost(search(1, 5, &net, 0, false)));
    assert_eq!(6, found_cost(search(2, 5, &net, 0, false)));
    assert_eq!(5, found_cost(search(5, 4, &net, 0, false)));
}

#[test]
fn source_equals_target_costs_nothing() {
    let net = five_node_network();
    match search(3, 3, &net, 0, true) {
        SearchResult::Found(e) => {
            assert_eq!(0, e.cost);
            assert_eq!("", e.report_traversed_ways());
        },
        _ => panic!("expected a found path"),
    }
}

#[test]
fn invalid_endpoint_is_distinguished() {
    let net = five_node_network();
    assert!(matches!(search(1, 999, &net, 0, false), SearchResult::InvalidEndpoint));
    assert!(matches!(search(999, 1, &net, 0, false), SearchResult::InvalidEndpoint));
    assert!(matches!(search(998, 999, &net, 0, false), SearchResult::InvalidEndpoint));
}

#[test]
fn unreachable_target_reports_no_path() {
    let mut b = NetworkBuilder::new();
    for id in [1u64, 2, 3] {
        b.insert_node(zero_node(id));
    }
    // One-way arcs only: 1 -> 2 and 3 -> 1, so nothing reaches 3.
    b.insert_arc(
        1,
        Arc { head_node: 2, distance: 4, cost: 4, part_of_way: 1 },
    );
    b.insert_arc(
        3,
        Arc { head_node: 1, distance: 4, cost: 4, part_of_way: 1 },
    );
    let net = b.build_network().unwrap();
    assert!(matches!(search(1, 3, &net, 0, false), SearchResult::NoPath));
    assert_eq!(8, found_cost(search(3, 2, &net, 0, false)));
}

#[test]
fn max_cost_bound_is_respected() {
    let net = five_node_network();
    // True shortest 4 -> 2 is 7.
    assert!(matches!(search(4, 2, &net, 6, false), SearchResult::NoPath));
    assert_eq!(7, found_cost(search(4, 2, &net, 7, false)));
    assert_eq!(7, found_cost(search(4, 2, &net, 100, false)));
}

#[test]
fn identical_searches_return_identical_results() {
    let net = five_node_network();
    let first = search(4, 2, &net, 0, true);
    let second = search(4, 2, &net, 0, true);
    match (first, second) {
        (SearchResult::Found(a), SearchResult::Found(b)) => {
            assert_eq!(a.cost, b.cost);
            assert_eq!(a.node, b.node);
            assert_eq!(a.report_traversed_ways(), b.report_traversed_ways());
        },
        _ => panic!("expected found paths"),
    }
}

#[test]
fn trace_collapses_consecutive_same_way() {
    let mut b = NetworkBuilder::new();
    for id in [1u64, 2, 3, 4] {
        b.insert_node(zero_node(id));
    }
    b.insert_way_info(WayInfo { id: 10, name: Some("Alpha Road".to_string()) });
    b.insert_way_info(WayInfo { id: 20, name: Some("Beta Lane".to_string()) });
    b.insert_arc(
        1,
        Arc { head_node: 2, distance: 1, cost: 1, part_of_way: 10 },
    );
    b.insert_arc(
        2,
        Arc { head_node: 3, distance: 1, cost: 1, part_of_way: 10 },
    );
    b.insert_arc(
        3,
        Arc { head_node: 4, distance: 1, cost: 1, part_of_way: 20 },
    );
    let net = b.build_network().unwrap();
    match search(1, 4, &net, 0, true) {
        SearchResult::Found(e) => {
            assert_eq!(3, e.cost);
            assert_eq!("Alpha Road->Beta Lane", e.report_traversed_ways());
        },
        _ => panic!("expected a found path"),
    }
}

#[test]
fn trace_reports_unknown_for_unnamed_ways() {
    let mut b = NetworkBuilder::new();
    for id in [1u64, 2, 3] {
        b.insert_node(zero_node(id));
    }
    b.insert_way_info(WayInfo { id: 20, name: Some("Beta Lane".to_string()) });
    // Way 10 has no registered metadata at all.
    b.insert_arc(
        1,
        Arc { head_node: 2, distance: 1, cost: 1, part_of_way: 10 },
    );
    b.insert_arc(
        2,
        Arc { head_node: 3, distance: 1, cost: 1, part_of_way: 20 },
    );
    let net = b.build_network().unwrap();
    match search(1, 3, &net, 0, true) {
        SearchResult::Found(e) => {
            assert_eq!("unknown->Beta Lane", e.report_traversed_ways());
        },
        _ => panic!("expected a found path"),
    }
}

#[test]
fn parallel_arcs_take_the_cheaper() {
    let mut b = NetworkBuilder::new();
    b.insert_node(zero_node(1));
    b.insert_node(zero_node(2));
    b.insert_arc(
        1,
        Arc { head_node: 2, distance: 9, cost: 9, part_of_way: 1 },
    );
    b.insert_arc(
        1,
        Arc { head_node: 2, distance: 3, cost: 3, part_of_way: 2 },
    );
    let net = b.build_network().unwrap();
    assert_eq!(2, net.arc_count());
    assert_eq!(3, found_cost(search(1, 2, &net, 0, false)));
}
