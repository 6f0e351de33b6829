//! Turning a way's ordered node list into directed arcs.
//!
//! A way with `n` nodes yields one arc per consecutive pair, all tagged with
//! the way's id, and the reverse arcs as well unless the way is one-way.
//! Pairs whose endpoints were never inserted as nodes are skipped. The
//! distance of each pair is supplied by the caller, which owns the geodesic
//! distance computation; today an arc's cost is exactly its distance.

use crate::network::{Arc, NetworkBuilder, OSMNodeId, OSMWayId};
use vstd::prelude::*;

verus! {

/// The arc an index `i` pair contributes in the forward direction.
pub open spec fn forward_arc_at(
    ids: Seq<u64>,
    dists: Seq<u64>,
    way: u64,
    i: int,
) -> (u64, Arc<u64>) {
    (
        ids[i],
        Arc { head_node: ids[i + 1], distance: dists[i], cost: dists[i], part_of_way: way },
    )
}

/// The arc an index `i` pair contributes in the reverse direction.
pub open spec fn reverse_arc_at(
    ids: Seq<u64>,
    dists: Seq<u64>,
    way: u64,
    i: int,
) -> (u64, Arc<u64>) {
    (
        ids[i + 1],
        Arc { head_node: ids[i], distance: dists[i], cost: dists[i], part_of_way: way },
    )
}

/// All arcs a way's node list yields, walked pair by pair from the front:
/// both endpoints must be inserted nodes, the reverse arc joins unless the
/// way is one-way.
pub open spec fn arcs_for_way(
    b: NetworkBuilder,
    ids: Seq<u64>,
    dists: Seq<u64>,
    oneway: bool,
    way: u64,
) -> Seq<(u64, Arc<u64>)>
    decreases ids.len(),
{
    if ids.len() < 2 {
        Seq::empty()
    } else {
        let rest = arcs_for_way(b, ids.drop_first(), dists.drop_first(), oneway, way);
        if b.nodes().contains_key(ids[0]) && b.nodes().contains_key(ids[1]) {
            if oneway {
                seq![forward_arc_at(ids, dists, way, 0)] + rest
            } else {
                seq![forward_arc_at(ids, dists, way, 0), reverse_arc_at(ids, dists, way, 0)] + rest
            }
        } else {
            rest
        }
    }
}

/// Distance-to-cost conversion: today the identity, distance in metres.
pub fn calculate_cost(distance: u64) -> (c: u64)
    ensures
        c == distance,
{
    distance
}

/// Builds the `(source id, arc)` pairs a way contributes, given the node
/// list of the way and the distance of each consecutive pair.
pub fn create_arcs(
    partial_network: &NetworkBuilder,
    way_nodes: &Vec<OSMNodeId>,
    distances: &Vec<u64>,
    is_oneway: bool,
    way_id: OSMWayId,
) -> (arcs: Vec<(OSMNodeId, Arc<OSMNodeId>)>)
    requires
        partial_network.wf(),
        way_nodes@.len() >= 2 ==> distances@.len() >= way_nodes@.len() - 1,
    ensures
        arcs@ == arcs_for_way(*partial_network, way_nodes@, distances@, is_oneway, way_id),
{
    let mut arcs: Vec<(OSMNodeId, Arc<OSMNodeId>)> = Vec::new();
    if way_nodes.len() < 2 {
        return arcs;
    }
    let n = way_nodes.len();
    let mut i: usize = 0;
    proof {
        assert(way_nodes@.skip(0) =~= way_nodes@);
        assert(distances@.skip(0) =~= distances@);
        assert(arcs@ + arcs_for_way(*partial_network, way_nodes@, distances@, is_oneway, way_id)
            =~= arcs_for_way(*partial_network, way_nodes@, distances@, is_oneway, way_id));
    }
    while i + 1 < n
        invariant
            partial_network.wf(),
            n == way_nodes@.len(),
            n >= 2,
            distances@.len() >= n - 1,
            0 <= i < n,
            arcs@ + arcs_for_way(
                *partial_network,
                way_nodes@.skip(i as int),
                distances@.skip(i as int),
                is_oneway,
                way_id,
            ) == arcs_for_way(*partial_network, way_nodes@, distances@, is_oneway, way_id),
        decreases n - i,
    {
        let ghost ids_i = way_nodes@.skip(i as int);
        let ghost dists_i = distances@.skip(i as int);
        proof {
            assert(ids_i.len() >= 2);
            assert(ids_i[0] == way_nodes@[i as int]);
            assert(ids_i[1] == way_nodes@[i + 1]);
            assert(dists_i[0] == distances@[i as int]);
            assert(ids_i.drop_first() =~= way_nodes@.skip(i + 1));
            assert(dists_i.drop_first() =~= distances@.skip(i + 1));
        }
        let from = partial_network.get_node(&way_nodes[i]);
        let to = partial_network.get_node(&way_nodes[i + 1]);
        match (from, to) {
            (Some(f), Some(t)) => {
                let dist = distances[i];
                let cost = calculate_cost(dist);
                let fwd = (
                    f.id,
                    Arc { head_node: t.id, cost: cost, distance: dist, part_of_way: way_id },
                );
                proof {
                    assert(f.id == way_nodes@[i as int]);
                    assert(t.id == way_nodes@[i + 1]);
                }
                arcs.push(fwd);
                if !is_oneway {
                    let rev = (
                        t.id,
                        Arc { head_node: f.id, cost: cost, distance: dist, part_of_way: way_id },
                    );
                    arcs.push(rev);
                    proof {
                        assert(seq![
                            forward_arc_at(ids_i, dists_i, way_id, 0),
                            reverse_arc_at(ids_i, dists_i, way_id, 0),
                        ] + arcs_for_way(
                            *partial_network,
                            ids_i.drop_first(),
                            dists_i.drop_first(),
                            is_oneway,
                            way_id,
                        ) =~= arcs_for_way(*partial_network, ids_i, dists_i, is_oneway, way_id));
                        assert(arcs@ + arcs_for_way(
                            *partial_network,
                            way_nodes@.skip(i + 1),
                            distances@.skip(i + 1),
                            is_oneway,
                            way_id,
                        ) =~= arcs_for_way(
                            *partial_network,
                            way_nodes@,
                            distances@,
                            is_oneway,
                            way_id,
                        ));
                    }
                } else {
                    proof {
                        assert(seq![forward_arc_at(ids_i, dists_i, way_id, 0)] + arcs_for_way(
                            *partial_network,
                            ids_i.drop_first(),
                            dists_i.drop_first(),
                            is_oneway,
                            way_id,
                        ) =~= arcs_for_way(*partial_network, ids_i, dists_i, is_oneway, way_id));
                        assert(arcs@ + arcs_for_way(
                            *partial_network,
                            way_nodes@.skip(i + 1),
                            distances@.skip(i + 1),
                            is_oneway,
                            way_id,
                        ) =~= arcs_for_way(
                            *partial_network,
                            way_nodes@,
                            distances@,
                            is_oneway,
                            way_id,
                        ));
                    }
                }
            },
            _ => {
                proof {
                    assert(!(partial_network.nodes().contains_key(ids_i[0])
                        && partial_network.nodes().contains_key(ids_i[1])));
                    assert(arcs_for_way(*partial_network, ids_i, dists_i, is_oneway, way_id)
                        == arcs_for_way(
                        *partial_network,
                        ids_i.drop_first(),
                        dists_i.drop_first(),
                        is_oneway,
                        way_id,
                    ));
                }
            },
        }
        i += 1;
    }
    proof {
        assert(way_nodes@.skip(i as int).len() < 2);
        assert(arcs_for_way(
            *partial_network,
            way_nodes@.skip(i as int),
            distances@.skip(i as int),
            is_oneway,
            way_id,
        ) =~= Seq::<(u64, Arc<u64>)>::empty());
        assert(arcs@ =~= arcs@ + Seq::<(u64, Arc<u64>)>::empty());
    }
    arcs
}

} // verus!
