//! Best-first least-cost search over a compacted `Network`.
//!
//! `search` runs classic label-correcting shortest-path search: a pool of
//! pending entries ordered by accumulated cost, a best-known-cost table, and
//! relaxation of the popped node's outgoing arcs. Its contract pins the
//! result down against a mathematical notion of path and path cost: a
//! returned cost is the true minimum, "no path" is returned exactly when no
//! path exists within the bound, and an unresolvable endpoint is reported
//! as such rather than as an unreachable one.

use crate::keyed::find_key;
use crate::network::{Arc, Network, NodeIndex, OSMNodeId};
use std::collections::HashMap;
use vstd::prelude::*;
use vstd::string::StringExecFns;

verus! {

broadcast use vstd::std_specs::hash::group_hash_axioms;

/// One search entry: a node reached at an accumulated cost, together with
/// the name of the arc's way and the entry it was reached from, when the
/// caller asked for a trace.
#[derive(Debug)]
pub struct Entry {
    pub node: NodeIndex,
    pub cost: u64,
    pub arc_name: Option<String>,
    pub prev_entry: Option<Box<Entry>>,
}

/// Number of arcs on an entry's predecessor chain.
pub open spec fn chain_len(e: Entry) -> nat
    decreases e,
{
    match e.prev_entry {
        None => 0,
        Some(p) => chain_len(*p) + 1,
    }
}

/// Number of nodes the graph indexes.
pub open spec fn graph_size(net: Network) -> int {
    net.forward_graph@.len() as int
}

/// The outgoing arcs of dense node `u`.
pub open spec fn arcs_from(net: Network, u: int) -> Seq<Arc<NodeIndex>> {
    net.forward_graph@[u]@
}

/// Arc `k` may be taken from node `u`.
pub open spec fn step_ok(net: Network, u: int, k: int) -> bool {
    0 <= u < graph_size(net) && 0 <= k < arcs_from(net, u).len()
}

/// The head reached by taking arc `k` from node `u`.
pub open spec fn step_head(net: Network, u: int, k: int) -> int {
    arcs_from(net, u)[k].head_node as int
}

/// The cost of arc `k` out of node `u`.
pub open spec fn step_cost(net: Network, u: int, k: int) -> int {
    arcs_from(net, u)[k].cost as int
}

/// `ks` lists arc positions forming a directed path from `u` to `v`.
pub open spec fn is_path(net: Network, u: int, ks: Seq<int>, v: int) -> bool
    decreases ks.len(),
{
    if ks.len() == 0 {
        u == v
    } else {
        step_ok(net, u, ks[0]) && is_path(net, step_head(net, u, ks[0]), ks.drop_first(), v)
    }
}

/// Total cost of the path `ks` taken from `u`.
pub open spec fn path_cost(net: Network, u: int, ks: Seq<int>) -> int
    decreases ks.len(),
{
    if ks.len() == 0 {
        0
    } else {
        step_cost(net, u, ks[0]) + path_cost(net, step_head(net, u, ks[0]), ks.drop_first())
    }
}

/// Some path from `s` reaches `v` at cost exactly `c`.
pub open spec fn has_path_cost(net: Network, s: int, v: int, c: int) -> bool {
    exists|ks: Seq<int>| is_path(net, s, ks, v) && path_cost(net, s, ks) == c
}

/// `c` is the least cost of any path from `s` to `t`.
pub open spec fn min_cost_is(net: Network, s: int, t: int, c: int) -> bool {
    &&& has_path_cost(net, s, t, c)
    &&& forall|ks: Seq<int>| is_path(net, s, ks, t) ==> path_cost(net, s, ks) >= c
}

/// Every path from `s` to `t` costs more than `bound`.
pub open spec fn no_path_within(net: Network, s: int, t: int, bound: int) -> bool {
    forall|ks: Seq<int>| is_path(net, s, ks, t) ==> path_cost(net, s, ks) > bound
}

/// The effective cost ceiling: `max_cost` itself when positive, otherwise
/// the largest representable cost (zero means unbounded).
pub open spec fn search_bound(max_cost: u64) -> int {
    if max_cost > 0 {
        max_cost as int
    } else {
        u64::MAX as int
    }
}

/// The display name registered for a way id, if any.
pub open spec fn way_name(net: Network, way: u64) -> Option<String> {
    match find_key(net.way_info@, way) {
        Some(i) => net.way_info@[i].name,
        None => None,
    }
}

/// Entry `e` extends entry `p` by taking arc `k` out of `p.node`:
/// the head, the accumulated cost and the recorded way name all match.
pub open spec fn chain_step_ok(net: Network, p: Entry, e: Entry, k: int) -> bool {
    &&& step_ok(net, p.node as int, k)
    &&& step_head(net, p.node as int, k) == e.node as int
    &&& p.cost + step_cost(net, p.node as int, k) == e.cost
    &&& e.arc_name == way_name(net, arcs_from(net, p.node as int)[k].part_of_way)
}

/// The predecessor chain of `e` spells out a path from `s` to `e.node`
/// whose accumulated costs and way names are faithful to the graph.
pub open spec fn chain_ok(net: Network, s: int, e: Entry) -> bool
    decreases e,
{
    match e.prev_entry {
        None => e.node as int == s && e.cost == 0 && e.arc_name is None,
        Some(p) => chain_ok(net, s, *p) && exists|k: int| chain_step_ok(net, *p, e, k),
    }
}

/// Outcome of one search: the target entry, a normal "no path within the
/// bound", or an endpoint that is not in the graph.
#[derive(Debug)]
pub enum SearchResult {
    Found(Entry),
    NoPath,
    InvalidEndpoint,
}

/// Everything `search` promises of its result.
pub open spec fn search_post(
    net: Network,
    source: u64,
    target: u64,
    max_cost: u64,
    trace_path: bool,
    r: SearchResult,
) -> bool {
    match r {
        SearchResult::InvalidEndpoint => !net.has_node_id(source) || !net.has_node_id(target),
        SearchResult::Found(e) => {
            let si = find_key(net.nodes@, source).unwrap();
            let ti = find_key(net.nodes@, target).unwrap();
            &&& net.has_node_id(source)
            &&& net.has_node_id(target)
            &&& e.node as int == ti
            &&& min_cost_is(net, si, ti, e.cost as int)
            &&& (max_cost > 0 ==> e.cost <= max_cost)
            &&& (trace_path ==> chain_ok(net, si, e))
            &&& (!trace_path ==> e.arc_name is None && e.prev_entry is None)
        },
        SearchResult::NoPath => {
            let si = find_key(net.nodes@, source).unwrap();
            let ti = find_key(net.nodes@, target).unwrap();
            &&& net.has_node_id(source)
            &&& net.has_node_id(target)
            &&& no_path_within(net, si, ti, search_bound(max_cost))
        },
    }
}

/// Whether an entry's cost beats the best cost recorded for its node.
/// True exactly when the node has no recorded cost yet or the entry
/// improves on it.
pub fn is_best_cost(entry: &Entry, best_costs: &HashMap<NodeIndex, u64>) -> (r: bool)
    ensures
        r == (!best_costs@.contains_key(entry.node) || entry.cost < best_costs@[entry.node]),
{
    let maybe_best = best_costs.get(&entry.node);
    match maybe_best {
        Some(existing_best) => entry.cost < *existing_best,
        None => true,
    }
}

/// A pending search item: a node reached at a cost, and the position of
/// its record in the trace history (meaningful only when tracing).
#[derive(Clone, Copy, Debug)]
struct HeapItem {
    node: NodeIndex,
    cost: u64,
    hist: usize,
}

/// Removes and returns a minimum-cost pending item.
fn pop_min(pending: &mut Vec<HeapItem>) -> (r: HeapItem)
    requires
        old(pending)@.len() > 0,
    ensures
        final(pending)@.len() == old(pending)@.len() - 1,
        exists|m: int|
            0 <= m < old(pending)@.len() && r == old(pending)@[m] && final(pending)@ == old(
                pending,
            )@.remove(m),
        forall|j: int| 0 <= j < old(pending)@.len() ==> r.cost <= (#[trigger] old(pending)@[j]).cost,
{
    let n = pending.len();
    let mut best: usize = 0;
    let mut i: usize = 1;
    while i < n
        invariant
            pending == old(pending),
            n == pending@.len(),
            0 < n,
            (best as int) < i <= n,
            forall|j: int| 0 <= j < i ==> pending@[best as int].cost <= (#[trigger] pending@[j]).cost,
        decreases n - i,
    {
        if pending[i].cost < pending[best].cost {
            best = i;
        }
        i += 1;
    }
    pending.remove(best)
}

/// Any path cost is non-negative: every arc cost is an unsigned value.
proof fn lemma_path_cost_nonneg(net: Network, u: int, ks: Seq<int>)
    ensures
        path_cost(net, u, ks) >= 0,
    decreases ks.len(),
{
    if ks.len() > 0 {
        lemma_path_cost_nonneg(net, step_head(net, u, ks[0]), ks.drop_first());
    }
}

/// Appending a step to a path reaches the step's head at the summed cost.
proof fn lemma_path_extend(net: Network, u: int, ks: Seq<int>, v: int, k: int)
    requires
        is_path(net, u, ks, v),
        step_ok(net, v, k),
    ensures
        is_path(net, u, ks.push(k), step_head(net, v, k)),
        path_cost(net, u, ks.push(k)) == path_cost(net, u, ks) + step_cost(net, v, k),
    decreases ks.len(),
{
    if ks.len() == 0 {
        assert(u == v);
        assert(ks.push(k)[0] == k);
        assert(ks.push(k).drop_first() =~= Seq::<int>::empty());
        assert(is_path(net, step_head(net, u, k), Seq::<int>::empty(), step_head(net, v, k)));
        assert(path_cost(net, step_head(net, u, k), Seq::<int>::empty()) == 0);
        assert(is_path(net, u, ks.push(k), step_head(net, v, k)));
        assert(path_cost(net, u, ks.push(k)) == step_cost(net, u, k));
        assert(path_cost(net, u, ks) == 0);
    } else {
        assert(ks.push(k)[0] == ks[0]);
        assert(ks.push(k).drop_first() =~= ks.drop_first().push(k));
        lemma_path_extend(net, step_head(net, u, ks[0]), ks.drop_first(), v, k);
        assert(is_path(
            net,
            step_head(net, u, ks[0]),
            ks.drop_first().push(k),
            step_head(net, v, k),
        ));
        assert(is_path(net, u, ks.push(k), step_head(net, v, k)));
        assert(path_cost(net, u, ks.push(k)) == step_cost(net, u, ks.push(k)[0]) + path_cost(
            net,
            step_head(net, u, ks[0]),
            ks.push(k).drop_first(),
        ));
    }
}

/// Walking a path from a node with a recorded cost, the first unsettled
/// node met still has a recorded cost no larger than the accumulated cost;
/// if every candidate along the way overflowed, the whole path does.
proof fn lemma_frontier_witness(
    net: Network,
    cm: Map<NodeIndex, u64>,
    settled: Set<NodeIndex>,
    u: NodeIndex,
    ks: Seq<int>,
    t: NodeIndex,
)
    requires
        net.wf(),
        (u as int) < graph_size(net),
        is_path(net, u as int, ks, t as int),
        cm.contains_key(u),
        !settled.contains(t),
        settled_closed(net, cm, settled),
        forall|v: NodeIndex| #[trigger] settled.contains(v) ==> cm.contains_key(v),
    ensures
        (exists|w: NodeIndex| #[trigger]
            cm.contains_key(w) && !settled.contains(w) && cm[w] <= cm[u] + path_cost(
                net,
                u as int,
                ks,
            )) || cm[u] + path_cost(net, u as int, ks) > u64::MAX,
    decreases ks.len(),
{
    if !settled.contains(u) {
        lemma_path_cost_nonneg(net, u as int, ks);
        assert(cm.contains_key(u) && !settled.contains(u) && cm[u] <= cm[u] + path_cost(
            net,
            u as int,
            ks,
        ));
    } else {
        assert(ks.len() > 0);
        let k = ks[0];
        let a = arcs_from(net, u as int)[k];
        let h = a.head_node;
        assert(step_head(net, u as int, k) == h as int);
        assert(relax_done(net, cm, u, k));
        lemma_path_cost_nonneg(net, h as int, ks.drop_first());
        if cm[u] + a.cost > u64::MAX {
        } else {
            assert((h as int) < graph_size(net));
            lemma_frontier_witness(net, cm, settled, h, ks.drop_first(), t);
            if cm[h] + path_cost(net, h as int, ks.drop_first()) > u64::MAX {
            } else {
                let w = choose|w: NodeIndex| #[trigger]
                    cm.contains_key(w) && !settled.contains(w) && cm[w] <= cm[h] + path_cost(
                        net,
                        h as int,
                        ks.drop_first(),
                    );
                assert(cm[w] <= cm[u] + path_cost(net, u as int, ks));
            }
        }
    }
}

/// Potential of one node index: its recorded cost, or one more than any
/// representable cost while it has none.
spec fn node_potential(cm: Map<NodeIndex, u64>, v: int) -> int {
    if cm.contains_key(v as usize) {
        cm[v as usize] as int
    } else {
        0x1_0000_0000_0000_0000
    }
}

/// Summed potential of the first `i` node indexes. Recording or improving
/// a cost strictly shrinks it, which bounds the search loop.
spec fn phi(cm: Map<NodeIndex, u64>, i: nat) -> int
    decreases i,
{
    if i == 0 {
        0
    } else {
        phi(cm, (i - 1) as nat) + node_potential(cm, i - 1)
    }
}

proof fn lemma_phi_nonneg(cm: Map<NodeIndex, u64>, i: nat)
    ensures
        phi(cm, i) >= 0,
    decreases i,
{
    if i > 0 {
        lemma_phi_nonneg(cm, (i - 1) as nat);
    }
}

proof fn lemma_phi_insert(cm: Map<NodeIndex, u64>, w: NodeIndex, c: u64, i: nat)
    requires
        !cm.contains_key(w) || c < cm[w],
        i <= usize::MAX + 1,
    ensures
        phi(cm.insert(w, c), i) <= phi(cm, i),
        (w as int) < i ==> phi(cm.insert(w, c), i) < phi(cm, i),
    decreases i,
{
    if i > 0 {
        lemma_phi_insert(cm, w, c, (i - 1) as nat);
        let v = i - 1;
        if v == w as int {
            assert((v as usize) == w);
            assert(node_potential(cm.insert(w, c), v) == c as int);
            assert(node_potential(cm, v) > c as int);
        } else {
            assert((v as usize) != w);
            assert(node_potential(cm.insert(w, c), v) == node_potential(cm, v));
        }
    }
}

/// The best-cost table is sound: every recorded cost is realized by a path.
spec fn costs_sound(net: Network, si: int, cm: Map<NodeIndex, u64>) -> bool {
    forall|v: NodeIndex| #[trigger]
        cm.contains_key(v) ==> (v as int) < graph_size(net) && has_path_cost(
            net,
            si,
            v as int,
            cm[v] as int,
        )
}

/// Settled nodes carry their final distance: no path beats the table.
spec fn settled_ok(net: Network, si: int, cm: Map<NodeIndex, u64>, settled: Set<NodeIndex>) -> bool {
    forall|v: NodeIndex| #[trigger]
        settled.contains(v) ==> (v as int) < graph_size(net) && cm.contains_key(v) && (forall|
            ks: Seq<int>,
        |
            is_path(net, si, ks, v as int) ==> path_cost(net, si, ks) >= cm[v] as int)
}

/// One record of the trace history arena: the entry for `node` at `cost`,
/// reached from the record at position `prev` over an arc whose way is
/// named `arc_name`.
struct HistoryCell {
    node: NodeIndex,
    cost: u64,
    arc_name: Option<String>,
    prev: Option<usize>,
}

/// History cell `c` extends `pc` by arc `k` out of `pc.node`.
spec fn hist_step_ok(net: Network, pc: HistoryCell, c: HistoryCell, k: int) -> bool {
    &&& step_ok(net, pc.node as int, k)
    &&& step_head(net, pc.node as int, k) == c.node as int
    &&& pc.cost + step_cost(net, pc.node as int, k) == c.cost
    &&& c.arc_name == way_name(net, arcs_from(net, pc.node as int)[k].part_of_way)
}

spec fn hist_cell_ok(net: Network, s: int, hs: Seq<HistoryCell>, h: int) -> bool {
    match hs[h].prev {
        None => hs[h].node as int == s && hs[h].cost == 0 && hs[h].arc_name is None,
        Some(p) => (p as int) < h && exists|k: int| hist_step_ok(net, hs[p as int], hs[h], k),
    }
}

/// Every history record chains back, through strictly earlier records,
/// to the source record.
spec fn hist_wf(net: Network, s: int, hs: Seq<HistoryCell>) -> bool {
    forall|h: int| 0 <= h < hs.len() ==> #[trigger] hist_cell_ok(net, s, hs, h)
}

proof fn lemma_hist_push(net: Network, s: int, hs: Seq<HistoryCell>, c: HistoryCell)
    requires
        hist_wf(net, s, hs),
        match c.prev {
            None => c.node as int == s && c.cost == 0 && c.arc_name is None,
            Some(p) => (p as int) < hs.len() && exists|k: int| hist_step_ok(net, hs[p as int], c, k),
        },
    ensures
        hist_wf(net, s, hs.push(c)),
{
    let hs2 = hs.push(c);
    assert forall|h: int| 0 <= h < hs2.len() implies #[trigger] hist_cell_ok(net, s, hs2, h) by {
        if h < hs.len() {
            assert(hist_cell_ok(net, s, hs, h));
            assert(hs2[h] == hs[h]);
            match hs[h].prev {
                None => {},
                Some(p) => {
                    assert(hs2[p as int] == hs[p as int]);
                },
            }
        } else {
            assert(hs2[h] == c);
            match c.prev {
                None => {},
                Some(p) => {
                    assert(hs2[p as int] == hs[p as int]);
                },
            }
        }
    }
}

/// Rebuilds the linked entry chain for one history record.
fn rebuild_entry(
    history: &Vec<HistoryCell>,
    h: usize,
    Ghost(net): Ghost<Network>,
    Ghost(s): Ghost<int>,
) -> (e: Entry)
    requires
        hist_wf(net, s, history@),
        (h as int) < history@.len(),
    ensures
        chain_ok(net, s, e),
        e.node == history@[h as int].node,
        e.cost == history@[h as int].cost,
    decreases h,
{
    proof {
        assert(hist_cell_ok(net, s, history@, h as int));
    }
    let cell = &history[h];
    let name: Option<String> = match &cell.arc_name {
        Some(nm) => Some(nm.clone()),
        None => None,
    };
    match cell.prev {
        None => Entry { node: cell.node, cost: cell.cost, arc_name: name, prev_entry: None },
        Some(p) => {
            let prev = rebuild_entry(history, p, Ghost(net), Ghost(s));
            let e = Entry {
                node: cell.node,
                cost: cell.cost,
                arc_name: name,
                prev_entry: Some(Box::new(prev)),
            };
            proof {
                let k = choose|k: int|
                    hist_step_ok(net, history@[p as int], history@[h as int], k);
                assert(chain_step_ok(net, prev, e, k));
            }
            e
        },
    }
}

/// A pending item is a reachable node at a realized cost, no better than
/// the recorded best, with a valid history record when tracing.
spec fn pending_item_ok(
    net: Network,
    si: int,
    cm: Map<NodeIndex, u64>,
    hs: Seq<HistoryCell>,
    trace: bool,
    it: HeapItem,
) -> bool {
    &&& (it.node as int) < graph_size(net)
    &&& cm.contains_key(it.node)
    &&& cm[it.node] <= it.cost
    &&& has_path_cost(net, si, it.node as int, it.cost as int)
    &&& (trace ==> (it.hist as int) < hs.len() && hs[it.hist as int].node == it.node
        && hs[it.hist as int].cost == it.cost)
}

spec fn pending_ok(
    net: Network,
    si: int,
    cm: Map<NodeIndex, u64>,
    hs: Seq<HistoryCell>,
    trace: bool,
    pend: Seq<HeapItem>,
) -> bool {
    forall|j: int|
        0 <= j < pend.len() ==> pending_item_ok(net, si, cm, hs, trace, #[trigger] pend[j])
}

/// Every reached, unsettled node still has a pending item at its best cost.
spec fn unsettled_covered(
    cm: Map<NodeIndex, u64>,
    settled: Set<NodeIndex>,
    pend: Seq<HeapItem>,
) -> bool {
    forall|v: NodeIndex| #[trigger]
        cm.contains_key(v) && !settled.contains(v) ==> exists|j: int|
            0 <= j < pend.len() && pend[j].node == v && pend[j].cost == cm[v]
}

/// As `unsettled_covered`, except for the one node being relaxed.
spec fn unsettled_covered_except(
    cm: Map<NodeIndex, u64>,
    settled: Set<NodeIndex>,
    pend: Seq<HeapItem>,
    x: NodeIndex,
) -> bool {
    forall|v: NodeIndex| #[trigger]
        cm.contains_key(v) && !settled.contains(v) && v != x ==> exists|j: int|
            0 <= j < pend.len() && pend[j].node == v && pend[j].cost == cm[v]
}

/// Arc `k` out of the popped node needs no further work against `cm`:
/// its candidate cost overflows, or the head's record is at least as good.
spec fn arc_relaxed(net: Network, cm: Map<NodeIndex, u64>, pc: u64, u: int, k: int) -> bool {
    let a = arcs_from(net, u)[k];
    ||| pc + a.cost > u64::MAX
    ||| (cm.contains_key(a.head_node) && cm[a.head_node] <= pc + a.cost)
}

/// Every settled node has all its outgoing arcs relaxed at its own cost.
spec fn settled_closed(net: Network, cm: Map<NodeIndex, u64>, settled: Set<NodeIndex>) -> bool {
    forall|v: NodeIndex, k: int|
        settled.contains(v) && 0 <= k < arcs_from(net, v as int).len() ==> #[trigger] relax_done(
            net,
            cm,
            v,
            k,
        )
}

/// `arc_relaxed` at the node's own recorded cost.
spec fn relax_done(net: Network, cm: Map<NodeIndex, u64>, v: NodeIndex, k: int) -> bool {
    arc_relaxed(net, cm, cm[v], v as int, k)
}

/// When a minimum-cost pending item is popped, no path to any unsettled
/// node `t` can cost less than that minimum.
proof fn lemma_popped_min(
    net: Network,
    si: int,
    src: NodeIndex,
    cm: Map<NodeIndex, u64>,
    settled: Set<NodeIndex>,
    pend: Seq<HeapItem>,
    c: int,
    t: NodeIndex,
)
    requires
        net.wf(),
        (src as int) < graph_size(net),
        src as int == si,
        cm.contains_key(src),
        cm[src] == 0,
        settled_closed(net, cm, settled),
        forall|v: NodeIndex| #[trigger] settled.contains(v) ==> cm.contains_key(v),
        unsettled_covered(cm, settled, pend),
        forall|j: int| 0 <= j < pend.len() ==> c <= (#[trigger] pend[j]).cost,
        c <= u64::MAX + 1,
        !settled.contains(t),
    ensures
        forall|ks: Seq<int>| is_path(net, si, ks, t as int) ==> path_cost(net, si, ks) >= c,
{
    assert forall|ks: Seq<int>| is_path(net, si, ks, t as int) implies path_cost(net, si, ks)
        >= c by {
        lemma_frontier_witness(net, cm, settled, src, ks, t);
        if exists|w: NodeIndex| #[trigger]
            cm.contains_key(w) && !settled.contains(w) && cm[w] <= cm[src] + path_cost(
                net,
                src as int,
                ks,
            ) {
            let w = choose|w: NodeIndex| #[trigger]
                cm.contains_key(w) && !settled.contains(w) && cm[w] <= cm[src] + path_cost(
                    net,
                    src as int,
                    ks,
                );
            let j = choose|j: int|
                0 <= j < pend.len() && pend[j].node == w && pend[j].cost == cm[w];
            assert(c <= pend[j].cost);
        }
    }
}

/// Least-cost search from `source` to `target` over `network`.
///
/// Returns the target entry at the true minimum path cost; `NoPath` exactly
/// when every path costs more than the ceiling (`max_cost`, or the largest
/// representable cost when `max_cost` is zero); `InvalidEndpoint` exactly
/// when an endpoint id is not in the graph. With `trace_path`, the entry
/// carries a faithful predecessor chain back to the source.
pub fn search(
    source: OSMNodeId,
    target: OSMNodeId,
    network: &Network,
    max_cost: u64,
    trace_path: bool,
) -> (r: SearchResult)
    requires
        network.wf(),
    ensures
        search_post(*network, source, target, max_cost, trace_path, r),
{
    let maybe_source_index = network.node_index(&source);
    let maybe_target_index = network.node_index(&target);
    let (source_index, target_index) = match (maybe_source_index, maybe_target_index) {
        (Some(s), Some(t)) => (s, t),
        _ => {
            return SearchResult::InvalidEndpoint;
        },
    };
    let ghost net = *network;
    let ghost si = source_index as int;
    let ghost ti = target_index as int;
    let num_nodes = network.forward_graph.len();
    let ghost nn = num_nodes as int;
    proof {
        crate::keyed::lemma_find_key(net.nodes@, source);
        crate::keyed::lemma_find_key(net.nodes@, target);
    }

    let mut costs: HashMap<NodeIndex, u64> = HashMap::new();
    let mut pending: Vec<HeapItem> = Vec::new();
    let mut history: Vec<HistoryCell> = Vec::new();
    if trace_path {
        history.push(HistoryCell { node: source_index, cost: 0, arc_name: None, prev: None });
    }
    pending.push(HeapItem { node: source_index, cost: 0, hist: 0 });
    costs.insert(source_index, 0);
    let ghost mut settled: Set<NodeIndex> = Set::empty();

    proof {
        assert(is_path(net, si, Seq::<int>::empty(), si));
        assert(path_cost(net, si, Seq::<int>::empty()) == 0);
        assert(has_path_cost(net, si, si, 0));
        assert(pending@[0].node == source_index);
    }

    while pending.len() > 0
        invariant
            network.wf(),
            net == *network,
            nn == graph_size(net),
            nn == net.nodes@.len(),
            nn <= usize::MAX,
            0 <= si < nn,
            0 <= ti < nn,
            si == source_index as int,
            ti == target_index as int,
            find_key(net.nodes@, source) == Some(si),
            find_key(net.nodes@, target) == Some(ti),
            costs@.contains_key(source_index),
            costs@[source_index] == 0,
            costs_sound(net, si, costs@),
            pending_ok(net, si, costs@, history@, trace_path, pending@),
            unsettled_covered(costs@, settled, pending@),
            settled_ok(net, si, costs@, settled),
            settled_closed(net, costs@, settled),
            !settled.contains(target_index),
            trace_path ==> hist_wf(net, si, history@),
        decreases phi(costs@, nn as nat), pending@.len(),
    {
        let ghost pend0 = pending@;
        let ghost cm0 = costs@;
        let ghost phi0 = phi(costs@, nn as nat);
        let ghost len0 = pending@.len();

        let entry = pop_min(&mut pending);
        let ghost m = choose|m: int|
            0 <= m < pend0.len() && entry == pend0[m] && pending@ == pend0.remove(m);
        proof {
            lemma_phi_nonneg(costs@, nn as nat);
            assert(pending_item_ok(net, si, costs@, history@, trace_path, entry)) by {
                assert(pending_item_ok(net, si, costs@, history@, trace_path, pend0[m]));
            }
            assert forall|j: int| 0 <= j < pending@.len() implies pending_item_ok(
                net,
                si,
                costs@,
                history@,
                trace_path,
                #[trigger] pending@[j],
            ) by {
                if j < m {
                    assert(pending@[j] == pend0[j]);
                } else {
                    assert(pending@[j] == pend0[j + 1]);
                }
            }
            assert(unsettled_covered_except(costs@, settled, pending@, entry.node)) by {
                assert forall|v: NodeIndex| #[trigger]
                    costs@.contains_key(v) && !settled.contains(v) && v
                        != entry.node implies exists|j: int|
                    0 <= j < pending@.len() && pending@[j].node == v && pending@[j].cost
                        == costs@[v] by {
                    let j0 = choose|j: int|
                        0 <= j < pend0.len() && pend0[j].node == v && pend0[j].cost == costs@[v];
                    if j0 < m {
                        assert(pending@[j0] == pend0[j0]);
                    } else if j0 > m {
                        assert(pending@[j0 - 1] == pend0[j0]);
                    } else {
                        assert(pend0[m].node == entry.node);
                    }
                }
            }
        }

        if max_cost > 0 && entry.cost > max_cost {
            proof {
                lemma_popped_min(
                    net,
                    si,
                    source_index,
                    cm0,
                    settled,
                    pend0,
                    entry.cost as int,
                    target_index,
                );
            }
            return SearchResult::NoPath;
        }

        if entry.node == target_index {
            proof {
                lemma_popped_min(
                    net,
                    si,
                    source_index,
                    cm0,
                    settled,
                    pend0,
                    entry.cost as int,
                    target_index,
                );
                assert(min_cost_is(net, si, ti, entry.cost as int));
            }
            if trace_path {
                let e = rebuild_entry(&history, entry.hist, Ghost(net), Ghost(si));
                return SearchResult::Found(e);
            } else {
                return SearchResult::Found(
                    Entry { node: entry.node, cost: entry.cost, arc_name: None, prev_entry: None },
                );
            }
        }

        let ghost fresh = !settled.contains(entry.node);
        proof {
            if fresh {
                assert(costs@[entry.node] == entry.cost) by {
                    let j = choose|j: int|
                        0 <= j < pend0.len() && pend0[j].node == entry.node && pend0[j].cost
                            == costs@[entry.node];
                    assert(entry.cost <= pend0[j].cost);
                }
                lemma_popped_min(
                    net,
                    si,
                    source_index,
                    cm0,
                    settled,
                    pend0,
                    entry.cost as int,
                    entry.node,
                );
            }
        }

        let node_arcs = &network.forward_graph[entry.node];
        let na = node_arcs.len();
        let mut k: usize = 0;
        while k < na
            invariant
                network.wf(),
                net == *network,
                nn == graph_size(net),
                nn == net.nodes@.len(),
                nn <= usize::MAX,
                0 <= si < nn,
                0 <= ti < nn,
                si == source_index as int,
                ti == target_index as int,
                costs@.contains_key(source_index),
                costs@[source_index] == 0,
                costs_sound(net, si, costs@),
                pending_ok(net, si, costs@, history@, trace_path, pending@),
                unsettled_covered_except(costs@, settled, pending@, entry.node),
                settled_ok(net, si, costs@, settled),
                settled_closed(net, costs@, settled),
                !settled.contains(target_index),
                trace_path ==> hist_wf(net, si, history@),
                (entry.node as int) < nn,
                costs@.contains_key(entry.node),
                costs@[entry.node] <= entry.cost,
                has_path_cost(net, si, entry.node as int, entry.cost as int),
                entry.node != target_index,
                trace_path ==> (entry.hist as int) < history@.len() && history@[entry.hist as int].node
                    == entry.node && history@[entry.hist as int].cost == entry.cost,
                fresh == !settled.contains(entry.node),
                fresh ==> costs@[entry.node] == entry.cost,
                fresh ==> forall|ks: Seq<int>|
                    is_path(net, si, ks, entry.node as int) ==> path_cost(net, si, ks)
                        >= entry.cost as int,
                node_arcs@ == arcs_from(net, entry.node as int),
                na == node_arcs@.len(),
                0 <= k <= na,
                forall|k2: int|
                    0 <= k2 < k ==> #[trigger] arc_relaxed(
                        net,
                        costs@,
                        entry.cost,
                        entry.node as int,
                        k2,
                    ),
                phi(costs@, nn as nat) <= phi0,
                phi(costs@, nn as nat) == phi0 ==> pending@.len() == len0 - 1,
                len0 == pend0.len(),
            decreases na - k,
        {
            let arc = &node_arcs[k];
            match entry.cost.checked_add(arc.cost) {
                Some(candidate) => {
                    let cand_entry = Entry {
                        node: arc.head_node,
                        cost: candidate,
                        arc_name: None,
                        prev_entry: None,
                    };
                    if is_best_cost(&cand_entry, &costs) {
                        let ghost cm_before = costs@;
                        let ghost hs_before = history@;
                        let ghost pend_before = pending@;
                        proof {
                            // The pushed item is reachable at its cost.
                            let ks0 = choose|ks: Seq<int>|
                                is_path(net, si, ks, entry.node as int) && path_cost(net, si, ks)
                                    == entry.cost as int;
                            assert(step_ok(net, entry.node as int, k as int));
                            lemma_path_extend(net, si, ks0, entry.node as int, k as int);
                            assert(step_head(net, entry.node as int, k as int)
                                == arc.head_node as int);
                            assert(is_path(net, si, ks0.push(k as int), arc.head_node as int));
                            assert(path_cost(net, si, ks0.push(k as int)) == candidate as int);
                            assert(has_path_cost(net, si, arc.head_node as int, candidate as int));
                            // The head cannot already be settled.
                            if settled.contains(arc.head_node) {
                                assert(path_cost(net, si, ks0.push(k as int))
                                    >= costs@[arc.head_node] as int);
                                assert(false);
                            }
                            // The head is not the node being relaxed.
                            assert(arc.head_node != entry.node);
                            // The potential strictly shrinks.
                            lemma_phi_insert(costs@, arc.head_node, candidate, nn as nat);
                        }
                        let hist_idx: usize;
                        if trace_path {
                            let name: Option<String> = match network.get_way_info(arc) {
                                Some(w) => match &w.name {
                                    Some(s) => Some(s.clone()),
                                    None => None,
                                },
                                None => None,
                            };
                            hist_idx = history.len();
                            let cell = HistoryCell {
                                node: arc.head_node,
                                cost: candidate,
                                arc_name: name,
                                prev: Some(entry.hist),
                            };
                            proof {
                                assert(hist_step_ok(
                                    net,
                                    history@[entry.hist as int],
                                    cell,
                                    k as int,
                                ));
                                lemma_hist_push(net, si, history@, cell);
                            }
                            history.push(cell);
                        } else {
                            hist_idx = 0;
                        }
                        costs.insert(arc.head_node, candidate);
                        pending.push(HeapItem { node: arc.head_node, cost: candidate, hist: hist_idx });
                        proof {
                            assert forall|j: int| 0 <= j < pending@.len() implies pending_item_ok(
                                net,
                                si,
                                costs@,
                                history@,
                                trace_path,
                                #[trigger] pending@[j],
                            ) by {
                                if j < pending@.len() - 1 {
                                    assert(pending@[j] == pend_before[j]);
                                    assert(pending_item_ok(
                                        net,
                                        si,
                                        cm_before,
                                        hs_before,
                                        trace_path,
                                        pend_before[j],
                                    ));
                                    let it = pend_before[j];
                                    if it.node == arc.head_node {
                                        assert(costs@[it.node] == candidate);
                                        assert(candidate < cm_before[it.node]);
                                    }
                                    if trace_path {
                                        assert(history@[it.hist as int] == hs_before[it.hist as int]);
                                    }
                                } else {
                                    assert(pending@[j].node == arc.head_node);
                                    assert(costs@[arc.head_node] == candidate);
                                    if trace_path {
                                        assert(history@[hist_idx as int].node == arc.head_node);
                                    }
                                }
                            }
                            assert(unsettled_covered_except(
                                costs@,
                                settled,
                                pending@,
                                entry.node,
                            )) by {
                                assert forall|v: NodeIndex| #[trigger]
                                    costs@.contains_key(v) && !settled.contains(v) && v
                                        != entry.node implies exists|j: int|
                                    0 <= j < pending@.len() && pending@[j].node == v
                                        && pending@[j].cost == costs@[v] by {
                                    if v == arc.head_node {
                                        assert(pending@[pending@.len() - 1].node == v);
                                        assert(pending@[pending@.len() - 1].cost == costs@[v]);
                                    } else {
                                        let j0 = choose|j: int|
                                            0 <= j < pend_before.len() && pend_before[j].node == v
                                                && pend_before[j].cost == cm_before[v];
                                        assert(pending@[j0] == pend_before[j0]);
                                        assert(costs@[v] == cm_before[v]);
                                    }
                                }
                            }
                            assert forall|k2: int| 0 <= k2 <= k implies #[trigger] arc_relaxed(
                                net,
                                costs@,
                                entry.cost,
                                entry.node as int,
                                k2,
                            ) by {
                                let a2 = arcs_from(net, entry.node as int)[k2];
                                if k2 < k {
                                    assert(arc_relaxed(
                                        net,
                                        cm_before,
                                        entry.cost,
                                        entry.node as int,
                                        k2,
                                    ));
                                    if !(entry.cost + a2.cost > u64::MAX) {
                                        if a2.head_node == arc.head_node {
                                            assert(costs@[a2.head_node] == candidate);
                                            assert(candidate < cm_before[a2.head_node]);
                                        } else {
                                            assert(costs@[a2.head_node] == cm_before[a2.head_node]);
                                        }
                                    }
                                } else {
                                    assert(a2 == arcs_from(net, entry.node as int)[k as int]);
                                    assert(costs@[arc.head_node] == candidate);
                                }
                            }
                            assert(settled_closed(net, costs@, settled)) by {
                                assert forall|v: NodeIndex, k2: int|
                                    settled.contains(v) && 0 <= k2 < arcs_from(
                                        net,
                                        v as int,
                                    ).len() implies #[trigger] relax_done(net, costs@, v, k2) by {
                                    assert(relax_done(net, cm_before, v, k2));
                                    assert(v != arc.head_node);
                                    assert(costs@[v] == cm_before[v]);
                                    let a2 = arcs_from(net, v as int)[k2];
                                    if !(cm_before[v] + a2.cost > u64::MAX) {
                                        if a2.head_node == arc.head_node {
                                            assert(costs@[a2.head_node] == candidate);
                                            assert(candidate < cm_before[a2.head_node]);
                                        } else {
                                            assert(costs@[a2.head_node] == cm_before[a2.head_node]);
                                        }
                                    }
                                }
                            }
                        }
                    } else {
                        proof {
                            assert(arc_relaxed(net, costs@, entry.cost, entry.node as int, k as int));
                        }
                    }
                },
                None => {
                    proof {
                        assert(entry.cost + arc.cost > u64::MAX);
                        assert(arc_relaxed(net, costs@, entry.cost, entry.node as int, k as int));
                    }
                },
            }
            k += 1;
        }

        proof {
            if fresh {
                settled = settled.insert(entry.node);
                assert(settled_ok(net, si, costs@, settled)) by {
                    assert forall|v: NodeIndex| #[trigger] settled.contains(v) implies (v as int)
                        < graph_size(net) && costs@.contains_key(v) && (forall|ks: Seq<int>|
                        is_path(net, si, ks, v as int) ==> path_cost(net, si, ks)
                            >= costs@[v] as int) by {
                        if v != entry.node {
                            assert(settled.remove(entry.node).contains(v) || v == entry.node);
                        }
                    }
                }
                assert(settled_closed(net, costs@, settled)) by {
                    assert forall|v: NodeIndex, k2: int|
                        settled.contains(v) && 0 <= k2 < arcs_from(net, v as int).len()
                            implies #[trigger] relax_done(net, costs@, v, k2) by {
                        if v == entry.node {
                            assert(arc_relaxed(net, costs@, entry.cost, entry.node as int, k2));
                        }
                    }
                }
            } else {
                assert(settled.insert(entry.node) =~= settled);
            }
            assert(unsettled_covered(costs@, settled, pending@)) by {
                assert forall|v: NodeIndex| #[trigger]
                    costs@.contains_key(v) && !settled.contains(v) implies exists|j: int|
                    0 <= j < pending@.len() && pending@[j].node == v && pending@[j].cost
                        == costs@[v] by {
                    assert(v != entry.node);
                }
            }
            lemma_phi_nonneg(costs@, nn as nat);
        }
    }

    proof {
        lemma_popped_min(
            net,
            si,
            source_index,
            costs@,
            settled,
            pending@,
            u64::MAX as int + 1,
            target_index,
        );
    }
    SearchResult::NoPath
}

/// Convenience query surface: the target entry on success, `None` both
/// when no path lies within the bound and when an endpoint is unknown.
/// `search` distinguishes the two.
pub fn run_dijsktra(
    source: OSMNodeId,
    target: OSMNodeId,
    network: &Network,
    max_distance: u64,
    trace_path: bool,
) -> (r: Option<Entry>)
    requires
        network.wf(),
    ensures
        match r {
            Some(e) => search_post(
                *network,
                source,
                target,
                max_distance,
                trace_path,
                SearchResult::Found(e),
            ),
            None => search_post(
                *network,
                source,
                target,
                max_distance,
                trace_path,
                SearchResult::NoPath,
            ) || search_post(
                *network,
                source,
                target,
                max_distance,
                trace_path,
                SearchResult::InvalidEndpoint,
            ),
        },
{
    match search(source, target, network, max_distance, trace_path) {
        SearchResult::Found(e) => Some(e),
        SearchResult::NoPath => None,
        SearchResult::InvalidEndpoint => None,
    }
}

/// The way name of one traversed arc as reported: "unknown" when the way
/// has no registered name.
pub open spec fn name_or_unknown(n: Option<String>) -> Seq<char> {
    match n {
        Some(s) => s@,
        None => "unknown"@,
    }
}

/// The reported way names along an entry's chain, one per arc, in
/// source-to-target order.
pub open spec fn collected_names(e: Entry) -> Seq<Seq<char>>
    decreases e,
{
    match e.prev_entry {
        None => Seq::empty(),
        Some(p) => collected_names(*p).push(name_or_unknown(e.arc_name)),
    }
}

/// Collapses consecutive duplicates, keeping the first of each run.
pub open spec fn dedup_consec(s: Seq<Seq<char>>) -> Seq<Seq<char>>
    decreases s.len(),
{
    if s.len() <= 1 {
        s
    } else {
        let rest = dedup_consec(s.drop_last());
        if s[s.len() - 2] == s.last() {
            rest
        } else {
            rest.push(s.last())
        }
    }
}

/// Joins a sequence of names with "->".
pub open spec fn join_arrow(s: Seq<Seq<char>>) -> Seq<char>
    decreases s.len(),
{
    if s.len() == 0 {
        Seq::empty()
    } else if s.len() == 1 {
        s[0]
    } else {
        join_arrow(s.drop_last()) + "->"@ + s.last()
    }
}

proof fn lemma_dedup_push(s: Seq<Seq<char>>, x: Seq<char>)
    ensures
        dedup_consec(s.push(x)) == if s.len() > 0 && s.last() == x {
            dedup_consec(s)
        } else {
            dedup_consec(s).push(x)
        },
{
    assert(s.push(x).drop_last() =~= s);
    if s.len() == 0 {
        assert(s.push(x) =~= seq![x]);
        assert(dedup_consec(seq![x]) =~= seq![x]);
        assert(dedup_consec(s).push(x) =~= seq![x]);
    }
}

/// Deduplication never lengthens a sequence.
proof fn lemma_dedup_len(s: Seq<Seq<char>>)
    ensures
        dedup_consec(s).len() <= s.len(),
    decreases s.len(),
{
    if s.len() > 1 {
        lemma_dedup_len(s.drop_last());
    }
}

/// Deduplication keeps the endpoints of a non-empty sequence.
proof fn lemma_dedup_ends(s: Seq<Seq<char>>)
    requires
        s.len() > 0,
    ensures
        dedup_consec(s).len() >= 1,
        dedup_consec(s).first() == s.first(),
        dedup_consec(s).last() == s.last(),
    decreases s.len(),
{
    if s.len() > 1 {
        lemma_dedup_ends(s.drop_last());
        if s[s.len() - 2] == s.last() {
            assert(dedup_consec(s.drop_last()).last() == s.drop_last().last());
            assert(s.drop_last().last() == s[s.len() - 2]);
        }
        assert(s.drop_last().first() == s.first());
    }
}

proof fn lemma_collected_len(e: Entry)
    ensures
        collected_names(e).len() == chain_len(e),
    decreases e,
{
    match e.prev_entry {
        None => {},
        Some(p) => {
            lemma_collected_len(*p);
        },
    }
}

/// Trace correctness: the reported name sequence has one name per arc of
/// the chain; collapsing consecutive duplicates never lengthens it and
/// keeps its endpoints, so the first and last reported segments are the
/// names recorded for the arcs leaving the source and entering the target.
pub proof fn lemma_trace_correct(e: Entry)
    ensures
        collected_names(e).len() == chain_len(e),
        dedup_consec(collected_names(e)).len() <= chain_len(e),
        chain_len(e) > 0 ==> {
            let names = collected_names(e);
            let deduped = dedup_consec(names);
            &&& deduped.len() >= 1
            &&& deduped.first() == names.first()
            &&& deduped.last() == names.last()
            &&& names.last() == name_or_unknown(e.arc_name)
        },
{
    lemma_collected_len(e);
    lemma_dedup_len(collected_names(e));
    if chain_len(e) > 0 {
        lemma_dedup_ends(collected_names(e));
    }
}

/// The views of a vector of names.
pub open spec fn views_of(ss: Seq<String>) -> Seq<Seq<char>> {
    ss.map_values(|s: String| s@)
}

proof fn lemma_views_push(ss: Seq<String>, x: String)
    ensures
        views_of(ss.push(x)) =~= views_of(ss).push(x@),
{
}

/// Appends the chain's reported names, source-first, to `out`.
fn push_chain_names(e: &Entry, out: &mut Vec<String>)
    ensures
        views_of(final(out)@) == views_of(old(out)@) + collected_names(*e),
    decreases chain_len(*e),
{
    match &e.prev_entry {
        None => {
            proof {
                assert(views_of(out@) =~= views_of(out@) + collected_names(*e));
            }
        },
        Some(p) => {
            proof {
                assert(chain_len(**p) < chain_len(*e));
            }
            let ghost mid = out@;
            proof {
                assert(collected_names(*e) == collected_names(**p).push(
                    name_or_unknown(e.arc_name),
                ));
            }
            push_chain_names(p, out);
            let name: String = match &e.arc_name {
                Some(s) => s.clone(),
                None => String::from_str("unknown"),
            };
            proof {
                assert(name@ == name_or_unknown(e.arc_name));
            }
            let ghost rec = out@;
            proof {
                assert(views_of(rec) == views_of(mid) + collected_names(**p));
            }
            let ghost namev = name@;
            out.push(name);
            proof {
                assert(out@ == rec.push(name));
                lemma_views_push(rec, name);
                assert(views_of(out@) =~= views_of(rec).push(namev));
                assert(views_of(rec).push(namev) =~= views_of(mid) + collected_names(*e));
                assert(views_of(out@) =~= views_of(mid) + collected_names(*e));
            }
        },
    }
}

impl Entry {
    /// The ordered list of way names this entry's chain travelled,
    /// consecutive duplicates collapsed, joined with "->". An arc whose
    /// way has no registered name reports as "unknown".
    pub fn report_traversed_ways(&self) -> (r: String)
        ensures
            r@ == join_arrow(dedup_consec(collected_names(*self))),
    {
        let mut names: Vec<String> = Vec::new();
        push_chain_names(self, &mut names);
        proof {
            assert(views_of(names@) =~= collected_names(*self));
        }

        let mut deduped: Vec<String> = Vec::new();
        let n = names.len();
        let mut i: usize = 0;
        while i < n
            invariant
                n == names@.len(),
                0 <= i <= n,
                views_of(deduped@) == dedup_consec(views_of(names@).take(i as int)),
                deduped@.len() > 0 ==> i > 0 && deduped@.last()@ == views_of(names@).take(
                    i as int,
                ).last(),
            decreases n - i,
        {
            let ghost prefix = views_of(names@).take(i as int);
            proof {
                lemma_dedup_push(prefix, names@[i as int]@);
                assert(prefix.push(names@[i as int]@) =~= views_of(names@).take(i + 1));
                if prefix.len() > 0 {
                    lemma_dedup_ends(prefix);
                }
            }
            let take = if deduped.len() == 0 {
                true
            } else {
                let last = deduped.len() - 1;
                !(deduped[last] == names[i])
            };
            if take {
                deduped.push(names[i].clone());
                proof {
                    assert(views_of(deduped@) =~= dedup_consec(views_of(names@).take(i + 1)));
                }
            } else {
                proof {
                    assert(prefix.len() > 0 && prefix.last() == names@[i as int]@);
                    assert(views_of(deduped@) =~= dedup_consec(views_of(names@).take(i + 1)));
                }
            }
            i += 1;
        }
        proof {
            assert(views_of(names@).take(n as int) =~= views_of(names@));
        }

        let mut ways = String::new();
        let nd = deduped.len();
        let mut j: usize = 0;
        while j < nd
            invariant
                nd == deduped@.len(),
                0 <= j <= nd,
                ways@ == join_arrow(views_of(deduped@).take(j as int)),
            decreases nd - j,
        {
            let ghost prefix = views_of(deduped@).take(j as int);
            if j > 0 {
                ways.append("->");
            }
            ways.append(deduped[j].as_str());
            proof {
                assert(prefix.push(deduped@[j as int]@) =~= views_of(deduped@).take(j + 1));
                let full = views_of(deduped@).take(j + 1);
                assert(full.drop_last() =~= prefix);
                if j == 0 {
                    assert(ways@ == full[0]);
                }
            }
            j += 1;
        }
        proof {
            assert(views_of(deduped@).take(nd as int) =~= views_of(deduped@));
        }
        ways
    }
}

/// A faithful chain is itself a path: walking an entry's predecessors
/// spells out arcs from the source to the entry's node whose costs sum to
/// exactly the entry's cost.
pub proof fn lemma_chain_is_path(net: Network, s: int, e: Entry)
    requires
        chain_ok(net, s, e),
    ensures
        exists|ks: Seq<int>|
            is_path(net, s, ks, e.node as int) && path_cost(net, s, ks) == e.cost as int
                && ks.len() == chain_len(e),
    decreases e,
{
    match e.prev_entry {
        None => {
            assert(is_path(net, s, Seq::<int>::empty(), e.node as int));
            assert(path_cost(net, s, Seq::<int>::empty()) == 0);
        },
        Some(p) => {
            lemma_chain_is_path(net, s, *p);
            let ks = choose|ks: Seq<int>|
                is_path(net, s, ks, (*p).node as int) && path_cost(net, s, ks)
                    == (*p).cost as int && ks.len() == chain_len(*p);
            let k = choose|k: int| chain_step_ok(net, *p, e, k);
            lemma_path_extend(net, s, ks, (*p).node as int, k);
            assert(is_path(net, s, ks.push(k), e.node as int));
            assert(path_cost(net, s, ks.push(k)) == e.cost as int);
        },
    }
}

/// Unreachability: against valid endpoints with no directed path between
/// them, a search that meets its contract reports "no path", never a cost.
pub proof fn lemma_unreachable_reports_no_path(
    net: Network,
    source: u64,
    target: u64,
    max_cost: u64,
    trace_path: bool,
    r: SearchResult,
)
    requires
        search_post(net, source, target, max_cost, trace_path, r),
        net.has_node_id(source),
        net.has_node_id(target),
        forall|ks: Seq<int>|
            !is_path(
                net,
                find_key(net.nodes@, source).unwrap(),
                ks,
                find_key(net.nodes@, target).unwrap(),
            ),
    ensures
        r is NoPath,
{
    match r {
        SearchResult::Found(e) => {
            let si = find_key(net.nodes@, source).unwrap();
            let ti = find_key(net.nodes@, target).unwrap();
            let ks = choose|ks: Seq<int>|
                is_path(net, si, ks, ti) && path_cost(net, si, ks) == e.cost as int;
            assert(!is_path(net, si, ks, ti));
        },
        SearchResult::NoPath => {},
        SearchResult::InvalidEndpoint => {},
    }
}

/// Idempotence: two searches over the same graph with identical inputs
/// agree on the outcome kind and, when a path is found, on its node and
/// its cost.
pub proof fn lemma_search_deterministic(
    net: Network,
    source: u64,
    target: u64,
    max_cost: u64,
    trace_path: bool,
    r1: SearchResult,
    r2: SearchResult,
)
    requires
        search_post(net, source, target, max_cost, trace_path, r1),
        search_post(net, source, target, max_cost, trace_path, r2),
    ensures
        r1 is InvalidEndpoint <==> r2 is InvalidEndpoint,
        r1 is NoPath <==> r2 is NoPath,
        r1 is Found <==> r2 is Found,
        found_cost(r1) == found_cost(r2),
{
    let si = find_key(net.nodes@, source).unwrap();
    let ti = find_key(net.nodes@, target).unwrap();
    match (r1, r2) {
        (SearchResult::Found(e1), SearchResult::NoPath) => {
            let ks = choose|ks: Seq<int>|
                is_path(net, si, ks, ti) && path_cost(net, si, ks) == e1.cost as int;
            assert(path_cost(net, si, ks) > search_bound(max_cost));
        },
        (SearchResult::NoPath, SearchResult::Found(e2)) => {
            let ks = choose|ks: Seq<int>|
                is_path(net, si, ks, ti) && path_cost(net, si, ks) == e2.cost as int;
            assert(path_cost(net, si, ks) > search_bound(max_cost));
        },
        (SearchResult::Found(e1), SearchResult::Found(e2)) => {
            let ks1 = choose|ks: Seq<int>|
                is_path(net, si, ks, ti) && path_cost(net, si, ks) == e1.cost as int;
            let ks2 = choose|ks: Seq<int>|
                is_path(net, si, ks, ti) && path_cost(net, si, ks) == e2.cost as int;
            assert(path_cost(net, si, ks1) >= e2.cost as int);
            assert(path_cost(net, si, ks2) >= e1.cost as int);
        },
        _ => {},
    }
}

/// The cost of a found result, if any.
pub open spec fn found_cost(r: SearchResult) -> Option<u64> {
    match r {
        SearchResult::Found(e) => Some(e.cost),
        _ => None,
    }
}

/// Bound respect: a positive ceiling returns the unbounded cost whenever
/// that cost lies within the ceiling, and "no path" whenever it exceeds
/// it; the two runs agree on endpoint validity.
pub proof fn lemma_bound_respected(
    net: Network,
    source: u64,
    target: u64,
    m: u64,
    trace1: bool,
    trace2: bool,
    r_bounded: SearchResult,
    r_unbounded: SearchResult,
)
    requires
        m > 0,
        search_post(net, source, target, m, trace1, r_bounded),
        search_post(net, source, target, 0, trace2, r_unbounded),
    ensures
        found_cost(r_unbounded) is Some && found_cost(r_unbounded).unwrap() <= m ==> found_cost(
            r_bounded,
        ) == found_cost(r_unbounded),
        found_cost(r_unbounded) is Some && found_cost(r_unbounded).unwrap() > m
            ==> r_bounded is NoPath,
        r_unbounded is NoPath ==> r_bounded is NoPath,
        r_unbounded is InvalidEndpoint <==> r_bounded is InvalidEndpoint,
{
    let si = find_key(net.nodes@, source).unwrap();
    let ti = find_key(net.nodes@, target).unwrap();
    match (r_unbounded, r_bounded) {
        (SearchResult::Found(e), SearchResult::Found(eb)) => {
            let ks1 = choose|ks: Seq<int>|
                is_path(net, si, ks, ti) && path_cost(net, si, ks) == e.cost as int;
            let ks2 = choose|ks: Seq<int>|
                is_path(net, si, ks, ti) && path_cost(net, si, ks) == eb.cost as int;
            assert(path_cost(net, si, ks1) >= eb.cost as int);
            assert(path_cost(net, si, ks2) >= e.cost as int);
        },
        (SearchResult::Found(e), SearchResult::NoPath) => {
            let ks = choose|ks: Seq<int>|
                is_path(net, si, ks, ti) && path_cost(net, si, ks) == e.cost as int;
            assert(path_cost(net, si, ks) > m as int);
        },
        (SearchResult::NoPath, SearchResult::Found(eb)) => {
            let ks = choose|ks: Seq<int>|
                is_path(net, si, ks, ti) && path_cost(net, si, ks) == eb.cost as int;
            assert(path_cost(net, si, ks) > u64::MAX as int);
        },
        _ => {},
    }
}

} // verus!
