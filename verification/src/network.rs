//! The routing graph: a mutable builder keyed by sparse external
//! identifiers, and the immutable compacted network it produces.

use crate::keyed::{
    find_key, key_map, keys_unique, lemma_find_key, lemma_find_key_map, lemma_key_map_contains,
    lemma_key_map_index, lemma_key_map_push, lemma_key_map_update, Keyed,
};
use vstd::prelude::*;

verus! {

/// External identifier of a raw map node.
pub type OSMNodeId = u64;

/// Dense zero-based index of a node retained by a compacted network.
pub type NodeIndex = usize;

/// External identifier of a way (a named road or path).
pub type OSMWayId = u64;

/// A raw map node. Coordinates are fixed-point degrees scaled by 10^7.
#[derive(Clone, Copy, Debug)]
pub struct Node {
    pub id: OSMNodeId,
    pub latitude: i32,
    pub longitude: i32,
}

/// Node identity is the external id alone.
impl PartialEq for Node {
    fn eq(&self, other: &Node) -> bool {
        self.id == other.id
    }
}

impl vstd::std_specs::cmp::PartialEqSpecImpl for Node {
    open spec fn obeys_eq_spec() -> bool {
        true
    }

    open spec fn eq_spec(&self, other: &Node) -> bool {
        self.id == other.id
    }
}

impl Eq for Node {}

/// A directed arc to `head_node`, owned by the way `part_of_way`.
/// The head is an external id inside the builder and a dense index
/// in the compacted network.
#[derive(Clone, Copy, Debug)]
pub struct Arc<T> {
    pub head_node: T,
    pub distance: u64,
    pub cost: u64,
    pub part_of_way: OSMWayId,
}

/// Metadata of a way: its external id and optional display name.
#[derive(Clone, Debug)]
pub struct WayInfo {
    pub id: OSMWayId,
    pub name: Option<String>,
}

impl Keyed for Node {
    open spec fn key(&self) -> u64 {
        self.id
    }
}

impl Keyed for WayInfo {
    open spec fn key(&self) -> u64 {
        self.id
    }
}

/// One builder adjacency row: the outgoing arcs of `node`.
#[derive(Clone, Debug)]
pub struct AdjacencyRow {
    pub node: OSMNodeId,
    pub arcs: Vec<Arc<OSMNodeId>>,
}

impl Keyed for AdjacencyRow {
    open spec fn key(&self) -> u64 {
        self.node
    }
}

/// Accumulates nodes, arcs and way metadata under external ids,
/// to be consumed by one `build_network` call.
#[derive(Clone, Debug)]
pub struct NetworkBuilder {
    all_nodes: Vec<Node>,
    used_nodes: Vec<OSMNodeId>,
    way_info: Vec<WayInfo>,
    adjacent_arcs: Vec<AdjacencyRow>,
}

impl NetworkBuilder {
    /// The node table: external id to node record.
    pub closed spec fn nodes(&self) -> Map<u64, Node> {
        key_map(self.all_nodes@)
    }

    /// The ids marked as used: every endpoint of every inserted arc.
    pub closed spec fn used(&self) -> Set<u64> {
        self.used_nodes@.to_set()
    }

    /// The used ids in first-use order; compaction retains them in this order.
    pub closed spec fn used_seq(&self) -> Seq<u64> {
        self.used_nodes@
    }

    /// The way-metadata table.
    pub closed spec fn ways(&self) -> Map<u64, WayInfo> {
        key_map(self.way_info@)
    }

    /// The outgoing arcs recorded under a source id, in insertion order.
    pub closed spec fn arcs_of(&self, id: u64) -> Seq<Arc<u64>> {
        arcs_in_rows(self.adjacent_arcs@, id)
    }

    /// Internal consistency: each table keyed at most once per id, used ids
    /// listed once, and every arc endpoint marked as used.
    pub closed spec fn wf(&self) -> bool {
        &&& keys_unique(self.all_nodes@)
        &&& self.used_nodes@.no_duplicates()
        &&& keys_unique(self.way_info@)
        &&& keys_unique(self.adjacent_arcs@)
        &&& forall|i: int|
            0 <= i < self.adjacent_arcs@.len() ==> self.used_nodes@.contains(
                #[trigger] self.adjacent_arcs@[i].node,
            )
        &&& forall|i: int, j: int|
            0 <= i < self.adjacent_arcs@.len() && 0 <= j < self.adjacent_arcs@[i].arcs@.len()
                ==> self.used_nodes@.contains(#[trigger] self.adjacent_arcs@[i].arcs@[j].head_node)
    }

    /// An empty builder.
    pub fn new() -> (b: NetworkBuilder)
        ensures
            b.wf(),
            b.nodes() == Map::<u64, Node>::empty(),
            b.used() == Set::<u64>::empty(),
            b.used_seq() == Seq::<u64>::empty(),
            b.ways() == Map::<u64, WayInfo>::empty(),
            forall|id: u64| #[trigger] b.arcs_of(id) == Seq::<Arc<u64>>::empty(),
            b.total_arc_count() == 0,
    {
        let b = NetworkBuilder {
            all_nodes: Vec::new(),
            used_nodes: Vec::new(),
            way_info: Vec::new(),
            adjacent_arcs: Vec::new(),
        };
        proof {
            assert(b.used_nodes@.to_set() =~= Set::<u64>::empty());
        }
        b
    }

    /// Inserts or overwrites the node keyed by its external id.
    pub fn insert_node(&mut self, node: Node)
        requires
            old(self).wf(),
        ensures
            final(self).wf(),
            final(self).nodes() == old(self).nodes().insert(node.id, node),
            final(self).used() == old(self).used(),
            final(self).used_seq() == old(self).used_seq(),
            final(self).ways() == old(self).ways(),
            forall|id: u64| #[trigger] final(self).arcs_of(id) == old(self).arcs_of(id),
            final(self).total_arc_count() == old(self).total_arc_count(),
    {
        let n = self.all_nodes.len();
        let mut i: usize = 0;
        while i < n
            invariant
                self == old(self),
                old(self).wf(),
                n == self.all_nodes@.len(),
                forall|j: int| 0 <= j < i ==> self.all_nodes@[j].id != node.id,
            decreases n - i,
        {
            if self.all_nodes[i].id == node.id {
                proof {
                    lemma_key_map_update(self.all_nodes@, i as int, node);
                }
                self.all_nodes.set(i, node);
                return ;
            }
            i += 1;
        }
        proof {
            lemma_key_map_push(self.all_nodes@, node);
            lemma_key_map_contains(self.all_nodes@, node.id);
        }
        self.all_nodes.push(node);
    }

    /// Returns the node inserted under an external id, or `None`.
    pub fn get_node(&self, node_id: &OSMNodeId) -> (r: Option<&Node>)
        requires
            self.wf(),
        ensures
            match r {
                Some(n) => self.nodes().contains_key(*node_id) && *n == self.nodes()[*node_id]
                    && n.id == *node_id,
                None => !self.nodes().contains_key(*node_id),
            },
    {
        proof {
            lemma_key_map_contains(self.all_nodes@, *node_id);
        }
        let n = self.all_nodes.len();
        let mut i: usize = 0;
        while i < n
            invariant
                self.wf(),
                n == self.all_nodes@.len(),
                forall|j: int| 0 <= j < i ==> self.all_nodes@[j].id != *node_id,
            decreases n - i,
        {
            if self.all_nodes[i].id == *node_id {
                proof {
                    lemma_key_map_index(self.all_nodes@, i as int);
                }
                return Some(&self.all_nodes[i]);
            }
            i += 1;
        }
        None
    }

    /// Records or overwrites the metadata of a way.
    pub fn insert_way_info(&mut self, way_info: WayInfo)
        requires
            old(self).wf(),
        ensures
            final(self).wf(),
            final(self).ways() == old(self).ways().insert(way_info.id, way_info),
            final(self).nodes() == old(self).nodes(),
            final(self).used() == old(self).used(),
            final(self).used_seq() == old(self).used_seq(),
            forall|id: u64| #[trigger] final(self).arcs_of(id) == old(self).arcs_of(id),
            final(self).total_arc_count() == old(self).total_arc_count(),
    {
        let n = self.way_info.len();
        let mut i: usize = 0;
        while i < n
            invariant
                self == old(self),
                old(self).wf(),
                n == self.way_info@.len(),
                forall|j: int| 0 <= j < i ==> self.way_info@[j].id != way_info.id,
            decreases n - i,
        {
            if self.way_info[i].id == way_info.id {
                proof {
                    lemma_key_map_update(self.way_info@, i as int, way_info);
                }
                self.way_info.set(i, way_info);
                return ;
            }
            i += 1;
        }
        proof {
            lemma_key_map_push(self.way_info@, way_info);
            lemma_key_map_contains(self.way_info@, way_info.id);
        }
        self.way_info.push(way_info);
    }

    /// Adds an id to the used set, keeping the list duplicate-free.
    fn mark_used(&mut self, id: OSMNodeId)
        requires
            old(self).wf(),
        ensures
            final(self).wf(),
            final(self).used() == old(self).used().insert(id),
            old(self).used_seq().is_prefix_of(final(self).used_seq()),
            final(self).used_seq().contains(id),
            final(self).all_nodes == old(self).all_nodes,
            final(self).way_info == old(self).way_info,
            final(self).adjacent_arcs == old(self).adjacent_arcs,
    {
        let n = self.used_nodes.len();
        let mut i: usize = 0;
        while i < n
            invariant
                self == old(self),
                old(self).wf(),
                n == self.used_nodes@.len(),
                forall|j: int| 0 <= j < i ==> self.used_nodes@[j] != id,
            decreases n - i,
        {
            if self.used_nodes[i] == id {
                proof {
                    assert(self.used_nodes@.contains(id));
                    assert(self.used() =~= old(self).used().insert(id));
                    assert(self.used_seq().is_prefix_of(self.used_seq())) by {
                        assert(self.used_seq().subrange(0, self.used_seq().len() as int)
                            =~= self.used_seq());
                    }
                }
                return ;
            }
            i += 1;
        }
        proof {
            assert(!self.used_nodes@.contains(id));
            assert(self.used_nodes@.push(id).to_set() =~= self.used_nodes@.to_set().insert(id))
                by {
                assert forall|x: u64| self.used_nodes@.push(id).contains(x) implies self
                    .used_nodes@.to_set().insert(id).contains(x) by {
                    let j = choose|j: int|
                        0 <= j < self.used_nodes@.push(id).len() && self.used_nodes@.push(id)[j]
                            == x;
                    if j < self.used_nodes@.len() {
                        assert(self.used_nodes@[j] == x);
                    }
                }
                assert forall|x: u64| self.used_nodes@.to_set().insert(id).contains(x)
                    implies self.used_nodes@.push(id).contains(x) by {
                    if x == id {
                        assert(self.used_nodes@.push(id)[self.used_nodes@.len() as int] == x);
                    } else {
                        let j = choose|j: int|
                            0 <= j < self.used_nodes@.len() && self.used_nodes@[j] == x;
                        assert(self.used_nodes@.push(id)[j] == x);
                    }
                }
            }
            assert(self.used_nodes@.push(id).no_duplicates()) by {
                assert(forall|j: int|
                    0 <= j < self.used_nodes@.len() ==> self.used_nodes@.push(id)[j]
                        == self.used_nodes@[j]);
            }
            assert(self.used_nodes@.is_prefix_of(self.used_nodes@.push(id))) by {
                assert(self.used_nodes@.push(id).subrange(0, self.used_nodes@.len() as int)
                    =~= self.used_nodes@);
            }
            assert(self.used_nodes@.push(id)[self.used_nodes@.len() as int] == id);
        }
        self.used_nodes.push(id);
    }

    /// Appends an arc to the adjacency list of `start_node` and marks both
    /// endpoints as used. Parallel arcs between one pair are all retained.
    pub fn insert_arc(&mut self, start_node: OSMNodeId, arc: Arc<OSMNodeId>)
        requires
            old(self).wf(),
        ensures
            final(self).wf(),
            final(self).nodes() == old(self).nodes(),
            final(self).ways() == old(self).ways(),
            final(self).used() == old(self).used().insert(start_node).insert(arc.head_node),
            old(self).used_seq().is_prefix_of(final(self).used_seq()),
            final(self).arcs_of(start_node) == old(self).arcs_of(start_node).push(arc),
            forall|id: u64|
                id != start_node ==> #[trigger] final(self).arcs_of(id) == old(self).arcs_of(id),
            final(self).total_arc_count() == old(self).total_arc_count() + 1,
    {
        self.mark_used(start_node);
        self.mark_used(arc.head_node);
        proof {
            assert(self.used() =~= old(self).used().insert(start_node).insert(arc.head_node));
            lemma_find_key_map(self.adjacent_arcs@, start_node);
        }
        let n = self.adjacent_arcs.len();
        let mut i: usize = 0;
        while i < n
            invariant
                self.wf(),
                self.all_nodes == old(self).all_nodes,
                self.way_info == old(self).way_info,
                self.adjacent_arcs == old(self).adjacent_arcs,
                self.used() == old(self).used().insert(start_node).insert(arc.head_node),
                old(self).used_seq().is_prefix_of(self.used_seq()),
                self.used_seq().contains(start_node),
                self.used_seq().contains(arc.head_node),
                n == self.adjacent_arcs@.len(),
                forall|j: int| 0 <= j < i ==> self.adjacent_arcs@[j].node != start_node,
            decreases n - i,
        {
            if self.adjacent_arcs[i].node == start_node {
                let ghost rows0 = self.adjacent_arcs@;
                let mut row = self.adjacent_arcs.remove(i);
                row.arcs.push(arc);
                proof {
                    lemma_key_map_index(rows0, i as int);
                    lemma_key_map_update(rows0, i as int, row);
                    assert(rows0.remove(i as int).insert(i as int, row) =~= rows0.update(
                        i as int,
                        row,
                    ));
                    lemma_sum_row_arcs_update(rows0, i as int, row);
                }
                self.adjacent_arcs.insert(i, row);
                proof {
                    lemma_key_map_contains(self.adjacent_arcs@, start_node);
                }
                return ;
            }
            i += 1;
        }
        let row = AdjacencyRow { node: start_node, arcs: vec![arc] };
        proof {
            lemma_key_map_contains(self.adjacent_arcs@, start_node);
            lemma_key_map_push(self.adjacent_arcs@, row);
            assert(row.arcs@ =~= Seq::<Arc<u64>>::empty().push(arc));
            lemma_sum_row_arcs_push(self.adjacent_arcs@, row);
        }
        self.adjacent_arcs.push(row);
    }
}

/// Total number of arcs across a sequence of adjacency rows.
pub open spec fn sum_row_arcs(rows: Seq<AdjacencyRow>) -> int
    decreases rows.len(),
{
    if rows.len() == 0 {
        0
    } else {
        sum_row_arcs(rows.drop_last()) + rows.last().arcs@.len()
    }
}

/// Each prefix sum is bounded by the total.
proof fn lemma_sum_row_arcs_prefix(rows: Seq<AdjacencyRow>, i: int)
    requires
        0 <= i <= rows.len(),
    ensures
        0 <= sum_row_arcs(rows.take(i)) <= sum_row_arcs(rows),
        i < rows.len() ==> sum_row_arcs(rows.take(i + 1)) == sum_row_arcs(rows.take(i))
            + rows[i].arcs@.len(),
    decreases rows.len() - i,
{
    if i < rows.len() {
        assert(rows.take(i + 1).drop_last() =~= rows.take(i));
        assert(rows.take(i + 1).last() == rows[i]);
        lemma_sum_row_arcs_prefix(rows, i + 1);
        lemma_sum_row_arcs_nonneg(rows.take(i));
    } else {
        assert(rows.take(i) =~= rows);
        lemma_sum_row_arcs_nonneg(rows);
    }
}

proof fn lemma_sum_row_arcs_nonneg(rows: Seq<AdjacencyRow>)
    ensures
        0 <= sum_row_arcs(rows),
    decreases rows.len(),
{
    if rows.len() > 0 {
        lemma_sum_row_arcs_nonneg(rows.drop_last());
    }
}

/// Replacing one row changes the total by the difference of that row's
/// arc count.
proof fn lemma_sum_row_arcs_update(rows: Seq<AdjacencyRow>, i: int, r: AdjacencyRow)
    requires
        0 <= i < rows.len(),
    ensures
        sum_row_arcs(rows.update(i, r)) == sum_row_arcs(rows) - rows[i].arcs@.len()
            + r.arcs@.len(),
    decreases rows.len(),
{
    let t = rows.update(i, r);
    if i == rows.len() - 1 {
        assert(t.drop_last() =~= rows.drop_last());
        assert(t.last() == r);
    } else {
        assert(t.drop_last() =~= rows.drop_last().update(i, r));
        assert(t.last() == rows.last());
        assert(rows.drop_last()[i] == rows[i]);
        lemma_sum_row_arcs_update(rows.drop_last(), i, r);
    }
}

/// Appending a row adds its arc count to the total.
proof fn lemma_sum_row_arcs_push(rows: Seq<AdjacencyRow>, r: AdjacencyRow)
    ensures
        sum_row_arcs(rows.push(r)) == sum_row_arcs(rows) + r.arcs@.len(),
{
    assert(rows.push(r).drop_last() =~= rows);
    assert(rows.push(r).last() == r);
}

impl NetworkBuilder {
    /// Total number of arcs recorded so far.
    pub closed spec fn total_arc_count(&self) -> int {
        sum_row_arcs(self.adjacent_arcs@)
    }

    /// Every id marked as used has a node record; compaction succeeds
    /// exactly on such builders.
    pub open spec fn buildable(&self) -> bool {
        forall|id: u64| self.used().contains(id) ==> self.nodes().contains_key(id)
    }

    /// Counts all recorded arcs across all adjacency lists.
    pub fn total_arcs(&self) -> (n: usize)
        requires
            self.total_arc_count() <= usize::MAX,
        ensures
            n == self.total_arc_count(),
    {
        let rows = self.adjacent_arcs.len();
        let mut acc: usize = 0;
        let mut i: usize = 0;
        while i < rows
            invariant
                self.total_arc_count() <= usize::MAX,
                rows == self.adjacent_arcs@.len(),
                0 <= i <= rows,
                acc == sum_row_arcs(self.adjacent_arcs@.take(i as int)),
            decreases rows - i,
        {
            proof {
                lemma_sum_row_arcs_prefix(self.adjacent_arcs@, i as int);
                lemma_sum_row_arcs_prefix(self.adjacent_arcs@, i + 1);
            }
            acc = acc + self.adjacent_arcs[i].arcs.len();
            i += 1;
        }
        proof {
            assert(self.adjacent_arcs@.take(rows as int) =~= self.adjacent_arcs@);
        }
        acc
    }
}

/// The arcs a sequence of adjacency rows records under a source id.
spec fn arcs_in_rows(rows: Seq<AdjacencyRow>, id: u64) -> Seq<Arc<u64>> {
    if key_map(rows).contains_key(id) {
        key_map(rows)[id].arcs@
    } else {
        Seq::empty()
    }
}

/// Finds the first position of a node record with the given id.
fn find_node_pos(nodes: &Vec<Node>, id: u64) -> (r: Option<usize>)
    ensures
        match r {
            Some(p) => p < nodes@.len() && nodes@[p as int].id == id && find_key(nodes@, id)
                == Some(p as int),
            None => find_key(nodes@, id) is None,
        },
{
    proof {
        lemma_find_key(nodes@, id);
    }
    let n = nodes.len();
    let mut i: usize = 0;
    while i < n
        invariant
            n == nodes@.len(),
            forall|j: int| 0 <= j < i ==> nodes@[j].id != id,
        decreases n - i,
    {
        if nodes[i].id == id {
            proof {
                lemma_find_key(nodes@, id);
            }
            return Some(i);
        }
        i += 1;
    }
    None
}

/// Finds the first adjacency row recorded under a source id.
fn find_row_pos(rows: &Vec<AdjacencyRow>, id: u64) -> (r: Option<usize>)
    ensures
        match r {
            Some(p) => p < rows@.len() && rows@[p as int].node == id && find_key(rows@, id)
                == Some(p as int),
            None => find_key(rows@, id) is None,
        },
{
    proof {
        lemma_find_key(rows@, id);
    }
    let n = rows.len();
    let mut i: usize = 0;
    while i < n
        invariant
            n == rows@.len(),
            forall|j: int| 0 <= j < i ==> rows@[j].node != id,
        decreases n - i,
    {
        if rows[i].node == id {
            proof {
                lemma_find_key(rows@, id);
            }
            return Some(i);
        }
        i += 1;
    }
    None
}

/// The immutable compacted routing graph. Every retained node has a dense
/// index; `forward_graph[i]` lists the outgoing arcs of node `i`, each arc
/// referring to its head by dense index.
#[derive(Debug)]
pub struct Network {
    pub nodes: Vec<Node>,
    pub forward_graph: Vec<Vec<Arc<NodeIndex>>>,
    pub way_info: Vec<WayInfo>,
}

/// A compacted arc mirrors a builder arc: same distance, cost and way,
/// with the head id resolved to the dense index that carries it.
pub open spec fn arc_resolves(nodes: Seq<Node>, b: Arc<NodeIndex>, a: Arc<u64>) -> bool {
    &&& b.distance == a.distance
    &&& b.cost == a.cost
    &&& b.part_of_way == a.part_of_way
    &&& (b.head_node as int) < nodes.len()
    &&& find_key(nodes, a.head_node) == Some(b.head_node as int)
}

impl Network {
    /// Structural invariant: node ids unique, one adjacency row per node,
    /// every arc head a valid dense index, way ids unique.
    pub open spec fn wf(&self) -> bool {
        &&& keys_unique(self.nodes@)
        &&& self.forward_graph@.len() == self.nodes@.len()
        &&& keys_unique(self.way_info@)
        &&& forall|i: int, j: int|
            0 <= i < self.forward_graph@.len() && 0 <= j < self.forward_graph@[i]@.len() ==> (
            #[trigger] self.forward_graph@[i]@[j].head_node) < self.nodes@.len()
    }

    /// Whether an external id resolves to a retained node.
    pub open spec fn has_node_id(&self, id: u64) -> bool {
        find_key(self.nodes@, id) is Some
    }

    /// Resolves an external id to the retained node record.
    pub fn get_node(&self, node_id: &OSMNodeId) -> (r: Option<&Node>)
        ensures
            match r {
                Some(n) => self.has_node_id(*node_id) && *n == self.nodes@[find_key(
                    self.nodes@,
                    *node_id,
                ).unwrap()],
                None => !self.has_node_id(*node_id),
            },
    {
        match find_node_pos(&self.nodes, *node_id) {
            Some(p) => Some(&self.nodes[p]),
            None => None,
        }
    }

    /// Resolves an external id to its dense index.
    pub fn node_index(&self, node_id: &OSMNodeId) -> (r: Option<NodeIndex>)
        ensures
            match r {
                Some(ix) => find_key(self.nodes@, *node_id) == Some(ix as int),
                None => !self.has_node_id(*node_id),
            },
    {
        find_node_pos(&self.nodes, *node_id)
    }

    /// The ordered outgoing arcs of the node an external id resolves to.
    pub fn fwd_arcs_from_node(&self, node_id: &OSMNodeId) -> (r: Option<&Vec<Arc<NodeIndex>>>)
        requires
            self.wf(),
        ensures
            match r {
                Some(v) => self.has_node_id(*node_id) && *v == self.forward_graph@[find_key(
                    self.nodes@,
                    *node_id,
                ).unwrap()],
                None => !self.has_node_id(*node_id),
            },
    {
        match find_node_pos(&self.nodes, *node_id) {
            Some(p) => Some(&self.forward_graph[p]),
            None => None,
        }
    }

    /// The metadata registered for the way an arc belongs to.
    pub fn get_way_info(&self, arc: &Arc<NodeIndex>) -> (r: Option<&WayInfo>)
        ensures
            match r {
                Some(w) => find_key(self.way_info@, arc.part_of_way) is Some && *w
                    == self.way_info@[find_key(self.way_info@, arc.part_of_way).unwrap()],
                None => find_key(self.way_info@, arc.part_of_way) is None,
            },
    {
        proof {
            lemma_find_key(self.way_info@, arc.part_of_way);
        }
        let n = self.way_info.len();
        let mut i: usize = 0;
        while i < n
            invariant
                n == self.way_info@.len(),
                forall|j: int| 0 <= j < i ==> self.way_info@[j].id != arc.part_of_way,
            decreases n - i,
        {
            if self.way_info[i].id == arc.part_of_way {
                proof {
                    lemma_find_key(self.way_info@, arc.part_of_way);
                }
                return Some(&self.way_info[i]);
            }
            i += 1;
        }
        None
    }

    /// Number of retained nodes.
    pub fn node_count(&self) -> (n: usize)
        ensures
            n == self.nodes@.len(),
    {
        self.nodes.len()
    }

    /// Total number of arcs across all adjacency lists.
    pub fn arc_count(&self) -> (n: usize)
        requires
            sum_fwd_arcs(self.forward_graph@) <= usize::MAX,
        ensures
            n == sum_fwd_arcs(self.forward_graph@),
    {
        let rows = self.forward_graph.len();
        let mut acc: usize = 0;
        let mut i: usize = 0;
        while i < rows
            invariant
                sum_fwd_arcs(self.forward_graph@) <= usize::MAX,
                rows == self.forward_graph@.len(),
                0 <= i <= rows,
                acc == sum_fwd_arcs(self.forward_graph@.take(i as int)),
            decreases rows - i,
        {
            proof {
                lemma_sum_fwd_arcs_prefix(self.forward_graph@, i as int);
                lemma_sum_fwd_arcs_prefix(self.forward_graph@, i + 1);
            }
            acc = acc + self.forward_graph[i].len();
            i += 1;
        }
        proof {
            assert(self.forward_graph@.take(rows as int) =~= self.forward_graph@);
        }
        acc
    }
}

/// Total number of arcs across a sequence of compacted adjacency lists.
pub open spec fn sum_fwd_arcs(rows: Seq<Vec<Arc<NodeIndex>>>) -> int
    decreases rows.len(),
{
    if rows.len() == 0 {
        0
    } else {
        sum_fwd_arcs(rows.drop_last()) + rows.last()@.len()
    }
}

proof fn lemma_sum_fwd_arcs_nonneg(rows: Seq<Vec<Arc<NodeIndex>>>)
    ensures
        0 <= sum_fwd_arcs(rows),
    decreases rows.len(),
{
    if rows.len() > 0 {
        lemma_sum_fwd_arcs_nonneg(rows.drop_last());
    }
}

proof fn lemma_sum_fwd_arcs_prefix(rows: Seq<Vec<Arc<NodeIndex>>>, i: int)
    requires
        0 <= i <= rows.len(),
    ensures
        0 <= sum_fwd_arcs(rows.take(i)) <= sum_fwd_arcs(rows),
        i < rows.len() ==> sum_fwd_arcs(rows.take(i + 1)) == sum_fwd_arcs(rows.take(i))
            + rows[i]@.len(),
    decreases rows.len() - i,
{
    if i < rows.len() {
        assert(rows.take(i + 1).drop_last() =~= rows.take(i));
        assert(rows.take(i + 1).last() == rows[i]);
        lemma_sum_fwd_arcs_prefix(rows, i + 1);
        lemma_sum_fwd_arcs_nonneg(rows.take(i));
    } else {
        assert(rows.take(i) =~= rows);
        lemma_sum_fwd_arcs_nonneg(rows);
    }
}

/// Sum of the arc counts recorded under each id of a sequence.
spec fn sum_arcs_over_ids(rows: Seq<AdjacencyRow>, ids: Seq<u64>) -> int
    decreases ids.len(),
{
    if ids.len() == 0 {
        0
    } else {
        sum_arcs_over_ids(rows, ids.drop_last()) + arcs_in_rows(rows, ids.last()).len()
    }
}

/// Appending a row changes only what its own key records.
proof fn lemma_arcs_in_rows_push(rows: Seq<AdjacencyRow>, r: AdjacencyRow, id: u64)
    ensures
        arcs_in_rows(rows.push(r), id) == if id == r.node {
            r.arcs@
        } else {
            arcs_in_rows(rows, id)
        },
{
    lemma_key_map_push(rows, r);
}

/// Appending a row whose key the rows lack, and which `ids` names once,
/// raises the per-id sum by that row's arc count.
proof fn lemma_sum_ids_push_row(rows: Seq<AdjacencyRow>, r: AdjacencyRow, ids: Seq<u64>)
    requires
        ids.no_duplicates(),
        ids.contains(r.node),
        !key_map(rows).contains_key(r.node),
    ensures
        sum_arcs_over_ids(rows.push(r), ids) == sum_arcs_over_ids(rows, ids) + r.arcs@.len(),
    decreases ids.len(),
{
    let prefix = ids.drop_last();
    if ids.last() == r.node {
        assert(!prefix.contains(r.node)) by {
            if prefix.contains(r.node) {
                let j = choose|j: int| 0 <= j < prefix.len() && prefix[j] == r.node;
                assert(ids[j] == ids[ids.len() - 1]);
            }
        }
        lemma_arcs_in_rows_push(rows, r, r.node);
        assert(arcs_in_rows(rows, r.node) =~= Seq::<Arc<u64>>::empty());
        assert forall|id: u64| id != r.node implies #[trigger] arcs_in_rows(rows.push(r), id)
            == arcs_in_rows(rows, id) by {
            lemma_arcs_in_rows_push(rows, r, id);
        }
        lemma_sum_ids_same_on(rows.push(r), rows, prefix, r.node);
    } else {
        assert(prefix.contains(r.node)) by {
            let j = choose|j: int| 0 <= j < ids.len() && ids[j] == r.node;
            assert(prefix[j] == r.node);
        }
        assert(prefix.no_duplicates());
        lemma_sum_ids_push_row(rows, r, prefix);
        lemma_arcs_in_rows_push(rows, r, ids.last());
    }
}

/// Two row sequences that record the same arcs under every id but one
/// absent from `ids` have the same per-id sum over `ids`.
proof fn lemma_sum_ids_same_on(
    rows1: Seq<AdjacencyRow>,
    rows2: Seq<AdjacencyRow>,
    ids: Seq<u64>,
    except: u64,
)
    requires
        !ids.contains(except),
        forall|id: u64|
            id != except ==> #[trigger] arcs_in_rows(rows1, id) == arcs_in_rows(rows2, id),
    ensures
        sum_arcs_over_ids(rows1, ids) == sum_arcs_over_ids(rows2, ids),
    decreases ids.len(),
{
    if ids.len() > 0 {
        assert(!ids.drop_last().contains(except)) by {
            if ids.drop_last().contains(except) {
                let j = choose|j: int|
                    0 <= j < ids.drop_last().len() && ids.drop_last()[j] == except;
                assert(ids[j] == except);
            }
        }
        lemma_sum_ids_same_on(rows1, rows2, ids.drop_last(), except);
        assert(ids.contains(ids.last())) by {
            assert(ids[ids.len() - 1] == ids.last());
        }
        assert(ids.last() != except);
    }
}

/// With unique row keys, each named once by `ids` and nothing else named,
/// summing per id equals summing per row.
proof fn lemma_sum_rows_as_ids(rows: Seq<AdjacencyRow>, ids: Seq<u64>)
    requires
        keys_unique(rows),
        ids.no_duplicates(),
        forall|i: int| 0 <= i < rows.len() ==> ids.contains(#[trigger] rows[i].node),
    ensures
        sum_arcs_over_ids(rows, ids) == sum_row_arcs(rows),
    decreases rows.len(),
{
    if rows.len() == 0 {
        lemma_sum_ids_empty_rows(rows, ids);
    } else {
        let rows0 = rows.drop_last();
        let r = rows.last();
        assert(keys_unique(rows0));
        assert(rows0.push(r) =~= rows);
        assert(!key_map(rows0).contains_key(r.node)) by {
            lemma_key_map_contains(rows0, r.node);
            if key_map(rows0).contains_key(r.node) {
                let i = choose|i: int| 0 <= i < rows0.len() && rows0[i].key() == r.node;
                assert(rows[i].node == rows[rows.len() - 1].node);
            }
        }
        assert(forall|i: int| 0 <= i < rows0.len() ==> ids.contains(#[trigger] rows0[i].node))
            by {
            assert(forall|i: int| 0 <= i < rows0.len() ==> rows0[i] == rows[i]);
        }
        lemma_sum_rows_as_ids(rows0, ids);
        assert(ids.contains(r.node)) by {
            assert(rows[rows.len() - 1].node == r.node);
        }
        lemma_sum_ids_push_row(rows0, r, ids);
        assert(sum_arcs_over_ids(rows0.push(r), ids) == sum_arcs_over_ids(rows, ids));
    }
}

proof fn lemma_sum_ids_empty_rows(rows: Seq<AdjacencyRow>, ids: Seq<u64>)
    requires
        rows.len() == 0,
    ensures
        sum_arcs_over_ids(rows, ids) == 0,
    decreases ids.len(),
{
    if ids.len() > 0 {
        lemma_sum_ids_empty_rows(rows, ids.drop_last());
        assert(arcs_in_rows(rows, ids.last()).len() == 0);
    }
}

/// What compaction promises: the network retains exactly the used ids, in
/// first-use order, each carrying the builder's node record; adjacency is
/// the builder's, with heads resolved to dense indices; way metadata is
/// carried over unchanged.
pub open spec fn compacts_to(b: NetworkBuilder, net: Network) -> bool {
    &&& net.wf()
    &&& net.nodes@.len() == b.used_seq().len()
    &&& forall|i: int|
        0 <= i < net.nodes@.len() ==> (#[trigger] net.nodes@[i].id) == b.used_seq()[i]
            && b.nodes().contains_key(b.used_seq()[i]) && net.nodes@[i] == b.nodes()[b.used_seq()[i]]
    &&& key_map(net.way_info@) == b.ways()
    &&& forall|i: int|
        0 <= i < net.nodes@.len() ==> (#[trigger] net.forward_graph@[i]@.len()) == b.arcs_of(
            net.nodes@[i].id,
        ).len()
    &&& forall|i: int, j: int|
        0 <= i < net.nodes@.len() && 0 <= j < net.forward_graph@[i]@.len() ==> arc_resolves(
            net.nodes@,
            #[trigger] net.forward_graph@[i]@[j],
            b.arcs_of(net.nodes@[i].id)[j],
        )
    &&& sum_fwd_arcs(net.forward_graph@) == b.total_arc_count()
}

impl NetworkBuilder {
    /// Consumes the builder and produces the compacted routing graph.
    /// Fails exactly when some used id was never inserted as a node.
    pub fn build_network(self) -> (r: Option<Network>)
        requires
            self.wf(),
        ensures
            match r {
                Some(net) => self.buildable() && compacts_to(self, net),
                None => !self.buildable(),
            },
    {
        let ghost b = self;
        let NetworkBuilder { all_nodes, used_nodes, way_info, adjacent_arcs } = self;

        let mut nodes: Vec<Node> = Vec::new();
        let n_used = used_nodes.len();
        let mut i: usize = 0;
        while i < n_used
            invariant
                b == self,
                b.wf(),
                all_nodes@ == b.all_nodes@,
                used_nodes@ == b.used_nodes@,
                n_used == used_nodes@.len(),
                0 <= i <= n_used,
                nodes@.len() == i,
                forall|k: int|
                    0 <= k < i ==> (#[trigger] nodes@[k].id) == used_nodes@[k] && key_map(
                        all_nodes@,
                    ).contains_key(used_nodes@[k]) && nodes@[k] == key_map(
                        all_nodes@,
                    )[used_nodes@[k]],
            decreases n_used - i,
        {
            let id = used_nodes[i];
            match find_node_pos(&all_nodes, id) {
                Some(p) => {
                    proof {
                        lemma_find_key_map(all_nodes@, id);
                    }
                    let node = all_nodes[p];
                    nodes.push(node);
                },
                None => {
                    proof {
                        lemma_find_key_map(all_nodes@, id);
                        assert(!b.nodes().contains_key(id));
                        assert(b.used_nodes@.contains(id)) by {
                            assert(b.used_nodes@[i as int] == id);
                        }
                        assert(b.used().contains(id));
                        assert(!b.buildable());
                    }
                    return None;
                },
            }
            i += 1;
        }

        proof {
            assert(keys_unique(nodes@)) by {
                assert forall|p: int, q: int| 0 <= p < q < nodes@.len() implies nodes@[p].id
                    != nodes@[q].id by {
                    assert(nodes@[p].id == used_nodes@[p]);
                    assert(nodes@[q].id == used_nodes@[q]);
                }
            }
            assert(b.buildable()) by {
                assert forall|id: u64| b.used().contains(id) implies b.nodes().contains_key(
                    id,
                ) by {
                    assert(b.used_nodes@.contains(id));
                    let k = choose|k: int|
                        0 <= k < b.used_nodes@.len() && b.used_nodes@[k] == id;
                    assert(nodes@[k].id == used_nodes@[k]);
                }
            }
        }

        let n_nodes = nodes.len();
        let mut forward: Vec<Vec<Arc<NodeIndex>>> = Vec::new();
        let mut v: usize = 0;
        while v < n_nodes
            invariant
                b == self,
                b.wf(),
                used_nodes@ == b.used_nodes@,
                adjacent_arcs@ == b.adjacent_arcs@,
                n_nodes == nodes@.len(),
                nodes@.len() == used_nodes@.len(),
                keys_unique(nodes@),
                forall|k: int| 0 <= k < nodes@.len() ==> (#[trigger] nodes@[k].id) == used_nodes@[k],
                0 <= v <= n_nodes,
                forward@.len() == v,
                forall|k: int|
                    0 <= k < v ==> (#[trigger] forward@[k]@.len()) == arcs_in_rows(
                        adjacent_arcs@,
                        nodes@[k].id,
                    ).len(),
                forall|k: int, j: int|
                    0 <= k < v && 0 <= j < forward@[k]@.len() ==> arc_resolves(
                        nodes@,
                        #[trigger] forward@[k]@[j],
                        arcs_in_rows(adjacent_arcs@, nodes@[k].id)[j],
                    ),
                sum_fwd_arcs(forward@) == sum_arcs_over_ids(
                    adjacent_arcs@,
                    used_nodes@.take(v as int),
                ),
            decreases n_nodes - v,
        {
            let id = nodes[v].id;
            let mut row: Vec<Arc<NodeIndex>> = Vec::new();
            match find_row_pos(&adjacent_arcs, id) {
                Some(p) => {
                    proof {
                        lemma_find_key_map(adjacent_arcs@, id);
                    }
                    let arcs = &adjacent_arcs[p].arcs;
                    let n_arcs = arcs.len();
                    let mut j: usize = 0;
                    while j < n_arcs
                        invariant
                            b == self,
                            b.wf(),
                            used_nodes@ == b.used_nodes@,
                            adjacent_arcs@ == b.adjacent_arcs@,
                            nodes@.len() == used_nodes@.len(),
                            forall|k: int|
                                0 <= k < nodes@.len() ==> (#[trigger] nodes@[k].id)
                                    == used_nodes@[k],
                            0 <= (p as int) < adjacent_arcs@.len(),
                            arcs == adjacent_arcs@[p as int].arcs,
                            n_arcs == arcs@.len(),
                            arcs@ == arcs_in_rows(adjacent_arcs@, id),
                            0 <= j <= n_arcs,
                            row@.len() == j,
                            forall|q: int|
                                0 <= q < j ==> arc_resolves(
                                    nodes@,
                                    #[trigger] row@[q],
                                    arcs@[q],
                                ),
                        decreases n_arcs - j,
                    {
                        let a = &arcs[j];
                        match find_node_pos(&nodes, a.head_node) {
                            Some(h) => {
                                row.push(
                                    Arc {
                                        head_node: h,
                                        distance: a.distance,
                                        cost: a.cost,
                                        part_of_way: a.part_of_way,
                                    },
                                );
                            },
                            None => {
                                proof {
                                    lemma_find_key(nodes@, a.head_node);
                                    assert(b.adjacent_arcs@[p as int].arcs@[j as int].head_node
                                        == a.head_node);
                                    assert(b.used_nodes@.contains(a.head_node));
                                    let k = choose|k: int|
                                        0 <= k < b.used_nodes@.len() && b.used_nodes@[k]
                                            == a.head_node;
                                    assert(nodes@[k].id == a.head_node);
                                    assert(false);
                                }
                                return None;
                            },
                        }
                        j += 1;
                    }
                },
                None => {
                    proof {
                        lemma_find_key_map(adjacent_arcs@, id);
                        assert(arcs_in_rows(adjacent_arcs@, id) =~= Seq::<Arc<u64>>::empty());
                    }
                },
            }
            let ghost fwd_prev = forward@;
            forward.push(row);
            proof {
                assert(forward@.drop_last() =~= fwd_prev);
                assert(forward@.last() == row);
                assert(used_nodes@.take(v + 1).drop_last() =~= used_nodes@.take(v as int));
                assert(used_nodes@.take(v + 1).last() == used_nodes@[v as int]);
                assert(row@.len() == arcs_in_rows(adjacent_arcs@, used_nodes@[v as int]).len());
            }
            v += 1;
        }

        proof {
            assert(used_nodes@.take(n_nodes as int) =~= used_nodes@);
            lemma_sum_rows_as_ids(adjacent_arcs@, used_nodes@);
            assert(sum_fwd_arcs(forward@) == sum_row_arcs(adjacent_arcs@));
        }
        let net = Network { nodes, forward_graph: forward, way_info };
        proof {
            assert(compacts_to(b, net)) by {
                assert forall|k: int| 0 <= k < net.nodes@.len() implies (
                #[trigger] net.nodes@[k].id) == b.used_seq()[k] && b.nodes().contains_key(
                    b.used_seq()[k],
                ) && net.nodes@[k] == b.nodes()[b.used_seq()[k]] by {}
            }
        }
        Some(net)
    }
}

/// Compaction soundness: every retained external id resolves, through the
/// compacted network, to exactly the node record the builder held for it.
pub proof fn lemma_compaction_round_trip(b: NetworkBuilder, net: Network, id: u64)
    requires
        compacts_to(b, net),
        b.used().contains(id),
    ensures
        net.has_node_id(id),
        net.nodes@[find_key(net.nodes@, id).unwrap()] == b.nodes()[id],
        b.nodes().contains_key(id),
{
    let k = choose|k: int| 0 <= k < b.used_seq().len() && b.used_seq()[k] == id;
    assert(net.nodes@[k].id == id);
    lemma_find_key(net.nodes@, id);
    match find_key(net.nodes@, id) {
        Some(p) => {
            assert(net.nodes@[p].id == id);
            if p != k {
                assert(net.nodes@[p].id != net.nodes@[k].id);
            }
        },
        None => {
            assert(net.nodes@[k].id != id);
        },
    }
}

/// The used set is exactly the set of elements of the used sequence, so
/// callers may move between the two views of `used`.
pub proof fn lemma_used_is_used_seq_set(b: NetworkBuilder)
    ensures
        b.used() == b.used_seq().to_set(),
{
}

/// A well-formed builder lists each used id once: the used set is finite
/// with exactly as many members as the used sequence — and hence as many
/// as a successful build retains.
pub proof fn lemma_used_count(b: NetworkBuilder)
    requires
        b.wf(),
    ensures
        b.used().finite(),
        b.used().len() == b.used_seq().len(),
{
    vstd::seq_lib::seq_to_set_is_finite::<u64>(b.used_nodes@);
    b.used_nodes@.unique_seq_to_set();
}

/// Compaction retains nothing else: every id the network resolves was
/// marked as used in the builder.
pub proof fn lemma_compaction_retains_only_used(b: NetworkBuilder, net: Network, id: u64)
    requires
        compacts_to(b, net),
        net.has_node_id(id),
    ensures
        b.used().contains(id),
{
    lemma_find_key(net.nodes@, id);
    let p = find_key(net.nodes@, id).unwrap();
    assert(net.nodes@[p].id == b.used_seq()[p]);
    assert(b.used_seq().contains(id)) by {
        assert(b.used_seq()[p] == id);
    }
}

} // verus!
