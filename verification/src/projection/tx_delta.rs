//! Transaction-local projection delta storage.
//!
//! Mutable graph writes are applied to PostgreSQL first. After PostgreSQL
//! accepts the write, this module records the backend-local graph delta that
//! makes read-your-own-writes possible until transaction end.
use std::collections::hash_map::Entry;
use std::collections::{HashMap, HashSet};
use vstd::layout;
use vstd::prelude::*;
use vstd::string::StringSliceAdditionalSpecFns;

use crate::projection::neighbors::{self, EdgeOverlay, OverlayDeletes, OverlayInserts};
use crate::safety::{self, GraphError, GraphErrorView, GraphResult};
use crate::text::{owned, same_text};
use crate::types::TraversalDirection;

verus! {

/// Filter-index value in its encoded form.
#[derive(Debug, Clone, Copy, PartialEq, Eq, Structural)]
pub enum EncodedFilterValue {
    /// Encoded number.
    Numeric(i64),
}

/// Transaction-local node created by a graph write.
#[derive(Debug, Clone, PartialEq, Eq)]
pub struct AddedNode {
    /// Source table OID.
    pub table_oid: u32,
    /// Source table primary key.
    pub primary_key: String,
    /// Tenant scope active when the node was created.
    pub tenant: Option<String>,
    /// Assigned graph node index when the topology has materialized this row.
    pub node_idx: Option<u32>,
}

/// An added node, with its text as character sequences.
pub struct AddedNodeView {
    pub table_oid: u32,
    pub primary_key: Seq<char>,
    pub tenant: Option<Seq<char>>,
    pub node_idx: Option<u32>,
}

impl View for AddedNode {
    type V = AddedNodeView;

    open spec fn view(&self) -> AddedNodeView {
        AddedNodeView {
            table_oid: self.table_oid,
            primary_key: self.primary_key@,
            tenant: match self.tenant {
                Some(tenant) => Some(tenant@),
                None => None,
            },
            node_idx: self.node_idx,
        }
    }
}

/// Transaction-local edge created by a graph write.
#[derive(Debug, Clone, Copy, PartialEq, Eq)]
pub struct DeltaEdge {
    /// Target graph node index.
    pub target: u32,
    /// Edge type identifier.
    pub type_id: u8,
    /// Optional weight captured from a mapped edge row.
    pub weight: Option<u32>,
}

/// Edge deleted by a graph write.
#[derive(Debug, Clone, Copy, PartialEq, Eq, Structural)]
pub struct DeletedEdge {
    /// Source graph node index.
    pub source: u32,
    /// Target graph node index.
    pub target: u32,
    /// Edge type identifier.
    pub type_id: u8,
}

/// Filter-index value written by a graph write.
#[derive(Debug, Clone, Copy, PartialEq, Eq)]
pub struct FilterUpdate {
    /// Registered filter column position.
    pub column_idx: usize,
    /// Graph node index.
    pub node_idx: u32,
    /// New value, or none where the value was removed.
    pub value: Option<EncodedFilterValue>,
}

/// Per-transaction graph projection delta.
#[derive(Debug)]
pub struct TxGraphDelta {
    pub added_nodes: Vec<AddedNode>,
    pub deleted_nodes: HashSet<u32>,
    /// Added edges by their sources, none without edges.
    pub added_edges: HashMap<u32, Vec<DeltaEdge>>,
    pub deleted_edges: Vec<DeletedEdge>,
    pub filter_updates: Vec<FilterUpdate>,
}

/// What a delta holds.
#[verifier::ext_equal]
pub struct TxGraphDeltaView {
    /// Added nodes in the order in which they were recorded.
    pub added_nodes: Seq<AddedNodeView>,
    /// Deleted nodes.
    pub deleted_nodes: Set<u32>,
    /// Added edges by their sources, in the order in which they were recorded.
    pub added_edges: Map<u32, Seq<DeltaEdge>>,
    /// Deleted edges.
    pub deleted_edges: Set<DeletedEdge>,
    /// Filter values by column and node.
    pub filter_updates: Map<(usize, u32), Option<EncodedFilterValue>>,
}

/// Whether the update at `i` is for this column and node.
pub open spec fn update_at(updates: Seq<FilterUpdate>, key: (usize, u32), i: int) -> bool {
    &&& 0 <= i < updates.len()
    &&& updates[i].column_idx == key.0
    &&& updates[i].node_idx == key.1
}

/// The filter values that a list of updates stands for.
pub open spec fn updates_map(updates: Seq<FilterUpdate>) -> Map<
    (usize, u32),
    Option<EncodedFilterValue>,
> {
    Map::new(
        |key: (usize, u32)| exists|i: int| update_at(updates, key, i),
        |key: (usize, u32)| updates[choose|i: int| update_at(updates, key, i)].value,
    )
}

/// Added edges by their sources.
pub open spec fn edge_lists(edges: Map<u32, Vec<DeltaEdge>>) -> Map<u32, Seq<DeltaEdge>> {
    Map::new(|source: u32| edges.contains_key(source), |source: u32| edges[source]@)
}

impl View for TxGraphDelta {
    type V = TxGraphDeltaView;

    open spec fn view(&self) -> TxGraphDeltaView {
        TxGraphDeltaView {
            added_nodes: self.added_nodes@.map_values(|node: AddedNode| node@),
            deleted_nodes: self.deleted_nodes@,
            added_edges: edge_lists(self.added_edges@),
            deleted_edges: self.deleted_edges@.to_set(),
            filter_updates: updates_map(self.filter_updates@),
        }
    }
}

/// A delta that holds nothing.
pub open spec fn clean_delta() -> TxGraphDeltaView {
    TxGraphDeltaView {
        added_nodes: Seq::empty(),
        deleted_nodes: Set::empty(),
        added_edges: Map::empty(),
        deleted_edges: Set::empty(),
        filter_updates: Map::empty(),
    }
}

/// The identity of an added edge.
pub open spec fn added_key(entry: (u32, DeltaEdge)) -> DeletedEdge {
    DeletedEdge { source: entry.0, target: entry.1.target, type_id: entry.1.type_id }
}

/// The edges that are added at a source.
pub open spec fn edges_at(edges: Map<u32, Seq<DeltaEdge>>, source: u32) -> Seq<DeltaEdge> {
    if edges.contains_key(source) {
        edges[source]
    } else {
        Seq::empty()
    }
}

/// Whether edges have one to a target of a type.
pub open spec fn leads_to(edges: Seq<DeltaEdge>, target: u32, type_id: u8) -> bool {
    exists|i: int|
        0 <= i < edges.len() && (#[trigger] edges[i]).target == target && edges[i].type_id
            == type_id
}

/// Whether an edge of this identity is among the added edges.
pub open spec fn is_added(edges: Map<u32, Seq<DeltaEdge>>, key: DeletedEdge) -> bool {
    leads_to(edges_at(edges, key.source), key.target, key.type_id)
}

/// The number of added edges.
pub open spec fn edge_count(edges: Map<u32, Seq<DeltaEdge>>) -> nat
    decreases edges.dom().len(),
    when edges.dom().finite()
{
    if edges.dom().len() == 0 {
        0
    } else {
        let source = edges.dom().choose();
        edges[source].len() + edge_count(edges.remove(source))
    }
}

proof fn lemma_edge_count_remove(edges: Map<u32, Seq<DeltaEdge>>, source: u32)
    requires
        edges.dom().finite(),
        edges.contains_key(source),
    ensures
        edge_count(edges) == edges[source].len() + edge_count(edges.remove(source)),
    decreases edges.dom().len(),
{
    assert(edges.dom().len() > 0) by {
        assert(edges.dom().contains(source));
        assert(edges.dom().remove(source).len() + 1 == edges.dom().len());
    }
    let other = edges.dom().choose();
    assert(edges.dom().contains(other)) by {
        assert(edges.dom().contains(source));
    }
    let rest = edges.remove(other);
    assert(rest.dom() =~= edges.dom().remove(other));
    if other != source {
        lemma_edge_count_remove(rest, source);
        let less = edges.remove(source);
        assert(less.dom() =~= edges.dom().remove(source));
        assert(less.contains_key(other));
        lemma_edge_count_remove(less, other);
        assert(rest.remove(source) =~= less.remove(other));
    }
}

/// Added edges with their sources, one source after the other.
pub open spec fn flattened(edges: Map<u32, Seq<DeltaEdge>>, order: Seq<u32>) -> Seq<
    (u32, DeltaEdge),
>
    decreases order.len(),
{
    if order.len() == 0 {
        Seq::empty()
    } else {
        let source = order.last();
        flattened(edges, order.drop_last()) + edges[source].map_values(
            |edge: DeltaEdge| (source, edge),
        )
    }
}

/// Whether an order has every source of added edges once.
pub open spec fn is_source_order(order: Seq<u32>, edges: Map<u32, Seq<DeltaEdge>>) -> bool {
    order.no_duplicates() && order.to_set() == edges.dom()
}

/// Whether a list holds added edges with their sources, one source after the other.
/// The order of the sources is that of a hash map and left open.
pub open spec fn lists_added(
    list: Seq<(u32, DeltaEdge)>,
    edges: Map<u32, Seq<DeltaEdge>>,
) -> bool {
    exists|order: Seq<u32>| #[trigger]
        is_source_order(order, edges) && list == flattened(edges, order)
}

/// Edges of a source that an order does not have do not matter to it.
proof fn lemma_flattened_frame(
    a: Map<u32, Seq<DeltaEdge>>,
    b: Map<u32, Seq<DeltaEdge>>,
    order: Seq<u32>,
)
    requires
        forall|i: int| 0 <= i < order.len() ==> a[#[trigger] order[i]] == b[order[i]],
    ensures
        flattened(a, order) == flattened(b, order),
    decreases order.len(),
{
    if order.len() > 0 {
        let init = order.drop_last();
        assert forall|i: int| 0 <= i < init.len() implies a[#[trigger] init[i]] == b[init[i]] by {
            assert(init[i] == order[i]);
        }
        lemma_flattened_frame(a, b, init);
        assert(a[order[order.len() - 1]] == b[order[order.len() - 1]]);
    }
}

proof fn lemma_flattened_count(edges: Map<u32, Seq<DeltaEdge>>, order: Seq<u32>)
    requires
        edges.dom().finite(),
        is_source_order(order, edges),
    ensures
        flattened(edges, order).len() == edge_count(edges),
    decreases order.len(),
{
    if order.len() == 0 {
        assert(edges.dom() =~= Set::<u32>::empty());
    } else {
        let init = order.drop_last();
        let last = order.last();
        assert(order[order.len() - 1] == last);
        assert(order.contains(last));
        assert(edges.dom().contains(last));
        let rest = edges.remove(last);
        assert(init.to_set() =~= rest.dom()) by {
            assert forall|source: u32| #[trigger] init.to_set().contains(source)
                <==> rest.dom().contains(source) by {
                if init.contains(source) {
                    let i = choose|i: int| 0 <= i < init.len() && init[i] == source;
                    assert(order[i] == source);
                    assert(order.to_set().contains(source));
                    assert(order[i] != order[order.len() - 1]);
                }
                if rest.dom().contains(source) {
                    assert(order.to_set().contains(source));
                    let i = choose|i: int| 0 <= i < order.len() && order[i] == source;
                    assert(init[i] == source);
                }
            }
        }
        assert(init.no_duplicates());
        lemma_flattened_count(rest, init);
        assert forall|i: int| 0 <= i < init.len() implies edges[#[trigger] init[i]]
            == rest[init[i]] by {
            assert(init.to_set().contains(init[i]));
        }
        lemma_flattened_frame(edges, rest, init);
        lemma_edge_count_remove(edges, last);
    }
}

/// What the last of edges with a source, target and type gives it as weight.
pub open spec fn last_added(
    list: Seq<(u32, DeltaEdge)>,
    key: DeletedEdge,
) -> Option<Option<u32>>
    decreases list.len(),
{
    if list.len() == 0 {
        None
    } else if added_key(list.last()) == key {
        Some(list.last().1.weight)
    } else {
        last_added(list.drop_last(), key)
    }
}

/// What the last of edges to a target and of a type gives it as weight.
pub open spec fn last_weight(edges: Seq<DeltaEdge>, target: u32, type_id: u8) -> Option<
    Option<u32>,
>
    decreases edges.len(),
{
    if edges.len() == 0 {
        None
    } else if edges.last().target == target && edges.last().type_id == type_id {
        Some(edges.last().weight)
    } else {
        last_weight(edges.drop_last(), target, type_id)
    }
}

proof fn lemma_last_added_concat(
    list: Seq<(u32, DeltaEdge)>,
    source: u32,
    edges: Seq<DeltaEdge>,
    key: DeletedEdge,
)
    ensures
        last_added(list + edges.map_values(|edge: DeltaEdge| (source, edge)), key) == (if source
            == key.source && last_weight(edges, key.target, key.type_id) is Some {
            last_weight(edges, key.target, key.type_id)
        } else {
            last_added(list, key)
        }),
    decreases edges.len(),
{
    let tagged = edges.map_values(|edge: DeltaEdge| (source, edge));
    if edges.len() == 0 {
        assert(list + tagged =~= list);
    } else {
        let init = edges.drop_last();
        lemma_last_added_concat(list, source, init, key);
        assert((list + tagged).drop_last() =~= list + init.map_values(
            |edge: DeltaEdge| (source, edge),
        ));
        assert((list + tagged).last() == (source, edges.last()));
    }
}

proof fn lemma_last_flattened(
    edges: Map<u32, Seq<DeltaEdge>>,
    order: Seq<u32>,
    key: DeletedEdge,
)
    requires
        order.no_duplicates(),
    ensures
        last_added(flattened(edges, order), key) == (if order.contains(key.source) {
            last_weight(edges[key.source], key.target, key.type_id)
        } else {
            None
        }),
    decreases order.len(),
{
    if order.len() > 0 {
        let init = order.drop_last();
        let last = order.last();
        lemma_last_flattened(edges, init, key);
        lemma_last_added_concat(flattened(edges, init), last, edges[last], key);
        if order.contains(key.source) {
            let i = choose|i: int| 0 <= i < order.len() && order[i] == key.source;
            if i < init.len() {
                assert(init[i] == key.source);
            }
        }
        if init.contains(key.source) {
            let i = choose|i: int| 0 <= i < init.len() && init[i] == key.source;
            assert(order[i] == key.source);
            assert(order[i] != order[order.len() - 1]);
        }
        assert(order[order.len() - 1] == last);
    }
}

/// Edges to a target and of a type have a last one.
pub proof fn lemma_last_weight(edges: Seq<DeltaEdge>, target: u32, type_id: u8)
    ensures
        last_weight(edges, target, type_id) is Some <==> leads_to(edges, target, type_id),
    decreases edges.len(),
{
    if edges.len() > 0 {
        let init = edges.drop_last();
        lemma_last_weight(init, target, type_id);
        if leads_to(init, target, type_id) {
            let i = choose|i: int|
                0 <= i < init.len() && (#[trigger] init[i]).target == target && init[i].type_id
                    == type_id;
            assert(edges[i].target == target);
        }
        if leads_to(edges, target, type_id) && !leads_to(init, target, type_id) {
            let i = choose|i: int|
                0 <= i < edges.len() && (#[trigger] edges[i]).target == target && edges[i].type_id
                    == type_id;
            if i < init.len() {
                assert(init[i] == edges[i]);
            }
        }
        assert(edges[edges.len() - 1] == edges.last());
    }
}

/// The last edge of an identity in a list of added edges is the last of its source.
pub proof fn lemma_last_listed(
    list: Seq<(u32, DeltaEdge)>,
    edges: Map<u32, Seq<DeltaEdge>>,
    key: DeletedEdge,
)
    requires
        lists_added(list, edges),
    ensures
        last_added(list, key) == last_weight(
            edges_at(edges, key.source),
            key.target,
            key.type_id,
        ),
{
    let order = choose|order: Seq<u32>| #[trigger]
        is_source_order(order, edges) && list == flattened(edges, order);
    lemma_last_flattened(edges, order, key);
    assert(order.contains(key.source) <==> order.to_set().contains(key.source));
}

proof fn lemma_flattened_members(
    edges: Map<u32, Seq<DeltaEdge>>,
    order: Seq<u32>,
    source: u32,
    edge: DeltaEdge,
)
    ensures
        flattened(edges, order).contains((source, edge)) <==> order.contains(source)
            && edges[source].contains(edge),
    decreases order.len(),
{
    let list = flattened(edges, order);
    if order.len() > 0 {
        let init = order.drop_last();
        let last = order.last();
        let head = flattened(edges, init);
        let tail = edges[last].map_values(|edge: DeltaEdge| (last, edge));
        lemma_flattened_members(edges, init, source, edge);
        assert(order[order.len() - 1] == last);
        if list.contains((source, edge)) {
            let i = choose|i: int| 0 <= i < list.len() && list[i] == (source, edge);
            if i < head.len() {
                assert(head[i] == (source, edge));
                let j = choose|j: int| 0 <= j < init.len() && init[j] == source;
                assert(order[j] == source);
            } else {
                assert(tail[i - head.len()] == (source, edge));
                assert(edges[last][i - head.len()] == edge);
            }
        }
        if order.contains(source) && edges[source].contains(edge) {
            let j = choose|j: int| 0 <= j < order.len() && order[j] == source;
            if j < init.len() {
                assert(init[j] == source);
                let i = choose|i: int| 0 <= i < head.len() && head[i] == (source, edge);
                assert(list[i] == (source, edge));
            } else {
                let i = choose|i: int| 0 <= i < edges[last].len() && edges[last][i] == edge;
                assert(list[head.len() + i] == (source, edge));
            }
        }
    }
}

/// A list of added edges has every one of them with its source, and no other.
pub proof fn lemma_listed_members(
    list: Seq<(u32, DeltaEdge)>,
    edges: Map<u32, Seq<DeltaEdge>>,
    source: u32,
    edge: DeltaEdge,
)
    requires
        lists_added(list, edges),
    ensures
        list.contains((source, edge)) <==> edges_at(edges, source).contains(edge),
{
    let order = choose|order: Seq<u32>| #[trigger]
        is_source_order(order, edges) && list == flattened(edges, order);
    lemma_flattened_members(edges, order, source, edge);
    assert(order.contains(source) <==> order.to_set().contains(source));
}

/// Added edges can be listed.
pub proof fn lemma_listing_exists(edges: Map<u32, Seq<DeltaEdge>>) -> (list: Seq<(u32, DeltaEdge)>)
    requires
        edges.dom().finite(),
    ensures
        lists_added(list, edges),
{
    let order = lemma_order_exists(edges.dom());
    assert(is_source_order(order, edges));
    flattened(edges, order)
}

proof fn lemma_order_exists(sources: Set<u32>) -> (order: Seq<u32>)
    requires
        sources.finite(),
    ensures
        order.no_duplicates(),
        order.to_set() == sources,
    decreases sources.len(),
{
    if sources.len() == 0 {
        assert(Seq::<u32>::empty().to_set() =~= sources);
        Seq::empty()
    } else {
        let source = sources.choose();
        assert(sources.contains(source));
        let rest = lemma_order_exists(sources.remove(source));
        assert(!rest.contains(source)) by {
            assert(rest.to_set().contains(source) == sources.remove(source).contains(source));
        }
        lemma_pushed_item(rest, source);
        assert(rest.push(source).to_set() =~= sources);
        rest.push(source)
    }
}

/// Lightweight statistics exposed through graph status surfaces.
#[derive(Debug, Clone, Copy, PartialEq, Eq, Structural)]
pub struct TxDeltaStats {
    /// Added node count.
    pub added_nodes: usize,
    /// Deleted/tombstoned node count.
    pub deleted_nodes: usize,
    /// Added edge count.
    pub added_edges: usize,
    /// Deleted edge tombstone count.
    pub deleted_edges: usize,
    /// Estimated heap bytes owned by the transaction delta.
    pub memory_bytes: usize,
    /// Whether any graph delta is currently recorded.
    pub dirty: bool,
}

impl Default for TxDeltaStats {
    fn default() -> (stats: TxDeltaStats)
        ensures
            stats == (TxDeltaStats {
                added_nodes: 0,
                deleted_nodes: 0,
                added_edges: 0,
                deleted_edges: 0,
                memory_bytes: 0,
                dirty: false,
            }),
    {
        TxDeltaStats {
            added_nodes: 0,
            deleted_nodes: 0,
            added_edges: 0,
            deleted_edges: 0,
            memory_bytes: 0,
            dirty: false,
        }
    }
}

/// Limits on what one transaction may record.
#[derive(Debug, Clone, Copy, PartialEq, Eq, Structural)]
pub struct TxDeltaLimits {
    /// Maximum number of added and deleted nodes.
    pub max_nodes: usize,
    /// Maximum number of added and deleted edges.
    pub max_edges: usize,
    /// Maximum estimated heap bytes of the delta.
    pub max_memory_bytes: usize,
}

/// Graph state of the current transaction.
#[derive(Debug)]
pub struct TxState {
    /// What the transaction has recorded, once it has recorded something.
    pub delta: Option<TxGraphDelta>,
    /// Number of open subtransactions.
    pub subtransaction_depth: u32,
    /// Limits on what may be recorded.
    pub limits: TxDeltaLimits,
}

// ---------------------------------------------------------------------------
// Memory estimates
// ---------------------------------------------------------------------------

/// `Vec::capacity`: the number of items that the vector can hold without
/// reallocating, which is never less than the number that it holds. How much
/// more it is depends on the allocator and is left open.
#[verifier::external_body]
fn vec_capacity<T>(items: &Vec<T>) -> (capacity: usize)
    ensures
        capacity >= items@.len(),
{
    items.capacity()
}

/// `String::capacity`: the number of bytes that the string can hold without
/// reallocating, which is never less than the number that it holds. How much
/// more it is depends on the allocator and is left open.
#[verifier::external_body]
fn string_capacity(value: &String) -> (capacity: usize)
    ensures
        capacity >= vstd::utf8::encode_utf8(value@).len(),
{
    value.capacity()
}

/// `HashMap::capacity`: the number of entries that the map can hold without
/// reallocating, which is never less than the number that it holds. How much more it
/// is depends on the map's growth and is left open.
#[verifier::external_body]
fn map_capacity<V>(map: &HashMap<u32, V>) -> (capacity: usize)
    ensures
        capacity >= map@.dom().len(),
{
    map.capacity()
}

/// `HashSet::capacity`: the number of items that the set can hold without
/// reallocating, which is never less than the number that it holds. How much more it
/// is depends on the set's growth and is left open.
#[verifier::external_body]
fn set_capacity(set: &HashSet<u32>) -> (capacity: usize)
    ensures
        capacity >= set@.len(),
{
    set.capacity()
}

/// The sum, or the largest value where it does not fit.
pub open spec fn capped(n: int) -> int {
    if n > usize::MAX { usize::MAX as int } else { n }
}

/// Bytes of text that a node holds.
pub open spec fn node_text_bytes(node: AddedNodeView) -> nat {
    vstd::utf8::encode_utf8(node.primary_key).len() + match node.tenant {
        Some(tenant) => vstd::utf8::encode_utf8(tenant).len(),
        None => 0,
    }
}

/// Bytes of text that nodes hold.
pub open spec fn nodes_text_bytes(nodes: Seq<AddedNodeView>) -> nat
    decreases nodes.len(),
{
    if nodes.len() == 0 {
        0
    } else {
        nodes_text_bytes(nodes.drop_last()) + node_text_bytes(nodes.last())
    }
}

/// What the collections of a delta can hold without reallocating.
#[derive(Debug, Clone, Copy, PartialEq, Eq, Structural)]
pub struct DeltaCapacities {
    /// Bytes of the texts of added nodes.
    pub text: usize,
    /// Added nodes.
    pub nodes: usize,
    /// Deleted nodes.
    pub deleted_nodes: usize,
    /// Sources of added edges.
    pub sources: usize,
    /// Added edges, over all sources.
    pub edges: usize,
    /// Deleted edges.
    pub deleted_edges: usize,
    /// Filter updates.
    pub updates: usize,
}

/// Bytes that a source of added edges takes: its index, and the list of its edges.
pub open spec fn source_bytes() -> nat {
    layout::size_of::<u32>() + layout::size_of::<Vec<DeltaEdge>>()
}

/// Bytes that a filter update takes: column and node, and the value.
pub open spec fn update_bytes() -> nat {
    layout::size_of::<(usize, u32)>() + layout::size_of::<Option<EncodedFilterValue>>()
}

/// Bytes that collections of these capacities take.
pub open spec fn capacity_bytes(capacities: DeltaCapacities) -> nat {
    capacities.text as nat + capacities.nodes as nat * layout::size_of::<AddedNode>()
        + capacities.deleted_nodes as nat * layout::size_of::<u32>() + capacities.sources as nat
        * source_bytes() + capacities.edges as nat * layout::size_of::<DeltaEdge>()
        + capacities.deleted_edges as nat * layout::size_of::<(u32, u32, u8)>()
        + capacities.updates as nat * update_bytes()
}

/// Bytes that collections of these capacities take.
pub fn heap_bytes(capacities: DeltaCapacities) -> (bytes: usize)
    ensures
        bytes == capped(capacity_bytes(capacities) as int),
{
    let source: usize = std::mem::size_of::<u32>().saturating_add(
        std::mem::size_of::<Vec<DeltaEdge>>(),
    );
    let update: usize = std::mem::size_of::<(usize, u32)>().saturating_add(
        std::mem::size_of::<Option<EncodedFilterValue>>(),
    );
    let nodes: usize = product(capacities.nodes, std::mem::size_of::<AddedNode>());
    let deleted_nodes: usize = product(capacities.deleted_nodes, std::mem::size_of::<u32>());
    let sources: usize = product(capacities.sources, source);
    let edges: usize = product(capacities.edges, std::mem::size_of::<DeltaEdge>());
    let deleted_edges: usize = product(
        capacities.deleted_edges,
        std::mem::size_of::<(u32, u32, u8)>(),
    );
    let updates: usize = product(capacities.updates, update);
    proof {
        lemma_capped_product(capacities.sources as nat, source_bytes());
        lemma_capped_product(capacities.updates as nat, update_bytes());
    }
    capacities.text.saturating_add(nodes).saturating_add(deleted_nodes).saturating_add(
        sources,
    ).saturating_add(edges).saturating_add(deleted_edges).saturating_add(updates)
}

/// Capping a factor does not change a capped product, unless the other one is zero.
proof fn lemma_capped_product(count: nat, size: nat)
    ensures
        capped(count * capped(size as int)) == capped((count * size) as int),
{
    if size > usize::MAX && count > 0 {
        assert(count * size >= size) by (nonlinear_arith)
            requires
                count > 0,
        ;
        assert(count * usize::MAX >= usize::MAX) by (nonlinear_arith)
            requires
                count > 0,
        ;
    }
}

fn product(count: usize, size: usize) -> (bytes: usize)
    ensures
        bytes == capped(count * size),
{
    match count.checked_mul(size) {
        Some(bytes) => bytes,
        None => usize::MAX,
    }
}

/// Whether these can be the capacities of the collections of a delta: none is less
/// than what the collection holds.
pub open spec fn can_hold(capacities: DeltaCapacities, delta: TxGraphDelta) -> bool {
    &&& capacities.text >= capped(nodes_text_bytes(delta@.added_nodes) as int)
    &&& capacities.nodes >= delta@.added_nodes.len()
    &&& capacities.deleted_nodes >= delta@.deleted_nodes.len()
    &&& capacities.sources >= delta@.added_edges.dom().len()
    &&& capacities.edges >= capped(edge_count(delta@.added_edges) as int)
    &&& capacities.deleted_edges >= delta.deleted_edges@.len()
    &&& capacities.updates >= delta.filter_updates@.len()
}

/// Whether a number of bytes is the estimate for a delta: that of capacities which
/// its collections can have. The capacities are the allocator's choice.
pub open spec fn is_estimate(bytes: usize, delta: TxGraphDelta) -> bool {
    exists|capacities: DeltaCapacities| #[trigger]
        can_hold(capacities, delta) && bytes == capped(capacity_bytes(capacities) as int)
}

impl TxGraphDelta {
    /// Whether nothing is listed twice, and no edge is both added and deleted.
    pub open spec fn wf(&self) -> bool {
        &&& self.deleted_edges@.no_duplicates()
        &&& forall|i: int, j: int|
            0 <= i < j < self.filter_updates@.len() ==> {
                ||| (#[trigger] self.filter_updates@[i]).column_idx != (
                #[trigger] self.filter_updates@[j]).column_idx
                ||| self.filter_updates@[i].node_idx != self.filter_updates@[j].node_idx
            }
        &&& forall|source: u32| #[trigger]
            self@.added_edges.contains_key(source) ==> self@.added_edges[source].len() > 0
        &&& forall|key: DeletedEdge| #[trigger]
            self@.deleted_edges.contains(key) ==> !is_added(self@.added_edges, key)
    }

    /// A delta that holds nothing.
    pub fn new() -> (delta: TxGraphDelta)
        ensures
            delta.wf(),
            delta@ == clean_delta(),
    {
        broadcast use vstd::std_specs::hash::group_hash_axioms;

        let delta: TxGraphDelta = TxGraphDelta {
            added_nodes: Vec::new(),
            deleted_nodes: HashSet::new(),
            added_edges: HashMap::new(),
            deleted_edges: Vec::new(),
            filter_updates: Vec::new(),
        };
        assert(delta@ =~= clean_delta()) by {
            assert(delta@.added_nodes =~= Seq::empty());
            assert(delta@.deleted_nodes =~= Set::empty());
            assert(delta@.added_edges =~= Map::empty());
            assert(delta@.deleted_edges =~= Set::empty());
            assert(delta@.filter_updates =~= Map::empty()) by {
                assert forall|key: (usize, u32)| #![auto]
                    !delta@.filter_updates.contains_key(key) by {
                    if delta@.filter_updates.contains_key(key) {
                        let i = choose|i: int| update_at(delta.filter_updates@, key, i);
                        assert(update_at(delta.filter_updates@, key, i));
                    }
                }
            }
        }
        delta
    }

    /// Counts of what is recorded, with the memory estimate.
    pub fn stats(&self) -> (stats: TxDeltaStats)
        requires
            self.wf(),
        ensures
            stats == stats_with(self@, stats.memory_bytes),
            is_estimate(stats.memory_bytes, *self),
    {
        let memory_bytes: usize = self.estimated_heap_bytes();
        self.stats_at(memory_bytes)
    }

    /// Counts of what is recorded, with a memory estimate.
    pub fn stats_at(&self, memory_bytes: usize) -> (stats: TxDeltaStats)
        requires
            self.wf(),
        ensures
            stats == stats_with(self@, memory_bytes),
    {
        broadcast use vstd::std_specs::hash::group_hash_axioms;

        proof {
            self.deleted_edges@.unique_seq_to_set();
        }
        TxDeltaStats {
            added_nodes: self.added_nodes.len(),
            deleted_nodes: self.deleted_nodes.len(),
            added_edges: self.added_edge_count(),
            deleted_edges: self.deleted_edges.len(),
            memory_bytes,
            dirty: self.is_dirty(),
        }
    }

    fn added_edge_count(&self) -> (count: usize)
        ensures
            count == capped(edge_count(self@.added_edges) as int),
    {
        broadcast use vstd::std_specs::hash::group_hash_axioms;

        let ghost edges = self@.added_edges;
        let mut count: usize = 0;
        let ghost mut order = Seq::<u32>::empty();
        for key in keys: self.added_edges.keys()
            invariant
                edges == self@.added_edges,
                keys.seq().unref().to_set() == self.added_edges@.dom(),
                keys.seq().no_duplicates(),
                order == keys.seq().unref().take(keys.index() as int),
                keys.index() == keys.seq().len() ==> order.to_set() == self.added_edges@.dom(),
                count == capped(
                    flattened(edges, order).len() as int,
                ),
        {
            let ghost all = keys.seq().unref();
            let ghost index: int = keys.index() as int;
            proof {
                assert(all[index] == *key);
                assert(all.to_set().contains(all[index]));
                assert(all.take(index + 1) =~= order.push(*key));
                assert(order.push(*key).drop_last() =~= order);
            }
            match self.added_edges.get(key) {
                Some(list) => {
                    count = count.saturating_add(list.len());
                },
                None => {},
            }
            proof {
                order = order.push(*key);
            }
            assert(index + 1 == all.len() ==> order =~= all);
        }
        proof {
            lemma_keys_order(self.added_edges, order);
        }
        count
    }

    /// The added edges with their sources, one source after the other.
    pub fn added_list(&self) -> (list: Vec<(u32, DeltaEdge)>)
        ensures
            lists_added(list@, self@.added_edges),
    {
        broadcast use vstd::std_specs::hash::group_hash_axioms;

        let ghost edges = self@.added_edges;
        let mut list: Vec<(u32, DeltaEdge)> = Vec::new();
        let ghost mut order = Seq::<u32>::empty();
        for key in keys: self.added_edges.keys()
            invariant
                edges == self@.added_edges,
                keys.seq().unref().to_set() == self.added_edges@.dom(),
                keys.seq().no_duplicates(),
                order == keys.seq().unref().take(keys.index() as int),
                keys.index() == keys.seq().len() ==> order.to_set() == self.added_edges@.dom(),
                list@ == flattened(edges, order),
        {
            let ghost all = keys.seq().unref();
            let ghost index: int = keys.index() as int;
            let ghost before = list@;
            let source: u32 = *key;
            proof {
                assert(all[index] == source);
                assert(all.to_set().contains(all[index]));
                assert(all.take(index + 1) =~= order.push(source));
                assert(order.push(source).drop_last() =~= order);
            }
            match self.added_edges.get(key) {
                Some(edges_here) => {
                    let ghost tagged = edges_here@.map_values(|edge: DeltaEdge| (source, edge));
                    for i in 0..edges_here.len()
                        invariant
                            tagged == edges_here@.map_values(|edge: DeltaEdge| (source, edge)),
                            list@ == before + tagged.take(i as int),
                    {
                        list.push((source, edges_here[i]));
                        assert(list@ =~= before + tagged.take(i + 1));
                    }
                    assert(tagged.take(tagged.len() as int) =~= tagged);
                },
                None => {},
            }
            proof {
                order = order.push(source);
            }
            assert(index + 1 == all.len() ==> order =~= all);
        }
        proof {
            lemma_keys_order(self.added_edges, order);
        }
        list
    }

    /// Heap bytes owned by the delta, as far as the capacities of its collections show.
    pub fn estimated_heap_bytes(&self) -> (bytes: usize)
        ensures
            is_estimate(bytes, *self),
    {
        let capacities: DeltaCapacities = self.capacities();
        heap_bytes(capacities)
    }

    /// What the collections can hold without reallocating.
    fn capacities(&self) -> (capacities: DeltaCapacities)
        ensures
            can_hold(capacities, *self),
    {
        broadcast use vstd::std_specs::hash::group_hash_axioms;

        let ghost edges = self@.added_edges;
        let mut reserved: usize = 0;
        let ghost mut order = Seq::<u32>::empty();
        for key in keys: self.added_edges.keys()
            invariant
                edges == self@.added_edges,
                keys.seq().unref().to_set() == self.added_edges@.dom(),
                keys.seq().no_duplicates(),
                order == keys.seq().unref().take(keys.index() as int),
                keys.index() == keys.seq().len() ==> order.to_set() == self.added_edges@.dom(),
                reserved >= capped(
                    flattened(edges, order).len() as int,
                ),
        {
            let ghost all = keys.seq().unref();
            let ghost index: int = keys.index() as int;
            proof {
                assert(all[index] == *key);
                assert(all.to_set().contains(all[index]));
                assert(all.take(index + 1) =~= order.push(*key));
                assert(order.push(*key).drop_last() =~= order);
            }
            match self.added_edges.get(key) {
                Some(list) => {
                    reserved = reserved.saturating_add(vec_capacity(list));
                },
                None => {},
            }
            proof {
                order = order.push(*key);
            }
            assert(index + 1 == all.len() ==> order =~= all);
        }
        proof {
            lemma_keys_order(self.added_edges, order);
            assert(edges.dom() =~= self.added_edges@.dom());
        }
        DeltaCapacities {
            text: self.text_capacity(),
            nodes: vec_capacity(&self.added_nodes),
            deleted_nodes: set_capacity(&self.deleted_nodes),
            sources: map_capacity(&self.added_edges),
            edges: reserved,
            deleted_edges: vec_capacity(&self.deleted_edges),
            updates: vec_capacity(&self.filter_updates),
        }
    }

    fn text_capacity(&self) -> (bytes: usize)
        ensures
            bytes >= capped(nodes_text_bytes(self@.added_nodes) as int),
    {
        let mut bytes: usize = 0;
        let ghost nodes = self@.added_nodes;
        for i in 0..self.added_nodes.len()
            invariant
                nodes == self@.added_nodes,
                bytes >= capped(nodes_text_bytes(nodes.take(i as int)) as int),
        {
            let node: &AddedNode = &self.added_nodes[i];
            let key_bytes: usize = string_capacity(&node.primary_key);
            let tenant_bytes: usize = match &node.tenant {
                Some(tenant) => string_capacity(tenant),
                None => 0,
            };
            proof {
                assert(nodes.take(i + 1).drop_last() =~= nodes.take(i as int));
                assert(nodes.take(i + 1).last() == node@);
            }
            bytes = bytes.saturating_add(key_bytes).saturating_add(tenant_bytes);
        }
        assert(nodes.take(nodes.len() as int) =~= nodes);
        bytes
    }

    /// Whether anything is recorded.
    pub fn is_dirty(&self) -> (dirty: bool)
        ensures
            dirty == (self@ != clean_delta()),
    {
        broadcast use vstd::std_specs::hash::group_hash_axioms;

        let dirty: bool = !self.added_nodes.is_empty() || !self.deleted_nodes.is_empty()
            || !self.added_edges.is_empty() || !self.deleted_edges.is_empty()
            || !self.filter_updates.is_empty();
        proof {
            assert(self@.added_edges.dom() =~= self.added_edges@.dom());
            if dirty {
                if self.added_nodes@.len() > 0 {
                    assert(self@.added_nodes.len() > 0);
                } else if self.deleted_nodes@.len() > 0 {
                    assert(self@.deleted_nodes != Set::<u32>::empty());
                } else if self.added_edges@.dom().len() > 0 {
                    assert(self@.added_edges.dom() != Set::<u32>::empty());
                    assert(Map::<u32, Seq<DeltaEdge>>::empty().dom() =~= Set::<u32>::empty());
                } else if self.deleted_edges@.len() > 0 {
                    assert(self.deleted_edges@.contains(self.deleted_edges@[0]));
                    assert(self@.deleted_edges.contains(self.deleted_edges@[0]));
                } else if self.filter_updates@.len() > 0 {
                    let update = self.filter_updates@[0];
                    assert(update_at(
                        self.filter_updates@,
                        (update.column_idx, update.node_idx),
                        0,
                    ));
                    assert(self@.filter_updates.contains_key(
                        (update.column_idx, update.node_idx),
                    ));
                }
            } else {
                assert(self@.added_nodes =~= Seq::empty());
                assert(self@.deleted_nodes =~= Set::empty());
                assert(self@.added_edges =~= Map::empty());
                assert(self@.deleted_edges =~= Set::empty());
                assert forall|key: (usize, u32)| #![auto]
                    !self@.filter_updates.contains_key(key) by {
                    if self@.filter_updates.contains_key(key) {
                        let i = choose|i: int| update_at(self.filter_updates@, key, i);
                        assert(update_at(self.filter_updates@, key, i));
                    }
                }
                assert(self@.filter_updates =~= Map::empty());
                assert(self@ =~= clean_delta());
            }
        }
        dirty
    }

    /// Add a node that the topology has already materialized.
    pub fn add_node_for_test(&mut self, table_oid: u32, primary_key: &str, node_idx: u32)
        requires
            old(self).wf(),
        ensures
            final(self).wf(),
            final(self)@ == (TxGraphDeltaView {
                added_nodes: old(self)@.added_nodes.push(
                    AddedNodeView {
                        table_oid,
                        primary_key: primary_key@,
                        tenant: None,
                        node_idx: Some(node_idx),
                    },
                ),
                ..old(self)@
            }),
    {
        let node: AddedNode = AddedNode {
            table_oid,
            primary_key: owned(primary_key),
            tenant: None,
            node_idx: Some(node_idx),
        };
        self.push_node(node);
    }

    fn push_node(&mut self, node: AddedNode)
        requires
            old(self).wf(),
        ensures
            final(self).wf(),
            final(self)@ == (TxGraphDeltaView {
                added_nodes: old(self)@.added_nodes.push(node@),
                ..old(self)@
            }),
    {
        self.added_nodes.push(node);
        assert(self@.added_nodes =~= old(self)@.added_nodes.push(node@));
    }

    /// Add an edge without looking at deleted edges.
    pub fn add_edge_for_test(&mut self, source: u32, edge: DeltaEdge)
        requires
            old(self).wf(),
            !old(self)@.deleted_edges.contains(added_key((source, edge))),
        ensures
            final(self).wf(),
            final(self)@ == (TxGraphDeltaView {
                added_edges: old(self)@.added_edges.insert(
                    source,
                    edges_at(old(self)@.added_edges, source).push(edge),
                ),
                ..old(self)@
            }),
    {
        push_edge(&mut self.added_edges, source, edge);
        proof {
            let before = old(self)@.added_edges;
            let list = edges_at(before, source);
            assert(self@.added_edges =~= before.insert(source, list.push(edge)));
            assert forall|key: DeletedEdge| #[trigger]
                self@.deleted_edges.contains(key) implies !is_added(self@.added_edges, key) by {
                assert(!is_added(before, key));
                let after = edges_at(self@.added_edges, key.source);
                if leads_to(after, key.target, key.type_id) {
                    let i = choose|i: int|
                        0 <= i < after.len() && (#[trigger] after[i]).target == key.target
                            && after[i].type_id == key.type_id;
                    if key.source == source {
                        if i < list.len() {
                            assert(list[i] == after[i]);
                        } else {
                            assert(added_key((source, edge)) == key);
                        }
                    } else {
                        assert(edges_at(before, key.source)[i] == after[i]);
                    }
                }
            }
        }
    }

    /// Whether the node is recorded as deleted.
    pub fn has_deleted_node(&self, node_idx: u32) -> (found: bool)
        ensures
            found == self@.deleted_nodes.contains(node_idx),
    {
        broadcast use vstd::std_specs::hash::group_hash_axioms;

        self.deleted_nodes.contains(&node_idx)
    }

    /// Record a deleted node.
    pub fn delete_node(&mut self, node_idx: u32)
        requires
            old(self).wf(),
        ensures
            final(self).wf(),
            final(self)@ == (TxGraphDeltaView {
                deleted_nodes: old(self)@.deleted_nodes.insert(node_idx),
                ..old(self)@
            }),
    {
        broadcast use vstd::std_specs::hash::group_hash_axioms;

        self.deleted_nodes.insert(node_idx);
        assert(self@.added_edges == old(self)@.added_edges);
    }
}

/// Add an edge to those of a source.
fn push_edge(edges: &mut HashMap<u32, Vec<DeltaEdge>>, source: u32, edge: DeltaEdge)
    ensures
        edge_lists(final(edges)@) == edge_lists(old(edges)@).insert(
            source,
            edges_at(edge_lists(old(edges)@), source).push(edge),
        ),
{
    broadcast use vstd::std_specs::hash::group_hash_axioms;

    let ghost before = edges@;
    let list: &mut Vec<DeltaEdge> = edges.entry(source).or_insert(Vec::new());
    list.push(edge);
    assert(edge_lists(edges@) =~= edge_lists(before).insert(
        source,
        edges_at(edge_lists(before), source).push(edge),
    ));
}

/// The number of edges that an order of their sources leads through.
proof fn lemma_keys_order(edges: HashMap<u32, Vec<DeltaEdge>>, order: Seq<u32>)
    requires
        order.no_duplicates(),
        order.to_set() == edges@.dom(),
    ensures
        is_source_order(order, edge_lists(edges@)),
        flattened(edge_lists(edges@), order).len() == edge_count(edge_lists(edges@)),
{
    broadcast use vstd::std_specs::hash::group_hash_axioms;

    assert(edge_lists(edges@).dom() =~= edges@.dom());
    lemma_flattened_count(edge_lists(edges@), order);
}

// ---------------------------------------------------------------------------
// Edges
// ---------------------------------------------------------------------------

/// Edges without those to a target and of a type.
pub open spec fn edges_without(edges: Seq<DeltaEdge>, target: u32, type_id: u8) -> Seq<DeltaEdge> {
    edges.filter(|edge: DeltaEdge| edge.target != target || edge.type_id != type_id)
}

/// The added edges without those of this identity, and without a source that has none
/// left.
pub open spec fn without_added(edges: Map<u32, Seq<DeltaEdge>>, key: DeletedEdge) -> Map<
    u32,
    Seq<DeltaEdge>,
> {
    let kept = edges_without(edges_at(edges, key.source), key.target, key.type_id);
    if kept.len() == 0 {
        edges.remove(key.source)
    } else {
        edges.insert(key.source, kept)
    }
}

/// The delta after an edge was added: it undoes the deletion of that edge, or is
/// recorded.
pub open spec fn with_added_edge(
    delta: TxGraphDeltaView,
    source: u32,
    edge: DeltaEdge,
) -> TxGraphDeltaView {
    let key = added_key((source, edge));
    if delta.deleted_edges.contains(key) {
        TxGraphDeltaView { deleted_edges: delta.deleted_edges.remove(key), ..delta }
    } else {
        TxGraphDeltaView {
            added_edges: delta.added_edges.insert(
                source,
                edges_at(delta.added_edges, source).push(edge),
            ),
            ..delta
        }
    }
}

/// The delta after an edge was deleted: it undoes the additions of that edge, or
/// is recorded.
pub open spec fn with_deleted_edge(delta: TxGraphDeltaView, key: DeletedEdge) -> TxGraphDeltaView {
    if is_added(delta.added_edges, key) {
        TxGraphDeltaView { added_edges: without_added(delta.added_edges, key), ..delta }
    } else {
        TxGraphDeltaView { deleted_edges: delta.deleted_edges.insert(key), ..delta }
    }
}

impl TxGraphDelta {
    fn deleted_edge_position(&self, key: DeletedEdge) -> (at: Option<usize>)
        ensures
            match at {
                Some(at) => at < self.deleted_edges@.len() && self.deleted_edges@[at as int] == key
                    && self@.deleted_edges.contains(key),
                None => !self@.deleted_edges.contains(key),
            },
    {
        for i in 0..self.deleted_edges.len()
            invariant
                forall|j: int| 0 <= j < i ==> #[trigger] self.deleted_edges@[j] != key,
        {
            if self.deleted_edges[i] == key {
                assert(self.deleted_edges@.contains(key));
                return Some(i);
            }
        }
        None
    }

    /// Whether the edge is recorded as deleted.
    pub fn has_deleted_edge(&self, key: DeletedEdge) -> (found: bool)
        ensures
            found == self@.deleted_edges.contains(key),
    {
        self.deleted_edge_position(key).is_some()
    }

    /// Whether an edge of this identity is recorded as added.
    pub fn has_added_edge(&self, key: DeletedEdge) -> (found: bool)
        ensures
            found == is_added(self@.added_edges, key),
    {
        broadcast use vstd::std_specs::hash::group_hash_axioms;

        match self.added_edges.get(&key.source) {
            Some(list) => {
                assert(edges_at(self@.added_edges, key.source) == list@);
                for i in 0..list.len()
                    invariant
                        edges_at(self@.added_edges, key.source) == list@,
                        forall|j: int|
                            0 <= j < i ==> (#[trigger] list@[j]).target != key.target
                                || list@[j].type_id != key.type_id,
                {
                    if list[i].target == key.target && list[i].type_id == key.type_id {
                        return true;
                    }
                }
                false
            },
            None => false,
        }
    }

    /// Record an added edge.
    pub fn add_edge(&mut self, source: u32, edge: DeltaEdge)
        requires
            old(self).wf(),
        ensures
            final(self).wf(),
            final(self)@ == with_added_edge(old(self)@, source, edge),
    {
        let key: DeletedEdge = DeletedEdge { source, target: edge.target, type_id: edge.type_id };
        match self.deleted_edge_position(key) {
            Some(at) => {
                let _ = self.deleted_edges.remove(at);
                proof {
                    lemma_removed_item(old(self).deleted_edges@, at as int);
                    assert(self@.deleted_edges =~= old(self)@.deleted_edges.remove(key));
                    assert(self@.added_edges == old(self)@.added_edges);
                }
            },
            None => {
                self.add_edge_for_test(source, edge);
            },
        }
    }

    /// Record a deleted edge.
    pub fn delete_edge(&mut self, key: DeletedEdge)
        requires
            old(self).wf(),
        ensures
            final(self).wf(),
            final(self)@ == with_deleted_edge(old(self)@, key),
    {
        if self.has_added_edge(key) {
            retain_others(&mut self.added_edges, key);
            proof {
                let before = old(self)@.added_edges;
                let after = self@.added_edges;
                assert forall|other: DeletedEdge| #[trigger]
                    self@.deleted_edges.contains(other) implies !is_added(after, other) by {
                    assert(!is_added(before, other));
                    let list = edges_at(after, other.source);
                    let earlier = edges_at(before, other.source);
                    if leads_to(list, other.target, other.type_id) {
                        let i = choose|i: int|
                            0 <= i < list.len() && (#[trigger] list[i]).target == other.target
                                && list[i].type_id == other.type_id;
                        if other.source == key.source {
                            let keep = |edge: DeltaEdge|
                                edge.target != key.target || edge.type_id != key.type_id;
                            assert(list == earlier.filter(keep));
                            assert(list.contains(list[i]));
                            earlier.lemma_filter_contains_rev(keep, list[i]);
                            let j = choose|j: int|
                                0 <= j < earlier.len() && earlier[j] == list[i];
                            assert(earlier[j].target == other.target);
                        } else {
                            assert(earlier[i] == list[i]);
                        }
                    }
                }
            }
        } else if !self.has_deleted_edge(key) {
            self.deleted_edges.push(key);
            proof {
                let before = old(self).deleted_edges@;
                lemma_pushed_item(before, key);
                assert(self@.deleted_edges =~= old(self)@.deleted_edges.insert(key));
                assert(self@.added_edges == old(self)@.added_edges);
            }
        } else {
            assert(self@.deleted_edges =~= old(self)@.deleted_edges.insert(key));
        }
    }

    /// Record a filter value.
    pub fn update_filter(&mut self, column_idx: usize, node_idx: u32, value: Option<EncodedFilterValue>)
        requires
            old(self).wf(),
        ensures
            final(self).wf(),
            final(self)@ == (TxGraphDeltaView {
                filter_updates: old(self)@.filter_updates.insert((column_idx, node_idx), value),
                ..old(self)@
            }),
    {
        let update: FilterUpdate = FilterUpdate { column_idx, node_idx, value };
        match self.filter_position(column_idx, node_idx) {
            Some(at) => {
                self.filter_updates.set(at, update);
                proof {
                    lemma_replaced_update(old(self).filter_updates@, at as int, update);
                    assert(self@.added_edges == old(self)@.added_edges);
                    assert(self@.deleted_edges == old(self)@.deleted_edges);
                }
            },
            None => {
                self.filter_updates.push(update);
                proof {
                    lemma_pushed_update(old(self).filter_updates@, update);
                    assert(self@.added_edges == old(self)@.added_edges);
                    assert(self@.deleted_edges == old(self)@.deleted_edges);
                }
            },
        }
    }

    fn filter_position(&self, column_idx: usize, node_idx: u32) -> (at: Option<usize>)
        ensures
            match at {
                Some(at) => update_at(self.filter_updates@, (column_idx, node_idx), at as int),
                None => !self@.filter_updates.contains_key((column_idx, node_idx)),
            },
    {
        for i in 0..self.filter_updates.len()
            invariant
                forall|j: int|
                    0 <= j < i ==> !#[trigger] update_at(
                        self.filter_updates@,
                        (column_idx, node_idx),
                        j,
                    ),
        {
            let update: FilterUpdate = self.filter_updates[i];
            if update.column_idx == column_idx && update.node_idx == node_idx {
                return Some(i);
            }
        }
        None
    }

    /// The filter value recorded for a column and a node.
    pub fn filter_value(&self, column_idx: usize, node_idx: u32) -> (value: Option<
        Option<EncodedFilterValue>,
    >)
        requires
            self.wf(),
        ensures
            value == (if self@.filter_updates.contains_key((column_idx, node_idx)) {
                Some(self@.filter_updates[(column_idx, node_idx)])
            } else {
                None
            }),
    {
        match self.filter_position(column_idx, node_idx) {
            Some(at) => {
                proof {
                    lemma_update(self.filter_updates@, at as int);
                }
                Some(self.filter_updates[at].value)
            },
            None => None,
        }
    }
}

/// Whether no column and node has two updates.
pub open spec fn updates_distinct(updates: Seq<FilterUpdate>) -> bool {
    forall|i: int, j: int|
        0 <= i < j < updates.len() ==> {
            ||| (#[trigger] updates[i]).column_idx != (#[trigger] updates[j]).column_idx
            ||| updates[i].node_idx != updates[j].node_idx
        }
}

proof fn lemma_update(updates: Seq<FilterUpdate>, at: int)
    requires
        updates_distinct(updates),
        0 <= at < updates.len(),
    ensures
        updates_map(updates).contains_key((updates[at].column_idx, updates[at].node_idx)),
        updates_map(updates)[(updates[at].column_idx, updates[at].node_idx)] == updates[at].value,
{
    let key = (updates[at].column_idx, updates[at].node_idx);
    assert(update_at(updates, key, at));
    let i = choose|i: int| update_at(updates, key, i);
    assert(update_at(updates, key, i));
    if i < at {
        assert(updates[i].column_idx != updates[at].column_idx || updates[i].node_idx
            != updates[at].node_idx);
    } else if at < i {
        assert(updates[at].column_idx != updates[i].column_idx || updates[at].node_idx
            != updates[i].node_idx);
    }
}

proof fn lemma_replaced_update(updates: Seq<FilterUpdate>, at: int, update: FilterUpdate)
    requires
        updates_distinct(updates),
        update_at(updates, (update.column_idx, update.node_idx), at),
    ensures
        updates_distinct(updates.update(at, update)),
        updates_map(updates.update(at, update)) == updates_map(updates).insert(
            (update.column_idx, update.node_idx),
            update.value,
        ),
{
    let key = (update.column_idx, update.node_idx);
    let after = updates.update(at, update);
    assert forall|i: int, j: int| 0 <= i < j < after.len() implies {
        ||| (#[trigger] after[i]).column_idx != (#[trigger] after[j]).column_idx
        ||| after[i].node_idx != after[j].node_idx
    } by {
        assert(updates[i].column_idx != updates[j].column_idx || updates[i].node_idx
            != updates[j].node_idx);
    }
    assert forall|k: (usize, u32)| #![auto] updates_map(after).contains_key(k)
        <==> updates_map(updates).insert(key, update.value).contains_key(k) by {
        if updates_map(after).contains_key(k) {
            let i = choose|i: int| update_at(after, k, i);
            assert(update_at(after, k, i));
            assert(update_at(updates, k, i));
        }
        if updates_map(updates).contains_key(k) {
            let i = choose|i: int| update_at(updates, k, i);
            assert(update_at(updates, k, i));
            assert(update_at(after, k, i));
        }
        if k == key {
            assert(update_at(after, k, at));
        }
    }
    assert forall|k: (usize, u32)| #![auto] updates_map(after).contains_key(k) implies updates_map(
        after,
    )[k] == updates_map(updates).insert(key, update.value)[k] by {
        let i = choose|i: int| update_at(after, k, i);
        assert(update_at(after, k, i));
        lemma_update(after, i);
        lemma_update(updates, i);
        lemma_update(after, at);
    }
    assert(updates_map(after) =~= updates_map(updates).insert(key, update.value));
}

proof fn lemma_pushed_update(updates: Seq<FilterUpdate>, update: FilterUpdate)
    requires
        updates_distinct(updates),
        !updates_map(updates).contains_key((update.column_idx, update.node_idx)),
    ensures
        updates_distinct(updates.push(update)),
        updates_map(updates.push(update)) == updates_map(updates).insert(
            (update.column_idx, update.node_idx),
            update.value,
        ),
{
    let key = (update.column_idx, update.node_idx);
    let after = updates.push(update);
    assert forall|i: int, j: int| 0 <= i < j < after.len() implies {
        ||| (#[trigger] after[i]).column_idx != (#[trigger] after[j]).column_idx
        ||| after[i].node_idx != after[j].node_idx
    } by {
        if j < updates.len() {
            assert(updates[i].column_idx != updates[j].column_idx || updates[i].node_idx
                != updates[j].node_idx);
        } else {
            assert(!update_at(updates, key, i));
        }
    }
    assert forall|k: (usize, u32)| #![auto] updates_map(after).contains_key(k)
        <==> updates_map(updates).insert(key, update.value).contains_key(k) by {
        if updates_map(after).contains_key(k) {
            let i = choose|i: int| update_at(after, k, i);
            assert(update_at(after, k, i));
            if i < updates.len() {
                assert(update_at(updates, k, i));
            }
        }
        if updates_map(updates).contains_key(k) {
            let i = choose|i: int| update_at(updates, k, i);
            assert(update_at(updates, k, i));
            assert(update_at(after, k, i));
        }
        if k == key {
            assert(update_at(after, k, updates.len() as int));
        }
    }
    assert forall|k: (usize, u32)| #![auto] updates_map(after).contains_key(k) implies updates_map(
        after,
    )[k] == updates_map(updates).insert(key, update.value)[k] by {
        let i = choose|i: int| update_at(after, k, i);
        assert(update_at(after, k, i));
        lemma_update(after, i);
        if i < updates.len() {
            lemma_update(updates, i);
            assert(update_at(updates, k, i));
        }
    }
    assert(updates_map(after) =~= updates_map(updates).insert(key, update.value));
}

/// Removing one of distinct items removes it from the set they form.
proof fn lemma_removed_item<A>(items: Seq<A>, at: int)
    requires
        items.no_duplicates(),
        0 <= at < items.len(),
    ensures
        items.remove(at).no_duplicates(),
        items.remove(at).to_set() == items.to_set().remove(items[at]),
{
    let after = items.remove(at);
    assert forall|i: int| #![auto] 0 <= i < after.len() implies after[i] == items[if i < at {
        i
    } else {
        i + 1
    }] by {}
    assert forall|x: A| #![auto] after.contains(x) <==> items.contains(x) && x != items[at] by {
        if after.contains(x) {
            let i = choose|i: int| 0 <= i < after.len() && after[i] == x;
            let j = if i < at { i } else { i + 1 };
            assert(items[j] == x);
        }
        if items.contains(x) && x != items[at] {
            let i = choose|i: int| 0 <= i < items.len() && items[i] == x;
            let j = if i < at { i } else { i - 1 };
            assert(after[j] == x);
        }
    }
    assert(after.to_set() =~= items.to_set().remove(items[at]));
}

/// Adding a new item keeps items distinct and adds it to the set they form.
proof fn lemma_pushed_item<A>(items: Seq<A>, item: A)
    requires
        items.no_duplicates(),
        !items.contains(item),
    ensures
        items.push(item).no_duplicates(),
        items.push(item).to_set() == items.to_set().insert(item),
        forall|x: A| #![auto] items.push(item).contains(x) <==> items.contains(x) || x == item,
{
    let after = items.push(item);
    assert forall|i: int, j: int|
        0 <= i < after.len() && 0 <= j < after.len() && i != j implies after[i] != after[j] by {
        if i < items.len() && j < items.len() {
            assert(items[i] != items[j]);
        } else if i < items.len() {
            assert(items.contains(items[i]));
        } else {
            assert(items.contains(items[j]));
        }
    }
    assert forall|x: A| #![auto] after.contains(x) <==> items.contains(x) || x == item by {
        if after.contains(x) {
            let i = choose|i: int| 0 <= i < after.len() && after[i] == x;
            if i < items.len() {
                assert(items[i] == x);
            }
        }
        if items.contains(x) {
            let i = choose|i: int| 0 <= i < items.len() && items[i] == x;
            assert(after[i] == x);
        }
        if x == item {
            assert(after[items.len() as int] == x);
        }
    }
    assert(after.to_set() =~= items.to_set().insert(item));
}

/// Remove edges to a target and of a type.
fn retain_list(list: &mut Vec<DeltaEdge>, target: u32, type_id: u8)
    ensures
        final(list)@ == edges_without(old(list)@, target, type_id),
{
    let ghost all = list@;
    let ghost mut seen: int = 0;
    let mut at: usize = 0;
    proof {
        reveal(Seq::filter);
        assert(all.take(0) =~= Seq::<DeltaEdge>::empty());
        assert(list@ =~= edges_without(all.take(0), target, type_id) + all.skip(0));
    }
    while at < list.len()
        invariant
            0 <= seen <= all.len(),
            at == edges_without(all.take(seen), target, type_id).len(),
            list@ == edges_without(all.take(seen), target, type_id) + all.skip(seen),
        decreases all.len() - seen,
    {
        let ghost kept = edges_without(all.take(seen), target, type_id);
        let edge: DeltaEdge = list[at];
        proof {
            reveal(Seq::filter);
            assert(edge == all.skip(seen)[0]);
            assert(all.take(seen + 1).drop_last() =~= all.take(seen));
        }
        if edge.target == target && edge.type_id == type_id {
            let _ = list.remove(at);
            assert(list@ =~= kept + all.skip(seen + 1));
        } else {
            at = at + 1;
            assert(list@ =~= kept.push(edge) + all.skip(seen + 1));
        }
        proof {
            seen = seen + 1;
        }
    }
    proof {
        assert(all.skip(seen).len() == 0);
        assert(all.take(seen) =~= all);
        assert(list@ =~= edges_without(all, target, type_id));
    }
}

/// Remove the added edges of an identity.
fn retain_others(edges: &mut HashMap<u32, Vec<DeltaEdge>>, key: DeletedEdge)
    requires
        edge_lists(old(edges)@).contains_key(key.source),
    ensures
        edge_lists(final(edges)@) == without_added(edge_lists(old(edges)@), key),
{
    broadcast use vstd::std_specs::hash::group_hash_axioms;

    let ghost before = edges@;
    match edges.entry(key.source) {
        Entry::Occupied(mut entry) => {
            retain_list(entry.get_mut(), key.target, key.type_id);
            if entry.get().is_empty() {
                let _ = entry.remove();
            }
        },
        Entry::Vacant(_) => {},
    }
    assert(edge_lists(edges@) =~= without_added(edge_lists(before), key));
}

/// Adding an edge and then deleting it leaves the delta as it was, where it had
/// neither before.
pub proof fn lemma_add_then_delete(delta: TxGraphDelta, source: u32, edge: DeltaEdge)
    requires
        delta.wf(),
        !delta@.deleted_edges.contains(added_key((source, edge))),
        !is_added(delta@.added_edges, added_key((source, edge))),
    ensures
        with_deleted_edge(with_added_edge(delta@, source, edge), added_key((source, edge)))
            == delta@,
{
    let key = added_key((source, edge));
    let added = with_added_edge(delta@, source, edge);
    let list = edges_at(delta@.added_edges, source);
    let more = edges_at(added.added_edges, source);
    assert(more == list.push(edge));
    assert(more[list.len() as int] == edge);
    assert(is_added(added.added_edges, key));
    reveal(Seq::filter);
    assert(more.drop_last() =~= list);
    lemma_without_absent(list, edge.target, edge.type_id);
    assert(edges_without(more, edge.target, edge.type_id) == list);
    assert(without_added(added.added_edges, key) =~= delta@.added_edges);
}

proof fn lemma_without_absent(edges: Seq<DeltaEdge>, target: u32, type_id: u8)
    requires
        !leads_to(edges, target, type_id),
    ensures
        edges_without(edges, target, type_id) == edges,
    decreases edges.len(),
{
    reveal(Seq::filter);
    if edges.len() > 0 {
        let init = edges.drop_last();
        assert(!leads_to(init, target, type_id)) by {
            if leads_to(init, target, type_id) {
                let i = choose|i: int|
                    0 <= i < init.len() && (#[trigger] init[i]).target == target
                        && init[i].type_id == type_id;
                assert(edges[i].target == target);
            }
        }
        lemma_without_absent(init, target, type_id);
        let last = edges[edges.len() - 1];
        assert(last.target != target || last.type_id != type_id);
        assert(edges_without(edges, target, type_id) =~= edges);
    } else {
        assert(edges_without(edges, target, type_id) =~= edges);
    }
}

/// Deleting an edge and then adding it leaves the delta as it was, where it had
/// neither before.
pub proof fn lemma_delete_then_add(delta: TxGraphDeltaView, source: u32, edge: DeltaEdge)
    requires
        !delta.deleted_edges.contains(added_key((source, edge))),
        !is_added(delta.added_edges, added_key((source, edge))),
    ensures
        with_added_edge(with_deleted_edge(delta, added_key((source, edge))), source, edge) == delta,
{
    let key = added_key((source, edge));
    let deleted = with_deleted_edge(delta, key);
    assert(deleted.deleted_edges.remove(key) =~= delta.deleted_edges);
}

// ---------------------------------------------------------------------------
// Overlays
// ---------------------------------------------------------------------------

/// The edge as traversal in a direction sees it.
pub open spec fn oriented(direction: TraversalDirection, source: u32, target: u32) -> (u32, u32) {
    if direction is In {
        (target, source)
    } else {
        (source, target)
    }
}

pub fn orient_edge(direction: TraversalDirection, source: u32, target: u32) -> (edge: (u32, u32))
    ensures
        edge == oriented(direction, source, target),
{
    match direction {
        TraversalDirection::Any | TraversalDirection::Out => (source, target),
        TraversalDirection::In => (target, source),
    }
}

/// The added edge as traversal in a direction sees it.
pub open spec fn oriented_added(direction: TraversalDirection, entry: (u32, DeltaEdge)) -> (
    u32,
    DeltaEdge,
) {
    let ends = oriented(direction, entry.0, entry.1.target);
    (ends.0, DeltaEdge { target: ends.1, ..entry.1 })
}

/// The edges of a list that leave `node` in a direction.
pub open spec fn added_from(
    edges: Seq<(u32, DeltaEdge)>,
    direction: TraversalDirection,
    node: u32,
) -> Seq<DeltaEdge> {
    edges.filter(|entry: (u32, DeltaEdge)| oriented_added(direction, entry).0 == node).map_values(
        |entry: (u32, DeltaEdge)| oriented_added(direction, entry).1,
    )
}

/// Target and type of an added edge.
pub open spec fn target_of(edge: DeltaEdge) -> (u32, u8) {
    (edge.target, edge.type_id)
}

/// Whether a deleted edge leaves `node` in a direction, with this target and type.
pub open spec fn deleted_from(
    edges: Set<DeletedEdge>,
    direction: TraversalDirection,
    node: u32,
    target: u32,
    type_id: u8,
) -> bool {
    let ends = oriented(direction, node, target);
    edges.contains(DeletedEdge { source: ends.0, target: ends.1, type_id })
}

fn append_listed(overlay: &mut HashMap<u32, Vec<(u32, u8)>>, node: u32, edge: (u32, u8))
    ensures
        forall|n: u32|
            #![trigger neighbors::listed(final(overlay)@, n)]
            neighbors::listed(final(overlay)@, n) == (if n == node {
                neighbors::listed(old(overlay)@, n).push(edge)
            } else {
                neighbors::listed(old(overlay)@, n)
            }),
        forall|n: u32| #[trigger]
            final(overlay)@.contains_key(n) <==> old(overlay)@.contains_key(n) || n == node,
{
    broadcast use vstd::std_specs::hash::group_hash_axioms;

    let mut edges: Vec<(u32, u8)> = match overlay.remove(&node) {
        Some(edges) => edges,
        None => Vec::new(),
    };
    edges.push(edge);
    overlay.insert(node, edges);
    proof {
        assert forall|n: u32|
            #![trigger neighbors::listed(overlay@, n)]
            neighbors::listed(overlay@, n) == (if n == node {
                neighbors::listed(old(overlay)@, n).push(edge)
            } else {
                neighbors::listed(old(overlay)@, n)
            }) by {
            if n == node {
                assert(neighbors::listed(overlay@, n) =~= neighbors::listed(old(overlay)@, n).push(
                    edge,
                ));
            }
        }
    }
}

/// Whether overlay maps hold what a delta adds and deletes, as traversal in a
/// direction sees it. The edges of a node come in the order in which they were
/// recorded; where they have different sources, the order of the sources is left open.
pub open spec fn is_overlay(
    overlay: EdgeOverlay,
    delta: TxGraphDeltaView,
    direction: TraversalDirection,
) -> bool {
    &&& exists|list: Seq<(u32, DeltaEdge)>|
        {
            &&& #[trigger] lists_added(list, delta.added_edges)
            &&& forall|node: u32|
                #![trigger neighbors::listed(overlay.0@, node)]
                neighbors::listed(overlay.0@, node) == added_from(list, direction, node).map_values(
                    |edge: DeltaEdge| target_of(edge),
                )
        }
    &&& forall|node: u32|
        overlay.0@.contains_key(node) ==> #[trigger] neighbors::listed(overlay.0@, node).len() > 0
    &&& forall|node: u32, target: u32, type_id: u8|
        #![trigger neighbors::listed(overlay.1@, node).contains((target, type_id))]
        neighbors::listed(overlay.1@, node).contains((target, type_id)) <==> deleted_from(
            delta.deleted_edges,
            direction,
            node,
            target,
            type_id,
        )
    &&& forall|node: u32|
        overlay.1@.contains_key(node) ==> #[trigger] neighbors::listed(overlay.1@, node).len() > 0
}

/// Outgoing overlay edges of a node are those added at it, in the order in which they
/// were recorded.
pub proof fn lemma_outgoing_overlay(
    overlay: EdgeOverlay,
    delta: TxGraphDeltaView,
    direction: TraversalDirection,
    node: u32,
)
    requires
        !(direction is In),
        is_overlay(overlay, delta, direction),
    ensures
        neighbors::listed(overlay.0@, node) == edges_at(delta.added_edges, node).map_values(
            |edge: DeltaEdge| target_of(edge),
        ),
{
    let list = choose|list: Seq<(u32, DeltaEdge)>|
        {
            &&& #[trigger] lists_added(list, delta.added_edges)
            &&& forall|node: u32|
                #![trigger neighbors::listed(overlay.0@, node)]
                neighbors::listed(overlay.0@, node) == added_from(list, direction, node).map_values(
                    |edge: DeltaEdge| target_of(edge),
                )
        };
    lemma_outgoing_listed(list, delta.added_edges, direction, node);
}

/// The edges of a list of added edges that leave a node are those added at it.
pub proof fn lemma_outgoing_listed(
    list: Seq<(u32, DeltaEdge)>,
    edges: Map<u32, Seq<DeltaEdge>>,
    direction: TraversalDirection,
    node: u32,
)
    requires
        !(direction is In),
        lists_added(list, edges),
    ensures
        added_from(list, direction, node) == edges_at(edges, node),
{
    let order = choose|order: Seq<u32>| #[trigger]
        is_source_order(order, edges) && list == flattened(edges, order);
    lemma_outgoing_flattened(edges, order, direction, node);
    assert(order.contains(node) <==> order.to_set().contains(node));
}

proof fn lemma_outgoing_flattened(
    edges: Map<u32, Seq<DeltaEdge>>,
    order: Seq<u32>,
    direction: TraversalDirection,
    node: u32,
)
    requires
        !(direction is In),
        order.no_duplicates(),
    ensures
        added_from(flattened(edges, order), direction, node) == (if order.contains(node) {
            edges[node]
        } else {
            Seq::empty()
        }),
    decreases order.len(),
{
    if order.len() == 0 {
        reveal(Seq::filter);
        assert(added_from(flattened(edges, order), direction, node) =~= Seq::empty());
    } else {
        let init = order.drop_last();
        let last = order.last();
        lemma_outgoing_flattened(edges, init, direction, node);
        lemma_outgoing_tagged(flattened(edges, init), last, edges[last], direction, node);
        assert(order[order.len() - 1] == last);
        if init.contains(node) {
            let i = choose|i: int| 0 <= i < init.len() && init[i] == node;
            assert(order[i] == node);
            assert(order[i] != order[order.len() - 1]);
        }
        if order.contains(node) && last != node {
            let i = choose|i: int| 0 <= i < order.len() && order[i] == node;
            assert(init[i] == node);
        }
        assert(Seq::<DeltaEdge>::empty() + edges[last] =~= edges[last]);
    }
}

proof fn lemma_outgoing_tagged(
    list: Seq<(u32, DeltaEdge)>,
    source: u32,
    edges: Seq<DeltaEdge>,
    direction: TraversalDirection,
    node: u32,
)
    requires
        !(direction is In),
    ensures
        added_from(
            list + edges.map_values(|edge: DeltaEdge| (source, edge)),
            direction,
            node,
        ) == (if source == node {
            added_from(list, direction, node) + edges
        } else {
            added_from(list, direction, node)
        }),
    decreases edges.len(),
{
    let tagged = edges.map_values(|edge: DeltaEdge| (source, edge));
    if edges.len() == 0 {
        assert(list + tagged =~= list);
        assert(added_from(list, direction, node) + edges =~= added_from(list, direction, node));
    } else {
        let init = edges.drop_last();
        lemma_outgoing_tagged(list, source, init, direction, node);
        reveal(Seq::filter);
        let all = list + tagged;
        let fewer = list + init.map_values(|edge: DeltaEdge| (source, edge));
        assert(all.drop_last() =~= fewer);
        assert(all.last() == (source, edges.last()));
        if source == node {
            assert(added_from(all, direction, node) =~= added_from(fewer, direction, node).push(
                edges.last(),
            ));
            assert(added_from(list, direction, node) + edges =~= (added_from(list, direction, node)
                + init).push(edges.last()));
        } else {
            assert(added_from(all, direction, node) =~= added_from(fewer, direction, node));
        }
    }
}

impl TxGraphDelta {
    /// Edge overlay maps for the requested traversal direction.
    pub fn edge_overlay(&self, direction: TraversalDirection) -> (overlay: EdgeOverlay)
        ensures
            is_overlay(overlay, self@, direction),
    {
        let list: Vec<(u32, DeltaEdge)> = self.added_list();
        let inserts: OverlayInserts = overlay_inserts(&list, direction);
        let deletes: OverlayDeletes = self.overlay_deletes(direction);
        let overlay: EdgeOverlay = (inserts, deletes);
        assert(lists_added(list@, self@.added_edges));
        overlay
    }

    fn overlay_deletes(&self, direction: TraversalDirection) -> (deletes: OverlayDeletes)
        ensures
            forall|node: u32, target: u32, type_id: u8|
                #![trigger neighbors::listed(deletes@, node).contains((target, type_id))]
                neighbors::listed(deletes@, node).contains((target, type_id)) <==> deleted_from(
                    self@.deleted_edges,
                    direction,
                    node,
                    target,
                    type_id,
                ),
            forall|node: u32|
                deletes@.contains_key(node) ==> #[trigger] neighbors::listed(
                    deletes@,
                    node,
                ).len() > 0,
    {
        broadcast use vstd::std_specs::hash::group_hash_axioms;

        let mut deletes: OverlayDeletes = HashMap::new();
        let ghost edges = self.deleted_edges@;
        for i in 0..self.deleted_edges.len()
            invariant
                edges == self.deleted_edges@,
                forall|node: u32, target: u32, type_id: u8|
                    #![trigger neighbors::listed(deletes@, node).contains((target, type_id))]
                    neighbors::listed(deletes@, node).contains((target, type_id)) <==> deleted_from(
                        edges.take(i as int).to_set(),
                        direction,
                        node,
                        target,
                        type_id,
                    ),
                forall|node: u32|
                    deletes@.contains_key(node) ==> #[trigger] neighbors::listed(
                        deletes@,
                        node,
                    ).len() > 0,
        {
            let edge: DeletedEdge = self.deleted_edges[i];
            let ends: (u32, u32) = orient_edge(direction, edge.source, edge.target);
            let ghost before = deletes@;
            append_listed(&mut deletes, ends.0, (ends.1, edge.type_id));
            proof {
                assert forall|node: u32, target: u32, type_id: u8|
                    #![trigger neighbors::listed(deletes@, node).contains((target, type_id))]
                    neighbors::listed(deletes@, node).contains((target, type_id)) <==> deleted_from(
                        edges.take(i + 1).to_set(),
                        direction,
                        node,
                        target,
                        type_id,
                    ) by {
                    let list = neighbors::listed(before, node);
                    let back = oriented(direction, node, target);
                    let wanted = DeletedEdge { source: back.0, target: back.1, type_id };
                    lemma_push_contains(list, (ends.1, edge.type_id), (target, type_id));
                    assert(edges.take(i + 1) =~= edges.take(i as int).push(edge));
                    lemma_push_contains(edges.take(i as int), edge, wanted);
                    assert(list.contains((target, type_id)) <==> deleted_from(
                        edges.take(i as int).to_set(),
                        direction,
                        node,
                        target,
                        type_id,
                    ));
                }
                assert forall|node: u32| deletes@.contains_key(node) implies
                    #[trigger] neighbors::listed(deletes@, node).len() > 0 by {
                    assert(neighbors::listed(before, node).len() >= 0);
                }
            }
        }
        assert(edges.take(edges.len() as int) =~= edges);
        deletes
    }

    /// The added edges that leave `node` in a direction, with their weights.
    pub fn added_edges_from(&self, direction: TraversalDirection, node: u32) -> (edges: Vec<
        DeltaEdge,
    >)
        ensures
            exists|list: Seq<(u32, DeltaEdge)>| #[trigger]
                lists_added(list, self@.added_edges) && edges@ == added_from(list, direction, node),
    {
        let added: Vec<(u32, DeltaEdge)> = self.added_list();
        let mut found: Vec<DeltaEdge> = Vec::new();
        let ghost edges = added@;
        proof {
            reveal(Seq::filter);
            assert(found@ =~= added_from(edges.take(0), direction, node));
        }
        for i in 0..added.len()
            invariant
                edges == added@,
                found@ == added_from(edges.take(i as int), direction, node),
        {
            let entry: (u32, DeltaEdge) = added[i];
            let ends: (u32, u32) = orient_edge(direction, entry.0, entry.1.target);
            if ends.0 == node {
                found.push(
                    DeltaEdge {
                        target: ends.1,
                        type_id: entry.1.type_id,
                        weight: entry.1.weight,
                    },
                );
            }
            proof {
                reveal(Seq::filter);
                assert(edges.take(i + 1).drop_last() =~= edges.take(i as int));
                assert(found@ =~= added_from(edges.take(i + 1), direction, node));
            }
        }
        assert(edges.take(edges.len() as int) =~= edges);
        assert(lists_added(added@, self@.added_edges));
        found
    }

    /// Whether a deleted edge leaves `node` in a direction, with this target and
    /// type.
    pub fn deletes_edge(
        &self,
        direction: TraversalDirection,
        node: u32,
        target: u32,
        type_id: u8,
    ) -> (found: bool)
        ensures
            found == deleted_from(self@.deleted_edges, direction, node, target, type_id),
    {
        let ends: (u32, u32) = orient_edge(direction, node, target);
        self.has_deleted_edge(DeletedEdge { source: ends.0, target: ends.1, type_id })
    }
}

fn overlay_inserts(added: &Vec<(u32, DeltaEdge)>, direction: TraversalDirection) -> (inserts:
    OverlayInserts)
    ensures
        forall|node: u32|
            #![trigger neighbors::listed(inserts@, node)]
            neighbors::listed(inserts@, node) == added_from(added@, direction, node).map_values(
                |edge: DeltaEdge| target_of(edge),
            ),
        forall|node: u32|
            inserts@.contains_key(node) ==> #[trigger] neighbors::listed(inserts@, node).len() > 0,
{
    broadcast use vstd::std_specs::hash::group_hash_axioms;

    let mut inserts: OverlayInserts = HashMap::new();
    let ghost edges = added@;
    proof {
        reveal(Seq::filter);
        assert forall|node: u32|
            #![trigger neighbors::listed(inserts@, node)]
            neighbors::listed(inserts@, node) == added_from(
                edges.take(0),
                direction,
                node,
            ).map_values(|edge: DeltaEdge| target_of(edge)) by {
            assert(neighbors::listed(inserts@, node) =~= added_from(
                edges.take(0),
                direction,
                node,
            ).map_values(|edge: DeltaEdge| target_of(edge)));
        }
    }
    for i in 0..added.len()
        invariant
            edges == added@,
            forall|node: u32|
                #![trigger neighbors::listed(inserts@, node)]
                neighbors::listed(inserts@, node) == added_from(
                    edges.take(i as int),
                    direction,
                    node,
                ).map_values(|edge: DeltaEdge| target_of(edge)),
            forall|node: u32|
                inserts@.contains_key(node) ==> #[trigger] neighbors::listed(
                    inserts@,
                    node,
                ).len() > 0,
    {
        let entry: (u32, DeltaEdge) = added[i];
        let ends: (u32, u32) = orient_edge(direction, entry.0, entry.1.target);
        let ghost before = inserts@;
        append_listed(&mut inserts, ends.0, (ends.1, entry.1.type_id));
        proof {
            reveal(Seq::filter);
            assert(edges.take(i + 1).drop_last() =~= edges.take(i as int));
            assert forall|node: u32|
                #![trigger neighbors::listed(inserts@, node)]
                neighbors::listed(inserts@, node) == added_from(
                    edges.take(i + 1),
                    direction,
                    node,
                ).map_values(|edge: DeltaEdge| target_of(edge)) by {
                assert(neighbors::listed(before, node) == added_from(
                    edges.take(i as int),
                    direction,
                    node,
                ).map_values(|edge: DeltaEdge| target_of(edge)));
                assert(neighbors::listed(inserts@, node) =~= added_from(
                    edges.take(i + 1),
                    direction,
                    node,
                ).map_values(|edge: DeltaEdge| target_of(edge)));
            }
            assert forall|node: u32| inserts@.contains_key(node) implies
                #[trigger] neighbors::listed(inserts@, node).len() > 0 by {
                assert(neighbors::listed(before, node).len() >= 0);
            }
        }
    }
    assert(edges.take(edges.len() as int) =~= edges);
    inserts
}

proof fn lemma_push_contains<A>(items: Seq<A>, item: A, wanted: A)
    ensures
        items.push(item).contains(wanted) <==> items.contains(wanted) || wanted == item,
{
    let after = items.push(item);
    if after.contains(wanted) {
        let i = choose|i: int| 0 <= i < after.len() && after[i] == wanted;
        if i < items.len() {
            assert(items[i] == wanted);
        }
    }
    if items.contains(wanted) {
        let i = choose|i: int| 0 <= i < items.len() && items[i] == wanted;
        assert(after[i] == wanted);
    }
    if wanted == item {
        assert(after[items.len() as int] == wanted);
    }
}

// ---------------------------------------------------------------------------
// Capacity
// ---------------------------------------------------------------------------

/// The error of an overlay that would grow beyond its limit.
pub open spec fn limit_error(kind: Seq<char>, requested: int, limit: usize) -> Option<
    GraphErrorView,
> {
    if requested > limit {
        Some(GraphErrorView::OverlayLimit { kind, requested: requested as usize, limit })
    } else {
        None
    }
}

pub fn enforce_limit(kind: &str, requested: usize, limit: usize) -> (result: GraphResult<()>)
    ensures
        safety::refusal(result) == limit_error(kind@, requested as int, limit),
{
    if requested > limit {
        return Err(GraphError::OverlayLimit { kind: owned(kind), requested, limit });
    }
    Ok(())
}

/// The error of a write inside a subtransaction.
pub open spec fn subtransaction_error(depth: u32) -> Option<GraphErrorView> {
    if depth > 0 {
        Some(
            GraphErrorView::UnsupportedOperation {
                operation: "mutable graph write inside a subtransaction"@,
                reason: "transaction-local graph overlays reject SAVEPOINT and PL subtransaction writes"@,
            },
        )
    } else {
        None
    }
}

/// The first reason, if any, not to record more: too many nodes, too many edges,
/// too much memory, or an open subtransaction.
pub open spec fn capacity_error(
    stats: TxDeltaStats,
    limits: TxDeltaLimits,
    depth: u32,
    additional_nodes: usize,
    additional_edges: usize,
    additional_memory_bytes: usize,
) -> Option<GraphErrorView> {
    let nodes = limit_error(
        "tx_delta_nodes"@,
        capped(stats.added_nodes + stats.deleted_nodes + additional_nodes),
        limits.max_nodes,
    );
    let edges = limit_error(
        "tx_delta_edges"@,
        capped(stats.added_edges + stats.deleted_edges + additional_edges),
        limits.max_edges,
    );
    let memory = limit_error(
        "overlay_memory_bytes"@,
        capped(stats.memory_bytes + additional_memory_bytes),
        limits.max_memory_bytes,
    );
    if nodes is Some {
        nodes
    } else if edges is Some {
        edges
    } else if memory is Some {
        memory
    } else {
        subtransaction_error(depth)
    }
}

/// Decide whether a transaction with these statistics can record more.
pub fn check_write_capacity(
    stats: &TxDeltaStats,
    limits: &TxDeltaLimits,
    depth: u32,
    additional_nodes: usize,
    additional_edges: usize,
    additional_memory_bytes: usize,
) -> (result: GraphResult<()>)
    ensures
        safety::refusal(result) == capacity_error(
            *stats,
            *limits,
            depth,
            additional_nodes,
            additional_edges,
            additional_memory_bytes,
        ),
{
    enforce_limit(
        "tx_delta_nodes",
        stats.added_nodes.saturating_add(stats.deleted_nodes).saturating_add(additional_nodes),
        limits.max_nodes,
    )?;
    enforce_limit(
        "tx_delta_edges",
        stats.added_edges.saturating_add(stats.deleted_edges).saturating_add(additional_edges),
        limits.max_edges,
    )?;
    enforce_limit(
        "overlay_memory_bytes",
        stats.memory_bytes.saturating_add(additional_memory_bytes),
        limits.max_memory_bytes,
    )?;
    reject_if_subtransaction(depth)
}

pub fn reject_if_subtransaction(depth: u32) -> (result: GraphResult<()>)
    ensures
        safety::refusal(result) == subtransaction_error(depth),
{
    if depth > 0 {
        return Err(
            GraphError::UnsupportedOperation {
                operation: owned("mutable graph write inside a subtransaction"),
                reason: owned(
                    "transaction-local graph overlays reject SAVEPOINT and PL subtransaction writes",
                ),
            },
        );
    }
    Ok(())
}

/// Bytes that recording a node takes.
pub open spec fn added_node_bytes(primary_key: Seq<char>, tenant: Option<Seq<char>>) -> int {
    let tenant_bytes: int = match tenant {
        Some(tenant) => text_len(tenant),
        None => 0,
    };
    capped(layout::size_of::<AddedNode>() as int + text_len(primary_key) + tenant_bytes)
}

/// The length of a text in bytes, as `str::len` gives it.
pub open spec fn text_len(value: Seq<char>) -> int {
    vstd::utf8::encode_utf8(value).len() as usize as int
}

/// An optional text as a character sequence.
pub open spec fn text_of(value: Option<&str>) -> Option<Seq<char>> {
    match value {
        Some(value) => Some(value@),
        None => None,
    }
}

pub fn estimated_added_node_bytes(primary_key: &str, tenant: Option<&str>) -> (bytes: usize)
    ensures
        bytes == added_node_bytes(primary_key@, text_of(tenant)),
{
    let tenant_bytes: usize = match tenant {
        Some(tenant) => tenant.len(),
        None => 0,
    };
    let node_bytes: usize = std::mem::size_of::<AddedNode>();
    node_bytes.saturating_add(primary_key.len()).saturating_add(tenant_bytes)
}

/// Bytes that recording an edge takes: its source, a list, and the edge.
pub open spec fn added_edge_bytes() -> int {
    capped((source_bytes() + layout::size_of::<DeltaEdge>()) as int)
}

pub fn estimated_added_edge_bytes() -> (bytes: usize)
    ensures
        bytes == added_edge_bytes(),
{
    std::mem::size_of::<u32>().saturating_add(
        std::mem::size_of::<Vec<DeltaEdge>>(),
    ).saturating_add(std::mem::size_of::<DeltaEdge>())
}

pub fn estimated_deleted_edge_bytes() -> (bytes: usize)
    ensures
        bytes == layout::size_of::<(u32, u32, u8)>(),
{
    std::mem::size_of::<(u32, u32, u8)>()
}

pub fn estimated_filter_update_bytes() -> (bytes: usize)
    ensures
        bytes == capped(update_bytes() as int),
{
    std::mem::size_of::<(usize, u32)>().saturating_add(
        std::mem::size_of::<Option<EncodedFilterValue>>(),
    )
}

// ---------------------------------------------------------------------------
// Transaction state
// ---------------------------------------------------------------------------

/// The statistics of a delta whose memory estimate is `memory_bytes`.
pub open spec fn stats_with(delta: TxGraphDeltaView, memory_bytes: usize) -> TxDeltaStats {
    TxDeltaStats {
        added_nodes: delta.added_nodes.len() as usize,
        deleted_nodes: delta.deleted_nodes.len() as usize,
        added_edges: capped(edge_count(delta.added_edges) as int) as usize,
        deleted_edges: delta.deleted_edges.len() as usize,
        memory_bytes,
        dirty: delta != clean_delta(),
    }
}

/// The statistics of a transaction that has recorded nothing.
pub open spec fn no_stats() -> TxDeltaStats {
    TxDeltaStats {
        added_nodes: 0,
        deleted_nodes: 0,
        added_edges: 0,
        deleted_edges: 0,
        memory_bytes: 0,
        dirty: false,
    }
}

/// The statistics of a transaction, where `memory_bytes` is the memory estimate of
/// what it has recorded. Where it has recorded nothing there is nothing to estimate.
pub open spec fn stats_of(state: TxState, memory_bytes: usize) -> TxDeltaStats {
    match state.delta {
        Some(delta) => stats_with(delta@, memory_bytes),
        None => no_stats(),
    }
}

/// Whether a number of bytes is the memory estimate of a transaction.
pub open spec fn estimates(memory_bytes: usize, state: TxState) -> bool {
    match state.delta {
        Some(delta) => is_estimate(memory_bytes, delta),
        None => memory_bytes == 0,
    }
}

/// The answer to a request for more, where `memory_bytes` is the memory estimate.
pub open spec fn answer_at(
    state: TxState,
    memory_bytes: usize,
    additional_nodes: usize,
    additional_edges: usize,
    additional_memory_bytes: usize,
) -> Option<GraphErrorView> {
    capacity_error(
        stats_of(state, memory_bytes),
        state.limits,
        state.subtransaction_depth,
        additional_nodes,
        additional_edges,
        additional_memory_bytes,
    )
}

/// Whether the memory estimate leads to this answer to a request for more. A
/// transaction that has recorded nothing has one answer.
pub open spec fn answered(
    state: TxState,
    additional_nodes: usize,
    additional_edges: usize,
    additional_memory_bytes: usize,
    answer: Option<GraphErrorView>,
) -> bool {
    exists|memory_bytes: usize|
        estimates(memory_bytes, state) && answer == #[trigger] answer_at(
            state,
            memory_bytes,
            additional_nodes,
            additional_edges,
            additional_memory_bytes,
        )
}

/// Limits used where nothing else is configured.
pub fn default_limits() -> (limits: TxDeltaLimits)
    ensures
        limits == (TxDeltaLimits {
            max_nodes: 100_000,
            max_edges: 100_000,
            max_memory_bytes: 268_435_456,
        }),
{
    TxDeltaLimits { max_nodes: 100_000, max_edges: 100_000, max_memory_bytes: 268_435_456 }
}

impl TxState {
    pub open spec fn wf(&self) -> bool {
        self.delta matches Some(delta) ==> delta.wf()
    }

    /// What the transaction has recorded.
    pub open spec fn recorded(&self) -> TxGraphDeltaView {
        match self.delta {
            Some(delta) => delta@,
            None => clean_delta(),
        }
    }

    /// A transaction that has recorded nothing.
    pub fn new(limits: TxDeltaLimits) -> (state: TxState)
        ensures
            state.wf(),
            state == (TxState { delta: None, subtransaction_depth: 0, limits }),
    {
        TxState { delta: None, subtransaction_depth: 0, limits }
    }

    /// Take out what the transaction has recorded.
    fn take_delta(&mut self) -> (delta: TxGraphDelta)
        requires
            old(self).wf(),
        ensures
            delta.wf(),
            delta@ == old(self).recorded(),
            *final(self) == (TxState { delta: None, ..*old(self) }),
    {
        match self.delta.take() {
            Some(delta) => delta,
            None => TxGraphDelta::new(),
        }
    }
}

/// The memory estimate of what a transaction has recorded.
pub fn memory_estimate(state: &TxState) -> (memory_bytes: usize)
    ensures
        estimates(memory_bytes, *state),
{
    match &state.delta {
        Some(delta) => delta.estimated_heap_bytes(),
        None => 0,
    }
}

/// Transaction-delta statistics for a memory estimate.
pub fn stats_at(state: &TxState, memory_bytes: usize) -> (stats: TxDeltaStats)
    requires
        state.wf(),
    ensures
        stats == stats_of(*state, memory_bytes),
{
    match &state.delta {
        Some(delta) => delta.stats_at(memory_bytes),
        None => TxDeltaStats::default(),
    }
}

/// Return current transaction-delta statistics.
pub fn stats(state: &TxState) -> (stats: TxDeltaStats)
    requires
        state.wf(),
    ensures
        state.delta is None ==> stats == no_stats(),
        stats == stats_of(*state, stats.memory_bytes),
        estimates(stats.memory_bytes, *state),
{
    let memory_bytes: usize = memory_estimate(state);
    stats_at(state, memory_bytes)
}

pub fn max_tx_delta_nodes(state: &TxState) -> (limit: usize)
    ensures
        limit == state.limits.max_nodes,
{
    state.limits.max_nodes
}

pub fn max_tx_delta_edges(state: &TxState) -> (limit: usize)
    ensures
        limit == state.limits.max_edges,
{
    state.limits.max_edges
}

pub fn max_overlay_memory_bytes(state: &TxState) -> (limit: usize)
    ensures
        limit == state.limits.max_memory_bytes,
{
    state.limits.max_memory_bytes
}

/// Validate that the current transaction can accept additional graph deltas, where
/// `memory_bytes` is the memory estimate of what it has recorded.
pub fn ensure_write_capacity_at(
    state: &TxState,
    memory_bytes: usize,
    additional_nodes: usize,
    additional_edges: usize,
    additional_memory_bytes: usize,
) -> (result: GraphResult<()>)
    requires
        state.wf(),
    ensures
        safety::refusal(result) == answer_at(
            *state,
            memory_bytes,
            additional_nodes,
            additional_edges,
            additional_memory_bytes,
        ),
{
    let stats: TxDeltaStats = stats_at(state, memory_bytes);
    let limits: TxDeltaLimits = TxDeltaLimits {
        max_nodes: max_tx_delta_nodes(state),
        max_edges: max_tx_delta_edges(state),
        max_memory_bytes: max_overlay_memory_bytes(state),
    };
    check_write_capacity(
        &stats,
        &limits,
        state.subtransaction_depth,
        additional_nodes,
        additional_edges,
        additional_memory_bytes,
    )
}

/// Validate that the current transaction can accept additional graph deltas.
pub fn ensure_write_capacity(
    state: &TxState,
    additional_nodes: usize,
    additional_edges: usize,
    additional_memory_bytes: usize,
) -> (result: GraphResult<()>)
    requires
        state.wf(),
    ensures
        answered(
            *state,
            additional_nodes,
            additional_edges,
            additional_memory_bytes,
            safety::refusal(result),
        ),
{
    let memory_bytes: usize = memory_estimate(state);
    ensure_write_capacity_at(
        state,
        memory_bytes,
        additional_nodes,
        additional_edges,
        additional_memory_bytes,
    )
}

/// Record a transaction-local node insertion. `memory_bytes` is the memory estimate
/// of what the transaction has recorded.
pub fn record_added_node_at(
    state: &mut TxState,
    memory_bytes: usize,
    table_oid: u32,
    primary_key: &str,
    tenant: Option<&str>,
) -> (result: GraphResult<()>)
    requires
        old(state).wf(),
    ensures
        final(state).wf(),
        safety::refusal(result) == answer_at(
            *old(state),
            memory_bytes,
            1,
            0,
            added_node_bytes(primary_key@, text_of(tenant)) as usize,
        ),
        match safety::refusal(result) {
            Some(_) => *final(state) == *old(state),
            None => {
                &&& final(state).limits == old(state).limits
                &&& final(state).subtransaction_depth == old(state).subtransaction_depth
                &&& final(state).delta is Some
                &&& final(state).recorded() == (TxGraphDeltaView {
                    added_nodes: old(state).recorded().added_nodes.push(
                        AddedNodeView {
                            table_oid,
                            primary_key: primary_key@,
                            tenant: text_of(tenant),
                            node_idx: None,
                        },
                    ),
                    ..old(state).recorded()
                })
            },
        },
{
    let bytes: usize = estimated_added_node_bytes(primary_key, tenant);
    ensure_write_capacity_at(state, memory_bytes, 1, 0, bytes)?;
    let scope: Option<String> = match tenant {
        Some(tenant) => Some(owned(tenant)),
        None => None,
    };
    let node: AddedNode = AddedNode {
        table_oid,
        primary_key: owned(primary_key),
        tenant: scope,
        node_idx: None,
    };
    let mut delta: TxGraphDelta = state.take_delta();
    delta.push_node(node);
    state.delta = Some(delta);
    Ok(())
}

/// Record a transaction-local node insertion.
pub fn record_added_node(
    state: &mut TxState,
    table_oid: u32,
    primary_key: &str,
    tenant: Option<&str>,
) -> (result: GraphResult<()>)
    requires
        old(state).wf(),
    ensures
        final(state).wf(),
        answered(
            *old(state),
            1,
            0,
            added_node_bytes(primary_key@, text_of(tenant)) as usize,
            safety::refusal(result),
        ),
        match safety::refusal(result) {
            Some(_) => *final(state) == *old(state),
            None => {
                &&& final(state).limits == old(state).limits
                &&& final(state).subtransaction_depth == old(state).subtransaction_depth
                &&& final(state).delta is Some
                &&& final(state).recorded() == (TxGraphDeltaView {
                    added_nodes: old(state).recorded().added_nodes.push(
                        AddedNodeView {
                            table_oid,
                            primary_key: primary_key@,
                            tenant: text_of(tenant),
                            node_idx: None,
                        },
                    ),
                    ..old(state).recorded()
                })
            },
        },
{
    let memory_bytes: usize = memory_estimate(state);
    record_added_node_at(state, memory_bytes, table_oid, primary_key, tenant)
}

/// Whether an added node is visible to a scan of a table under a tenant scope.
pub open spec fn added_node_visible(
    node: AddedNodeView,
    table_oid: u32,
    tenant: Option<Seq<char>>,
    table_is_tenanted: bool,
) -> bool {
    &&& node.table_oid == table_oid
    &&& tenant is Some && table_is_tenanted ==> node.tenant == tenant
}

/// The primary keys of the added nodes that a scan of a table sees.
pub open spec fn visible_node_keys(
    nodes: Seq<AddedNodeView>,
    table_oid: u32,
    tenant: Option<Seq<char>>,
    table_is_tenanted: bool,
) -> Seq<Seq<char>> {
    nodes.filter(
        |node: AddedNodeView| added_node_visible(node, table_oid, tenant, table_is_tenanted),
    ).map_values(|node: AddedNodeView| node.primary_key)
}

/// Texts as character sequences.
pub open spec fn texts(values: Seq<String>) -> Seq<Seq<char>> {
    values.map_values(|value: String| value@)
}

/// Return transaction-local node primary keys for a table and tenant scope.
pub fn added_node_keys(
    state: &TxState,
    table_oid: u32,
    tenant: Option<&str>,
    table_is_tenanted: bool,
) -> (keys: Vec<String>)
    ensures
        texts(keys@) == visible_node_keys(
            state.recorded().added_nodes,
            table_oid,
            text_of(tenant),
            table_is_tenanted,
        ),
{
    let mut keys: Vec<String> = Vec::new();
    let ghost nodes = state.recorded().added_nodes;
    let delta: &TxGraphDelta = match &state.delta {
        Some(delta) => delta,
        None => {
            proof {
                reveal(Seq::filter);
                assert(texts(keys@) =~= visible_node_keys(
                    nodes,
                    table_oid,
                    text_of(tenant),
                    table_is_tenanted,
                ));
            }
            return keys;
        },
    };
    let ghost scope = text_of(tenant);
    proof {
        reveal(Seq::filter);
        assert(texts(keys@) =~= visible_node_keys(
            nodes.take(0),
            table_oid,
            scope,
            table_is_tenanted,
        ));
    }
    for i in 0..delta.added_nodes.len()
        invariant
            nodes == delta@.added_nodes,
            scope == text_of(tenant),
            texts(keys@) == visible_node_keys(
                nodes.take(i as int),
                table_oid,
                scope,
                table_is_tenanted,
            ),
    {
        let node: &AddedNode = &delta.added_nodes[i];
        let in_scope: bool = match tenant {
            Some(active) => if table_is_tenanted {
                match &node.tenant {
                    Some(created) => same_text(active, created.as_str()),
                    None => false,
                }
            } else {
                true
            },
            None => true,
        };
        let ghost before = keys@;
        let visible: bool = node.table_oid == table_oid && in_scope;
        assert(visible == added_node_visible(node@, table_oid, scope, table_is_tenanted));
        let ghost seen = |node: AddedNodeView|
            added_node_visible(node, table_oid, scope, table_is_tenanted);
        if visible {
            let key: String = node.primary_key.clone();
            keys.push(key);
            assert(texts(keys@) =~= texts(before).push(node@.primary_key));
        }
        proof {
            reveal(Seq::filter);
            assert(nodes.take(i + 1).drop_last() =~= nodes.take(i as int));
            assert(nodes.take(i + 1).last() == node@);
            assert(nodes.take(i + 1).filter(seen) == (if visible {
                nodes.take(i as int).filter(seen).push(node@)
            } else {
                nodes.take(i as int).filter(seen)
            }));
            assert(texts(keys@) =~= visible_node_keys(
                nodes.take(i + 1),
                table_oid,
                scope,
                table_is_tenanted,
            ));
        }
    }
    assert(nodes.take(nodes.len() as int) =~= nodes);
    keys
}

/// Record a transaction-local node deletion. `memory_bytes` is the memory estimate
/// of what the transaction has recorded.
pub fn record_deleted_node_at(
    state: &mut TxState,
    memory_bytes: usize,
    node_idx: u32,
) -> (result: GraphResult<()>)
    requires
        old(state).wf(),
    ensures
        final(state).wf(),
        safety::refusal(result) == answer_at(
            *old(state),
            memory_bytes,
            1,
            0,
            layout::size_of::<u32>() as usize,
        ),
        match safety::refusal(result) {
            Some(_) => *final(state) == *old(state),
            None => {
                &&& final(state).limits == old(state).limits
                &&& final(state).subtransaction_depth == old(state).subtransaction_depth
                &&& final(state).delta is Some
                &&& final(state).recorded() == (TxGraphDeltaView {
                    deleted_nodes: old(state).recorded().deleted_nodes.insert(node_idx),
                    ..old(state).recorded()
                })
            },
        },
{
    ensure_write_capacity_at(state, memory_bytes, 1, 0, std::mem::size_of::<u32>())?;
    let mut delta: TxGraphDelta = state.take_delta();
    delta.delete_node(node_idx);
    state.delta = Some(delta);
    Ok(())
}

/// Record a transaction-local node deletion.
pub fn record_deleted_node(
    state: &mut TxState,
    node_idx: u32,
) -> (result: GraphResult<()>)
    requires
        old(state).wf(),
    ensures
        final(state).wf(),
        answered(
            *old(state),
            1,
            0,
            layout::size_of::<u32>() as usize,
            safety::refusal(result),
        ),
        match safety::refusal(result) {
            Some(_) => *final(state) == *old(state),
            None => {
                &&& final(state).limits == old(state).limits
                &&& final(state).subtransaction_depth == old(state).subtransaction_depth
                &&& final(state).delta is Some
                &&& final(state).recorded() == (TxGraphDeltaView {
                    deleted_nodes: old(state).recorded().deleted_nodes.insert(node_idx),
                    ..old(state).recorded()
                })
            },
        },
{
    let memory_bytes: usize = memory_estimate(state);
    record_deleted_node_at(state, memory_bytes, node_idx)
}

/// Return whether a node has been deleted in the active transaction.
pub fn node_deleted(state: &TxState, node_idx: u32) -> (found: bool)
    ensures
        found == state.recorded().deleted_nodes.contains(node_idx),
{
    match &state.delta {
        Some(delta) => delta.has_deleted_node(node_idx),
        None => false,
    }
}

/// Record a transaction-local typed filter-index value update. `memory_bytes` is the memory estimate
/// of what the transaction has recorded.
pub fn record_filter_value_update_at(
    state: &mut TxState,
    memory_bytes: usize,
    column_idx: usize,
    node_idx: u32,
    value: Option<EncodedFilterValue>,
) -> (result: GraphResult<()>)
    requires
        old(state).wf(),
    ensures
        final(state).wf(),
        safety::refusal(result) == answer_at(
            *old(state),
            memory_bytes,
            0,
            0,
            capped(update_bytes() as int) as usize,
        ),
        match safety::refusal(result) {
            Some(_) => *final(state) == *old(state),
            None => {
                &&& final(state).limits == old(state).limits
                &&& final(state).subtransaction_depth == old(state).subtransaction_depth
                &&& final(state).delta is Some
                &&& final(state).recorded() == (TxGraphDeltaView {
                    filter_updates: old(state).recorded().filter_updates.insert(
                        (column_idx, node_idx),
                        value,
                    ),
                    ..old(state).recorded()
                })
            },
        },
{
    ensure_write_capacity_at(state, memory_bytes, 0, 0, estimated_filter_update_bytes())?;
    let mut delta: TxGraphDelta = state.take_delta();
    delta.update_filter(column_idx, node_idx, value);
    state.delta = Some(delta);
    Ok(())
}

/// Record a transaction-local typed filter-index value update.
pub fn record_filter_value_update(
    state: &mut TxState,
    column_idx: usize,
    node_idx: u32,
    value: Option<EncodedFilterValue>,
) -> (result: GraphResult<()>)
    requires
        old(state).wf(),
    ensures
        final(state).wf(),
        answered(
            *old(state),
            0,
            0,
            capped(update_bytes() as int) as usize,
            safety::refusal(result),
        ),
        match safety::refusal(result) {
            Some(_) => *final(state) == *old(state),
            None => {
                &&& final(state).limits == old(state).limits
                &&& final(state).subtransaction_depth == old(state).subtransaction_depth
                &&& final(state).delta is Some
                &&& final(state).recorded() == (TxGraphDeltaView {
                    filter_updates: old(state).recorded().filter_updates.insert(
                        (column_idx, node_idx),
                        value,
                    ),
                    ..old(state).recorded()
                })
            },
        },
{
    let memory_bytes: usize = memory_estimate(state);
    record_filter_value_update_at(state, memory_bytes, column_idx, node_idx, value)
}

/// Return a transaction-local typed filter-index value update.
pub fn filter_value_update(state: &TxState, column_idx: usize, node_idx: u32) -> (value: Option<
    Option<EncodedFilterValue>,
>)
    requires
        state.wf(),
    ensures
        value == (if state.recorded().filter_updates.contains_key((column_idx, node_idx)) {
            Some(state.recorded().filter_updates[(column_idx, node_idx)])
        } else {
            None
        }),
{
    match &state.delta {
        Some(delta) => delta.filter_value(column_idx, node_idx),
        None => None,
    }
}

/// Whether adding an edge undoes a recorded deletion.
pub open spec fn cancels_deletion(state: TxState, source: u32, edge: DeltaEdge) -> bool {
    state.recorded().deleted_edges.contains(added_key((source, edge)))
}

/// Whether deleting an edge undoes recorded additions.
pub open spec fn cancels_addition(
    state: TxState,
    source: u32,
    target: u32,
    type_id: u8,
) -> bool {
    is_added(state.recorded().added_edges, DeletedEdge { source, target, type_id })
}

/// Record a transaction-local edge insertion. One that undoes a recorded
/// deletion needs no capacity. `memory_bytes` is the memory estimate
/// of what the transaction has recorded.
pub fn record_added_edge_at(
    state: &mut TxState,
    memory_bytes: usize,
    source: u32,
    edge: DeltaEdge,
) -> (result: GraphResult<()>)
    requires
        old(state).wf(),
    ensures
        final(state).wf(),
        safety::refusal(result) == answer_at(
            *old(state),
            memory_bytes,
            0,
            if cancels_deletion(*old(state), source, edge) {
                0
            } else {
                1
            },
            if cancels_deletion(*old(state), source, edge) {
                0
            } else {
                added_edge_bytes() as usize
            },
        ),
        match safety::refusal(result) {
            Some(_) => *final(state) == *old(state),
            None => {
                &&& final(state).limits == old(state).limits
                &&& final(state).subtransaction_depth == old(state).subtransaction_depth
                &&& final(state).delta is Some
                &&& final(state).recorded() == with_added_edge(old(state).recorded(), source, edge)
            },
        },
{
    let key: DeletedEdge = DeletedEdge { source, target: edge.target, type_id: edge.type_id };
    let cancels_delete: bool = match &state.delta {
        Some(delta) => delta.has_deleted_edge(key),
        None => false,
    };
    if cancels_delete {
        ensure_write_capacity_at(state, memory_bytes, 0, 0, 0)?;
    } else {
        ensure_write_capacity_at(state, memory_bytes, 0, 1, estimated_added_edge_bytes())?;
    }
    let mut delta: TxGraphDelta = state.take_delta();
    delta.add_edge(source, edge);
    state.delta = Some(delta);
    Ok(())
}

/// Record a transaction-local edge insertion. One that undoes a recorded
/// deletion needs no capacity.
pub fn record_added_edge(
    state: &mut TxState,
    source: u32,
    edge: DeltaEdge,
) -> (result: GraphResult<()>)
    requires
        old(state).wf(),
    ensures
        final(state).wf(),
        answered(
            *old(state),
            0,
            if cancels_deletion(*old(state), source, edge) {
                0
            } else {
                1
            },
            if cancels_deletion(*old(state), source, edge) {
                0
            } else {
                added_edge_bytes() as usize
            },
            safety::refusal(result),
        ),
        match safety::refusal(result) {
            Some(_) => *final(state) == *old(state),
            None => {
                &&& final(state).limits == old(state).limits
                &&& final(state).subtransaction_depth == old(state).subtransaction_depth
                &&& final(state).delta is Some
                &&& final(state).recorded() == with_added_edge(old(state).recorded(), source, edge)
            },
        },
{
    let memory_bytes: usize = memory_estimate(state);
    record_added_edge_at(state, memory_bytes, source, edge)
}

/// Record a transaction-local edge deletion. One that undoes recorded additions
/// needs no capacity. `memory_bytes` is the memory estimate
/// of what the transaction has recorded.
pub fn record_deleted_edge_at(
    state: &mut TxState,
    memory_bytes: usize,
    source: u32,
    target: u32,
    type_id: u8,
) -> (result: GraphResult<()>)
    requires
        old(state).wf(),
    ensures
        final(state).wf(),
        safety::refusal(result) == answer_at(
            *old(state),
            memory_bytes,
            0,
            if cancels_addition(*old(state), source, target, type_id) {
                0
            } else {
                1
            },
            if cancels_addition(*old(state), source, target, type_id) {
                0
            } else {
                layout::size_of::<(u32, u32, u8)>() as usize
            },
        ),
        match safety::refusal(result) {
            Some(_) => *final(state) == *old(state),
            None => {
                &&& final(state).limits == old(state).limits
                &&& final(state).subtransaction_depth == old(state).subtransaction_depth
                &&& final(state).delta is Some
                &&& final(state).recorded() == with_deleted_edge(
                    old(state).recorded(),
                    (DeletedEdge { source, target, type_id }),
                )
            },
        },
{
    let key: DeletedEdge = DeletedEdge { source, target, type_id };
    let cancels_insert: bool = match &state.delta {
        Some(delta) => delta.has_added_edge(key),
        None => false,
    };
    if cancels_insert {
        ensure_write_capacity_at(state, memory_bytes, 0, 0, 0)?;
    } else {
        ensure_write_capacity_at(state, memory_bytes, 0, 1, estimated_deleted_edge_bytes())?;
    }
    let mut delta: TxGraphDelta = state.take_delta();
    delta.delete_edge(key);
    state.delta = Some(delta);
    Ok(())
}

/// Record a transaction-local edge deletion. One that undoes recorded additions
/// needs no capacity.
pub fn record_deleted_edge(
    state: &mut TxState,
    source: u32,
    target: u32,
    type_id: u8,
) -> (result: GraphResult<()>)
    requires
        old(state).wf(),
    ensures
        final(state).wf(),
        answered(
            *old(state),
            0,
            if cancels_addition(*old(state), source, target, type_id) {
                0
            } else {
                1
            },
            if cancels_addition(*old(state), source, target, type_id) {
                0
            } else {
                layout::size_of::<(u32, u32, u8)>() as usize
            },
            safety::refusal(result),
        ),
        match safety::refusal(result) {
            Some(_) => *final(state) == *old(state),
            None => {
                &&& final(state).limits == old(state).limits
                &&& final(state).subtransaction_depth == old(state).subtransaction_depth
                &&& final(state).delta is Some
                &&& final(state).recorded() == with_deleted_edge(
                    old(state).recorded(),
                    (DeletedEdge { source, target, type_id }),
                )
            },
        },
{
    let memory_bytes: usize = memory_estimate(state);
    record_deleted_edge_at(state, memory_bytes, source, target, type_id)
}

/// Return whether transaction-local edge deltas are present.
pub fn edge_delta_dirty(state: &TxState) -> (dirty: bool)
    requires
        state.wf(),
    ensures
        dirty == (state.recorded().added_edges != Map::<u32, Seq<DeltaEdge>>::empty()
            || state.recorded().deleted_edges != Set::<DeletedEdge>::empty()),
{
    broadcast use vstd::std_specs::hash::group_hash_axioms;

    match &state.delta {
        Some(delta) => {
            proof {
                assert(delta@.added_edges.dom() =~= delta.added_edges@.dom());
                assert(Map::<u32, Seq<DeltaEdge>>::empty().dom() =~= Set::<u32>::empty());
                if delta.added_edges@.dom().len() == 0 {
                    assert(delta@.added_edges =~= Map::<u32, Seq<DeltaEdge>>::empty());
                }
                if delta.deleted_edges@.len() > 0 {
                    assert(delta.deleted_edges@.contains(delta.deleted_edges@[0]));
                    assert(delta@.deleted_edges.contains(delta.deleted_edges@[0]));
                } else {
                    assert(delta@.deleted_edges =~= Set::<DeletedEdge>::empty());
                }
            }
            !delta.added_edges.is_empty() || !delta.deleted_edges.is_empty()
        },
        None => false,
    }
}

/// Return edge overlay maps for the requested traversal direction.
pub fn edge_overlay(state: &TxState, direction: TraversalDirection) -> (overlay: EdgeOverlay)
    ensures
        is_overlay(overlay, state.recorded(), direction),
        state.delta is None ==> overlay.0@ == Map::<u32, Vec<(u32, u8)>>::empty() && overlay.1@
            == Map::<u32, Vec<(u32, u8)>>::empty(),
{
    broadcast use vstd::std_specs::hash::group_hash_axioms;

    match &state.delta {
        Some(delta) => delta.edge_overlay(direction),
        None => {
            let overlay: EdgeOverlay = (HashMap::new(), HashMap::new());
            proof {
                let none = Seq::<(u32, DeltaEdge)>::empty();
                let order = Seq::<u32>::empty();
                assert(order.to_set() =~= clean_delta().added_edges.dom());
                assert(is_source_order(order, clean_delta().added_edges));
                assert(lists_added(none, clean_delta().added_edges));
                reveal(Seq::filter);
                assert forall|node: u32|
                    #![trigger neighbors::listed(overlay.0@, node)]
                    neighbors::listed(overlay.0@, node) == added_from(
                        none,
                        direction,
                        node,
                    ).map_values(|edge: DeltaEdge| target_of(edge)) by {
                    assert(neighbors::listed(overlay.0@, node) =~= added_from(
                        none,
                        direction,
                        node,
                    ).map_values(|edge: DeltaEdge| target_of(edge)));
                }
            }
            overlay
        },
    }
}

/// Whether a subtransaction is open.
pub fn subtransaction_active(state: &TxState) -> (active: bool)
    ensures
        active == (state.subtransaction_depth > 0),
{
    state.subtransaction_depth > 0
}

/// Forget what the transaction recorded.
pub fn clear_current_delta(state: &mut TxState)
    ensures
        final(state).wf(),
        *final(state) == (TxState { delta: None, ..*old(state) }),
{
    state.delta = None;
}

/// The transaction has ended: forget what it recorded and its subtransactions.
pub fn clear_current_transaction_state(state: &mut TxState)
    ensures
        final(state).wf(),
        *final(state) == (TxState { delta: None, subtransaction_depth: 0, ..*old(state) }),
{
    clear_current_delta(state);
    state.subtransaction_depth = 0;
}

/// A subtransaction has started.
pub fn increment_subtransaction_depth(state: &mut TxState)
    ensures
        *final(state) == (TxState {
            subtransaction_depth: if old(state).subtransaction_depth == u32::MAX {
                u32::MAX
            } else {
                (old(state).subtransaction_depth + 1) as u32
            },
            ..*old(state)
        }),
{
    state.subtransaction_depth = state.subtransaction_depth.saturating_add(1);
}

/// A subtransaction has ended.
pub fn decrement_subtransaction_depth(state: &mut TxState)
    ensures
        *final(state) == (TxState {
            subtransaction_depth: if old(state).subtransaction_depth == 0 {
                0
            } else {
                (old(state).subtransaction_depth - 1) as u32
            },
            ..*old(state)
        }),
{
    state.subtransaction_depth = state.subtransaction_depth.saturating_sub(1);
}

// ---------------------------------------------------------------------------
// Laws
// ---------------------------------------------------------------------------

/// Of a transaction that recorded nothing, as it is after its end, nothing can be
/// read: its statistics are all zero, no node is added or deleted, no edge, and no
/// filter value changes.
pub proof fn lemma_cleared_transaction_says_nothing(state: TxState)
    requires
        state.delta is None,
    ensures
        forall|memory_bytes: usize| #[trigger] stats_of(state, memory_bytes) == no_stats(),
        forall|node: u32| !#[trigger] state.recorded().deleted_nodes.contains(node),
        forall|column: usize, node: u32|
            !#[trigger] state.recorded().filter_updates.contains_key((column, node)),
        forall|table_oid: u32, tenant: Option<Seq<char>>, tenanted: bool| #[trigger]
            visible_node_keys(state.recorded().added_nodes, table_oid, tenant, tenanted).len() == 0,
        state.recorded().added_edges == Map::<u32, Seq<DeltaEdge>>::empty(),
        forall|direction: TraversalDirection, node: u32, target: u32, type_id: u8|
            !#[trigger] deleted_from(
                state.recorded().deleted_edges,
                direction,
                node,
                target,
                type_id,
            ),
{
    reveal(Seq::filter);
}

/// The first write of a transaction outside of subtransactions is accepted if and only
/// if what it asks for is within the limits.
pub proof fn lemma_first_write(
    state: TxState,
    additional_nodes: usize,
    additional_edges: usize,
    additional_memory_bytes: usize,
    answer: Option<GraphErrorView>,
)
    requires
        state.delta is None,
        state.subtransaction_depth == 0,
        answered(state, additional_nodes, additional_edges, additional_memory_bytes, answer),
    ensures
        answer is None <==> additional_nodes <= state.limits.max_nodes && additional_edges
            <= state.limits.max_edges && additional_memory_bytes <= state.limits.max_memory_bytes,
{
}

/// A write that asks for nothing, as one does that undoes another one, is accepted
/// outside of subtransactions if and only if what is recorded already is within the
/// limits.
pub proof fn lemma_cancelling_write(state: TxState, memory_bytes: usize)
    requires
        state.subtransaction_depth == 0,
    ensures
        ({
            let stats = stats_of(state, memory_bytes);
            answer_at(state, memory_bytes, 0, 0, 0) is None <==> capped(
                stats.added_nodes + stats.deleted_nodes,
            ) <= state.limits.max_nodes && capped(stats.added_edges + stats.deleted_edges)
                <= state.limits.max_edges && stats.memory_bytes <= state.limits.max_memory_bytes
        }),
{
}

/// An accepted edge deletion leaves no more nodes and edges than the limits allow, so
/// that adding the edge again, which undoes it, is refused for memory at most.
pub proof fn lemma_undoing_a_write_needs_no_capacity(
    before: TxState,
    after: TxState,
    memory_before: usize,
    memory_after: usize,
    source: u32,
    edge: DeltaEdge,
)
    requires
        before.wf(),
        after.wf(),
        before.subtransaction_depth == 0,
        !cancels_addition(before, source, edge.target, edge.type_id),
        answer_at(
            before,
            memory_before,
            0,
            1,
            layout::size_of::<(u32, u32, u8)>() as usize,
        ) is None,
        after.delta is Some,
        after.limits == before.limits,
        after.subtransaction_depth == 0,
        after.recorded() == with_deleted_edge(before.recorded(), added_key((source, edge))),
        memory_after <= after.limits.max_memory_bytes,
    ensures
        cancels_deletion(after, source, edge),
        answer_at(after, memory_after, 0, 0, 0) is None,
        with_added_edge(after.recorded(), source, edge).added_edges
            == before.recorded().added_edges,
{
    let key = added_key((source, edge));
    let held = before.recorded().deleted_edges;
    let delta = after.delta->Some_0;
    delta.deleted_edges@.unique_seq_to_set();
    assert(delta.deleted_edges.len() == delta.deleted_edges@.len());
    assert(delta@.deleted_edges == held.insert(key));
    assert(held.finite()) by {
        if let Some(earlier) = before.delta {
            vstd::seq_lib::seq_to_set_is_finite(earlier.deleted_edges@);
        }
    }
    assert(held.insert(key).len() <= held.len() + 1);
    match before.delta {
        Some(earlier) => {
            earlier.deleted_edges@.unique_seq_to_set();
            assert(earlier.deleted_edges.len() == earlier.deleted_edges@.len());
        },
        None => {
            assert(clean_delta().added_edges.dom() =~= Set::<u32>::empty());
            assert(edge_count(clean_delta().added_edges) == 0);
        },
    }
}

} // verus!
