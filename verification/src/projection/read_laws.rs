//! Which layer decides what a read shows.
use vstd::prelude::*;

use crate::edge_store::{self, EdgeKey, RawEdge};
use crate::ordered_map;
use crate::projection::layered::{
    self, DurableEdgeState, LayeredEdge, LayeredNeighbors, MemberKey, NeighborKey, SourceRange,
};
use crate::projection::neighbors::WeightedNeighbor;
use crate::projection::tx_delta::{self, DeletedEdge, DeltaEdge};
use crate::types::TraversalDirection;

verus! {

// ---------------------------------------------------------------------------
// Layers
// ---------------------------------------------------------------------------

/// The weight that the last of the first `count` edges to a target by a type has.
pub open spec fn last_given(edges: Seq<DeltaEdge>, count: int, to: u32, type_id: u8) -> Option<
    Option<u32>,
>
    decreases count,
{
    if count <= 0 {
        None
    } else if edges[count - 1].target == to && edges[count - 1].type_id == type_id {
        Some(edges[count - 1].weight)
    } else {
        last_given(edges, count - 1, to, type_id)
    }
}

/// What the transaction has added for an edge.
pub open spec fn added_now(layered: LayeredNeighbors, from: u32, to: u32, type_id: u8) -> Option<
    Option<u32>,
> {
    match layered.transaction {
        None => None,
        Some(delta) => if delta@.added_edges.contains_key(from) {
            last_given(
                delta@.added_edges[from],
                delta@.added_edges[from].len() as int,
                to,
                type_id,
            )
        } else {
            None
        },
    }
}

/// Whether the transaction has deleted an edge.
pub open spec fn deleted_now(layered: LayeredNeighbors, from: u32, to: u32, type_id: u8) -> bool {
    layered.transaction matches Some(delta) && delta@.deleted_edges.contains(
        DeletedEdge { source: from, target: to, type_id },
    )
}

/// Whether a committed overlay lists an edge.
pub open spec fn lists(
    overlay: Map<u32, Vec<(u32, u8)>>,
    node: u32,
    to: u32,
    type_id: u8,
) -> bool {
    overlay.contains_key(node) && overlay[node]@.contains((to, type_id))
}

/// What a durable state shows of an edge.
pub open spec fn shown_by(state: DurableEdgeState) -> Option<Option<u32>> {
    match state {
        DurableEdgeState::Present(weight) => Some(weight),
        DurableEdgeState::Deleted => None,
    }
}

/// Whether a node lies in one of the ranges.
pub open spec fn lies_in(ranges: Seq<SourceRange>, node: u32) -> bool {
    exists|i: int| 0 <= i < ranges.len() && (#[trigger] ranges[i]).start <= node < ranges[i].end
}

/// What a read shows of an edge from a node: what the transaction says, else the committed
/// overlay, else the segments, else the base chunk of its source, else the base.
pub open spec fn shown_outgoing(layered: LayeredNeighbors, node: u32, key: NeighborKey) -> Option<
    Option<u32>,
> {
    let edge = EdgeKey {
        source: node,
        target: key.target,
        type_id: key.type_id,
        schema_reversed: key.schema_reversed,
    };
    if !key.schema_reversed && added_now(layered, node, key.target, key.type_id) is Some {
        added_now(layered, node, key.target, key.type_id)
    } else if deleted_now(layered, node, key.target, key.type_id) {
        None
    } else if !key.schema_reversed && lists(
        layered.committed_out_inserts@,
        node,
        key.target,
        key.type_id,
    ) {
        Some(None)
    } else if lists(layered.committed_out_deletes@, node, key.target, key.type_id) {
        None
    } else if layered.durable_out@.contains_key(edge) {
        shown_by(layered.durable_out@[edge])
    } else if lies_in(layered.base_chunk_ranges@, node) {
        if layered.base_chunk_out@.contains_key(edge) {
            shown_by(layered.base_chunk_out@[edge])
        } else {
            None
        }
    } else if layered.base.edges@.contains_key(edge) {
        Some(layered.base.edges@[edge])
    } else {
        None
    }
}

/// What a read shows of an edge to a node, seen from its target: what the transaction
/// says, else the committed overlay, else the segments, else the base chunks, else the
/// base, as far as no base chunk has its source.
pub open spec fn shown_incoming(layered: LayeredNeighbors, node: u32, key: NeighborKey) -> Option<
    Option<u32>,
> {
    let seen = EdgeKey {
        source: node,
        target: key.target,
        type_id: key.type_id,
        schema_reversed: key.schema_reversed,
    };
    let edge = EdgeKey {
        source: key.target,
        target: node,
        type_id: key.type_id,
        schema_reversed: key.schema_reversed,
    };
    if !key.schema_reversed && added_now(layered, key.target, node, key.type_id) is Some {
        added_now(layered, key.target, node, key.type_id)
    } else if deleted_now(layered, key.target, node, key.type_id) {
        None
    } else if !key.schema_reversed && lists(
        layered.committed_in_inserts@,
        node,
        key.target,
        key.type_id,
    ) {
        Some(None)
    } else if lists(layered.committed_in_deletes@, node, key.target, key.type_id) {
        None
    } else if layered.durable_in@.contains_key(seen) {
        shown_by(layered.durable_in@[seen])
    } else if layered.base_chunk_in@.contains_key(seen) {
        shown_by(layered.base_chunk_in@[seen])
    } else if lies_in(layered.base_chunk_ranges@, key.target) {
        None
    } else {
        match layered.base_in {
            Some(store) => if store.edges@.contains_key(seen) {
                Some(store.edges@[seen])
            } else {
                None
            },
            None => if layered.base.edges@.contains_key(edge) {
                Some(layered.base.edges@[edge])
            } else {
                None
            },
        }
    }
}

/// Whether a read may show a node: the transaction has not deleted it, no segment has
/// made it inactive, and it belongs to the tenant that the read is limited to.
pub open spec fn may_show(layered: LayeredNeighbors, node: u32) -> bool {
    &&& layered.transaction matches Some(delta) ==> !delta@.deleted_nodes.contains(node)
    &&& layered.active_nodes@.contains_key(node) ==> layered.active_nodes@[node]
    &&& layered.tenant_filter is Some ==> layered.tenant_memberships@.contains_key(
        MemberKey { tenant_hash: layered.tenant_filter->0, node_idx: node },
    )
}

// ---------------------------------------------------------------------------
// Reads
// ---------------------------------------------------------------------------

proof fn lemma_last_given(edges: Seq<DeltaEdge>, to: u32, type_id: u8)
    ensures
        tx_delta::last_weight(edges, to, type_id) == last_given(
            edges,
            edges.len() as int,
            to,
            type_id,
        ),
    decreases edges.len(),
{
    if edges.len() > 0 {
        lemma_last_given(edges.drop_last(), to, type_id);
        lemma_given_prefix(edges.drop_last(), edges, edges.len() - 1, to, type_id);
    }
}

proof fn lemma_given_prefix(
    a: Seq<DeltaEdge>,
    b: Seq<DeltaEdge>,
    count: int,
    to: u32,
    type_id: u8,
)
    requires
        0 <= count <= a.len(),
        count <= b.len(),
        forall|i: int| 0 <= i < count ==> a[i] == b[i],
    ensures
        last_given(a, count, to, type_id) == last_given(b, count, to, type_id),
    decreases count,
{
    if count > 0 {
        lemma_given_prefix(a, b, count - 1, to, type_id);
    }
}

proof fn lemma_added(layered: LayeredNeighbors, from: u32, to: u32, type_id: u8)
    ensures
        layered.transaction matches Some(delta) ==> tx_delta::last_weight(
            tx_delta::edges_at(delta@.added_edges, from),
            to,
            type_id,
        ) == added_now(layered, from, to, type_id),
{
    if let Some(delta) = layered.transaction {
        lemma_last_given(
            tx_delta::edges_at(delta@.added_edges, from),
            to,
            type_id,
        );
    }
}

proof fn lemma_ranges(ranges: Seq<SourceRange>, node: u32)
    ensures
        layered::covered(ranges, node) <==> lies_in(ranges, node),
{
    if lies_in(ranges, node) {
        let i = choose|i: int|
            0 <= i < ranges.len() && (#[trigger] ranges[i]).start <= node < ranges[i].end;
        assert(ranges[i].has(node));
    }
}

proof fn lemma_merged_outgoing(layered: LayeredNeighbors, node: u32, key: NeighborKey)
    ensures
        ({
            let edges = layered.merged(TraversalDirection::Out, node);
            &&& edges.contains_key(key) <==> shown_outgoing(layered, node, key) is Some
            &&& edges.contains_key(key) ==> Some(edges[key]) == shown_outgoing(layered, node, key)
        }),
{
    lemma_added(layered, node, key.target, key.type_id);
    lemma_ranges(layered.base_chunk_ranges@, node);
}

proof fn lemma_merged_incoming(layered: LayeredNeighbors, node: u32, key: NeighborKey)
    ensures
        ({
            let edges = layered.merged(TraversalDirection::In, node);
            &&& edges.contains_key(key) <==> shown_incoming(layered, node, key) is Some
            &&& edges.contains_key(key) ==> Some(edges[key]) == shown_incoming(layered, node, key)
        }),
{
    lemma_added(layered, key.target, node, key.type_id);
    lemma_ranges(layered.base_chunk_ranges@, key.target);
}

/// There are no more neighbors than indexes, types and orientations.
proof fn lemma_neighbors_are_finite(keys: Set<NeighborKey>)
    ensures
        keys.finite(),
{
    let count: int = 512 * (u32::MAX as int + 1);
    let numbers = vstd::set_lib::set_int_range(0, count);
    let decode = |n: int|
        NeighborKey {
            target: (n / 512) as u32,
            type_id: ((n / 2) % 256) as u8,
            schema_reversed: n % 2 == 1,
        };
    vstd::set_lib::lemma_int_range(0, count);
    numbers.lemma_map_finite(decode);
    assert forall|key: NeighborKey| #[trigger] keys.contains(key) implies numbers.map(
        decode,
    ).contains(key) by {
        let n: int = 512 * key.target + 2 * key.type_id + if key.schema_reversed {
            1int
        } else {
            0
        };
        assert(n / 512 == key.target && (n / 2) % 256 == key.type_id && (n % 2 == 1
            <==> key.schema_reversed));
        assert(numbers.contains(n));
        assert(decode(n) == key);
    }
    assert(keys.subset_of(numbers.map(decode)));
    vstd::set_lib::lemma_set_subset_finite(numbers.map(decode), keys);
}

/// The row of a neighbor with a weight.
pub open spec fn row_of(key: NeighborKey, weight: Option<u32>) -> (u32, LayeredEdge) {
    (
        key.target,
        LayeredEdge {
            target: key.target,
            type_id: key.type_id,
            schema_reversed: key.schema_reversed,
            weight,
        },
    )
}

proof fn lemma_listed(
    edges: Map<NeighborKey, Option<u32>>,
    shown: spec_fn(u32) -> bool,
    key: NeighborKey,
    weight: Option<u32>,
)
    requires
        edges.dom().finite(),
    ensures
        layered::listing(edges, shown).contains(row_of(key, weight)) <==> edges.contains_key(key)
            && edges[key] == weight && shown(key.target),
{
    let entries = ordered_map::sorted_entries(edges);
    ordered_map::lemma_entries_exist(edges);
    let keep = |entry: (NeighborKey, Option<u32>)| shown(entry.0.target);
    let kept = entries.filter(keep);
    let rows = layered::listing(edges, shown);
    if rows.contains(row_of(key, weight)) {
        let i = choose|i: int| 0 <= i < rows.len() && rows[i] == row_of(key, weight);
        assert(rows[i] == layered::layered_edge(kept[i]));
        assert(kept[i] == (key, weight));
        entries.lemma_filter_pred(keep, i);
        layered::lemma_filter_member(entries, keep, i);
        let j = choose|j: int| 0 <= j < entries.len() && entries[j] == kept[i];
        ordered_map::lemma_entry(entries, j);
    }
    if edges.contains_key(key) && edges[key] == weight && shown(key.target) {
        let j = choose|j: int| ordered_map::entry_at(entries, key, j);
        assert(ordered_map::entry_at(entries, key, j));
        ordered_map::lemma_entry(entries, j);
        assert(keep(entries[j]));
        entries.lemma_filter_contains(keep, j);
        let i = choose|i: int| 0 <= i < kept.len() && kept[i] == entries[j];
        assert(rows[i] == row_of(key, weight));
    }
}

/// A read along edges lists a neighbor exactly where the topmost layer that says
/// something of the edge shows it, with the weight that this layer gives it, and where
/// both its ends may be shown.
pub proof fn lemma_topmost_layer_decides_outgoing(
    layered: LayeredNeighbors,
    node: u32,
    key: NeighborKey,
    weight: Option<u32>,
)
    ensures
        layered.rows(TraversalDirection::Out, node).contains(row_of(key, weight)) <==> may_show(
            layered,
            node,
        ) && may_show(layered, key.target) && shown_outgoing(layered, node, key) == Some(weight),
{
    lemma_neighbors_are_finite(layered.merged(TraversalDirection::Out, node).dom());
    lemma_merged_outgoing(layered, node, key);
    lemma_listed(
        layered.merged(TraversalDirection::Out, node),
        |target: u32| layered.visible(target),
        key,
        weight,
    );
}

/// A read against edges lists a neighbor exactly where the topmost layer that says
/// something of the edge shows it, with the weight that this layer gives it, and where
/// both its ends may be shown.
pub proof fn lemma_topmost_layer_decides_incoming(
    layered: LayeredNeighbors,
    node: u32,
    key: NeighborKey,
    weight: Option<u32>,
)
    ensures
        layered.rows(TraversalDirection::In, node).contains(row_of(key, weight)) <==> may_show(
            layered,
            node,
        ) && may_show(layered, key.target) && shown_incoming(layered, node, key) == Some(weight),
{
    lemma_neighbors_are_finite(layered.merged(TraversalDirection::In, node).dom());
    lemma_merged_incoming(layered, node, key);
    lemma_listed(
        layered.merged(TraversalDirection::In, node),
        |target: u32| layered.visible(target),
        key,
        weight,
    );
}

// ---------------------------------------------------------------------------
// Stores
// ---------------------------------------------------------------------------

/// Whether raw edge `i` is the first of an edge.
pub open spec fn is_first(edges: Seq<RawEdge>, key: EdgeKey, i: int) -> bool {
    &&& 0 <= i < edges.len()
    &&& edges[i].source == key.source && edges[i].target == key.target && edges[i].type_id
        == key.type_id && edges[i].schema_reversed == key.schema_reversed
    &&& forall|j: int|
        0 <= j < i ==> !((#[trigger] edges[j]).source == key.source && edges[j].target == key.target
            && edges[j].type_id == key.type_id && edges[j].schema_reversed == key.schema_reversed)
}

/// A store holds exactly the edges that start at its nodes, each with the weight that it
/// was first given, and without weights where it has none.
pub proof fn lemma_store_keeps_first_edges(
    edges: Seq<RawEdge>,
    node_count: u32,
    weighted: bool,
    key: EdgeKey,
)
    ensures
        ({
            let stored = edge_store::stored_edges(edges, node_count, weighted);
            &&& stored.contains_key(key) <==> key.source < node_count && exists|i: int| #[trigger]
                is_first(edges, key, i)
            &&& forall|i: int| #[trigger]
                is_first(edges, key, i) && stored.contains_key(key) ==> stored[key] == (
                if weighted {
                    edges[i].weight
                } else {
                    None
                })
        }),
    decreases edges.len(),
{
    if edges.len() > 0 {
        let init = edges.drop_last();
        let last = edges.len() - 1;
        lemma_store_keeps_first_edges(init, node_count, weighted, key);
        assert forall|i: int| #[trigger] is_first(init, key, i) implies is_first(
            edges,
            key,
            i,
        ) by {
            assert forall|j: int| 0 <= j < i implies !((#[trigger] edges[j]).source == key.source
                && edges[j].target == key.target && edges[j].type_id == key.type_id
                && edges[j].schema_reversed == key.schema_reversed) by {
                assert(init[j] == edges[j]);
            }
        }
        assert forall|i: int| #[trigger] is_first(edges, key, i) && i < last implies is_first(
            init,
            key,
            i,
        ) by {
            assert forall|j: int| 0 <= j < i implies !((#[trigger] init[j]).source == key.source
                && init[j].target == key.target && init[j].type_id == key.type_id
                && init[j].schema_reversed == key.schema_reversed) by {
                assert(init[j] == edges[j]);
            }
        }
        if edge_store::raw_key(edges[last]) == key {
            if exists|i: int| #[trigger] is_first(init, key, i) {
                let i = choose|i: int| #[trigger] is_first(init, key, i);
                assert(is_first(edges, key, i));
                assert forall|k: int| #[trigger] is_first(edges, key, k) implies k < last by {
                    if k == last {
                        assert(edges[i] == init[i]);
                    }
                }
            } else {
                lemma_first_of(init, key);
                assert(is_first(edges, key, last)) by {
                    assert forall|j: int| 0 <= j < last implies !((#[trigger] edges[j]).source
                        == key.source && edges[j].target == key.target && edges[j].type_id
                        == key.type_id && edges[j].schema_reversed == key.schema_reversed) by {
                        assert(init[j] == edges[j]);
                    }
                }
                assert forall|k: int| #[trigger] is_first(edges, key, k) implies k == last by {}
            }
        } else {
            assert forall|k: int| #[trigger] is_first(edges, key, k) implies k < last by {}
        }
    }
}

proof fn lemma_first_of(edges: Seq<RawEdge>, key: EdgeKey)
    requires
        forall|i: int| !#[trigger] is_first(edges, key, i),
    ensures
        forall|j: int|
            0 <= j < edges.len() ==> !((#[trigger] edges[j]).source == key.source
                && edges[j].target == key.target && edges[j].type_id == key.type_id
                && edges[j].schema_reversed == key.schema_reversed),
{
    assert forall|j: int| 0 <= j < edges.len() implies !((#[trigger] edges[j]).source == key.source
        && edges[j].target == key.target && edges[j].type_id == key.type_id
        && edges[j].schema_reversed == key.schema_reversed) by {
        lemma_none_before(edges, key, j);
    }
}

proof fn lemma_none_before(edges: Seq<RawEdge>, key: EdgeKey, j: int)
    requires
        forall|i: int| !#[trigger] is_first(edges, key, i),
        0 <= j < edges.len(),
    ensures
        !(edges[j].source == key.source && edges[j].target == key.target && edges[j].type_id
            == key.type_id && edges[j].schema_reversed == key.schema_reversed),
    decreases j,
{
    assert forall|k: int| 0 <= k < j implies !((#[trigger] edges[k]).source == key.source
        && edges[k].target == key.target && edges[k].type_id == key.type_id
        && edges[k].schema_reversed == key.schema_reversed) by {
        lemma_none_before(edges, key, k);
    }
    assert(!is_first(edges, key, j));
}

// ---------------------------------------------------------------------------
// Weights
// ---------------------------------------------------------------------------

/// A weighted read lists a neighbor exactly where an edge with that weight leads to it, by
/// that type and in that orientation.
pub proof fn lemma_weighted_reads_have_weights(
    rows: Seq<(u32, LayeredEdge)>,
    neighbor: WeightedNeighbor,
)
    ensures
        layered::weighted_rows(rows).contains(neighbor) <==> exists|i: int|
            0 <= i < rows.len() && (#[trigger] rows[i]).0 == neighbor.target && rows[i].1.type_id
                == neighbor.type_id && rows[i].1.schema_reversed == neighbor.schema_reversed
                && rows[i].1.weight == Some(neighbor.weight),
{
    let weighs = |row: (u32, LayeredEdge)| row.1.weight is Some;
    let kept = rows.filter(weighs);
    let listed = layered::weighted_rows(rows);
    assert(listed.len() == kept.len());
    if listed.contains(neighbor) {
        let k = choose|k: int| 0 <= k < listed.len() && listed[k] == neighbor;
        rows.lemma_filter_pred(weighs, k);
        rows.lemma_filter_contains_rev(weighs, kept[k]);
        let i = choose|i: int| 0 <= i < rows.len() && rows[i] == kept[k];
        assert(rows[i].0 == neighbor.target);
    }
    if exists|i: int|
        0 <= i < rows.len() && (#[trigger] rows[i]).0 == neighbor.target && rows[i].1.type_id
            == neighbor.type_id && rows[i].1.schema_reversed == neighbor.schema_reversed
            && rows[i].1.weight == Some(neighbor.weight) {
        let i = choose|i: int|
            0 <= i < rows.len() && (#[trigger] rows[i]).0 == neighbor.target && rows[i].1.type_id
                == neighbor.type_id && rows[i].1.schema_reversed == neighbor.schema_reversed
                && rows[i].1.weight == Some(neighbor.weight);
        rows.lemma_filter_contains(weighs, i);
        let k = choose|k: int| 0 <= k < kept.len() && kept[k] == rows[i];
        assert(listed[k] == neighbor);
    }
}

} // verus!
