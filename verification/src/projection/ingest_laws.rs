//! What a read gives back of committed rows.
use vstd::prelude::*;

use crate::edge_store::EdgeKey;
use crate::order::{self, Ranked};
use crate::ordered_map::{self, MapKey};
use crate::projection::ingest::{
    self, KeyDelta, NodeKey, NodeStateDelta, ProjectionSyncRow, TenantDelta, TenantKey,
};
use crate::projection::layered::{self, DurableEdgeState, LayeredState, MemberKey};
use crate::projection::normalize::{
    self, CommittedMutation, MutationBufferLimits, MutationKey, NormalizedMutation,
};
use crate::projection::says;
use crate::projection::segment::{
    self, DeltaSegmentView, SegmentEdge, SegmentEdgeWeight, SegmentNodeState, SegmentTenant,
};
use crate::types::TraversalDirection;

verus! {

// ---------------------------------------------------------------------------
// Edges
// ---------------------------------------------------------------------------

/// The entity of an outgoing edge in a generation.
pub open spec fn outgoing_entity(generation_id: u64, key: EdgeKey) -> MutationKey {
    MutationKey {
        generation_id,
        edge: true,
        direction: TraversalDirection::Out,
        source: key.source,
        target: key.target,
        type_id: key.type_id,
        schema_reversed: key.schema_reversed,
    }
}

/// What committed rows come to for an outgoing edge: nothing where they cancel, else
/// that it is there with the weight of the row that has precedence, or that it is
/// deleted.
pub open spec fn committed_state(
    rows: Seq<CommittedMutation>,
    generation_id: u64,
    key: EdgeKey,
) -> Option<DurableEdgeState> {
    match normalize::resolved(
        normalize::group_of(rows.to_multiset(), outgoing_entity(generation_id, key)),
    ) {
        None => None,
        Some(row) => Some(
            if row.tombstone {
                DurableEdgeState::Deleted
            } else {
                DurableEdgeState::Present(row.weight)
            },
        ),
    }
}

proof fn lemma_placed(
    rows: Seq<NormalizedMutation>,
    direction: TraversalDirection,
    from: int,
    i: int,
)
    requires
        0 <= from <= i < rows.len(),
        segment::misplaced_row_error(rows, direction, from) is None,
    ensures
        rows[i].direction == direction,
        normalize::on_edge(rows[i].operation),
    decreases rows.len() - from,
{
    if from < i {
        lemma_placed(rows, direction, from + 1, i);
    }
}

/// The edge rows of normalized rows are those of its tombstones, or of its other rows.
pub proof fn lemma_edges_of(rows: Seq<NormalizedMutation>, tombstones: bool, edge: SegmentEdge)
    ensures
        segment::edges_of(rows, tombstones).contains(edge) <==> exists|row: NormalizedMutation|
            #[trigger] rows.contains(row) && row.tombstone == tombstones && segment::edge_of(row)
                == edge,
{
    let keep = |row: NormalizedMutation| row.tombstone == tombstones;
    let kept = rows.filter(keep);
    let edges = segment::edges_of(rows, tombstones);
    if edges.contains(edge) {
        let i = choose|i: int| 0 <= i < edges.len() && edges[i] == edge;
        rows.lemma_filter_pred(keep, i);
        layered::lemma_filter_member(rows, keep, i);
        let j = choose|j: int| 0 <= j < rows.len() && rows[j] == kept[i];
        assert(rows.contains(kept[i]));
        assert(segment::edge_of(kept[i]) == edge);
    }
    if exists|row: NormalizedMutation| #[trigger]
        rows.contains(row) && row.tombstone == tombstones && segment::edge_of(row) == edge {
        let row = choose|row: NormalizedMutation| #[trigger]
            rows.contains(row) && row.tombstone == tombstones && segment::edge_of(row) == edge;
        let j = choose|j: int| 0 <= j < rows.len() && rows[j] == row;
        assert(keep(rows[j]));
        rows.lemma_filter_contains(keep, j);
        let i = choose|i: int| 0 <= i < kept.len() && kept[i] == row;
        assert(edges[i] == edge);
    }
}

/// The weight rows of normalized rows are those of the inserted rows with a weight.
pub proof fn lemma_weights_of(rows: Seq<NormalizedMutation>, weight: SegmentEdgeWeight)
    ensures
        segment::weights_of(rows).contains(weight) <==> exists|row: NormalizedMutation| #[trigger]
            rows.contains(row) && !row.tombstone && row.weight is Some && segment::weight_of(row)
                == weight,
{
    let keep = |row: NormalizedMutation| !row.tombstone && row.weight is Some;
    let kept = rows.filter(keep);
    let weights = segment::weights_of(rows);
    if weights.contains(weight) {
        let i = choose|i: int| 0 <= i < weights.len() && weights[i] == weight;
        rows.lemma_filter_pred(keep, i);
        layered::lemma_filter_member(rows, keep, i);
        let j = choose|j: int| 0 <= j < rows.len() && rows[j] == kept[i];
        assert(rows.contains(kept[i]));
        assert(segment::weight_of(kept[i]) == weight);
    }
    if exists|row: NormalizedMutation| #[trigger]
        rows.contains(row) && !row.tombstone && row.weight is Some && segment::weight_of(row)
            == weight {
        let row = choose|row: NormalizedMutation| #[trigger]
            rows.contains(row) && !row.tombstone && row.weight is Some && segment::weight_of(row)
                == weight;
        let j = choose|j: int| 0 <= j < rows.len() && rows[j] == row;
        assert(keep(rows[j]));
        rows.lemma_filter_contains(keep, j);
        let i = choose|i: int| 0 <= i < kept.len() && kept[i] == row;
        assert(weights[i] == weight);
    }
}

/// The one normalized row of an outgoing edge is what its committed rows resolve to.
proof fn lemma_row_of_edge(
    rows: Seq<CommittedMutation>,
    result: Seq<NormalizedMutation>,
    generation_id: u64,
    key: EdgeKey,
    row: NormalizedMutation,
)
    requires
        normalize::is_normalization(rows.to_multiset(), result),
        forall|i: int| 0 <= i < rows.len() ==> (#[trigger] rows[i]).generation_id == generation_id,
        segment::misplaced_row_error(result, TraversalDirection::Out, 0) is None,
        result.contains(row),
        segment::edge_of(row) == says::row_of(key),
    ensures
        normalize::resolved(
            normalize::group_of(rows.to_multiset(), outgoing_entity(generation_id, key)),
        ) == Some(row),
{
    broadcast use vstd::seq_lib::group_to_multiset_ensures;

    let bag = rows.to_multiset();
    let entity = normalize::normalized_key(row);
    assert(normalize::resolved(normalize::group_of(bag, entity)) == Some(row));
    normalize::lemma_resolved_key(bag, entity);
    let top = choose|top: CommittedMutation| #[trigger]
        bag.contains(top) && row == normalize::normalized(top);
    assert(rows.contains(top));
    let j = choose|j: int| 0 <= j < rows.len() && rows[j] == top;
    assert(rows[j].generation_id == generation_id);
    let i = choose|i: int| 0 <= i < result.len() && result[i] == row;
    lemma_placed(result, TraversalDirection::Out, 0, i);
    assert(entity == outgoing_entity(generation_id, key));
}

/// The edge segment that is written for the committed outgoing rows of a generation
/// says of every edge exactly what its rows come to, and layered reads take it up so.
pub proof fn lemma_segment_says_what_was_committed(
    rows: Seq<CommittedMutation>,
    result: Seq<NormalizedMutation>,
    level: u8,
    source_start: u32,
    source_end: u32,
    generation_id: u64,
    key: EdgeKey,
)
    requires
        normalize::is_normalization(rows.to_multiset(), result),
        forall|i: int| 0 <= i < rows.len() ==> (#[trigger] rows[i]).generation_id == generation_id,
        segment::segment_of_rows(
            result,
            level,
            TraversalDirection::Out,
            source_start,
            source_end,
        ) is Ok,
    ensures
        ({
            let written = segment::segment_of_rows(
                result,
                level,
                TraversalDirection::Out,
                source_start,
                source_end,
            )->Ok_0;
            let read = layered::with_segment(layered::blank_state(), written).out_edges;
            &&& says::said(written, key) == committed_state(rows, generation_id, key)
            &&& read.contains_key(key) <==> committed_state(rows, generation_id, key) is Some
            &&& read.contains_key(key) ==> read[key] == committed_state(
                rows,
                generation_id,
                key,
            )->Some_0
        }),
{
    let written: DeltaSegmentView = segment::segment_of_rows(
        result,
        level,
        TraversalDirection::Out,
        source_start,
        source_end,
    )->Ok_0;
    let edge = says::row_of(key);
    let entity = outgoing_entity(generation_id, key);
    let bag = rows.to_multiset();
    says::lemma_segment_says(written, key);
    lemma_edges_of(result, false, edge);
    lemma_edges_of(result, true, edge);
    normalize::lemma_resolved_key(bag, entity);
    match normalize::resolved(normalize::group_of(bag, entity)) {
        None => {
            assert forall|row: NormalizedMutation| #[trigger] result.contains(row) implies
                segment::edge_of(row) != edge by {
                if segment::edge_of(row) == edge {
                    lemma_row_of_edge(rows, result, generation_id, key, row);
                }
            }
        },
        Some(left) => {
            assert(normalize::normalized_key(left) == entity);
            assert(result.contains(left));
            assert(segment::edge_of(left) == edge);
            assert forall|row: NormalizedMutation| #[trigger]
                result.contains(row) && segment::edge_of(row) == edge implies row == left by {
                lemma_row_of_edge(rows, result, generation_id, key, row);
            }
            if !left.tombstone {
                assert forall|weight: SegmentEdgeWeight|
                    layered::weighs(weight, edge) && #[trigger] written.edge_weights.contains(
                        weight,
                    ) implies left.weight == Some(weight.weight) by {
                    lemma_weights_of(result, weight);
                    let row = choose|row: NormalizedMutation| #[trigger]
                        result.contains(row) && !row.tombstone && row.weight is Some
                            && segment::weight_of(row) == weight;
                    assert(segment::edge_of(row) == edge);
                    assert(row == left);
                }
                if left.weight is Some {
                    let weight = segment::weight_of(left);
                    lemma_weights_of(result, weight);
                    assert(written.edge_weights.contains(weight));
                    assert(layered::weighs(weight, edge));
                }
                says::lemma_weight_in(written.edge_weights, edge, left.weight);
            }
        },
    }
}

// ---------------------------------------------------------------------------
// Nodes and tenants
// ---------------------------------------------------------------------------

/// What is left of entries stands in key order.
pub proof fn lemma_settled_entries<K: MapKey, D: KeyDelta>(entries: Seq<(K, D)>)
    ensures
        ordered_map::keys_sorted(ordered_map::sorted_entries(ingest::settled(entries))),
        ordered_map::map_of(ordered_map::sorted_entries(ingest::settled(entries)))
            == ingest::settled(entries),
{
    let map = ingest::settled(entries);
    let keys = entries.map_values(|entry: (K, D)| entry.0);
    assert forall|key: K| #[trigger] map.dom().contains(key) implies keys.to_set().contains(key) by {
        let keep = |entry: (K, D)| entry.0 == key;
        let kept = entries.filter(keep);
        assert(ingest::said_of(entries, key).len() == kept.len());
        entries.lemma_filter_pred(keep, 0);
        layered::lemma_filter_member(entries, keep, 0);
        let i = choose|i: int| 0 <= i < entries.len() && entries[i] == kept[0];
        assert(keys[i] == key);
    }
    vstd::seq_lib::seq_to_set_is_finite(keys);
    vstd::set_lib::lemma_set_subset_finite(keys.to_set(), map.dom());
    ordered_map::lemma_entries_exist(map);
}

proof fn lemma_node_states(
    active: Map<u32, bool>,
    entries: Seq<(NodeKey, NodeStateDelta)>,
    rows: Seq<SegmentNodeState>,
    node_idx: u32,
)
    requires
        ordered_map::keys_sorted(entries),
        rows == entries.map_values(
            |entry: (NodeKey, NodeStateDelta)|
                SegmentNodeState { node_idx: entry.0.node_idx, active: entry.1.active },
        ),
    ensures
        ({
            let after = layered::with_node_states(active, rows);
            let said = ordered_map::map_of(entries);
            let key = NodeKey { node_idx };
            &&& said.contains_key(key) ==> after.contains_key(node_idx) && after[node_idx]
                == said[key].active
            &&& !said.contains_key(key) ==> (after.contains_key(node_idx)
                <==> active.contains_key(node_idx)) && (active.contains_key(node_idx)
                ==> after[node_idx] == active[node_idx])
        }),
    decreases rows.len(),
{
    let key = NodeKey { node_idx };
    if rows.len() > 0 {
        let init = entries.drop_last();
        let last = entries.last();
        assert(rows.drop_last() =~= init.map_values(
            |entry: (NodeKey, NodeStateDelta)|
                SegmentNodeState { node_idx: entry.0.node_idx, active: entry.1.active },
        ));
        lemma_node_states(active, init, rows.drop_last(), node_idx);
        lemma_last_entry(entries, key);
    } else {
        if ordered_map::map_of(entries).contains_key(key) {
            let i = choose|i: int| ordered_map::entry_at(entries, key, i);
            assert(ordered_map::entry_at(entries, key, i));
        }
    }
}

/// What sorted entries say of a key, by the last entry and those before it.
proof fn lemma_last_entry<K: MapKey, V>(entries: Seq<(K, V)>, key: K)
    requires
        ordered_map::keys_sorted(entries),
        entries.len() > 0,
    ensures
        ({
            let said = ordered_map::map_of(entries);
            let earlier = ordered_map::map_of(entries.drop_last());
            &&& ordered_map::keys_sorted(entries.drop_last())
            &&& key == entries.last().0 ==> said.contains_key(key) && said[key]
                == entries.last().1 && !earlier.contains_key(key)
            &&& key != entries.last().0 ==> (said.contains_key(key) <==> earlier.contains_key(key))
            &&& key != entries.last().0 && said.contains_key(key) ==> said[key] == earlier[key]
        }),
{
    let init = entries.drop_last();
    let n = entries.len() - 1;
    let said = ordered_map::map_of(entries);
    let earlier = ordered_map::map_of(init);
    assert(ordered_map::keys_sorted(init)) by {
        assert forall|i: int, j: int| 0 <= i < j < init.len() implies order::before(
            (#[trigger] init[i]).0.rank(),
            (#[trigger] init[j]).0.rank(),
        ) by {
            assert(init[i] == entries[i] && init[j] == entries[j]);
        }
    }
    ordered_map::lemma_entry(entries, n);
    if earlier.contains_key(key) {
        let i = choose|i: int| ordered_map::entry_at(init, key, i);
        assert(ordered_map::entry_at(init, key, i));
        ordered_map::lemma_entry(init, i);
        ordered_map::lemma_entry(entries, i);
        assert(entries[i] == init[i]);
        assert(order::before(entries[i].0.rank(), entries[n].0.rank()));
        order::lemma_before_irreflexive(key.rank());
    }
    if said.contains_key(key) && key != entries.last().0 {
        let i = choose|i: int| ordered_map::entry_at(entries, key, i);
        assert(ordered_map::entry_at(entries, key, i));
        assert(ordered_map::entry_at(init, key, i));
    }
}

/// The node segment that is written for committed rows says of every node what is
/// left of its rows: nothing where they cancel, else whether it is active by the row
/// that ranks highest. Layered reads take it up so, and leave all other nodes alone.
pub proof fn lemma_node_segment_says_what_was_committed(
    rows: Seq<ProjectionSyncRow>,
    limits: MutationBufferLimits,
    sync_watermark: i64,
    state: LayeredState,
    node_idx: u32,
)
    requires
        ingest::node_segment_of(rows, limits, sync_watermark) matches Ok(Some(_)),
    ensures
        ({
            let written = ingest::node_segment_of(rows, limits, sync_watermark)->Ok_0->Some_0;
            let after = layered::with_segment(state, written).active_nodes;
            let said = ingest::settled(ingest::node_state_entries(rows));
            let key = NodeKey { node_idx };
            &&& said.contains_key(key) ==> after.contains_key(node_idx) && after[node_idx]
                == said[key].active
            &&& !said.contains_key(key) ==> (after.contains_key(node_idx)
                <==> state.active_nodes.contains_key(node_idx)) && (
            state.active_nodes.contains_key(node_idx) ==> after[node_idx]
                == state.active_nodes[node_idx])
        }),
{
    let entries = ordered_map::sorted_entries(ingest::settled(ingest::node_state_entries(rows)));
    lemma_settled_entries(ingest::node_state_entries(rows));
    lemma_node_states(
        state.active_nodes,
        entries,
        ingest::node_state_rows(rows),
        node_idx,
    );
}

proof fn lemma_tenants(
    members: Set<MemberKey>,
    entries: Seq<(TenantKey, TenantDelta)>,
    rows: Seq<SegmentTenant>,
    member: MemberKey,
)
    requires
        ordered_map::keys_sorted(entries),
        rows == entries.map_values(
            |entry: (TenantKey, TenantDelta)|
                SegmentTenant {
                    node_idx: entry.0.node_idx,
                    tenant_hash: entry.0.tenant_hash,
                    tombstone: entry.1.tombstone,
                },
        ),
    ensures
        ({
            let after = layered::with_tenants(members, rows);
            let said = ordered_map::map_of(entries);
            let key = TenantKey { node_idx: member.node_idx, tenant_hash: member.tenant_hash };
            &&& said.contains_key(key) ==> (after.contains(member) <==> !said[key].tombstone)
            &&& !said.contains_key(key) ==> (after.contains(member) <==> members.contains(member))
        }),
    decreases rows.len(),
{
    let key = TenantKey { node_idx: member.node_idx, tenant_hash: member.tenant_hash };
    if rows.len() > 0 {
        let init = entries.drop_last();
        assert(rows.drop_last() =~= init.map_values(
            |entry: (TenantKey, TenantDelta)|
                SegmentTenant {
                    node_idx: entry.0.node_idx,
                    tenant_hash: entry.0.tenant_hash,
                    tombstone: entry.1.tombstone,
                },
        ));
        lemma_last_entry(entries, key);
        lemma_tenants(members, init, rows.drop_last(), member);
    } else {
        if ordered_map::map_of(entries).contains_key(key) {
            let i = choose|i: int| ordered_map::entry_at(entries, key, i);
            assert(ordered_map::entry_at(entries, key, i));
        }
    }
}

/// The node segment that is written for committed rows adds and removes exactly the
/// tenant memberships that are left of its rows, and leaves all others alone.
pub proof fn lemma_node_segment_moves_tenants(
    rows: Seq<ProjectionSyncRow>,
    limits: MutationBufferLimits,
    sync_watermark: i64,
    state: LayeredState,
    member: MemberKey,
)
    requires
        ingest::node_segment_of(rows, limits, sync_watermark) matches Ok(Some(_)),
    ensures
        ({
            let written = ingest::node_segment_of(rows, limits, sync_watermark)->Ok_0->Some_0;
            let after = layered::with_segment(state, written).members;
            let said = ingest::settled(ingest::tenant_entries(rows));
            let key = TenantKey { node_idx: member.node_idx, tenant_hash: member.tenant_hash };
            &&& said.contains_key(key) ==> (after.contains(member) <==> !said[key].tombstone)
            &&& !said.contains_key(key) ==> (after.contains(member) <==> state.members.contains(
                member,
            ))
        }),
{
    let entries = ordered_map::sorted_entries(ingest::settled(ingest::tenant_entries(rows)));
    lemma_settled_entries(ingest::tenant_entries(rows));
    lemma_tenants(state.members, entries, ingest::tenant_rows(rows), member);
}

} // verus!
