//! Compaction preserves reads that are limited to a tenant, go through committed
//! overlays or belong to a transaction.
use vstd::prelude::*;

use crate::edge_store::EdgeStore;
use crate::projection::compact::{CompactedSegment, CompactionBudgets, DirtyChunks, LoadedView};
use crate::projection::layered::{self, LayeredNeighbors, NeighborKey};
use crate::projection::manifest::ManifestView;
use crate::projection::neighbors;
use crate::projection::preservation::{self, found, gives_alike, left, plain_source};
use crate::projection::segment::DeltaSegmentView;
use crate::projection::tx_delta::{self, DeltaEdge};
use crate::types::TraversalDirection;

verus! {

/// Whether a reverse base holds the edges of a base under their targets.
pub open spec fn reverses(base_in: Option<&EdgeStore>, base: EdgeStore) -> bool {
    base_in matches Some(store) ==> store.edges@ == layered::mirror_image(base.edges@)
}

/// Whether a source reads chunks and segments over a base, whatever tenant it is
/// limited to and whatever it reads on top of them.
pub open spec fn reads_generation(
    seen: LayeredNeighbors,
    base: EdgeStore,
    chunks: Seq<DeltaSegmentView>,
    segments: Seq<DeltaSegmentView>,
) -> bool {
    &&& seen.layers(&base, seen.base_in, chunks, segments, seen.tenant_filter)
    &&& reverses(seen.base_in, base)
}

/// Whether two sources belong to the same reader: they are limited to the same
/// tenant and have the same reverse base, committed overlays and transaction.
pub open spec fn same_reader(a: LayeredNeighbors, b: LayeredNeighbors) -> bool {
    &&& a.tenant_filter == b.tenant_filter
    &&& a.base_in == b.base_in
    &&& a.committed_out_inserts@ == b.committed_out_inserts@
    &&& a.committed_out_deletes@ == b.committed_out_deletes@
    &&& a.committed_in_inserts@ == b.committed_in_inserts@
    &&& a.committed_in_deletes@ == b.committed_in_deletes@
    &&& a.transaction == b.transaction
}

/// Whether a source reads the layers of a plain one.
spec fn shares_layers(seen: LayeredNeighbors, plain: LayeredNeighbors) -> bool {
    &&& seen.base == plain.base
    &&& reverses(seen.base_in, *plain.base)
    &&& seen.base_chunk_ranges@ == plain.base_chunk_ranges@
    &&& seen.base_chunk_out@ == plain.base_chunk_out@
    &&& seen.base_chunk_in@ == plain.base_chunk_in@
    &&& seen.durable_out@ == plain.durable_out@
    &&& seen.durable_in@ == plain.durable_in@
    &&& seen.active_nodes@ == plain.active_nodes@
    &&& seen.tenant_memberships@.dom() == plain.tenant_memberships@.dom()
}

/// What a reader has on top of the layers.
spec fn topped(
    seen: LayeredNeighbors,
    edges: Map<NeighborKey, Option<u32>>,
    direction: TraversalDirection,
    node: u32,
) -> Map<NeighborKey, Option<u32>> {
    seen.with_transaction_of(seen.with_committed(edges, direction, node), direction, node)
}

proof fn lemma_seen_merged(
    seen: LayeredNeighbors,
    plain: LayeredNeighbors,
    direction: TraversalDirection,
    node: u32,
)
    requires
        plain_source(plain),
        plain.base_in is None,
        shares_layers(seen, plain),
    ensures
        seen.merged(direction, node) == topped(
            seen,
            plain.merged(direction, node),
            direction,
            node,
        ),
{
    preservation::lemma_plain_merged(plain, direction, node);
    if let Some(store) = seen.base_in {
        assert(layered::leads_to(store.edges@, node) =~= layered::comes_from(
            plain.base.edges@,
            node,
        ));
    }
    assert(seen.base_incoming(node) == plain.base_incoming(node));
}

/// What a reader has on top of two layers shows the same of an edge where the layers
/// do.
proof fn lemma_found_topped(
    a: LayeredNeighbors,
    b: LayeredNeighbors,
    a_edges: Map<NeighborKey, Option<u32>>,
    b_edges: Map<NeighborKey, Option<u32>>,
    direction: TraversalDirection,
    node: u32,
    key: NeighborKey,
)
    requires
        same_reader(a, b),
        found(a_edges, key) == found(b_edges, key),
    ensures
        found(topped(a, a_edges, direction, node), key) == found(
            topped(b, b_edges, direction, node),
            key,
        ),
{
    let over_a = a.with_committed(a_edges, direction, node);
    let over_b = b.with_committed(b_edges, direction, node);
    assert(found(over_a, key) == found(over_b, key));
    if let Some(delta) = a.transaction {
        let left_a = layered::without_deleted(over_a, delta@.deleted_edges, direction, node);
        let left_b = layered::without_deleted(over_b, delta@.deleted_edges, direction, node);
        assert(found(left_a, key) == found(left_b, key));
    }
}

proof fn lemma_overlay_finite(
    edges: Map<NeighborKey, Option<u32>>,
    inserted: Seq<(u32, u8)>,
    deleted: Seq<(u32, u8)>,
)
    requires
        edges.dom().finite(),
    ensures
        layered::with_overlay(edges, inserted, deleted).dom().finite(),
{
    let keys = inserted.map_values(
        |edge: (u32, u8)|
            NeighborKey { target: edge.0, type_id: edge.1, schema_reversed: false },
    );
    let all = edges.dom().union(keys.to_set());
    vstd::seq_lib::seq_to_set_is_finite(keys);
    assert forall|key: NeighborKey| #[trigger]
        layered::with_overlay(edges, inserted, deleted).dom().contains(key) implies all.contains(
        key,
    ) by {
        if !key.schema_reversed && layered::names(inserted, key) {
            let i = choose|i: int|
                0 <= i < inserted.len() && inserted[i] == (key.target, key.type_id);
            assert(keys[i] == key);
        }
    }
    vstd::set_lib::lemma_set_subset_finite(
        all,
        layered::with_overlay(edges, inserted, deleted).dom(),
    );
}

proof fn lemma_added_finite(edges: Map<NeighborKey, Option<u32>>, added: Seq<DeltaEdge>)
    requires
        edges.dom().finite(),
    ensures
        layered::with_each(edges, added).dom().finite(),
    decreases added.len(),
{
    if added.len() > 0 {
        lemma_added_finite(edges, added.drop_last());
    }
}

proof fn lemma_topped_finite(
    seen: LayeredNeighbors,
    edges: Map<NeighborKey, Option<u32>>,
    direction: TraversalDirection,
    node: u32,
)
    requires
        edges.dom().finite(),
    ensures
        topped(seen, edges, direction, node).dom().finite(),
{
    let outgoing = seen.with_out_overlay(edges, node);
    lemma_overlay_finite(
        edges,
        neighbors::listed(seen.committed_out_inserts@, node),
        neighbors::listed(seen.committed_out_deletes@, node),
    );
    lemma_overlay_finite(
        edges,
        neighbors::listed(seen.committed_in_inserts@, node),
        neighbors::listed(seen.committed_in_deletes@, node),
    );
    lemma_overlay_finite(
        outgoing,
        neighbors::listed(seen.committed_in_inserts@, node),
        neighbors::listed(seen.committed_in_deletes@, node),
    );
    let over = seen.with_committed(edges, direction, node);
    if let Some(delta) = seen.transaction {
        let kept = layered::without_deleted(over, delta@.deleted_edges, direction, node);
        assert(kept.dom().subset_of(over.dom()));
        vstd::set_lib::lemma_set_subset_finite(over.dom(), kept.dom());
        assert(delta@.added_edges.dom().finite()) by {
            broadcast use vstd::std_specs::hash::group_hash_axioms;

            assert(delta@.added_edges.dom() =~= delta.added_edges@.dom());
        }
        let list = tx_delta::lemma_listing_exists(delta@.added_edges);
        layered::lemma_added_each(kept, delta@.added_edges, list, direction, node);
        lemma_added_finite(kept, tx_delta::added_from(list, direction, node));
    }
}

/// A reader reads the same of two generations that give a node the same edges.
pub proof fn lemma_reader_reads_alike(
    before: LayeredNeighbors,
    after: LayeredNeighbors,
    seen_before: LayeredNeighbors,
    seen_after: LayeredNeighbors,
    base: EdgeStore,
    chunks: Seq<DeltaSegmentView>,
    segments: Seq<DeltaSegmentView>,
    later_chunks: Seq<DeltaSegmentView>,
    later_segments: Seq<DeltaSegmentView>,
    direction: TraversalDirection,
    node: u32,
)
    requires
        plain_source(before),
        plain_source(after),
        before.layers(&base, None, chunks, segments, None),
        after.layers(&base, None, later_chunks, later_segments, None),
        gives_alike(before, after, direction, node),
        same_reader(seen_before, seen_after),
        reads_generation(seen_before, base, chunks, segments),
        reads_generation(seen_after, base, later_chunks, later_segments),
    ensures
        seen_after.rows(direction, node) == seen_before.rows(direction, node),
{
    assert(shares_layers(seen_before, before));
    assert(shares_layers(seen_after, after));
    lemma_seen_merged(seen_before, before, direction, node);
    lemma_seen_merged(seen_after, after, direction, node);
    preservation::lemma_merged_finite(before, direction, node);
    preservation::lemma_merged_finite(after, direction, node);
    lemma_topped_finite(seen_before, before.merged(direction, node), direction, node);
    lemma_topped_finite(seen_after, after.merged(direction, node), direction, node);
    assert forall|target: u32| #[trigger]
        seen_before.visible(target) == seen_after.visible(target) by {
        if let Some(tenant_hash) = seen_before.tenant_filter {
            let member = layered::MemberKey { tenant_hash, node_idx: target };
            assert(seen_before.tenant_memberships@.dom().contains(member)
                == seen_after.tenant_memberships@.dom().contains(member));
        }
    }
    assert(seen_before.visible(node) ==> before.visible(node));
    assert forall|key: NeighborKey|
        seen_before.visible(node) && seen_before.visible(key.target) implies #[trigger] found(
        seen_after.merged(direction, node),
        key,
    ) == found(seen_before.merged(direction, node), key) by {
        assert(before.visible(key.target));
        assert(found(after.merged(direction, node), key) == found(
            before.merged(direction, node),
            key,
        ));
        lemma_found_topped(
            seen_before,
            seen_after,
            before.merged(direction, node),
            after.merged(direction, node),
            direction,
            node,
            key,
        );
    }
    preservation::lemma_same_rows(seen_before, seen_after, direction, node);
}

/// Compaction into a segment preserves what every reader reads: one that is limited
/// to a tenant, reads incoming edges from a reverse base, or has committed overlays
/// and a transaction on top of the generation. `before` and `after` are the sources
/// without any of these.
pub proof fn lemma_compaction_preserves_reads_of_readers(
    before: LayeredNeighbors,
    after: LayeredNeighbors,
    plan: CompactedSegment,
    written: DeltaSegmentView,
    previous: ManifestView,
    loaded: Seq<LoadedView>,
    base: EdgeStore,
    budgets: CompactionBudgets,
    chunks: Seq<DeltaSegmentView>,
    segments: Seq<DeltaSegmentView>,
    direction: TraversalDirection,
    node: u32,
    seen_before: LayeredNeighbors,
    seen_after: LayeredNeighbors,
)
    requires
        preservation::is_compaction(
            before,
            after,
            plan,
            written,
            previous,
            loaded,
            base,
            budgets,
            chunks,
            segments,
        ),
        direction is Any ==> preservation::same_edges_show(before, after, node),
        same_reader(seen_before, seen_after),
        reads_generation(seen_before, base, chunks, segments),
        reads_generation(seen_after, base, chunks, left(segments).push(written)),
    ensures
        seen_after.rows(direction, node) == seen_before.rows(direction, node),
{
    preservation::lemma_compaction_gives_alike(
        before,
        after,
        plan,
        written,
        previous,
        loaded,
        base,
        budgets,
        chunks,
        segments,
        direction,
        node,
    );
    lemma_reader_reads_alike(
        before,
        after,
        seen_before,
        seen_after,
        base,
        chunks,
        segments,
        chunks,
        left(segments).push(written),
        direction,
        node,
    );
}

/// Compaction into base chunks preserves what every reader reads: one that is limited
/// to a tenant, reads incoming edges from a reverse base, or has committed overlays
/// and a transaction on top of the generation. `before` and `after` are the sources
/// without any of these.
pub proof fn lemma_chunk_rewrite_preserves_reads_of_readers(
    before: LayeredNeighbors,
    after: LayeredNeighbors,
    plan: DirtyChunks,
    written: Seq<DeltaSegmentView>,
    previous: ManifestView,
    loaded: Seq<LoadedView>,
    base: EdgeStore,
    budgets: CompactionBudgets,
    chunks: Seq<DeltaSegmentView>,
    segments: Seq<DeltaSegmentView>,
    direction: TraversalDirection,
    node: u32,
    seen_before: LayeredNeighbors,
    seen_after: LayeredNeighbors,
)
    requires
        preservation::is_rewrite(
            before,
            after,
            plan,
            written,
            previous,
            loaded,
            base,
            budgets,
            chunks,
            segments,
        ),
        direction is Any ==> preservation::same_edges_show(before, after, node),
        same_reader(seen_before, seen_after),
        reads_generation(seen_before, base, chunks, segments),
        reads_generation(
            seen_after,
            base,
            preservation::unchanged_chunks(chunks, plan.ranges@) + written,
            left(segments),
        ),
    ensures
        seen_after.rows(direction, node) == seen_before.rows(direction, node),
{
    preservation::lemma_chunk_rewrite_gives_alike(
        before,
        after,
        plan,
        written,
        previous,
        loaded,
        base,
        budgets,
        chunks,
        segments,
        direction,
        node,
    );
    lemma_reader_reads_alike(
        before,
        after,
        seen_before,
        seen_after,
        base,
        chunks,
        segments,
        preservation::unchanged_chunks(chunks, plan.ranges@) + written,
        left(segments),
        direction,
        node,
    );
}

} // verus!
