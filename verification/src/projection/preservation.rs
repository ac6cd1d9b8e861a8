//! Compaction preserves what layered reads give.
use vstd::prelude::*;

use crate::edge_store::{self, EdgeKey, EdgeStore, RawEdge};
use crate::order::{self, Ranked};
use crate::ordered_map;
use crate::projection::chunk;
use crate::projection::compact::{
    self, CompactedSegment, CompactionBudgets, CompactionPlan, DirtyChunks, LoadedView,
};
use crate::projection::layered::{
    self, DurableEdgeState, LayeredEdge, LayeredNeighbors, NeighborKey, SourceRange,
};
use crate::projection::manifest::{ChunkRefView, ManifestView};
use crate::projection::neighbors;
use crate::projection::replay;
use crate::projection::says::{self, row_of, said, stated};
use crate::projection::segment::{
    self, DeltaSegmentView, SegmentEdge, SegmentEdgeWeight,
};
use crate::types::TraversalDirection;

verus! {

// ---------------------------------------------------------------------------
// What the compacted segment holds
// ---------------------------------------------------------------------------

/// Whether a source is one of those from `start` up to `end`.
spec fn between(source: u32, start: int, end: int) -> bool {
    start <= source < end
}

spec fn lost(before: LayeredNeighbors, source: u32) -> Seq<SegmentEdge> {
    compact::lost_rows(
        ordered_map::sorted_entries(compact::stored_of(before, source)),
        compact::rows_map(before.rows(TraversalDirection::Out, source)),
        source,
    )
}

spec fn gained(before: LayeredNeighbors, source: u32) -> Seq<SegmentEdge> {
    compact::gained_rows(
        before.rows(TraversalDirection::Out, source),
        compact::stored_of(before, source),
        source,
    )
}

spec fn weighed(before: LayeredNeighbors, source: u32) -> Seq<SegmentEdgeWeight> {
    compact::gained_weights(
        before.rows(TraversalDirection::Out, source),
        compact::stored_of(before, source),
        source,
    )
}

proof fn lemma_concat_contains<A>(a: Seq<A>, b: Seq<A>, item: A)
    ensures
        (a + b).contains(item) <==> a.contains(item) || b.contains(item),
{
    if (a + b).contains(item) {
        let i = choose|i: int| 0 <= i < (a + b).len() && (a + b)[i] == item;
        if i < a.len() {
            assert(a[i] == item);
        } else {
            assert(b[i - a.len()] == item);
        }
    }
    if a.contains(item) {
        let i = choose|i: int| 0 <= i < a.len() && a[i] == item;
        assert((a + b)[i] == item);
    }
    if b.contains(item) {
        let i = choose|i: int| 0 <= i < b.len() && b[i] == item;
        assert((a + b)[a.len() + i] == item);
    }
}

/// Rows of a source name that source.
proof fn lemma_rows_name_source(
    before: LayeredNeighbors,
    source: u32,
)
    ensures
        forall|row: SegmentEdge| #[trigger]
            lost(before, source).contains(row) ==> row.source == source,
        forall|row: SegmentEdge| #[trigger]
            gained(before, source).contains(row) ==> row.source == source,
        forall|row: SegmentEdgeWeight| #[trigger]
            weighed(before, source).contains(row) ==> row.source == source,
{
    assert forall|row: SegmentEdge| #[trigger]
        lost(before, source).contains(row) implies row.source == source by {
        let rows = lost(before, source);
        let i = choose|i: int| 0 <= i < rows.len() && rows[i] == row;
    }
    assert forall|row: SegmentEdge| #[trigger]
        gained(before, source).contains(row) implies row.source == source by {
        let rows = gained(before, source);
        let i = choose|i: int| 0 <= i < rows.len() && rows[i] == row;
    }
    assert forall|row: SegmentEdgeWeight| #[trigger]
        weighed(before, source).contains(row) implies row.source == source by {
        let rows = weighed(before, source);
        let i = choose|i: int| 0 <= i < rows.len() && rows[i] == row;
    }
}

proof fn lemma_sources_hold(
    segment: DeltaSegmentView,
    before: LayeredNeighbors,
    start: int,
    end: int,
    row: SegmentEdge,
    weight: SegmentEdgeWeight,
)
    requires
        0 <= start,
        end <= u32::MAX,
    ensures
        ({
            let after = compact::with_sources(segment, before, start, end);
            &&& after.header == segment.header
            &&& after.edge_deletes.contains(row) <==> segment.edge_deletes.contains(row) || (
            between(row.source, start, end) && lost(before, row.source).contains(row))
            &&& after.edge_inserts.contains(row) <==> segment.edge_inserts.contains(row) || (
            between(row.source, start, end) && gained(before, row.source).contains(row))
            &&& after.edge_weights.contains(weight) <==> segment.edge_weights.contains(weight) || (
            between(weight.source, start, end) && weighed(before, weight.source).contains(
                weight,
            ))
        }),
    decreases end - start,
{
    if end > start {
        lemma_sources_hold(segment, before, start, end - 1, row, weight);
        let source = (end - 1) as u32;
        let fewer = compact::with_sources(segment, before, start, end - 1);
        lemma_concat_contains(fewer.edge_deletes, lost(before, source), row);
        lemma_concat_contains(fewer.edge_inserts, gained(before, source), row);
        lemma_concat_contains(fewer.edge_weights, weighed(before, source), weight);
        lemma_rows_name_source(before, source);
    }
}

proof fn lemma_ranges_hold(
    segment: DeltaSegmentView,
    before: LayeredNeighbors,
    ranges: Seq<SourceRange>,
    count: int,
    row: SegmentEdge,
    weight: SegmentEdgeWeight,
)
    requires
        0 <= count <= ranges.len(),
    ensures
        ({
            let after = compact::with_ranges(segment, before, ranges, count);
            let covered = ranges.take(count);
            &&& after.header == segment.header
            &&& after.edge_deletes.contains(row) <==> segment.edge_deletes.contains(row) || (
            layered::covered(covered, row.source) && lost(before, row.source).contains(row))
            &&& after.edge_inserts.contains(row) <==> segment.edge_inserts.contains(row) || (
            layered::covered(covered, row.source) && gained(before, row.source).contains(
                row,
            ))
            &&& after.edge_weights.contains(weight) <==> segment.edge_weights.contains(weight) || (
            layered::covered(covered, weight.source) && weighed(
                before,
                weight.source,
            ).contains(weight))
        }),
    decreases count,
{
    if count > 0 {
        lemma_ranges_hold(segment, before, ranges, count - 1, row, weight);
        let range = ranges[count - 1];
        lemma_sources_hold(
            compact::with_ranges(segment, before, ranges, count - 1),
            before,
            range.start as int,
            range.end as int,
            row,
            weight,
        );
        lemma_covered_next(ranges, count, row.source);
        lemma_covered_next(ranges, count, weight.source);
    }
}

proof fn lemma_covered_next(ranges: Seq<SourceRange>, count: int, source: u32)
    requires
        0 < count <= ranges.len(),
    ensures
        layered::covered(ranges.take(count), source) <==> layered::covered(
            ranges.take(count - 1),
            source,
        ) || ranges[count - 1].has(source),
{
    let more = ranges.take(count);
    let fewer = ranges.take(count - 1);
    if layered::covered(more, source) {
        let i = choose|i: int| 0 <= i < more.len() && (#[trigger] more[i]).has(source);
        if i < count - 1 {
            assert(fewer[i].has(source));
        }
    }
    if layered::covered(fewer, source) {
        let i = choose|i: int| 0 <= i < fewer.len() && (#[trigger] fewer[i]).has(source);
        assert(more[i].has(source));
    }
    if ranges[count - 1].has(source) {
        assert(more[count - 1].has(source));
    }
}

// ---------------------------------------------------------------------------
// Rows of one source
// ---------------------------------------------------------------------------

/// Whether rows have different neighbors.
spec fn distinct_rows(rows: Seq<(u32, LayeredEdge)>) -> bool {
    forall|i: int, j: int|
        0 <= i < j < rows.len() ==> compact::row_key(#[trigger] rows[i]) != compact::row_key(
            #[trigger] rows[j],
        )
}

proof fn lemma_rows_map(rows: Seq<(u32, LayeredEdge)>, key: NeighborKey)
    requires
        distinct_rows(rows),
    ensures
        compact::rows_map(rows).contains_key(key) <==> exists|i: int|
            0 <= i < rows.len() && compact::row_key(#[trigger] rows[i]) == key,
        forall|i: int|
            0 <= i < rows.len() && compact::row_key(#[trigger] rows[i]) == key
                ==> compact::rows_map(rows)[key] == rows[i].1.weight,
    decreases rows.len(),
{
    if rows.len() > 0 {
        let init = rows.drop_last();
        assert(distinct_rows(init)) by {
            assert forall|i: int, j: int| 0 <= i < j < init.len() implies compact::row_key(
                #[trigger] init[i],
            ) != compact::row_key(#[trigger] init[j]) by {
                assert(rows[i] == init[i] && rows[j] == init[j]);
            }
        }
        lemma_rows_map(init, key);
        let n = rows.len() - 1;
        assert(rows[n] == rows.last());
        if compact::rows_map(rows).contains_key(key) && compact::row_key(rows.last()) != key {
            let i = choose|i: int|
                0 <= i < init.len() && compact::row_key(#[trigger] init[i]) == key;
            assert(rows[i] == init[i]);
        }
        assert forall|i: int|
            0 <= i < rows.len() && compact::row_key(#[trigger] rows[i]) == key implies compact::rows_map(
            rows,
        )[key] == rows[i].1.weight by {
            if i < n {
                assert(init[i] == rows[i]);
                assert(compact::row_key(rows[i]) != compact::row_key(rows[n]));
            }
        }
        if exists|i: int| 0 <= i < rows.len() && compact::row_key(#[trigger] rows[i]) == key {
            let i = choose|i: int|
                0 <= i < rows.len() && compact::row_key(#[trigger] rows[i]) == key;
            if i < n {
                assert(init[i] == rows[i]);
            }
        }
    }
}

/// What a visible node reads: its edges to visible neighbors.
pub open spec fn shown_edges(
    edges: Map<NeighborKey, Option<u32>>,
    shown: spec_fn(u32) -> bool,
) -> Map<NeighborKey, Option<u32>> {
    Map::new(
        |key: NeighborKey| edges.contains_key(key) && shown(key.target),
        |key: NeighborKey| edges[key],
    )
}

/// The entries of visible neighbors are the entries of the edges to visible
/// neighbors.
proof fn lemma_shown_entries(
    edges: Map<NeighborKey, Option<u32>>,
    shown: spec_fn(u32) -> bool,
)
    requires
        edges.dom().finite(),
    ensures
        ({
            let keep = |entry: (NeighborKey, Option<u32>)| shown(entry.0.target);
            let entries = ordered_map::sorted_entries(edges).filter(keep);
            &&& ordered_map::keys_sorted(entries)
            &&& ordered_map::map_of(entries) == shown_edges(edges, shown)
            &&& ordered_map::sorted_entries(shown_edges(edges, shown)) == entries
            &&& forall|i: int| 0 <= i < entries.len() ==> keep(#[trigger] entries[i])
        }),
{
    ordered_map::lemma_entries_exist(edges);
    let all = ordered_map::sorted_entries(edges);
    let keep = |entry: (NeighborKey, Option<u32>)| shown(entry.0.target);
    lemma_filter_entries(all, keep);
    let entries = all.filter(keep);
    assert forall|key: NeighborKey| #[trigger]
        ordered_map::map_of(entries).contains_key(key) <==> shown_edges(edges, shown).contains_key(
            key,
        ) by {
        if ordered_map::map_of(entries).contains_key(key) {
            let i = choose|i: int| ordered_map::entry_at(entries, key, i);
            assert(ordered_map::entry_at(entries, key, i));
            assert(all.contains(entries[i]));
            let j = choose|j: int| 0 <= j < all.len() && all[j] == entries[i];
            ordered_map::lemma_entry(all, j);
        }
        if shown_edges(edges, shown).contains_key(key) {
            let j = choose|j: int| ordered_map::entry_at(all, key, j);
            assert(ordered_map::entry_at(all, key, j));
            assert(all.contains(all[j]));
            assert(entries.contains(all[j]));
            let i = choose|i: int| 0 <= i < entries.len() && entries[i] == all[j];
            assert(ordered_map::entry_at(entries, key, i));
        }
    }
    assert forall|key: NeighborKey| #[trigger]
        ordered_map::map_of(entries).contains_key(key) implies ordered_map::map_of(entries)[key]
        == edges[key] by {
        let i = choose|i: int| ordered_map::entry_at(entries, key, i);
        assert(ordered_map::entry_at(entries, key, i));
        ordered_map::lemma_entry(entries, i);
        assert(all.contains(entries[i]));
        let j = choose|j: int| 0 <= j < all.len() && all[j] == entries[i];
        ordered_map::lemma_entry(all, j);
    }
    assert(ordered_map::map_of(entries) =~= shown_edges(edges, shown));
    ordered_map::lemma_sorted_entries(entries);
}

proof fn lemma_filter_entries(
    entries: Seq<(NeighborKey, Option<u32>)>,
    keep: spec_fn((NeighborKey, Option<u32>)) -> bool,
)
    requires
        ordered_map::keys_sorted(entries),
    ensures
        ordered_map::keys_sorted(entries.filter(keep)),
        forall|i: int|
            0 <= i < entries.filter(keep).len() ==> entries.contains(
                #[trigger] entries.filter(keep)[i],
            ) && keep(entries.filter(keep)[i]),
        forall|entry: (NeighborKey, Option<u32>)| #[trigger]
            entries.contains(entry) && keep(entry) ==> entries.filter(keep).contains(entry),
    decreases entries.len(),
{
    reveal(Seq::filter);
    if entries.len() > 0 {
        let init = entries.drop_last();
        assert forall|i: int, j: int| 0 <= i < j < init.len() implies order::before(
            (#[trigger] init[i]).0.rank(),
            (#[trigger] init[j]).0.rank(),
        ) by {
            assert(init[i] == entries[i] && init[j] == entries[j]);
        }
        lemma_filter_entries(init, keep);
        let kept = entries.filter(keep);
        let before = init.filter(keep);
        assert forall|i: int| 0 <= i < kept.len() implies entries.contains(#[trigger] kept[i])
            && keep(kept[i]) by {
            if i < before.len() {
                assert(kept[i] == before[i]);
                let j = choose|j: int| 0 <= j < init.len() && init[j] == before[i];
                assert(entries[j] == kept[i]);
            } else {
                assert(entries[entries.len() - 1] == kept[i]);
            }
        }
        assert forall|i: int, j: int| 0 <= i < j < kept.len() implies order::before(
            (#[trigger] kept[i]).0.rank(),
            (#[trigger] kept[j]).0.rank(),
        ) by {
            assert(kept[i] == before[i]);
            if j < before.len() {
                assert(kept[j] == before[j]);
            } else {
                let m = choose|m: int| 0 <= m < init.len() && init[m] == before[i];
                assert(entries[m] == before[i]);
                assert(order::before(
                    entries[m].0.rank(),
                    entries[entries.len() - 1].0.rank(),
                ));
            }
        }
        assert forall|entry: (NeighborKey, Option<u32>)| #[trigger]
            entries.contains(entry) && keep(entry) implies kept.contains(entry) by {
            let j = choose|j: int| 0 <= j < entries.len() && entries[j] == entry;
            if j < init.len() {
                assert(init[j] == entry);
                assert(init.contains(entry));
                let m = choose|m: int| 0 <= m < before.len() && before[m] == entry;
                assert(kept[m] == entry);
            } else {
                assert(kept[kept.len() - 1] == entry);
            }
        }
    }
}

/// The rows of a listing stand for the edges to visible neighbors.
proof fn lemma_listing_map(
    edges: Map<NeighborKey, Option<u32>>,
    shown: spec_fn(u32) -> bool,
)
    requires
        edges.dom().finite(),
    ensures
        distinct_rows(layered::listing(edges, shown)),
        compact::rows_map(layered::listing(edges, shown)) == shown_edges(edges, shown),
{
    lemma_shown_entries(edges, shown);
    let keep = |entry: (NeighborKey, Option<u32>)| shown(entry.0.target);
    let entries = ordered_map::sorted_entries(edges).filter(keep);
    let rows = layered::listing(edges, shown);
    assert(rows.len() == entries.len());
    assert forall|i: int| 0 <= i < rows.len() implies compact::row_key(#[trigger] rows[i])
        == entries[i].0 && rows[i].1.weight == entries[i].1 by {}
    assert forall|i: int, j: int| 0 <= i < j < rows.len() implies compact::row_key(
        #[trigger] rows[i],
    ) != compact::row_key(#[trigger] rows[j]) by {
        assert(order::before(entries[i].0.rank(), entries[j].0.rank()));
        order::lemma_before_irreflexive(entries[i].0.rank());
    }
    assert forall|key: NeighborKey| #[trigger]
        compact::rows_map(rows).contains_key(key) <==> shown_edges(edges, shown).contains_key(
            key,
        ) by {
        lemma_rows_map(rows, key);
        if compact::rows_map(rows).contains_key(key) {
            let i = choose|i: int|
                0 <= i < rows.len() && compact::row_key(#[trigger] rows[i]) == key;
            assert(ordered_map::entry_at(entries, key, i));
        }
        if ordered_map::map_of(entries).contains_key(key) {
            let i = choose|i: int| ordered_map::entry_at(entries, key, i);
            assert(ordered_map::entry_at(entries, key, i));
            assert(compact::row_key(rows[i]) == key);
        }
    }
    assert forall|key: NeighborKey| #[trigger]
        compact::rows_map(rows).contains_key(key) implies compact::rows_map(rows)[key]
        == shown_edges(edges, shown)[key] by {
        lemma_rows_map(rows, key);
        let i = choose|i: int| 0 <= i < rows.len() && compact::row_key(#[trigger] rows[i]) == key;
        ordered_map::lemma_entry(entries, i);
    }
    assert(compact::rows_map(rows) =~= shown_edges(edges, shown));
}

/// Two maps that show the same edges to visible neighbors have one listing.
pub proof fn lemma_same_listing(
    a: Map<NeighborKey, Option<u32>>,
    b: Map<NeighborKey, Option<u32>>,
    shown: spec_fn(u32) -> bool,
)
    requires
        a.dom().finite(),
        b.dom().finite(),
        shown_edges(a, shown) == shown_edges(b, shown),
    ensures
        layered::listing(a, shown) == layered::listing(b, shown),
{
    lemma_shown_entries(a, shown);
    lemma_shown_entries(b, shown);
}

// ---------------------------------------------------------------------------
// One edge in a layered read
// ---------------------------------------------------------------------------

/// Whether a source reads base, base chunks and segments alone.
pub open spec fn plain_source(layered: LayeredNeighbors) -> bool {
    &&& layered.overlays(None, None)
    &&& layered.transaction is None
}

/// What a map of neighbors holds of one of them.
pub open spec fn found(edges: Map<NeighborKey, Option<u32>>, key: NeighborKey) -> Option<
    Option<u32>,
> {
    if edges.contains_key(key) {
        Some(edges[key])
    } else {
        None
    }
}

/// What base and base chunks hold of an edge.
pub open spec fn held(layered: LayeredNeighbors, key: EdgeKey) -> Option<Option<u32>> {
    let stored = layered::replaced_base(
        layered.base.edges@,
        layered.base_chunk_ranges@,
        layered.base_chunk_out@,
    );
    if stored.contains_key(key) {
        Some(stored[key])
    } else {
        None
    }
}

/// What the segments of a layered read say of an edge.
pub open spec fn told(layered: LayeredNeighbors, key: EdgeKey) -> Option<DurableEdgeState> {
    says::lookup(layered.durable_out@, key)
}

/// An edge after what is said of it.
pub open spec fn settled(
    before: Option<Option<u32>>,
    told: Option<DurableEdgeState>,
) -> Option<Option<u32>> {
    match told {
        None => before,
        Some(DurableEdgeState::Deleted) => None,
        Some(DurableEdgeState::Present(weight)) => Some(weight),
    }
}

/// What is left of what segments say of an edge: that an edge is there which is
/// held, without a weight, is nothing new.
pub open spec fn news(
    held: Option<Option<u32>>,
    stated: Option<DurableEdgeState>,
) -> Option<DurableEdgeState> {
    if held is Some && stated == Some(DurableEdgeState::Present(None)) {
        None
    } else {
        stated
    }
}

/// An edge as base, base chunks and segments give it.
pub open spec fn final_edge(layered: LayeredNeighbors, key: EdgeKey) -> Option<Option<u32>> {
    settled(held(layered, key), told(layered, key))
}

/// Whether a base chunk is valid: outgoing edges that start in the range that it
/// names.
pub open spec fn valid_chunk(chunk: DeltaSegmentView) -> bool {
    &&& chunk.header.kind is Edge
    &&& chunk.header.direction is Out
    &&& forall|row: SegmentEdge|
        #![trigger chunk.edge_inserts.contains(row)]
        #![trigger chunk.edge_deletes.contains(row)]
        chunk.edge_inserts.contains(row) || chunk.edge_deletes.contains(row)
            ==> chunk.header.source_start <= row.source < chunk.header.source_end
}

/// A base chunk that was loaded is valid.
pub proof fn lemma_loaded_chunk_valid(
    reference: ChunkRefView,
    file: Result<Seq<u8>, Seq<char>>,
)
    requires
        layered::loaded_chunk(reference, file) is Ok,
    ensures
        valid_chunk(layered::loaded_chunk(reference, file)->Ok_0),
        chunk_span(layered::loaded_chunk(reference, file)->Ok_0) == chunk::chunk_range(reference),
{
    let held = layered::loaded_chunk(reference, file)->Ok_0;
    segment::lemma_parsed_valid(file->Ok_0);
    assert forall|row: SegmentEdge|
        #![trigger held.edge_inserts.contains(row)]
        #![trigger held.edge_deletes.contains(row)]
        held.edge_inserts.contains(row) || held.edge_deletes.contains(
            row,
        ) implies held.header.source_start <= row.source < held.header.source_end by {
        lemma_valid_rows(held, row);
    }
}

/// The source range that a base chunk names.
pub open spec fn chunk_span(chunk: DeltaSegmentView) -> SourceRange {
    SourceRange { start: chunk.header.source_start, end: chunk.header.source_end }
}

/// Whether edges by source and by target say the same, and base chunks speak of
/// sources in their ranges alone.
spec fn consistent(layered: LayeredNeighbors) -> bool {
    &&& forall|key: EdgeKey| #[trigger]
        told(layered, key) == says::lookup(layered.durable_in@, layered::mirrored(key))
    &&& forall|key: EdgeKey| #[trigger]
        says::lookup(layered.base_chunk_out@, key) == says::lookup(
            layered.base_chunk_in@,
            layered::mirrored(key),
        )
    &&& forall|key: EdgeKey| #[trigger]
        layered.base_chunk_out@.contains_key(key) ==> layered::covered(
            layered.base_chunk_ranges@,
            key.source,
        )
}

proof fn lemma_rows_in_range<R: segment::BoundedRow>(
    header: segment::SegmentHeader,
    rows: Seq<R>,
    from: int,
    i: int,
)
    requires
        0 <= from <= i < rows.len(),
        segment::rows_error(header, rows, from) is None,
    ensures
        rows[i].bounds_error(header) is None,
    decreases rows.len() - from,
{
    if from < i {
        lemma_rows_in_range(header, rows, from + 1, i);
    }
}

/// The rows of a valid segment lie in the range that its header names.
proof fn lemma_valid_rows(held: DeltaSegmentView, row: SegmentEdge)
    requires
        segment::segment_error(held) is None,
        held.edge_inserts.contains(row) || held.edge_deletes.contains(row),
    ensures
        held.header.source_start <= row.source < held.header.source_end,
{
    if held.edge_inserts.contains(row) {
        let i = choose|i: int| 0 <= i < held.edge_inserts.len() && held.edge_inserts[i] == row;
        lemma_rows_in_range(held.header, held.edge_inserts, 0, i);
    } else {
        let i = choose|i: int| 0 <= i < held.edge_deletes.len() && held.edge_deletes[i] == row;
        lemma_rows_in_range(held.header, held.edge_deletes, 0, i);
    }
}

proof fn lemma_chunk_covers(chunks: Seq<DeltaSegmentView>, key: EdgeKey)
    requires
        chunks.len() <= usize::MAX,
        forall|i: int| 0 <= i < chunks.len() ==> valid_chunk(#[trigger] chunks[i]),
        stated(chunks, key) is Some,
    ensures
        layered::covered(layered::chunk_ranges(chunks), key.source),
{
    if forall|i: int| 0 <= i < chunks.len() ==> said(#[trigger] chunks[i], key) is None {
        says::lemma_segments_agree(chunks, key, DurableEdgeState::Deleted);
    } else {
        let i = choose|i: int| 0 <= i < chunks.len() && said(#[trigger] chunks[i], key) is Some;
        assert(valid_chunk(chunks[i]));
        assert(layered::chunk_ranges(chunks)[i].has(key.source));
    }
}

proof fn lemma_consistent(
    layered: LayeredNeighbors,
    base: EdgeStore,
    chunks: Seq<DeltaSegmentView>,
    segments: Seq<DeltaSegmentView>,
)
    requires
        chunks.len() <= usize::MAX,
        layered.layers(&base, None, chunks, segments, None),
        forall|i: int| 0 <= i < chunks.len() ==> valid_chunk(#[trigger] chunks[i]),
    ensures
        consistent(layered),
        forall|key: EdgeKey| #[trigger]
            told(layered, key) == news(held(layered, key), stated(segments, key)),
        forall|key: EdgeKey| #[trigger]
            says::lookup(layered.base_chunk_out@, key) == stated(chunks, key),
{
    let state = layered::with_segments(layered::blank_state(), segments);
    let chunk_state = layered::with_segments(layered::blank_state(), chunks);
    assert forall|key: EdgeKey| #[trigger]
        told(layered, key) == news(held(layered, key), stated(segments, key)) by {}
    assert forall|key: EdgeKey| #[trigger]
        told(layered, key) == says::lookup(layered.durable_in@, layered::mirrored(key)) by {
        says::lemma_stated_incoming(segments, key);
        assert(layered::mirrored(layered::mirrored(key)) == key);
    }
    assert forall|key: EdgeKey| #[trigger]
        says::lookup(layered.base_chunk_out@, key) == says::lookup(
            layered.base_chunk_in@,
            layered::mirrored(key),
        ) by {
        says::lemma_stated_incoming(chunks, key);
    }
    assert forall|key: EdgeKey| #[trigger]
        layered.base_chunk_out@.contains_key(key) implies layered::covered(
        layered.base_chunk_ranges@,
        key.source,
    ) by {
        assert(stated(chunks, key) is Some);
        lemma_chunk_covers(chunks, key);
    }
}

pub proof fn lemma_plain_merged(layered: LayeredNeighbors, direction: TraversalDirection, node: u32)
    requires
        plain_source(layered),
    ensures
        layered.merged(direction, node) == layered.with_segments_of(
            layered.with_base(Map::empty(), direction, node),
            direction,
            node,
        ),
{
    let edges = layered.with_segments_of(
        layered.with_base(Map::empty(), direction, node),
        direction,
        node,
    );
    layered::lemma_no_overlay(
        edges,
        neighbors::listed(layered.committed_out_inserts@, node),
        neighbors::listed(layered.committed_out_deletes@, node),
    );
    layered::lemma_no_overlay(
        edges,
        neighbors::listed(layered.committed_in_inserts@, node),
        neighbors::listed(layered.committed_in_deletes@, node),
    );
}

/// What base and base chunks hold for a source is what they hold of its edges.
proof fn lemma_stored_of(layered: LayeredNeighbors, node: u32, key: NeighborKey)
    ensures
        found(compact::stored_of(layered, node), key) == held(
            layered,
            layered::edge_to(node, key),
        ),
{
}

proof fn lemma_out_read(layered: LayeredNeighbors, node: u32, key: NeighborKey)
    requires
        plain_source(layered),
    ensures
        found(layered.merged(TraversalDirection::Out, node), key) == final_edge(
            layered,
            layered::edge_to(node, key),
        ),
{
    lemma_plain_merged(layered, TraversalDirection::Out, node);
    lemma_stored_of(layered, node, key);
}

proof fn lemma_stored_incoming(layered: LayeredNeighbors, node: u32, key: NeighborKey)
    requires
        consistent(layered),
        layered.base_in is None,
    ensures
        found(layered.with_base(Map::empty(), TraversalDirection::In, node), key) == held(
            layered,
            layered::mirrored(layered::edge_to(node, key)),
        ),
{
    let edge = layered::mirrored(layered::edge_to(node, key));
    assert(layered::mirrored(edge) == layered::edge_to(node, key));
    assert(says::lookup(layered.base_chunk_out@, edge) == says::lookup(
        layered.base_chunk_in@,
        layered::mirrored(edge),
    ));
    assert(layered.base_chunk_out@.contains_key(edge) ==> layered::covered(
        layered.base_chunk_ranges@,
        edge.source,
    ));
}

proof fn lemma_in_read(layered: LayeredNeighbors, node: u32, key: NeighborKey)
    requires
        plain_source(layered),
        consistent(layered),
        layered.base_in is None,
    ensures
        found(layered.merged(TraversalDirection::In, node), key) == final_edge(
            layered,
            layered::mirrored(layered::edge_to(node, key)),
        ),
{
    let edge = layered::mirrored(layered::edge_to(node, key));
    assert(layered::mirrored(edge) == layered::edge_to(node, key));
    lemma_plain_merged(layered, TraversalDirection::In, node);
    lemma_stored_incoming(layered, node, key);
    assert(told(layered, edge) == says::lookup(layered.durable_in@, layered::mirrored(edge)));
}

/// What base and base chunks give a read in both directions: an incoming edge wins
/// over an outgoing one, and an incoming edge that a base chunk deletes takes the
/// outgoing one with it.
pub open spec fn held_any(layered: LayeredNeighbors, node: u32, key: NeighborKey) -> Option<
    Option<u32>,
> {
    let outgoing = layered::edge_to(node, key);
    let incoming = layered::mirrored(outgoing);
    if held(layered, incoming) is Some {
        held(layered, incoming)
    } else if layered.base_chunk_out@.contains_key(incoming) {
        None
    } else {
        held(layered, outgoing)
    }
}

/// Whether a read in both directions goes by an edge at the node that it reads, and
/// not by the opposite of that edge: segments say nothing of the opposite, and they
/// speak of the edge itself or nothing else speaks of the opposite either.
pub open spec fn outgoing_shows(layered: LayeredNeighbors, edge: EdgeKey) -> bool {
    let opposite = layered::mirrored(edge);
    &&& told(layered, opposite) is None
    &&& told(layered, edge) is Some || (held(layered, opposite) is None
        && !layered.base_chunk_out@.contains_key(opposite))
}

/// Of two opposite edges a read in both directions shows one.
proof fn lemma_any_read(layered: LayeredNeighbors, node: u32, key: NeighborKey)
    requires
        plain_source(layered),
        consistent(layered),
        layered.base_in is None,
    ensures
        ({
            let edge = layered::edge_to(node, key);
            found(layered.merged(TraversalDirection::Any, node), key) == if outgoing_shows(
                layered,
                edge,
            ) {
                final_edge(layered, edge)
            } else {
                final_edge(layered, layered::mirrored(edge))
            }
        }),
{
    let edge = layered::mirrored(layered::edge_to(node, key));
    assert(layered::mirrored(edge) == layered::edge_to(node, key));
    lemma_plain_merged(layered, TraversalDirection::Any, node);
    lemma_stored_of(layered, node, key);
    assert(says::lookup(layered.base_chunk_out@, edge) == says::lookup(
        layered.base_chunk_in@,
        layered::mirrored(edge),
    ));
    assert(layered.base_chunk_out@.contains_key(edge) ==> layered::covered(
        layered.base_chunk_ranges@,
        edge.source,
    ));
    assert(found(layered.with_base(Map::empty(), TraversalDirection::Any, node), key) == held_any(
        layered,
        node,
        key,
    ));
    assert(told(layered, edge) == says::lookup(layered.durable_in@, layered::mirrored(edge)));
}

// ---------------------------------------------------------------------------
// Finite reads
// ---------------------------------------------------------------------------

proof fn lemma_leads_to_finite<V>(edges: Map<EdgeKey, V>, node: u32)
    requires
        edges.dom().finite(),
    ensures
        layered::leads_to(edges, node).dom().finite(),
{
    let neighbor = |key: EdgeKey| layered::row_neighbor(key);
    edges.dom().lemma_map_finite(neighbor);
    assert forall|key: NeighborKey| #[trigger]
        layered::leads_to(edges, node).dom().contains(key) implies edges.dom().map(
        neighbor,
    ).contains(key) by {
        assert(edges.dom().contains(layered::edge_to(node, key)));
        assert(neighbor(layered::edge_to(node, key)) == key);
    }
    vstd::set_lib::lemma_set_subset_finite(
        edges.dom().map(neighbor),
        layered::leads_to(edges, node).dom(),
    );
}

proof fn lemma_comes_from_finite(edges: Map<EdgeKey, Option<u32>>, node: u32)
    requires
        edges.dom().finite(),
    ensures
        layered::comes_from(edges, node).dom().finite(),
{
    let neighbor = |key: EdgeKey| layered::row_neighbor(layered::mirrored(key));
    edges.dom().lemma_map_finite(neighbor);
    assert forall|key: NeighborKey| #[trigger]
        layered::comes_from(edges, node).dom().contains(key) implies edges.dom().map(
        neighbor,
    ).contains(key) by {
        let edge = layered::mirrored(layered::edge_to(node, key));
        assert(edges.dom().contains(edge));
        assert(neighbor(edge) == key);
    }
    vstd::set_lib::lemma_set_subset_finite(
        edges.dom().map(neighbor),
        layered::comes_from(edges, node).dom(),
    );
}

pub proof fn lemma_merged_finite(layered: LayeredNeighbors, direction: TraversalDirection, node: u32)
    requires
        plain_source(layered),
        layered.base_in is None,
    ensures
        layered.merged(direction, node).dom().finite(),
        compact::stored_of(layered, node).dom().finite(),
{
    lemma_plain_merged(layered, direction, node);
    ordered_map::lemma_keys_finite(layered.durable_out.entries@);
    ordered_map::lemma_keys_finite(layered.durable_in.entries@);
    ordered_map::lemma_keys_finite(layered.base_chunk_out.entries@);
    ordered_map::lemma_keys_finite(layered.base_chunk_in.entries@);
    ordered_map::lemma_keys_finite(layered.base.edges.entries@);
    lemma_leads_to_finite(layered.durable_out@, node);
    lemma_leads_to_finite(layered.durable_in@, node);
    lemma_leads_to_finite(layered.base_chunk_out@, node);
    lemma_leads_to_finite(layered.base_chunk_in@, node);
    lemma_leads_to_finite(layered.base.edges@, node);
    lemma_comes_from_finite(layered.base.edges@, node);
    let all = layered::leads_to(layered.durable_out@, node).dom().union(
        layered::leads_to(layered.durable_in@, node).dom(),
    ).union(layered::leads_to(layered.base_chunk_out@, node).dom()).union(
        layered::leads_to(layered.base_chunk_in@, node).dom(),
    ).union(layered::leads_to(layered.base.edges@, node).dom()).union(
        layered::comes_from(layered.base.edges@, node).dom(),
    );
    assert(layered.merged(direction, node).dom().subset_of(all));
    vstd::set_lib::lemma_set_subset_finite(all, layered.merged(direction, node).dom());
    vstd::set_lib::lemma_set_subset_finite(all, compact::stored_of(layered, node).dom());
}

// ---------------------------------------------------------------------------
// Which segments compaction takes in
// ---------------------------------------------------------------------------

/// Whether compaction takes in a segment: edge segments up to level two.
pub open spec fn taken(segment: DeltaSegmentView) -> bool {
    segment.header.kind is Edge && segment.header.level <= 2
}

/// The segments that compaction leaves.
pub open spec fn left(segments: Seq<DeltaSegmentView>) -> Seq<DeltaSegmentView> {
    segments.filter(|segment: DeltaSegmentView| !taken(segment))
}

/// Whether the loaded segments are those that compaction takes in.
pub open spec fn takes_in(segments: Seq<DeltaSegmentView>, loaded: Seq<LoadedView>) -> bool {
    loaded.map_values(|one: LoadedView| one.segment) == segments.filter(
        |segment: DeltaSegmentView| taken(segment),
    )
}

/// Whether no segment that is left speaks of an edge of which a segment that is
/// taken in speaks. All edge segments are taken in where none is above level two, and
/// neither ingest nor compaction writes one above it.
pub open spec fn apart(segments: Seq<DeltaSegmentView>) -> bool {
    forall|i: int, j: int, key: EdgeKey|
        0 <= i < segments.len() && 0 <= j < segments.len() && taken(segments[i]) && !taken(
            segments[j],
        ) ==> #[trigger] said(segments[i], key) is None || #[trigger] said(segments[j], key) is None
}

/// Whether a segment is valid. Node indices are below the greatest one, so that a
/// range can hold the source of every row.
pub open spec fn valid_segment(segment: DeltaSegmentView) -> bool {
    &&& segment::segment_error(segment) is None
    &&& segment.header.direction is In ==> {
        &&& forall|i: int|
            0 <= i < segment.edge_inserts.len() ==> (#[trigger] segment.edge_inserts[i]).target
                < u32::MAX
        &&& forall|i: int|
            0 <= i < segment.edge_deletes.len() ==> (#[trigger] segment.edge_deletes[i]).target
                < u32::MAX
    }
}

/// Whether a segment that compaction takes in speaks of an edge.
spec fn taken_names(segments: Seq<DeltaSegmentView>, key: EdgeKey) -> bool {
    exists|i: int|
        0 <= i < segments.len() && taken(#[trigger] segments[i]) && said(segments[i], key) is Some
}

/// Of edges of which no segment speaks that is taken in, the others say what all
/// say; of other edges they say nothing.
proof fn lemma_left_state(segments: Seq<DeltaSegmentView>, key: EdgeKey)
    requires
        segments.len() <= usize::MAX,
        apart(segments),
    ensures
        !taken_names(segments, key) ==> stated(left(segments), key) == stated(segments, key),
        taken_names(segments, key) ==> stated(left(segments), key) is None && forall|j: int|
            0 <= j < left(segments).len() ==> said(#[trigger] left(segments)[j], key) is None,
        left(segments).len() <= segments.len(),
{
    let keep = |segment: DeltaSegmentView| !taken(segment);
    let rest = left(segments);
    segments.lemma_filter_len(keep);
    if taken_names(segments, key) {
        let i = choose|i: int|
            0 <= i < segments.len() && taken(#[trigger] segments[i]) && said(segments[i], key) is Some;
        assert forall|j: int| 0 <= j < rest.len() implies said(#[trigger] rest[j], key) is None by {
            layered::lemma_filter_member(segments, keep, j);
            segments.lemma_filter_pred(keep, j);
            let m = choose|m: int| 0 <= m < segments.len() && segments[m] == rest[j];
            assert(said(segments[i], key) is None || said(segments[m], key) is None);
        }
        says::lemma_segments_agree(rest, key, DurableEdgeState::Deleted);
    } else {
        assert forall|i: int| 0 <= i < segments.len() implies keep(#[trigger] segments[i]) || said(
            segments[i],
            key,
        ) is None by {
            assert(taken(segments[i]) && said(segments[i], key) is Some ==> taken_names(
                segments,
                key,
            ));
        }
        says::lemma_stated_filter(segments, keep, key);
    }
}

/// Compaction keeps what segments say of nodes and tenants.
proof fn lemma_nodes_stay(segments: Seq<DeltaSegmentView>, after: Seq<DeltaSegmentView>)
    requires
        segments.len() <= usize::MAX,
        after.len() <= usize::MAX,
        after.filter(|segment: DeltaSegmentView| segment.header.kind is Node) == segments.filter(
            |segment: DeltaSegmentView| segment.header.kind is Node,
        ),
    ensures
        ({
            let before = layered::with_segments(layered::blank_state(), segments);
            let later = layered::with_segments(layered::blank_state(), after);
            &&& before.active_nodes == later.active_nodes
            &&& before.members == later.members
        }),
{
    let keep = |segment: DeltaSegmentView| segment.header.kind is Node;
    let blank = layered::blank_state();
    replay::lemma_with_segments(segments, blank);
    replay::lemma_with_segments(after, blank);
    replay::lemma_nodes_of_node_segments(replay::in_order(segments), blank);
    replay::lemma_nodes_of_node_segments(replay::in_order(after), blank);
    replay::lemma_order_filter(segments, keep);
    replay::lemma_order_filter(after, keep);
}

proof fn lemma_node_filter(segments: Seq<DeltaSegmentView>)
    ensures
        left(segments).filter(|segment: DeltaSegmentView| segment.header.kind is Node)
            == segments.filter(|segment: DeltaSegmentView| segment.header.kind is Node),
    decreases segments.len(),
{
    reveal(Seq::filter);
    let node = |segment: DeltaSegmentView| segment.header.kind is Node;
    let stays = |segment: DeltaSegmentView| !taken(segment);
    if segments.len() > 0 {
        let init = segments.drop_last();
        let last = segments.last();
        lemma_node_filter(init);
        if stays(last) {
            assert(segments.filter(stays).drop_last() =~= init.filter(stays));
        }
    }
}

// ---------------------------------------------------------------------------
// Where compaction looks
// ---------------------------------------------------------------------------

proof fn lemma_covered_concat(a: Seq<SourceRange>, b: Seq<SourceRange>, source: u32)
    ensures
        layered::covered(a + b, source) <==> layered::covered(a, source) || layered::covered(
            b,
            source,
        ),
{
    let all = a + b;
    if layered::covered(all, source) {
        let i = choose|i: int| 0 <= i < all.len() && (#[trigger] all[i]).has(source);
        if i < a.len() {
            assert(a[i].has(source));
        } else {
            assert(b[i - a.len()].has(source));
        }
    }
    if layered::covered(a, source) {
        let i = choose|i: int| 0 <= i < a.len() && (#[trigger] a[i]).has(source);
        assert(all[i].has(source));
    }
    if layered::covered(b, source) {
        let i = choose|i: int| 0 <= i < b.len() && (#[trigger] b[i]).has(source);
        assert(all[a.len() + i].has(source));
    }
}

proof fn lemma_incoming_covered(rows: Seq<SegmentEdge>, i: int)
    requires
        0 <= i < rows.len(),
        rows[i].target < u32::MAX,
    ensures
        layered::covered(compact::incoming_ranges(rows), rows[i].target),
    decreases rows.len(),
{
    let init = rows.drop_last();
    let last = compact::single_range(rows.last().target);
    lemma_covered_concat(compact::incoming_ranges(init), last, rows[i].target);
    if i < init.len() {
        assert(init[i] == rows[i]);
        lemma_incoming_covered(init, i);
    } else {
        assert(last[0].has(rows[i].target));
    }
}

/// The ranges that a valid segment is dirty in hold the sources of all edges of
/// which it speaks.
proof fn lemma_segment_dirty(held: DeltaSegmentView, key: EdgeKey)
    requires
        valid_segment(held),
        said(held, key) is Some,
    ensures
        layered::covered(compact::segment_ranges(held), key.source),
{
    let row = says::row_for(held.header.direction, key);
    lemma_valid_rows(held, row);
    let named = seq![
        SourceRange { start: held.header.source_start, end: held.header.source_end },
    ];
    if held.header.direction is In {
        let deleted = compact::incoming_ranges(held.edge_deletes);
        let inserted = compact::incoming_ranges(held.edge_inserts);
        lemma_covered_concat(named + deleted, inserted, key.source);
        lemma_covered_concat(named, deleted, key.source);
        assert(row.target == key.source);
        if held.edge_inserts.contains(row) {
            let i = choose|i: int| 0 <= i < held.edge_inserts.len() && held.edge_inserts[i] == row;
            lemma_incoming_covered(held.edge_inserts, i);
        } else {
            let i = choose|i: int| 0 <= i < held.edge_deletes.len() && held.edge_deletes[i] == row;
            lemma_incoming_covered(held.edge_deletes, i);
        }
    } else {
        assert(named[0].has(key.source));
        assert(compact::segment_ranges(held) == named);
    }
}

proof fn lemma_dirty_covered(loaded: Seq<LoadedView>, i: int, source: u32)
    requires
        0 <= i < loaded.len(),
        layered::covered(compact::segment_ranges(loaded[i].segment), source),
    ensures
        layered::covered(compact::dirty_ranges(loaded), source),
    decreases loaded.len(),
{
    let init = loaded.drop_last();
    lemma_covered_concat(
        compact::dirty_ranges(init),
        compact::segment_ranges(loaded.last().segment),
        source,
    );
    if i < init.len() {
        assert(init[i] == loaded[i]);
        lemma_dirty_covered(init, i, source);
    }
}

/// Whether all ranges hold something.
pub open spec fn ranges_filled(ranges: Seq<SourceRange>) -> bool {
    forall|i: int| 0 <= i < ranges.len() ==> (#[trigger] ranges[i]).start < ranges[i].end
}

proof fn lemma_incoming_filled(rows: Seq<SegmentEdge>)
    ensures
        ranges_filled(compact::incoming_ranges(rows)),
    decreases rows.len(),
{
    if rows.len() > 0 {
        lemma_incoming_filled(rows.drop_last());
    }
}

pub proof fn lemma_dirty_filled(loaded: Seq<LoadedView>)
    ensures
        ranges_filled(compact::dirty_ranges(loaded)),
    decreases loaded.len(),
{
    if loaded.len() > 0 {
        lemma_dirty_filled(loaded.drop_last());
        lemma_incoming_filled(loaded.last().segment.edge_deletes);
        lemma_incoming_filled(loaded.last().segment.edge_inserts);
    }
}

/// Every edge of which a segment speaks that compaction takes in starts in one of
/// the ranges that compaction goes over.
pub proof fn lemma_dirty_ranges_cover(
    segments: Seq<DeltaSegmentView>,
    loaded: Seq<LoadedView>,
    ranges: Seq<SourceRange>,
    key: EdgeKey,
)
    requires
        takes_in(segments, loaded),
        compact::is_range_merge(compact::dirty_ranges(loaded), ranges),
        forall|i: int| 0 <= i < segments.len() ==> valid_segment(#[trigger] segments[i]),
        exists|i: int|
            0 <= i < segments.len() && taken(#[trigger] segments[i]) && said(
                segments[i],
                key,
            ) is Some,
    ensures
        layered::covered(ranges, key.source),
{
    let i = choose|i: int|
        0 <= i < segments.len() && taken(#[trigger] segments[i]) && said(segments[i], key) is Some;
    assert(valid_segment(segments[i]));
    let keep = |segment: DeltaSegmentView| taken(segment);
    segments.lemma_filter_contains(keep, i);
    let kept = segments.filter(keep);
    let j = choose|j: int| 0 <= j < kept.len() && kept[j] == segments[i];
    let views = loaded.map_values(|one: LoadedView| one.segment);
    assert(views[j] == loaded[j].segment);
    lemma_segment_dirty(segments[i], key);
    lemma_dirty_covered(loaded, j, key.source);
    lemma_dirty_filled(loaded);
    compact::lemma_range_merge_covers(compact::dirty_ranges(loaded), ranges);
}

// ---------------------------------------------------------------------------
// What the compacted segment says
// ---------------------------------------------------------------------------

/// A compacted segment without its rows.
pub open spec fn is_blank(segment: DeltaSegmentView) -> bool {
    &&& segment.header.kind is Edge
    &&& segment.header.direction is Out
    &&& segment.edge_inserts.len() == 0
    &&& segment.edge_deletes.len() == 0
    &&& segment.edge_weights.len() == 0
}

/// What has to be said of an edge that is held to make it another.
pub open spec fn difference(
    held: Option<Option<u32>>,
    wanted: Option<Option<u32>>,
) -> Option<DurableEdgeState> {
    if held == wanted {
        None
    } else {
        match wanted {
            Some(weight) => Some(DurableEdgeState::Present(weight)),
            None => Some(DurableEdgeState::Deleted),
        }
    }
}

proof fn lemma_visible_rows(before: LayeredNeighbors, source: u32, key: NeighborKey)
    requires
        plain_source(before),
        before.base_in is None,
        before.visible(source),
        before.visible(key.target),
    ensures
        distinct_rows(before.rows(TraversalDirection::Out, source)),
        found(compact::rows_map(before.rows(TraversalDirection::Out, source)), key) == final_edge(
            before,
            layered::edge_to(source, key),
        ),
{
    let direction = TraversalDirection::Out;
    let shown = |target: u32| before.visible(target);
    lemma_merged_finite(before, direction, source);
    lemma_listing_map(before.merged(direction, source), shown);
    lemma_out_read(before, source, key);
}

proof fn lemma_gained(before: LayeredNeighbors, source: u32, key: NeighborKey)
    requires
        distinct_rows(before.rows(TraversalDirection::Out, source)),
    ensures
        ({
            let read = compact::rows_map(before.rows(TraversalDirection::Out, source));
            let stored = compact::stored_of(before, source);
            gained(before, source).contains(row_of(layered::edge_to(source, key))) <==> found(
                read,
                key,
            ) is Some && found(read, key) != found(stored, key)
        }),
{
    let rows = before.rows(TraversalDirection::Out, source);
    let read = compact::rows_map(rows);
    let stored = compact::stored_of(before, source);
    let row = row_of(layered::edge_to(source, key));
    lemma_rows_map(rows, key);
    let keep = |r: (u32, LayeredEdge)| !compact::in_base(stored, r);
    let kept = rows.filter(keep);
    if gained(before, source).contains(row) {
        let i = choose|i: int|
            0 <= i < gained(before, source).len() && gained(before, source)[i] == row;
        rows.lemma_filter_pred(keep, i);
        layered::lemma_filter_member(rows, keep, i);
        let j = choose|j: int| 0 <= j < rows.len() && rows[j] == kept[i];
        assert(compact::row_key(rows[j]) == key);
    }
    if found(read, key) is Some && found(read, key) != found(stored, key) {
        let j = choose|j: int| 0 <= j < rows.len() && compact::row_key(#[trigger] rows[j]) == key;
        assert(keep(rows[j]));
        rows.lemma_filter_contains(keep, j);
        let i = choose|i: int| 0 <= i < kept.len() && kept[i] == rows[j];
        assert(gained(before, source)[i] == row);
    }
}

proof fn lemma_lost(before: LayeredNeighbors, source: u32, key: NeighborKey)
    requires
        compact::stored_of(before, source).dom().finite(),
    ensures
        ({
            let read = compact::rows_map(before.rows(TraversalDirection::Out, source));
            let stored = compact::stored_of(before, source);
            lost(before, source).contains(row_of(layered::edge_to(source, key))) <==> found(
                stored,
                key,
            ) is Some && found(read, key) is None
        }),
{
    let read = compact::rows_map(before.rows(TraversalDirection::Out, source));
    let stored = compact::stored_of(before, source);
    let row = row_of(layered::edge_to(source, key));
    ordered_map::lemma_entries_exist(stored);
    let entries = ordered_map::sorted_entries(stored);
    let gone = |entry: (NeighborKey, Option<u32>)| !read.contains_key(entry.0);
    let dropped = entries.filter(gone);
    if lost(before, source).contains(row) {
        let i = choose|i: int|
            0 <= i < lost(before, source).len() && lost(before, source)[i] == row;
        entries.lemma_filter_pred(gone, i);
        layered::lemma_filter_member(entries, gone, i);
        let j = choose|j: int| 0 <= j < entries.len() && entries[j] == dropped[i];
        assert(entries[j].0 == key);
        assert(ordered_map::entry_at(entries, key, j));
        assert(ordered_map::map_of(entries).contains_key(key));
    }
    if found(stored, key) is Some && found(read, key) is None {
        assert(ordered_map::map_of(entries).contains_key(key));
        let j = choose|j: int| ordered_map::entry_at(entries, key, j);
        assert(ordered_map::entry_at(entries, key, j));
        assert(gone(entries[j]));
        entries.lemma_filter_contains(gone, j);
        let i = choose|i: int| 0 <= i < dropped.len() && dropped[i] == entries[j];
        assert(lost(before, source)[i] == row);
    }
}

/// What the compacted segment says of an edge between visible nodes: what it takes
/// to make of the edge as it is held the edge as it is read.
proof fn lemma_compacted_says(
    before: LayeredNeighbors,
    blank: DeltaSegmentView,
    ranges: Seq<SourceRange>,
    source: u32,
    key: NeighborKey,
)
    requires
        is_blank(blank),
        plain_source(before),
        before.base_in is None,
        before.visible(source),
        before.visible(key.target),
    ensures
        ({
            let compacted = compact::with_ranges(blank, before, ranges, ranges.len() as int);
            let edge = layered::edge_to(source, key);
            &&& compacted.header == blank.header
            &&& said(compacted, edge) == (if layered::covered(ranges, source) {
                difference(held(before, edge), final_edge(before, edge))
            } else {
                None
            })
        }),
{
    let count = ranges.len() as int;
    let compacted = compact::with_ranges(blank, before, ranges, count);
    let rows = before.rows(TraversalDirection::Out, source);
    let read = compact::rows_map(rows);
    let stored = compact::stored_of(before, source);
    let edge = layered::edge_to(source, key);
    let row = row_of(edge);
    let any_weight = compact::weight_row(source, key, 0);
    assert(ranges.take(count) =~= ranges);
    lemma_ranges_hold(blank, before, ranges, count, row, any_weight);
    lemma_visible_rows(before, source, key);
    lemma_stored_of(before, source, key);
    lemma_merged_finite(before, TraversalDirection::Out, source);
    lemma_gained(before, source, key);
    lemma_lost(before, source, key);
    if layered::covered(ranges, source) && gained(before, source).contains(row) {
        lemma_rows_map(rows, key);
        let j = choose|j: int| 0 <= j < rows.len() && compact::row_key(#[trigger] rows[j]) == key;
        let with_weight = |r: (u32, LayeredEdge)|
            !compact::in_base(stored, r) && r.1.weight is Some;
        let heavy = rows.filter(with_weight);
        assert forall|weight: SegmentEdgeWeight| layered::weighs(weight, row) && #[trigger]
            compacted.edge_weights.contains(weight) implies read[key] == Some(weight.weight) by {
            lemma_ranges_hold(blank, before, ranges, count, row, weight);
            let all = weighed(before, source);
            let i = choose|i: int| 0 <= i < all.len() && all[i] == weight;
            rows.lemma_filter_pred(with_weight, i);
            layered::lemma_filter_member(rows, with_weight, i);
            let m = choose|m: int| 0 <= m < rows.len() && rows[m] == heavy[i];
            assert(compact::row_key(rows[m]) == key);
        }
        if read[key] is Some {
            let weight = compact::weight_row(source, key, read[key]->Some_0);
            assert(with_weight(rows[j]));
            rows.lemma_filter_contains(with_weight, j);
            let i = choose|i: int| 0 <= i < heavy.len() && heavy[i] == rows[j];
            assert(weighed(before, source)[i] == weight);
            lemma_ranges_hold(blank, before, ranges, count, row, weight);
            assert(compacted.edge_weights.contains(weight));
            assert(layered::weighs(weight, row));
        }
        says::lemma_weight_in(compacted.edge_weights, row, read[key]);
    }
}

// ---------------------------------------------------------------------------
// The law for compacted segments
// ---------------------------------------------------------------------------

/// Whether two edges run between the same nodes in opposite directions and neither
/// base, base chunks nor segments speak of the second.
pub open spec fn lone(layered: LayeredNeighbors, key: EdgeKey) -> bool {
    let other = layered::mirrored(key);
    other == key || (held(layered, other) is None && told(layered, other) is None
        && !layered.base_chunk_out@.contains_key(other))
}

/// Whether segments say of an edge what is held of it anyway.
pub open spec fn restates(layered: LayeredNeighbors, key: EdgeKey) -> bool {
    told(layered, key) is Some && final_edge(layered, key) == held(layered, key)
}

/// Whether no edge at a node is said again that has an opposite which reads
/// differently. A read in both directions goes by what is said last of an edge or its
/// opposite, so that it shows whether something is said again.
pub open spec fn nothing_restated(layered: LayeredNeighbors, node: u32) -> bool {
    forall|key: EdgeKey|
        (key.source == node || key.target == node) && #[trigger] restates(layered, key) ==> lone(
            layered,
            key,
        ) || final_edge(layered, key) == final_edge(layered, layered::mirrored(key))
}

/// Whether reads of a node in both directions go by the same edge before and after,
/// wherever an edge and its opposite read differently.
pub open spec fn same_edges_show(
    before: LayeredNeighbors,
    after: LayeredNeighbors,
    node: u32,
) -> bool {
    forall|key: NeighborKey|
        ({
            let edge = #[trigger] layered::edge_to(node, key);
            before.visible(node) && before.visible(key.target) && final_edge(before, edge)
                != final_edge(before, layered::mirrored(edge)) ==> outgoing_shows(after, edge)
                == outgoing_shows(before, edge)
        })
}

/// What segments say after compaction of an edge between visible nodes.
proof fn lemma_told_after(
    before: LayeredNeighbors,
    after: LayeredNeighbors,
    base: EdgeStore,
    chunks: Seq<DeltaSegmentView>,
    segments: Seq<DeltaSegmentView>,
    blank: DeltaSegmentView,
    ranges: Seq<SourceRange>,
    edge: EdgeKey,
)
    requires
        chunks.len() <= usize::MAX,
        segments.len() < usize::MAX,
        forall|i: int| 0 <= i < chunks.len() ==> valid_chunk(#[trigger] chunks[i]),
        is_blank(blank),
        apart(segments),
        plain_source(before),
        before.layers(&base, None, chunks, segments, None),
        after.layers(
            &base,
            None,
            chunks,
            left(segments).push(
                compact::with_ranges(blank, before, ranges, ranges.len() as int),
            ),
            None,
        ),
        taken_names(segments, edge) ==> layered::covered(ranges, edge.source),
        before.visible(edge.source),
        before.visible(edge.target),
    ensures
        held(after, edge) == held(before, edge),
        final_edge(after, edge) == final_edge(before, edge),
        told(after, edge) == told(before, edge) || (told(after, edge) is None && restates(
            before,
            edge,
        )),
{
    let compacted = compact::with_ranges(blank, before, ranges, ranges.len() as int);
    let key = layered::row_neighbor(edge);
    assert(layered::edge_to(edge.source, key) == edge);
    lemma_compacted_says(before, blank, ranges, edge.source, key);
    lemma_consistent(before, base, chunks, segments);
    lemma_consistent(after, base, chunks, left(segments).push(compacted));
    assert(told(before, edge) == news(held(before, edge), stated(segments, edge)));
    assert(told(after, edge) == news(
        held(after, edge),
        stated(left(segments).push(compacted), edge),
    ));
    lemma_left_state(segments, edge);
    says::lemma_one_more(left(segments), compacted, edge);
}

/// Whether two plain sources give a node the same edges: the same nodes and members
/// of tenants are there, and reads find the same edges between visible nodes.
pub open spec fn gives_alike(
    before: LayeredNeighbors,
    after: LayeredNeighbors,
    direction: TraversalDirection,
    node: u32,
) -> bool {
    &&& after.active_nodes@ == before.active_nodes@
    &&& after.tenant_memberships@.dom() == before.tenant_memberships@.dom()
    &&& forall|target: u32| #[trigger] before.visible(target) == after.visible(target)
    &&& before.visible(node) ==> forall|key: NeighborKey|
        before.visible(key.target) ==> #[trigger] found(after.merged(direction, node), key)
            == found(before.merged(direction, node), key)
}

/// Whether a generation is read before and after compaction into a segment: its edge
/// segments have given way to the compacted segment, as it was written. An edge
/// segment above level two is left as it is and does not speak of the edges of the
/// others.
pub open spec fn is_compaction(
    before: LayeredNeighbors,
    after: LayeredNeighbors,
    plan: CompactedSegment,
    written: DeltaSegmentView,
    previous: ManifestView,
    loaded: Seq<LoadedView>,
    base: EdgeStore,
    budgets: CompactionBudgets,
    chunks: Seq<DeltaSegmentView>,
    segments: Seq<DeltaSegmentView>,
) -> bool {
    &&& chunks.len() <= usize::MAX
    &&& segments.len() < usize::MAX
    &&& forall|i: int| 0 <= i < chunks.len() ==> valid_chunk(#[trigger] chunks[i])
    &&& forall|i: int| 0 <= i < segments.len() ==> valid_segment(#[trigger] segments[i])
    &&& takes_in(segments, loaded)
    &&& apart(segments)
    &&& compact::is_plan(
        CompactionPlan::Segment(plan),
        previous,
        loaded,
        before,
        base,
        budgets,
    )
    &&& replay::written_as(plan.segment@, written)
    &&& plain_source(before)
    &&& plain_source(after)
    &&& before.layers(&base, None, chunks, segments, None)
    &&& after.layers(&base, None, chunks, left(segments).push(written), None)
}

/// Compaction preserves reads: after the edge segments of a generation have given
/// way to the compacted segment, as it was written, every node reads the edges that
/// it read before, with their weights, in either direction. So it does in both
/// directions, unless of two opposite edges that read differently the other one shows.
pub proof fn lemma_compaction_preserves_reads(
    before: LayeredNeighbors,
    after: LayeredNeighbors,
    plan: CompactedSegment,
    written: DeltaSegmentView,
    previous: ManifestView,
    loaded: Seq<LoadedView>,
    base: EdgeStore,
    budgets: CompactionBudgets,
    chunks: Seq<DeltaSegmentView>,
    segments: Seq<DeltaSegmentView>,
    direction: TraversalDirection,
    node: u32,
)
    requires
        is_compaction(
            before,
            after,
            plan,
            written,
            previous,
            loaded,
            base,
            budgets,
            chunks,
            segments,
        ),
        direction is Any ==> same_edges_show(before, after, node),
    ensures
        after.rows(direction, node) == before.rows(direction, node),
{
    lemma_compaction_gives_alike(
        before,
        after,
        plan,
        written,
        previous,
        loaded,
        base,
        budgets,
        chunks,
        segments,
        direction,
        node,
    );
    lemma_merged_finite(before, direction, node);
    lemma_merged_finite(after, direction, node);
    lemma_same_rows(before, after, direction, node);
}

/// Compaction into a segment gives every node the edges that it had, in both
/// directions unless of two opposite edges that read differently the other one shows.
pub proof fn lemma_compaction_gives_alike(
    before: LayeredNeighbors,
    after: LayeredNeighbors,
    plan: CompactedSegment,
    written: DeltaSegmentView,
    previous: ManifestView,
    loaded: Seq<LoadedView>,
    base: EdgeStore,
    budgets: CompactionBudgets,
    chunks: Seq<DeltaSegmentView>,
    segments: Seq<DeltaSegmentView>,
    direction: TraversalDirection,
    node: u32,
)
    requires
        is_compaction(
            before,
            after,
            plan,
            written,
            previous,
            loaded,
            base,
            budgets,
            chunks,
            segments,
        ),
        direction is Any ==> same_edges_show(before, after, node),
    ensures
        gives_alike(before, after, direction, node),
{
    lemma_compaction_visible(
        before,
        after,
        plan,
        written,
        previous,
        loaded,
        base,
        budgets,
        chunks,
        segments,
    );
    if before.visible(node) {
        assert forall|key: NeighborKey| before.visible(key.target) implies #[trigger] found(
            after.merged(direction, node),
            key,
        ) == found(before.merged(direction, node), key) by {
            let edge = layered::edge_to(node, key);
            let other = layered::mirrored(edge);
            assert(layered::mirrored(other) == edge);
            lemma_compacted_edge(
                before,
                after,
                plan,
                written,
                previous,
                loaded,
                base,
                budgets,
                chunks,
                segments,
                edge,
            );
            lemma_compacted_edge(
                before,
                after,
                plan,
                written,
                previous,
                loaded,
                base,
                budgets,
                chunks,
                segments,
                other,
            );
            lemma_same_read(before, after, direction, node, key);
        }
    }
}

/// Where no edge at a node is said again that has an opposite which reads
/// differently, reads of the node in both directions go by the same edges after
/// compaction into a segment.
pub proof fn lemma_compaction_shows_same_edges(
    before: LayeredNeighbors,
    after: LayeredNeighbors,
    plan: CompactedSegment,
    written: DeltaSegmentView,
    previous: ManifestView,
    loaded: Seq<LoadedView>,
    base: EdgeStore,
    budgets: CompactionBudgets,
    chunks: Seq<DeltaSegmentView>,
    segments: Seq<DeltaSegmentView>,
    node: u32,
)
    requires
        is_compaction(
            before,
            after,
            plan,
            written,
            previous,
            loaded,
            base,
            budgets,
            chunks,
            segments,
        ),
        nothing_restated(before, node),
    ensures
        same_edges_show(before, after, node),
{
    assert forall|key: NeighborKey|
        ({
            let edge = #[trigger] layered::edge_to(node, key);
            before.visible(node) && before.visible(key.target) && final_edge(before, edge)
                != final_edge(before, layered::mirrored(edge)) ==> outgoing_shows(after, edge)
                == outgoing_shows(before, edge)
        }) by {
        let edge = layered::edge_to(node, key);
        let other = layered::mirrored(edge);
        assert(layered::mirrored(other) == edge);
        if before.visible(node) && before.visible(key.target) {
            lemma_compacted_edge(
                before,
                after,
                plan,
                written,
                previous,
                loaded,
                base,
                budgets,
                chunks,
                segments,
                edge,
            );
            lemma_compacted_edge(
                before,
                after,
                plan,
                written,
                previous,
                loaded,
                base,
                budgets,
                chunks,
                segments,
                other,
            );
            assert(restates(before, edge) ==> lone(before, edge) || final_edge(before, edge)
                == final_edge(before, other));
            assert(restates(before, other) ==> lone(before, other) || final_edge(before, other)
                == final_edge(before, edge));
        }
    }
}

/// What a compacted segment says is what it said when it was planned.
proof fn lemma_compaction_planned(
    before: LayeredNeighbors,
    after: LayeredNeighbors,
    plan: CompactedSegment,
    written: DeltaSegmentView,
    previous: ManifestView,
    loaded: Seq<LoadedView>,
    base: EdgeStore,
    budgets: CompactionBudgets,
    chunks: Seq<DeltaSegmentView>,
    segments: Seq<DeltaSegmentView>,
)
    requires
        is_compaction(
            before,
            after,
            plan,
            written,
            previous,
            loaded,
            base,
            budgets,
            chunks,
            segments,
        ),
    ensures
        after.layers(&base, None, chunks, left(segments).push(plan.segment@), None),
{
    let keep = |segment: DeltaSegmentView| !taken(segment);
    segments.lemma_filter_len(keep);
    replay::lemma_written_segments(
        left(segments).push(plan.segment@),
        left(segments).push(written),
        layered::blank_state(),
    );
}

/// The ranges that a compacted segment was planned over.
spec fn planned_ranges(
    before: LayeredNeighbors,
    plan: CompactedSegment,
    previous: ManifestView,
    loaded: Seq<LoadedView>,
) -> Seq<SourceRange> {
    choose|ranges: Seq<SourceRange>| #[trigger]
        compact::is_range_merge(compact::dirty_ranges(loaded), ranges)
            && compact::compacted_segment(before, loaded, ranges, previous.sync_watermark)
            == Ok::<_, crate::safety::GraphErrorView>(plan.segment@)
}

/// Compaction into a segment hides and shows no node.
proof fn lemma_compaction_visible(
    before: LayeredNeighbors,
    after: LayeredNeighbors,
    plan: CompactedSegment,
    written: DeltaSegmentView,
    previous: ManifestView,
    loaded: Seq<LoadedView>,
    base: EdgeStore,
    budgets: CompactionBudgets,
    chunks: Seq<DeltaSegmentView>,
    segments: Seq<DeltaSegmentView>,
)
    requires
        is_compaction(
            before,
            after,
            plan,
            written,
            previous,
            loaded,
            base,
            budgets,
            chunks,
            segments,
        ),
    ensures
        forall|target: u32| #[trigger] before.visible(target) == after.visible(target),
        after.active_nodes@ == before.active_nodes@,
        after.tenant_memberships@.dom() == before.tenant_memberships@.dom(),
        consistent(before),
        consistent(after),
        before.base_in is None,
        after.base_in is None,
{
    let ranges = planned_ranges(before, plan, previous, loaded);
    let blank = compact::blank_compacted(loaded, ranges, previous.sync_watermark)->Ok_0;
    let compacted = plan.segment@;
    let more = left(segments).push(compacted);
    let keep = |segment: DeltaSegmentView| !taken(segment);
    segments.lemma_filter_len(keep);
    lemma_compaction_planned(
        before,
        after,
        plan,
        written,
        previous,
        loaded,
        base,
        budgets,
        chunks,
        segments,
    );
    lemma_consistent(before, base, chunks, segments);
    lemma_consistent(after, base, chunks, more);
    let dummy = NeighborKey { target: 0, type_id: 0, schema_reversed: false };
    assert(compacted.header == blank.header) by {
        assert(ranges.take(ranges.len() as int) =~= ranges);
        lemma_ranges_hold(
            blank,
            before,
            ranges,
            ranges.len() as int,
            compact::edge_row(0, dummy),
            compact::weight_row(0, dummy, 0),
        );
    }
    lemma_node_filter(segments);
    assert(more.filter(|segment: DeltaSegmentView| segment.header.kind is Node) == segments.filter(
        |segment: DeltaSegmentView| segment.header.kind is Node,
    )) by {
        reveal(Seq::filter);
        assert(more.drop_last() =~= left(segments));
    }
    lemma_nodes_stay(segments, more);
    assert forall|target: u32| #[trigger] before.visible(target) == after.visible(target) by {}
}

/// An edge between visible nodes after compaction into a segment.
proof fn lemma_compacted_edge(
    before: LayeredNeighbors,
    after: LayeredNeighbors,
    plan: CompactedSegment,
    written: DeltaSegmentView,
    previous: ManifestView,
    loaded: Seq<LoadedView>,
    base: EdgeStore,
    budgets: CompactionBudgets,
    chunks: Seq<DeltaSegmentView>,
    segments: Seq<DeltaSegmentView>,
    edge: EdgeKey,
)
    requires
        is_compaction(
            before,
            after,
            plan,
            written,
            previous,
            loaded,
            base,
            budgets,
            chunks,
            segments,
        ),
        before.visible(edge.source),
        before.visible(edge.target),
    ensures
        held(after, edge) == held(before, edge),
        final_edge(after, edge) == final_edge(before, edge),
        told(after, edge) == told(before, edge) || (told(after, edge) is None && restates(
            before,
            edge,
        )),
        after.base_chunk_out@ == before.base_chunk_out@,
{
    let ranges = planned_ranges(before, plan, previous, loaded);
    let blank = compact::blank_compacted(loaded, ranges, previous.sync_watermark)->Ok_0;
    lemma_compaction_planned(
        before,
        after,
        plan,
        written,
        previous,
        loaded,
        base,
        budgets,
        chunks,
        segments,
    );
    if taken_names(segments, edge) {
        lemma_dirty_ranges_cover(segments, loaded, ranges, edge);
    }
    lemma_told_after(before, after, base, chunks, segments, blank, ranges, edge);
}

/// Where two opposite edges end up as before, a read finds what it found before.
proof fn lemma_same_read(
    before: LayeredNeighbors,
    after: LayeredNeighbors,
    direction: TraversalDirection,
    node: u32,
    key: NeighborKey,
)
    requires
        plain_source(before),
        plain_source(after),
        consistent(before),
        consistent(after),
        before.base_in is None,
        after.base_in is None,
        before.visible(node),
        before.visible(key.target),
        ({
            let edge = layered::edge_to(node, key);
            let other = layered::mirrored(edge);
            &&& final_edge(after, edge) == final_edge(before, edge)
            &&& final_edge(after, other) == final_edge(before, other)
        }),
        direction is Any ==> same_edges_show(before, after, node),
    ensures
        found(after.merged(direction, node), key) == found(before.merged(direction, node), key),
{
    match direction {
        TraversalDirection::Out => {
            lemma_out_read(before, node, key);
            lemma_out_read(after, node, key);
        },
        TraversalDirection::In => {
            lemma_in_read(before, node, key);
            lemma_in_read(after, node, key);
        },
        TraversalDirection::Any => {
            lemma_any_read(before, node, key);
            lemma_any_read(after, node, key);
        },
    }
}

/// Reads that find the same edges to visible neighbors list the same rows.
pub proof fn lemma_same_rows(
    before: LayeredNeighbors,
    after: LayeredNeighbors,
    direction: TraversalDirection,
    node: u32,
)
    requires
        before.merged(direction, node).dom().finite(),
        after.merged(direction, node).dom().finite(),
        forall|target: u32| #[trigger] before.visible(target) == after.visible(target),
        before.visible(node) ==> forall|key: NeighborKey|
            before.visible(key.target) ==> #[trigger] found(after.merged(direction, node), key)
                == found(before.merged(direction, node), key),
    ensures
        after.rows(direction, node) == before.rows(direction, node),
{
    let shown = |target: u32| before.visible(target);
    let shown_after = |target: u32| after.visible(target);
    let merged = before.merged(direction, node);
    let merged_after = after.merged(direction, node);
    assert(shown =~= shown_after);
    assert(before.visible(node) == after.visible(node));
    if before.visible(node) {
        assert forall|key: NeighborKey| #[trigger]
            shown_edges(merged_after, shown).contains_key(key) <==> shown_edges(
                merged,
                shown,
            ).contains_key(key) by {
            assert(before.visible(key.target) ==> found(merged_after, key) == found(merged, key));
        }
        assert forall|key: NeighborKey| #[trigger]
            shown_edges(merged_after, shown).contains_key(key) implies shown_edges(
            merged_after,
            shown,
        )[key] == shown_edges(merged, shown)[key] by {
            assert(before.visible(key.target) ==> found(merged_after, key) == found(merged, key));
        }
        assert(shown_edges(merged_after, shown) =~= shown_edges(merged, shown));
        lemma_same_listing(merged_after, merged, shown);
    }
}

// ---------------------------------------------------------------------------
// The store that chunks are built from
// ---------------------------------------------------------------------------

/// What a store built from raw edges holds of an edge.
spec fn raw_found(edges: Seq<RawEdge>, node_count: u32, weighted: bool, key: EdgeKey) -> Option<
    Option<u32>,
> {
    let stored = edge_store::stored_edges(edges, node_count, weighted);
    if stored.contains_key(key) {
        Some(stored[key])
    } else {
        None
    }
}

/// Whether raw edges have an edge.
spec fn raw_has(edges: Seq<RawEdge>, key: EdgeKey) -> bool {
    exists|i: int| 0 <= i < edges.len() && edge_store::raw_key(#[trigger] edges[i]) == key
}

proof fn lemma_raw_absent(edges: Seq<RawEdge>, node_count: u32, weighted: bool, key: EdgeKey)
    requires
        !raw_has(edges, key),
    ensures
        raw_found(edges, node_count, weighted, key) is None,
    decreases edges.len(),
{
    if edges.len() > 0 {
        let init = edges.drop_last();
        if raw_has(init, key) {
            let i = choose|i: int|
                0 <= i < init.len() && edge_store::raw_key(#[trigger] init[i]) == key;
            assert(edge_store::raw_key(edges[i]) == key);
        }
        lemma_raw_absent(init, node_count, weighted, key);
        assert(edge_store::raw_key(edges[edges.len() - 1]) != key);
    }
}

proof fn lemma_raw_concat(
    a: Seq<RawEdge>,
    b: Seq<RawEdge>,
    node_count: u32,
    weighted: bool,
    key: EdgeKey,
)
    ensures
        !raw_has(b, key) ==> raw_found(a + b, node_count, weighted, key) == raw_found(
            a,
            node_count,
            weighted,
            key,
        ),
        !raw_has(a, key) ==> raw_found(a + b, node_count, weighted, key) == raw_found(
            b,
            node_count,
            weighted,
            key,
        ),
    decreases b.len(),
{
    if b.len() == 0 {
        assert(a + b =~= a);
        if !raw_has(a, key) {
            lemma_raw_absent(a, node_count, weighted, key);
        }
    } else {
        let init = b.drop_last();
        lemma_raw_concat(a, init, node_count, weighted, key);
        assert((a + b).drop_last() =~= a + init);
        assert((a + b).last() == b.last());
        if !raw_has(b, key) {
            if raw_has(init, key) {
                let i = choose|i: int|
                    0 <= i < init.len() && edge_store::raw_key(#[trigger] init[i]) == key;
                assert(edge_store::raw_key(b[i]) == key);
            }
            assert(edge_store::raw_key(b[b.len() - 1]) != key);
        }
    }
}

/// The raw edges of the rows of a source.
spec fn raw_rows(rows: Seq<(u32, LayeredEdge)>, source: u32) -> Seq<RawEdge> {
    rows.map_values(|row: (u32, LayeredEdge)| compact::raw_edge(source, row))
}

proof fn lemma_raw_rows(
    rows: Seq<(u32, LayeredEdge)>,
    source: u32,
    node_count: u32,
    weighted: bool,
    key: NeighborKey,
)
    requires
        distinct_rows(rows),
        source < node_count,
    ensures
        raw_found(
            raw_rows(rows, source),
            node_count,
            weighted,
            layered::edge_to(source, key),
        ) == (match found(compact::rows_map(rows), key) {
            Some(weight) => Some(
                if weighted {
                    weight
                } else {
                    None
                },
            ),
            None => None,
        }),
    decreases rows.len(),
{
    let edge = layered::edge_to(source, key);
    if rows.len() > 0 {
        let init = rows.drop_last();
        let last = rows.last();
        assert(rows[rows.len() - 1] == last);
        assert forall|i: int, j: int| 0 <= i < j < init.len() implies compact::row_key(
            #[trigger] init[i],
        ) != compact::row_key(#[trigger] init[j]) by {
            assert(init[i] == rows[i] && init[j] == rows[j]);
        }
        lemma_raw_rows(init, source, node_count, weighted, key);
        assert(raw_rows(rows, source).drop_last() =~= raw_rows(init, source));
        assert(edge_store::raw_key(raw_rows(rows, source).last()) == layered::edge_to(
            source,
            compact::row_key(last),
        ));
        if compact::row_key(last) == key {
            lemma_rows_map(init, key);
            if found(compact::rows_map(init), key) is Some {
                let i = choose|i: int|
                    0 <= i < init.len() && compact::row_key(#[trigger] init[i]) == key;
                assert(rows[i] == init[i]);
            }
        }
    }
}

proof fn lemma_read_sources(layered: LayeredNeighbors, end: int, key: EdgeKey)
    requires
        end <= key.source,
    ensures
        !raw_has(compact::read_edges(layered, end), key),
    decreases end,
{
    if end > 0 {
        lemma_read_sources(layered, end - 1, key);
        let earlier = compact::read_edges(layered, end - 1);
        let all = compact::read_edges(layered, end);
        if raw_has(all, key) {
            let i = choose|i: int|
                0 <= i < all.len() && edge_store::raw_key(#[trigger] all[i]) == key;
            if i < earlier.len() {
                assert(edge_store::raw_key(earlier[i]) == key);
            }
        }
    }
}

/// A store built from a layered read holds of a source what the read gives it.
proof fn lemma_read_edges(
    layered: LayeredNeighbors,
    end: int,
    node_count: u32,
    weighted: bool,
    source: u32,
    key: NeighborKey,
)
    requires
        source < end <= node_count,
        distinct_rows(layered.rows(TraversalDirection::Out, source)),
    ensures
        raw_found(
            compact::read_edges(layered, end),
            node_count,
            weighted,
            layered::edge_to(source, key),
        ) == (match found(
            compact::rows_map(layered.rows(TraversalDirection::Out, source)),
            key,
        ) {
            Some(weight) => Some(
                if weighted {
                    weight
                } else {
                    None
                },
            ),
            None => None,
        }),
    decreases end,
{
    let edge = layered::edge_to(source, key);
    let last = (end - 1) as u32;
    let rows = layered.rows(TraversalDirection::Out, last);
    let earlier = compact::read_edges(layered, end - 1);
    lemma_raw_concat(earlier, raw_rows(rows, last), node_count, weighted, edge);
    if source < end - 1 {
        lemma_read_edges(layered, end - 1, node_count, weighted, source, key);
        assert(!raw_has(raw_rows(rows, last), edge));
    } else {
        lemma_read_sources(layered, end - 1, edge);
        lemma_raw_rows(rows, last, node_count, weighted, key);
    }
}

/// Where an edge is read with a weight, the read has weights.
proof fn lemma_weight_read(layered: LayeredNeighbors, key: EdgeKey)
    requires
        layered.base.wf(),
        final_edge(layered, key) matches Some(weight) && weight is Some,
    ensures
        compact::reads_weights(layered),
{
    if told(layered, key) is Some {
        assert(layered.durable_out@.contains_key(key));
    } else if layered::covered(layered.base_chunk_ranges@, key.source) {
        assert(layered.base_chunk_out@.contains_key(key));
    } else {
        assert(layered.base.edges@.contains_key(key));
    }
}

proof fn lemma_greatest_end(ranges: Seq<SourceRange>, i: int)
    requires
        0 <= i < ranges.len(),
    ensures
        ranges[i].end <= compact::greatest_end(ranges),
    decreases ranges.len(),
{
    if i < ranges.len() - 1 {
        lemma_greatest_end(ranges.drop_last(), i);
    }
}

// ---------------------------------------------------------------------------
// The law for rewritten chunks
// ---------------------------------------------------------------------------

/// Whether a base chunk overlaps one of the ranges.
pub open spec fn chunk_rewritten(chunk: DeltaSegmentView, ranges: Seq<SourceRange>) -> bool {
    exists|i: int|
        0 <= i < ranges.len() && (#[trigger] ranges[i]).start < chunk.header.source_end
            && chunk.header.source_start < ranges[i].end
}

/// The base chunks that a rewrite leaves.
pub open spec fn unchanged_chunks(chunks: Seq<DeltaSegmentView>, ranges: Seq<SourceRange>) -> Seq<
    DeltaSegmentView,
> {
    chunks.filter(|one: DeltaSegmentView| !chunk_rewritten(one, ranges))
}

/// The base chunks that a rewrite writes, one for each range.
pub open spec fn written_chunks(plan: DirtyChunks, sync_watermark: i64) -> Seq<DeltaSegmentView> {
    plan.ranges@.map_values(
        |range: SourceRange| chunk::base_chunk(plan.store, range, sync_watermark)->Ok_0,
    )
}

/// Whether base chunks have ranges of their own, which are not empty.
pub open spec fn chunks_apart(chunks: Seq<DeltaSegmentView>) -> bool {
    &&& forall|i: int|
        0 <= i < chunks.len() ==> chunk_span(#[trigger] chunks[i]).start < chunk_span(chunks[i]).end
    &&& forall|i: int, j: int, source: u32|
        0 <= i < j < chunks.len() ==> !(#[trigger] chunk_span(chunks[i]).has(source)
            && #[trigger] chunk_span(chunks[j]).has(source))
}

/// Whether chunks are those that manifest references name.
pub open spec fn chunks_named(chunks: Seq<DeltaSegmentView>, refs: Seq<ChunkRefView>) -> bool {
    &&& chunks.len() == refs.len()
    &&& forall|i: int|
        0 <= i < chunks.len() ==> chunk_span(#[trigger] chunks[i]) == chunk::chunk_range(refs[i])
}

/// Of a source that one chunk alone can speak of, the chunks say what that chunk
/// says.
proof fn lemma_one_chunk(chunks: Seq<DeltaSegmentView>, at: int, key: EdgeKey)
    requires
        chunks.len() <= usize::MAX,
        0 <= at < chunks.len(),
        forall|i: int| 0 <= i < chunks.len() ==> valid_chunk(#[trigger] chunks[i]),
        forall|i: int|
            0 <= i < chunks.len() && i != at ==> !chunk_span(#[trigger] chunks[i]).has(key.source),
    ensures
        stated(chunks, key) == said(chunks[at], key),
{
    assert forall|i: int| 0 <= i < chunks.len() && i != at implies said(
        #[trigger] chunks[i],
        key,
    ) is None by {
        assert(valid_chunk(chunks[i]));
        assert(chunks[i].edge_inserts.contains(row_of(key)) || chunks[i].edge_deletes.contains(
            row_of(key),
        ) ==> chunk_span(chunks[i]).has(key.source));
    }
    match said(chunks[at], key) {
        Some(found) => {
            says::lemma_segments_agree(chunks, key, found);
        },
        None => {
            says::lemma_segments_agree(chunks, key, DurableEdgeState::Deleted);
        },
    }
}

/// The ranges of a rewrite hold the dirty ranges, and all of every chunk that they
/// touch.
pub proof fn lemma_rewrite_ranges(
    dirty: Seq<SourceRange>,
    chunks: Seq<DeltaSegmentView>,
    refs: Seq<ChunkRefView>,
    ranges: Seq<SourceRange>,
)
    requires
        ranges_filled(dirty),
        chunks_named(chunks, refs),
        chunks_apart(chunks),
        compact::is_rewrite_range(dirty, refs, ranges),
    ensures
        compact::ranges_apart(ranges),
        forall|source: u32| #[trigger]
            layered::covered(dirty, source) ==> layered::covered(ranges, source),
        forall|i: int, source: u32|
            0 <= i < chunks.len() && chunk_rewritten(chunks[i], ranges) && #[trigger] chunk_span(
                chunks[i],
            ).has(source) ==> layered::covered(ranges, source),
{
    let overlapped = compact::overlapped_ranges(refs, dirty);
    let keep = |one: ChunkRefView| chunk::is_rewritten(one, dirty);
    let kept = refs.filter(keep);
    let all = dirty + overlapped;
    assert forall|i: int| 0 <= i < all.len() implies (#[trigger] all[i]).start < all[i].end by {
        if i >= dirty.len() {
            let j = i - dirty.len();
            layered::lemma_filter_member(refs, keep, j);
            let m = choose|m: int| 0 <= m < refs.len() && refs[m] == kept[j];
            assert(chunk_span(chunks[m]) == chunk::chunk_range(refs[m]));
            assert(all[i] == chunk::chunk_range(refs[m]));
        }
    }
    compact::lemma_range_merge_covers(all, ranges);
    assert forall|source: u32| #[trigger] layered::covered(dirty, source) implies layered::covered(
        ranges,
        source,
    ) by {
        lemma_covered_concat(dirty, overlapped, source);
    }
    assert forall|i: int, source: u32|
        0 <= i < chunks.len() && chunk_rewritten(chunks[i], ranges) && #[trigger] chunk_span(
            chunks[i],
        ).has(source) implies layered::covered(ranges, source) by {
        let span = chunk_span(chunks[i]);
        assert(span == chunk::chunk_range(refs[i]));
        let r = choose|r: int|
            0 <= r < ranges.len() && (#[trigger] ranges[r]).start < span.end && span.start
                < ranges[r].end;
        assert(ranges[r].start < ranges[r].end);
        let common = if ranges[r].start > span.start {
            ranges[r].start
        } else {
            span.start
        };
        assert(span.has(common));
        assert(ranges[r].has(common));
        assert(layered::covered(ranges, common));
        assert(layered::covered(all, common));
        lemma_covered_concat(dirty, overlapped, common);
        if layered::covered(dirty, common) {
            let d = choose|d: int| 0 <= d < dirty.len() && (#[trigger] dirty[d]).has(common);
            assert(keep(refs[i]));
        } else {
            let o = choose|o: int|
                0 <= o < overlapped.len() && (#[trigger] overlapped[o]).has(common);
            layered::lemma_filter_member(refs, keep, o);
            refs.lemma_filter_pred(keep, o);
            let m = choose|m: int| 0 <= m < refs.len() && refs[m] == kept[o];
            assert(chunk_span(chunks[m]).has(common));
            assert(m == i) by {
                if m < i {
                    assert(!(chunk_span(chunks[m]).has(common) && chunk_span(chunks[i]).has(
                        common,
                    )));
                } else if i < m {
                    assert(!(chunk_span(chunks[i]).has(common) && chunk_span(chunks[m]).has(
                        common,
                    )));
                }
            }
        }
        assert(keep(refs[i]));
        refs.lemma_filter_contains(keep, i);
        let o = choose|o: int| 0 <= o < kept.len() && kept[o] == refs[i];
        assert(overlapped[o] == span);
        assert(overlapped[o].has(source));
        assert(layered::covered(overlapped, source));
        lemma_covered_concat(dirty, overlapped, source);
        assert(layered::covered(all, source));
    }
}

/// A chunk that a rewrite writes is valid and names its range.
proof fn lemma_written_chunk(plan: DirtyChunks, sync_watermark: i64, i: int)
    requires
        0 <= i < plan.ranges@.len(),
        plan.ranges@[i].start <= plan.ranges@[i].end,
        sync_watermark >= 0,
    ensures
        chunk::base_chunk(plan.store, plan.ranges@[i], sync_watermark) is Ok,
        valid_chunk(written_chunks(plan, sync_watermark)[i]),
        chunk_span(written_chunks(plan, sync_watermark)[i]) == plan.ranges@[i],
        written_chunks(plan, sync_watermark)[i].edge_deletes.len() == 0,
{
    let range = plan.ranges@[i];
    let written = written_chunks(plan, sync_watermark)[i];
    let entries = plan.store.edges.entries@;
    let keep = |entry: (EdgeKey, Option<u32>)| chunk::starts_in(entry, range);
    assert forall|row: SegmentEdge|
        #![trigger written.edge_inserts.contains(row)]
        #![trigger written.edge_deletes.contains(row)]
        written.edge_inserts.contains(row) || written.edge_deletes.contains(
            row,
        ) implies range.has(row.source) by {
        if written.edge_inserts.contains(row) {
            let j = choose|j: int|
                0 <= j < written.edge_inserts.len() && written.edge_inserts[j] == row;
            entries.lemma_filter_pred(keep, j);
        }
    }
}

/// The chunks after a rewrite are valid.
proof fn lemma_chunks_after(
    chunks: Seq<DeltaSegmentView>,
    plan: DirtyChunks,
    sync_watermark: i64,
)
    requires
        forall|i: int| 0 <= i < chunks.len() ==> valid_chunk(#[trigger] chunks[i]),
        compact::ranges_apart(plan.ranges@),
        sync_watermark >= 0,
    ensures
        ({
            let all = unchanged_chunks(chunks, plan.ranges@) + written_chunks(plan, sync_watermark);
            forall|i: int| 0 <= i < all.len() ==> valid_chunk(#[trigger] all[i])
        }),
{
    let kept = unchanged_chunks(chunks, plan.ranges@);
    let all = kept + written_chunks(plan, sync_watermark);
    let keep = |one: DeltaSegmentView| !chunk_rewritten(one, plan.ranges@);
    assert forall|i: int| 0 <= i < all.len() implies valid_chunk(#[trigger] all[i]) by {
        if i < kept.len() {
            layered::lemma_filter_member(chunks, keep, i);
            let m = choose|m: int| 0 <= m < chunks.len() && chunks[m] == kept[i];
            assert(valid_chunk(chunks[m]));
        } else {
            let j = i - kept.len();
            assert(plan.ranges@[j].start < plan.ranges@[j].end);
            lemma_written_chunk(plan, sync_watermark, j);
        }
    }
}

/// What chunks say after a rewrite of an edge whose source is in no range of the
/// rewrite: what they said before.
proof fn lemma_chunk_kept(
    chunks: Seq<DeltaSegmentView>,
    plan: DirtyChunks,
    sync_watermark: i64,
    key: EdgeKey,
)
    requires
        chunks.len() <= usize::MAX,
        chunks.len() + plan.ranges@.len() <= usize::MAX,
        forall|i: int| 0 <= i < chunks.len() ==> valid_chunk(#[trigger] chunks[i]),
        chunks_apart(chunks),
        compact::ranges_apart(plan.ranges@),
        sync_watermark >= 0,
        !layered::covered(plan.ranges@, key.source),
        forall|i: int|
            0 <= i < chunks.len() && chunk_rewritten(chunks[i], plan.ranges@) ==> !chunk_span(
                #[trigger] chunks[i],
            ).has(key.source),
    ensures
        ({
            let all = unchanged_chunks(chunks, plan.ranges@) + written_chunks(plan, sync_watermark);
            &&& stated(all, key) == stated(chunks, key)
            &&& layered::covered(layered::chunk_ranges(all), key.source) <==> layered::covered(
                layered::chunk_ranges(chunks),
                key.source,
            )
        }),
{
    let ranges = plan.ranges@;
    let kept = unchanged_chunks(chunks, ranges);
    let written = written_chunks(plan, sync_watermark);
    let all = kept + written;
    let keep = |one: DeltaSegmentView| !chunk_rewritten(one, ranges);
    chunks.lemma_filter_len(keep);
    lemma_chunks_after(chunks, plan, sync_watermark);
    assert forall|i: int| kept.len() <= i < all.len() implies !chunk_span(#[trigger] all[i]).has(
        key.source,
    ) by {
        let j = i - kept.len();
        assert(ranges[j].start < ranges[j].end);
        lemma_written_chunk(plan, sync_watermark, j);
        assert(all[i] == written[j]);
        assert(!ranges[j].has(key.source));
    }
    // Chunks that do not speak of the source can be left out on both sides.
    let speaks = |one: DeltaSegmentView| chunk_span(one).has(key.source);
    assert forall|i: int| 0 <= i < chunks.len() implies keep(#[trigger] chunks[i]) || said(
        chunks[i],
        key,
    ) is None by {
        assert(valid_chunk(chunks[i]));
        assert(chunks[i].edge_inserts.contains(row_of(key)) || chunks[i].edge_deletes.contains(
            row_of(key),
        ) ==> chunk_span(chunks[i]).has(key.source));
    }
    says::lemma_stated_filter(chunks, keep, key);
    assert forall|i: int| 0 <= i < all.len() implies speaks(#[trigger] all[i]) || said(
        all[i],
        key,
    ) is None by {
        assert(valid_chunk(all[i]));
        assert(all[i].edge_inserts.contains(row_of(key)) || all[i].edge_deletes.contains(
            row_of(key),
        ) ==> chunk_span(all[i]).has(key.source));
    }
    assert forall|i: int| 0 <= i < kept.len() implies speaks(#[trigger] kept[i]) || said(
        kept[i],
        key,
    ) is None by {
        assert(all[i] == kept[i]);
    }
    says::lemma_stated_filter(all, speaks, key);
    says::lemma_stated_filter(kept, speaks, key);
    assert(all.filter(speaks) =~= kept.filter(speaks)) by {
        Seq::<DeltaSegmentView>::filter_distributes_over_add(kept, written, speaks);
        assert forall|i: int| 0 <= i < written.len() implies (speaks(#[trigger] written[i]) <==> 0
            <= i < 0) by {
            assert(all[kept.len() + i] == written[i]);
        }
        edge_store::lemma_filter_run(written, speaks, 0, 0);
    }
    let after = layered::chunk_ranges(all);
    let before = layered::chunk_ranges(chunks);
    if layered::covered(after, key.source) {
        let i = choose|i: int| 0 <= i < after.len() && (#[trigger] after[i]).has(key.source);
        assert(chunk_span(all[i]).has(key.source));
        assert(i < kept.len());
        layered::lemma_filter_member(chunks, keep, i);
        let m = choose|m: int| 0 <= m < chunks.len() && chunks[m] == kept[i];
        assert(before[m].has(key.source));
    }
    if layered::covered(before, key.source) {
        let i = choose|i: int| 0 <= i < before.len() && (#[trigger] before[i]).has(key.source);
        assert(chunk_span(chunks[i]).has(key.source));
        assert(keep(chunks[i]));
        chunks.lemma_filter_contains(keep, i);
        let m = choose|m: int| 0 <= m < kept.len() && kept[m] == chunks[i];
        assert(all[m] == kept[m]);
        assert(after[m].has(key.source));
    }
}

/// What chunks say after a rewrite of an edge whose source is in a range of the
/// rewrite: what the store holds that they were built from.
proof fn lemma_chunk_written(
    chunks: Seq<DeltaSegmentView>,
    plan: DirtyChunks,
    sync_watermark: i64,
    key: EdgeKey,
)
    requires
        chunks.len() + plan.ranges@.len() <= usize::MAX,
        forall|i: int| 0 <= i < chunks.len() ==> valid_chunk(#[trigger] chunks[i]),
        compact::ranges_apart(plan.ranges@),
        plan.store.wf(),
        sync_watermark >= 0,
        layered::covered(plan.ranges@, key.source),
    ensures
        ({
            let all = unchanged_chunks(chunks, plan.ranges@) + written_chunks(plan, sync_watermark);
            &&& stated(all, key) == (if plan.store.edges@.contains_key(key) {
                Some(DurableEdgeState::Present(plan.store.edges@[key]))
            } else {
                None
            })
            &&& layered::covered(layered::chunk_ranges(all), key.source)
        }),
{
    let ranges = plan.ranges@;
    let kept = unchanged_chunks(chunks, ranges);
    let written = written_chunks(plan, sync_watermark);
    let all = kept + written;
    let keep = |one: DeltaSegmentView| !chunk_rewritten(one, ranges);
    chunks.lemma_filter_len(keep);
    lemma_chunks_after(chunks, plan, sync_watermark);
    let r = choose|r: int| 0 <= r < ranges.len() && (#[trigger] ranges[r]).has(key.source);
    let at = kept.len() + r;
    assert(ranges[r].start < ranges[r].end);
    lemma_written_chunk(plan, sync_watermark, r);
    assert(all[at] == written[r]);
    assert forall|i: int| 0 <= i < all.len() && i != at implies !chunk_span(#[trigger] all[i]).has(
        key.source,
    ) by {
        if i < kept.len() {
            chunks.lemma_filter_pred(keep, i);
            assert(all[i] == kept[i]);
            assert(!(ranges[r].start < kept[i].header.source_end && kept[i].header.source_start
                < ranges[r].end));
        } else {
            let j = i - kept.len();
            assert(ranges[j].start < ranges[j].end);
            lemma_written_chunk(plan, sync_watermark, j);
            assert(all[i] == written[j]);
            if j < r {
                assert(ranges[j].end <= ranges[r].start);
            } else {
                assert(ranges[r].end <= ranges[j].start);
            }
        }
    }
    lemma_one_chunk(all, at, key);
    chunk::lemma_chunk_says(plan.store, ranges[r], written[r], key);
    says::lemma_segment_says(written[r], key);
    assert(layered::chunk_ranges(all)[at].has(key.source));
}

/// Whether a read in both directions is the two reads in one direction together,
/// where an incoming edge wins.
pub open spec fn reads_both_ways(layered: LayeredNeighbors, node: u32) -> bool {
    layered.merged(TraversalDirection::Any, node) == layered.merged(
        TraversalDirection::Out,
        node,
    ).union_prefer_right(layered.merged(TraversalDirection::In, node))
}

/// Whether base chunks delete nothing: they replace the base.
pub open spec fn chunks_insert(chunks: Seq<DeltaSegmentView>) -> bool {
    forall|i: int| 0 <= i < chunks.len() ==> (#[trigger] chunks[i]).edge_deletes.len() == 0
}

/// Whether no segment that compaction leaves speaks of an edge at a node.
pub open spec fn left_silent(segments: Seq<DeltaSegmentView>, node: u32) -> bool {
    forall|key: EdgeKey|
        key.source == node || key.target == node ==> #[trigger] stated(
            left(segments),
            key,
        ) is None
}

/// An edge between visible nodes after its chunk was rewritten.
proof fn lemma_rewritten_edge(
    before: LayeredNeighbors,
    after: LayeredNeighbors,
    plan: DirtyChunks,
    sync_watermark: i64,
    base: EdgeStore,
    chunks: Seq<DeltaSegmentView>,
    segments: Seq<DeltaSegmentView>,
    edge: EdgeKey,
)
    requires
        base.wf(),
        chunks.len() + plan.ranges@.len() <= usize::MAX,
        segments.len() <= usize::MAX,
        forall|i: int| 0 <= i < chunks.len() ==> valid_chunk(#[trigger] chunks[i]),
        chunks_apart(chunks),
        apart(segments),
        compact::ranges_apart(plan.ranges@),
        sync_watermark >= 0,
        plan.store.wf(),
        plan.store.edges@ == edge_store::stored_edges(
            compact::read_edges(
                before,
                compact::rewritten_nodes(base, plan.ranges@) as int,
            ),
            compact::rewritten_nodes(base, plan.ranges@),
            compact::reads_weights(before),
        ),
        forall|i: int|
            0 <= i < chunks.len() && chunk_rewritten(chunks[i], plan.ranges@) && chunk_span(
                #[trigger] chunks[i],
            ).has(edge.source) ==> layered::covered(plan.ranges@, edge.source),
        plain_source(before),
        before.layers(&base, None, chunks, segments, None),
        after.layers(
            &base,
            None,
            unchanged_chunks(chunks, plan.ranges@) + written_chunks(plan, sync_watermark),
            left(segments),
            None,
        ),
        taken_names(segments, edge) ==> layered::covered(plan.ranges@, edge.source),
        before.visible(edge.source),
        before.visible(edge.target),
    ensures
        final_edge(after, edge) == final_edge(before, edge),
        says::lookup(after.base_chunk_out@, edge) == Some(DurableEdgeState::Deleted)
            ==> says::lookup(before.base_chunk_out@, edge) == Some(DurableEdgeState::Deleted),
        told(after, edge) == news(held(after, edge), stated(left(segments), edge)),
{
    let ranges = plan.ranges@;
    let all = unchanged_chunks(chunks, ranges) + written_chunks(plan, sync_watermark);
    let keep = |one: DeltaSegmentView| !chunk_rewritten(one, ranges);
    let key = layered::row_neighbor(edge);
    assert(layered::edge_to(edge.source, key) == edge);
    chunks.lemma_filter_len(keep);
    lemma_chunks_after(chunks, plan, sync_watermark);
    lemma_consistent(before, base, chunks, segments);
    lemma_consistent(after, base, all, left(segments));
    assert(told(before, edge) == news(held(before, edge), stated(segments, edge)));
    assert(told(after, edge) == news(held(after, edge), stated(left(segments), edge)));
    assert(says::lookup(before.base_chunk_out@, edge) == stated(chunks, edge));
    assert(says::lookup(after.base_chunk_out@, edge) == stated(all, edge));
    lemma_left_state(segments, edge);
    if layered::covered(ranges, edge.source) {
        lemma_chunk_written(chunks, plan, sync_watermark, edge);
        let nodes = compact::rewritten_nodes(base, ranges);
        let r = choose|r: int| 0 <= r < ranges.len() && (#[trigger] ranges[r]).has(edge.source);
        lemma_greatest_end(ranges, r);
        lemma_visible_rows(before, edge.source, key);
        lemma_read_edges(
            before,
            nodes as int,
            nodes,
            compact::reads_weights(before),
            edge.source,
            key,
        );
        if final_edge(before, edge) matches Some(weight) && weight is Some {
            lemma_weight_read(before, edge);
        }
        assert(held(after, edge) == final_edge(before, edge));
    } else {
        lemma_chunk_kept(chunks, plan, sync_watermark, edge);
        assert(held(after, edge) == held(before, edge));
    }
}

/// Whether a generation is read before and after compaction into base chunks: its
/// edge segments have given way to chunks, as they were written. Base chunks have
/// ranges of their own. An edge segment above level two is left as it is and does not
/// speak of the edges of the others.
pub open spec fn is_rewrite(
    before: LayeredNeighbors,
    after: LayeredNeighbors,
    plan: DirtyChunks,
    written: Seq<DeltaSegmentView>,
    previous: ManifestView,
    loaded: Seq<LoadedView>,
    base: EdgeStore,
    budgets: CompactionBudgets,
    chunks: Seq<DeltaSegmentView>,
    segments: Seq<DeltaSegmentView>,
) -> bool {
    &&& base.wf()
    &&& chunks.len() + plan.ranges@.len() <= usize::MAX
    &&& segments.len() <= usize::MAX
    &&& previous.sync_watermark >= 0
    &&& forall|i: int| 0 <= i < chunks.len() ==> valid_chunk(#[trigger] chunks[i])
    &&& chunks_named(chunks, previous.base_chunks)
    &&& chunks_apart(chunks)
    &&& forall|i: int| 0 <= i < segments.len() ==> valid_segment(#[trigger] segments[i])
    &&& takes_in(segments, loaded)
    &&& apart(segments)
    &&& compact::is_plan(CompactionPlan::Chunks(plan), previous, loaded, before, base, budgets)
    &&& written.len() == plan.ranges@.len()
    &&& forall|i: int|
        0 <= i < written.len() ==> replay::written_as(
            written_chunks(plan, previous.sync_watermark)[i],
            #[trigger] written[i],
        )
    &&& plain_source(before)
    &&& plain_source(after)
    &&& before.layers(&base, None, chunks, segments, None)
    &&& after.layers(
        &base,
        None,
        unchanged_chunks(chunks, plan.ranges@) + written,
        left(segments),
        None,
    )
}

/// Compaction preserves reads where it rewrites base chunks: after the edge segments
/// of a generation have given way to chunks, as they were written, every node reads
/// the edges that it read before, with their weights, in either direction. So it does
/// in both directions, unless of two opposite edges that read differently the other
/// one shows.
pub proof fn lemma_chunk_rewrite_preserves_reads(
    before: LayeredNeighbors,
    after: LayeredNeighbors,
    plan: DirtyChunks,
    written: Seq<DeltaSegmentView>,
    previous: ManifestView,
    loaded: Seq<LoadedView>,
    base: EdgeStore,
    budgets: CompactionBudgets,
    chunks: Seq<DeltaSegmentView>,
    segments: Seq<DeltaSegmentView>,
    direction: TraversalDirection,
    node: u32,
)
    requires
        is_rewrite(
            before,
            after,
            plan,
            written,
            previous,
            loaded,
            base,
            budgets,
            chunks,
            segments,
        ),
        direction is Any ==> same_edges_show(before, after, node),
    ensures
        after.rows(direction, node) == before.rows(direction, node),
{
    lemma_chunk_rewrite_gives_alike(
        before,
        after,
        plan,
        written,
        previous,
        loaded,
        base,
        budgets,
        chunks,
        segments,
        direction,
        node,
    );
    lemma_merged_finite(before, direction, node);
    lemma_merged_finite(after, direction, node);
    lemma_same_rows(before, after, direction, node);
}

/// Compaction into base chunks gives every node the edges that it had, in both
/// directions unless of two opposite edges that read differently the other one shows.
pub proof fn lemma_chunk_rewrite_gives_alike(
    before: LayeredNeighbors,
    after: LayeredNeighbors,
    plan: DirtyChunks,
    written: Seq<DeltaSegmentView>,
    previous: ManifestView,
    loaded: Seq<LoadedView>,
    base: EdgeStore,
    budgets: CompactionBudgets,
    chunks: Seq<DeltaSegmentView>,
    segments: Seq<DeltaSegmentView>,
    direction: TraversalDirection,
    node: u32,
)
    requires
        is_rewrite(
            before,
            after,
            plan,
            written,
            previous,
            loaded,
            base,
            budgets,
            chunks,
            segments,
        ),
        direction is Any ==> same_edges_show(before, after, node),
    ensures
        gives_alike(before, after, direction, node),
{
    lemma_rewrite_visible(
        before,
        after,
        plan,
        written,
        previous,
        loaded,
        base,
        budgets,
        chunks,
        segments,
    );
    if before.visible(node) {
        assert forall|key: NeighborKey| before.visible(key.target) implies #[trigger] found(
            after.merged(direction, node),
            key,
        ) == found(before.merged(direction, node), key) by {
            let edge = layered::edge_to(node, key);
            let other = layered::mirrored(edge);
            assert(layered::mirrored(other) == edge);
            lemma_edge_of_rewrite(
                before,
                after,
                plan,
                written,
                previous,
                loaded,
                base,
                budgets,
                chunks,
                segments,
                edge,
            );
            lemma_edge_of_rewrite(
                before,
                after,
                plan,
                written,
                previous,
                loaded,
                base,
                budgets,
                chunks,
                segments,
                other,
            );
            lemma_same_read(before, after, direction, node, key);
        }
    }
}

/// Where a read of a node in both directions is the two reads in one direction
/// together, base chunks delete nothing and the segments that stay do not speak of
/// its edges, reads of the node in both directions go by the same edges after
/// compaction into base chunks.
pub proof fn lemma_chunk_rewrite_shows_same_edges(
    before: LayeredNeighbors,
    after: LayeredNeighbors,
    plan: DirtyChunks,
    written: Seq<DeltaSegmentView>,
    previous: ManifestView,
    loaded: Seq<LoadedView>,
    base: EdgeStore,
    budgets: CompactionBudgets,
    chunks: Seq<DeltaSegmentView>,
    segments: Seq<DeltaSegmentView>,
    node: u32,
)
    requires
        is_rewrite(
            before,
            after,
            plan,
            written,
            previous,
            loaded,
            base,
            budgets,
            chunks,
            segments,
        ),
        reads_both_ways(before, node),
        chunks_insert(chunks),
        left_silent(segments, node),
    ensures
        same_edges_show(before, after, node),
{
    lemma_rewrite_visible(
        before,
        after,
        plan,
        written,
        previous,
        loaded,
        base,
        budgets,
        chunks,
        segments,
    );
    assert forall|key: NeighborKey|
        ({
            let edge = #[trigger] layered::edge_to(node, key);
            before.visible(node) && before.visible(key.target) && final_edge(before, edge)
                != final_edge(before, layered::mirrored(edge)) ==> outgoing_shows(after, edge)
                == outgoing_shows(before, edge)
        }) by {
        let edge = layered::edge_to(node, key);
        let other = layered::mirrored(edge);
        if before.visible(node) && before.visible(key.target) {
            lemma_edge_of_rewrite(
                before,
                after,
                plan,
                written,
                previous,
                loaded,
                base,
                budgets,
                chunks,
                segments,
                edge,
            );
            lemma_edge_of_rewrite(
                before,
                after,
                plan,
                written,
                previous,
                loaded,
                base,
                budgets,
                chunks,
                segments,
                other,
            );
            lemma_out_read(before, node, key);
            lemma_in_read(before, node, key);
            lemma_any_read(before, node, key);
            lemma_never_deleted(chunks, other);
            assert(stated(left(segments), edge) is None);
            assert(stated(left(segments), other) is None);
            assert(says::lookup(before.base_chunk_out@, other) == stated(chunks, other)) by {
                lemma_consistent(before, base, chunks, segments);
            }
            assert(found(before.merged(TraversalDirection::Any, node), key) == found(
                before.merged(TraversalDirection::Out, node).union_prefer_right(
                    before.merged(TraversalDirection::In, node),
                ),
                key,
            ));
        }
    }
}

/// What rewritten chunks say is what they said when they were planned.
proof fn lemma_rewrite_planned(
    before: LayeredNeighbors,
    after: LayeredNeighbors,
    plan: DirtyChunks,
    written: Seq<DeltaSegmentView>,
    previous: ManifestView,
    loaded: Seq<LoadedView>,
    base: EdgeStore,
    budgets: CompactionBudgets,
    chunks: Seq<DeltaSegmentView>,
    segments: Seq<DeltaSegmentView>,
)
    requires
        is_rewrite(
            before,
            after,
            plan,
            written,
            previous,
            loaded,
            base,
            budgets,
            chunks,
            segments,
        ),
    ensures
        after.layers(
            &base,
            None,
            unchanged_chunks(chunks, plan.ranges@) + written_chunks(plan, previous.sync_watermark),
            left(segments),
            None,
        ),
{
    let keep = |one: DeltaSegmentView| !chunk_rewritten(one, plan.ranges@);
    let kept = unchanged_chunks(chunks, plan.ranges@);
    let planned = kept + written_chunks(plan, previous.sync_watermark);
    let stored = kept + written;
    chunks.lemma_filter_len(keep);
    assert forall|i: int| 0 <= i < planned.len() implies replay::written_as(
        planned[i],
        #[trigger] stored[i],
    ) by {
        if i >= kept.len() {
            assert(stored[i] == written[i - kept.len()]);
        }
    }
    replay::lemma_written_segments(planned, stored, layered::blank_state());
    assert(layered::chunk_ranges(planned) =~= layered::chunk_ranges(stored)) by {
        assert forall|i: int| 0 <= i < planned.len() implies layered::chunk_ranges(planned)[i]
            == layered::chunk_ranges(stored)[i] by {
            assert(replay::written_as(planned[i], stored[i]));
        }
    }
}

/// Compaction into base chunks hides and shows no node.
proof fn lemma_rewrite_visible(
    before: LayeredNeighbors,
    after: LayeredNeighbors,
    plan: DirtyChunks,
    written: Seq<DeltaSegmentView>,
    previous: ManifestView,
    loaded: Seq<LoadedView>,
    base: EdgeStore,
    budgets: CompactionBudgets,
    chunks: Seq<DeltaSegmentView>,
    segments: Seq<DeltaSegmentView>,
)
    requires
        is_rewrite(
            before,
            after,
            plan,
            written,
            previous,
            loaded,
            base,
            budgets,
            chunks,
            segments,
        ),
    ensures
        forall|target: u32| #[trigger] before.visible(target) == after.visible(target),
        after.active_nodes@ == before.active_nodes@,
        after.tenant_memberships@.dom() == before.tenant_memberships@.dom(),
        consistent(before),
        consistent(after),
        before.base_in is None,
        after.base_in is None,
{
    let ranges = plan.ranges@;
    let wm = previous.sync_watermark;
    let all = unchanged_chunks(chunks, ranges) + written_chunks(plan, wm);
    let keep = |one: DeltaSegmentView| !chunk_rewritten(one, ranges);
    let stays = |segment: DeltaSegmentView| !taken(segment);
    chunks.lemma_filter_len(keep);
    segments.lemma_filter_len(stays);
    lemma_rewrite_planned(
        before,
        after,
        plan,
        written,
        previous,
        loaded,
        base,
        budgets,
        chunks,
        segments,
    );
    let dirty = choose|dirty: Seq<SourceRange>| #[trigger]
        compact::is_range_merge(compact::dirty_ranges(loaded), dirty)
            && compact::is_rewrite_range(dirty, previous.base_chunks, ranges);
    lemma_dirty_filled(loaded);
    compact::lemma_range_merge_covers(compact::dirty_ranges(loaded), dirty);
    lemma_rewrite_ranges(dirty, chunks, previous.base_chunks, ranges);
    lemma_chunks_after(chunks, plan, wm);
    lemma_consistent(before, base, chunks, segments);
    lemma_consistent(after, base, all, left(segments));
    lemma_node_filter(segments);
    lemma_nodes_stay(segments, left(segments));
    assert forall|target: u32| #[trigger] before.visible(target) == after.visible(target) by {}
}

/// An edge between visible nodes after compaction into base chunks.
proof fn lemma_edge_of_rewrite(
    before: LayeredNeighbors,
    after: LayeredNeighbors,
    plan: DirtyChunks,
    written: Seq<DeltaSegmentView>,
    previous: ManifestView,
    loaded: Seq<LoadedView>,
    base: EdgeStore,
    budgets: CompactionBudgets,
    chunks: Seq<DeltaSegmentView>,
    segments: Seq<DeltaSegmentView>,
    edge: EdgeKey,
)
    requires
        is_rewrite(
            before,
            after,
            plan,
            written,
            previous,
            loaded,
            base,
            budgets,
            chunks,
            segments,
        ),
        before.visible(edge.source),
        before.visible(edge.target),
    ensures
        final_edge(after, edge) == final_edge(before, edge),
        says::lookup(after.base_chunk_out@, edge) == Some(DurableEdgeState::Deleted)
            ==> says::lookup(before.base_chunk_out@, edge) == Some(DurableEdgeState::Deleted),
        told(after, edge) == news(held(after, edge), stated(left(segments), edge)),
{
    let ranges = plan.ranges@;
    let dirty = choose|dirty: Seq<SourceRange>| #[trigger]
        compact::is_range_merge(compact::dirty_ranges(loaded), dirty)
            && compact::is_rewrite_range(dirty, previous.base_chunks, ranges);
    lemma_dirty_filled(loaded);
    compact::lemma_range_merge_covers(compact::dirty_ranges(loaded), dirty);
    lemma_rewrite_ranges(dirty, chunks, previous.base_chunks, ranges);
    lemma_rewrite_planned(
        before,
        after,
        plan,
        written,
        previous,
        loaded,
        base,
        budgets,
        chunks,
        segments,
    );
    if taken_names(segments, edge) {
        lemma_dirty_ranges_cover(segments, loaded, dirty, edge);
        assert(layered::covered(dirty, edge.source));
    }
    lemma_rewritten_edge(
        before,
        after,
        plan,
        previous.sync_watermark,
        base,
        chunks,
        segments,
        edge,
    );
}

/// Chunks without deletes delete nothing.
proof fn lemma_never_deleted(chunks: Seq<DeltaSegmentView>, key: EdgeKey)
    requires
        chunks.len() <= usize::MAX,
        chunks_insert(chunks),
    ensures
        stated(chunks, key) != Some(DurableEdgeState::Deleted),
{
    replay::lemma_with_segments(chunks, layered::blank_state());
    replay::lemma_apply_order(chunks);
    let ordered = replay::in_order(chunks);
    assert forall|i: int| 0 <= i < ordered.len() implies (#[trigger] ordered[i]).edge_deletes.len()
        == 0 by {
        assert(layered::apply_order(chunks)[i].index < chunks.len());
    }
    lemma_replay_never_deletes(ordered, key);
}

proof fn lemma_replay_never_deletes(chunks: Seq<DeltaSegmentView>, key: EdgeKey)
    requires
        chunks_insert(chunks),
    ensures
        says::lookup(replay::replayed(layered::blank_state(), chunks).out_edges, key) != Some(
            DurableEdgeState::Deleted,
        ),
    decreases chunks.len(),
{
    if chunks.len() > 0 {
        let init = chunks.drop_last();
        assert forall|i: int| 0 <= i < init.len() implies (#[trigger] init[i]).edge_deletes.len()
            == 0 by {
            assert(init[i] == chunks[i]);
        }
        lemma_replay_never_deletes(init, key);
        assert(chunks[chunks.len() - 1].edge_deletes.len() == 0);
        says::lemma_segment_lookup(
            replay::replayed(layered::blank_state(), init),
            chunks.last(),
            key,
        );
    }
}

} // verus!
