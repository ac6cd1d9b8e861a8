//! Durable projection segment compaction.
//!
//! Compaction reduces manifest segment fanout by publishing a new generation
//! whose higher-level artifacts expose the same layered read output.
use vstd::prelude::*;

use crate::edge_store::{self, EdgeStore, RawEdge};
use crate::order::{self, sort_ranked, Ranked};
use crate::ordered_map::{self, OrderedMap};
use crate::projection::chunk;
use crate::projection::ingest;
use crate::projection::layered::{
    self, FileRead, LayeredEdge, LayeredNeighbors, ManifestSegmentProvider, NeighborKey,
    SegmentProvider, SourceRange,
};
use crate::projection::manifest::{
    self, ChunkRefView, FileRefView, ManifestChunkRef, ManifestFileRef, ManifestSegmentRef,
    ManifestView, ProjectionManifest, SegmentRefView,
};
use crate::projection::segment::{
    self, DeltaSegment, DeltaSegmentView, SegmentEdge, SegmentEdgeWeight, SegmentKind,
};
use crate::projection::sources::{self, first_from, named_sources};
use crate::safety::{self, GraphError, GraphErrorView, GraphResult};
use crate::text::{self, concat2, concat5, fixed_digits_text, owned, same_text};
use crate::types::TraversalDirection;

verus! {

/// Bounds for one compaction pass.
#[derive(Debug, Clone, Copy, PartialEq, Eq)]
pub struct CompactionBudgets {
    /// Maximum number of rows in all segments.
    pub max_rows: usize,
    /// Maximum estimated bytes of all rows.
    pub max_bytes: usize,
    /// Maximum number of segments.
    pub max_segments: usize,
    /// Maximum time before the merge, in nanoseconds.
    pub max_elapsed_nanos: u128,
    /// Number of segments from which on base chunks are rewritten.
    pub dirty_chunk_segment_threshold: Option<usize>,
}

impl CompactionBudgets {
    /// Bounds that small projections do not reach.
    pub fn generous() -> (budgets: CompactionBudgets)
        ensures
            budgets == (CompactionBudgets {
                max_rows: 10_000,
                max_bytes: 10_000_000,
                max_segments: 1_000,
                max_elapsed_nanos: 60_000_000_000,
                dirty_chunk_segment_threshold: None,
            }),
    {
        CompactionBudgets {
            max_rows: 10_000,
            max_bytes: 10_000_000,
            max_segments: 1_000,
            max_elapsed_nanos: 60_000_000_000,
            dirty_chunk_segment_threshold: None,
        }
    }
}

/// Edge segment with its manifest reference.
#[derive(Debug, Clone, PartialEq, Eq)]
pub struct LoadedEdgeSegment {
    pub reference: ManifestSegmentRef,
    pub segment: DeltaSegment,
}

/// Edge segment with its manifest reference.
pub struct LoadedView {
    pub reference: SegmentRefView,
    pub segment: DeltaSegmentView,
}

impl View for LoadedEdgeSegment {
    type V = LoadedView;

    open spec fn view(&self) -> LoadedView {
        LoadedView { reference: self.reference@, segment: self.segment@ }
    }
}

/// What loaded segments hold.
pub open spec fn loaded_views(segments: Seq<LoadedEdgeSegment>) -> Seq<LoadedView> {
    segments.map_values(|loaded: LoadedEdgeSegment| loaded@)
}

// ---------------------------------------------------------------------------
// Loading
// ---------------------------------------------------------------------------

/// The segment that a manifest references, out of its file.
pub open spec fn loaded_segment(
    segment: SegmentRefView,
    file: Result<Seq<u8>, Seq<char>>,
) -> Result<DeltaSegmentView, GraphErrorView> {
    match file {
        Err(err) => Err(GraphErrorView::Internal("projection segment read failed: "@ + err)),
        Ok(_) => layered::loaded_segment(segment, file),
    }
}

/// Decode the segment that a manifest references.
pub fn read_manifest_segment(segment: &ManifestSegmentRef, file: &FileRead) -> (result: GraphResult<
    DeltaSegment,
>)
    ensures
        safety::outcome(result) == loaded_segment(segment@, layered::file_view(*file)),
{
    match file {
        Err(err) => Err(
            GraphError::Internal(concat2("projection segment read failed: ", err.as_str())),
        ),
        Ok(_) => layered::read_manifest_segment(segment, file),
    }
}

/// The edge segments up to level two from `from` on, or the first error.
pub open spec fn edge_segments_of(
    refs: Seq<SegmentRefView>,
    files: Seq<Result<Seq<u8>, Seq<char>>>,
    from: int,
    done: Seq<LoadedView>,
) -> Result<Seq<LoadedView>, GraphErrorView>
    decreases refs.len() - from,
{
    if from >= refs.len() {
        Ok(done)
    } else if refs[from].level > 2 {
        edge_segments_of(refs, files, from + 1, done)
    } else {
        match loaded_segment(refs[from], files[from]) {
            Err(error) => Err(error),
            Ok(held) => edge_segments_of(
                refs,
                files,
                from + 1,
                if held.header.kind is Edge {
                    done.push(LoadedView { reference: refs[from], segment: held })
                } else {
                    done
                },
            ),
        }
    }
}

/// Load the edge segments of a manifest that compaction takes in.
pub fn load_edge_segments(manifest: &ProjectionManifest, files: &Vec<FileRead>) -> (result:
    GraphResult<Vec<LoadedEdgeSegment>>)
    requires
        files@.len() == manifest@.segments.len(),
    ensures
        match result {
            Ok(loaded) => edge_segments_of(
                manifest@.segments,
                layered::file_views(files@),
                0,
                Seq::empty(),
            ) == Ok::<_, GraphErrorView>(loaded_views(loaded@)),
            Err(error) => edge_segments_of(
                manifest@.segments,
                layered::file_views(files@),
                0,
                Seq::empty(),
            ) == Err::<Seq<LoadedView>, _>(error@),
        },
{
    let ghost refs = manifest@.segments;
    let ghost reads = layered::file_views(files@);
    let ghost goal = edge_segments_of(refs, reads, 0, Seq::empty());
    let mut loaded: Vec<LoadedEdgeSegment> = Vec::new();
    assert(loaded_views(loaded@) =~= Seq::<LoadedView>::empty());
    for i in 0..manifest.segments.len()
        invariant
            refs == manifest@.segments,
            reads == layered::file_views(files@),
            files@.len() == refs.len(),
            goal == edge_segments_of(refs, reads, 0, Seq::empty()),
            goal == edge_segments_of(refs, reads, i as int, loaded_views(loaded@)),
    {
        assert(refs[i as int] == manifest.segments@[i as int]@);
        assert(reads[i as int] == layered::file_view(files@[i as int]));
        let reference: &ManifestSegmentRef = &manifest.segments[i];
        if reference.level <= 2 {
            let segment: DeltaSegment = match read_manifest_segment(reference, &files[i]) {
                Ok(segment) => segment,
                Err(error) => {
                    return Err(error);
                },
            };
            if segment.header.kind == SegmentKind::Edge {
                let next: LoadedEdgeSegment = LoadedEdgeSegment {
                    reference: reference.duplicate(),
                    segment,
                };
                let ghost before = loaded_views(loaded@);
                loaded.push(next);
                assert(loaded_views(loaded@) =~= before.push(next@));
            }
        }
    }
    Ok(loaded)
}

/// Whether a path is that of a compacted segment.
pub open spec fn is_compacted(compacted: Seq<LoadedView>, path: Seq<char>) -> bool {
    exists|i: int| 0 <= i < compacted.len() && (#[trigger] compacted[i]).reference.path == path
}

/// The segment references that compaction leaves.
pub open spec fn retained(refs: Seq<SegmentRefView>, compacted: Seq<LoadedView>) -> Seq<
    SegmentRefView,
> {
    refs.filter(|segment: SegmentRefView| !is_compacted(compacted, segment.path))
}

fn has_path(compacted: &Vec<LoadedEdgeSegment>, path: &str) -> (found: bool)
    ensures
        found == is_compacted(loaded_views(compacted@), path@),
{
    let ghost held = loaded_views(compacted@);
    for i in 0..compacted.len()
        invariant
            held == loaded_views(compacted@),
            forall|j: int| 0 <= j < i ==> (#[trigger] held[j]).reference.path != path@,
    {
        assert(held[i as int] == compacted@[i as int]@);
        if same_text(compacted[i].reference.path.as_str(), path) {
            return true;
        }
    }
    false
}

/// The segment references that compaction leaves.
pub fn retained_segments(manifest: &ProjectionManifest, compacted: &Vec<LoadedEdgeSegment>) -> (left:
    Vec<ManifestSegmentRef>)
    ensures
        manifest::segment_refs(left@) == retained(manifest@.segments, loaded_views(compacted@)),
{
    let ghost refs = manifest@.segments;
    let ghost held = loaded_views(compacted@);
    let mut left: Vec<ManifestSegmentRef> = Vec::new();
    proof {
        reveal(Seq::filter);
        assert(manifest::segment_refs(left@) =~= retained(refs.take(0), held));
    }
    for i in 0..manifest.segments.len()
        invariant
            refs == manifest@.segments,
            held == loaded_views(compacted@),
            manifest::segment_refs(left@) == retained(refs.take(i as int), held),
    {
        let ghost before = manifest::segment_refs(left@);
        assert(refs[i as int] == manifest.segments@[i as int]@);
        proof {
            reveal(Seq::filter);
            assert(refs.take(i + 1).drop_last() =~= refs.take(i as int));
        }
        if !has_path(compacted, manifest.segments[i].path.as_str()) {
            let next: ManifestSegmentRef = manifest.segments[i].duplicate();
            left.push(next);
            assert(manifest::segment_refs(left@) =~= before.push(next@));
        }
        assert(manifest::segment_refs(left@) =~= retained(refs.take(i + 1), held));
    }
    assert(refs.take(refs.len() as int) =~= refs);
    left
}

// ---------------------------------------------------------------------------
// Budgets
// ---------------------------------------------------------------------------

/// The number of rows of a segment.
pub open spec fn row_count(segment: DeltaSegmentView) -> nat {
    segment.edge_inserts.len() + segment.edge_deletes.len() + segment.edge_weights.len()
        + segment.node_states.len() + segment.resolutions.len() + segment.filters.len()
        + segment.tenants.len()
}

/// The number of rows of the first `count` segments.
pub open spec fn total_rows(segments: Seq<LoadedView>, count: int) -> nat
    decreases count,
{
    if count <= 0 {
        0
    } else {
        total_rows(segments, count - 1) + row_count(segments[count - 1].segment)
    }
}

/// The number, or the greatest that a `usize` holds.
pub open spec fn capped(n: nat) -> usize {
    if n > usize::MAX {
        usize::MAX
    } else {
        n as usize
    }
}

/// The number of rows of a segment, capped at the greatest `usize`.
pub fn segment_row_count(segment: &DeltaSegment) -> (count: usize)
    ensures
        count == capped(row_count(segment@)),
{
    segment.edge_inserts.len().saturating_add(segment.edge_deletes.len()).saturating_add(
        segment.edge_weights.len(),
    ).saturating_add(segment.node_states.len()).saturating_add(
        segment.resolutions.len(),
    ).saturating_add(segment.filters.len()).saturating_add(segment.tenants.len())
}

/// The error of an overrun budget.
pub open spec fn overrun(kind: Seq<char>, requested: usize, limit: usize) -> GraphErrorView {
    GraphErrorView::OverlayLimit { kind, requested, limit }
}

/// Why a compaction pass does not start.
pub open spec fn budget_error(
    segments: Seq<LoadedView>,
    budgets: CompactionBudgets,
    elapsed_nanos: u128,
) -> Option<GraphErrorView> {
    let rows = capped(total_rows(segments, segments.len() as int));
    if segments.len() > budgets.max_segments {
        Some(
            overrun(
                "projection_compaction_segments"@,
                segments.len() as usize,
                budgets.max_segments,
            ),
        )
    } else if rows > budgets.max_rows {
        Some(overrun("projection_compaction_rows"@, rows, budgets.max_rows))
    } else if rows * 32 > usize::MAX {
        Some(GraphErrorView::Internal("projection compaction byte estimate overflowed"@))
    } else if rows * 32 > budgets.max_bytes {
        Some(overrun("projection_compaction_bytes"@, (rows * 32) as usize, budgets.max_bytes))
    } else if elapsed_nanos > budgets.max_elapsed_nanos {
        Some(
            overrun(
                "projection_compaction_elapsed"@,
                (elapsed_nanos / 1000) as usize,
                (budgets.max_elapsed_nanos / 1000) as usize,
            ),
        )
    } else {
        None
    }
}

/// Check that a compaction pass stays inside its budgets.
pub fn validate_budgets(
    segments: &Vec<LoadedEdgeSegment>,
    budgets: CompactionBudgets,
    elapsed_nanos: u128,
) -> (result: GraphResult<()>)
    ensures
        safety::refusal(result) == budget_error(loaded_views(segments@), budgets, elapsed_nanos),
{
    let ghost held = loaded_views(segments@);
    if segments.len() > budgets.max_segments {
        return Err(
            GraphError::OverlayLimit {
                kind: owned("projection_compaction_segments"),
                requested: segments.len(),
                limit: budgets.max_segments,
            },
        );
    }
    let mut rows: usize = 0;
    for i in 0..segments.len()
        invariant
            held == loaded_views(segments@),
            rows == capped(total_rows(held, i as int)),
    {
        assert(held[i as int] == segments@[i as int]@);
        rows = rows.saturating_add(segment_row_count(&segments[i].segment));
    }
    if rows > budgets.max_rows {
        return Err(
            GraphError::OverlayLimit {
                kind: owned("projection_compaction_rows"),
                requested: rows,
                limit: budgets.max_rows,
            },
        );
    }
    let bytes: usize = match rows.checked_mul(32) {
        Some(bytes) => bytes,
        None => {
            return Err(
                GraphError::Internal(owned("projection compaction byte estimate overflowed")),
            );
        },
    };
    if bytes > budgets.max_bytes {
        return Err(
            GraphError::OverlayLimit {
                kind: owned("projection_compaction_bytes"),
                requested: bytes,
                limit: budgets.max_bytes,
            },
        );
    }
    if elapsed_nanos > budgets.max_elapsed_nanos {
        return Err(
            GraphError::OverlayLimit {
                kind: owned("projection_compaction_elapsed"),
                requested: (elapsed_nanos / 1000) as usize,
                limit: (budgets.max_elapsed_nanos / 1000) as usize,
            },
        );
    }
    Ok(())
}

// ---------------------------------------------------------------------------
// Source ranges
// ---------------------------------------------------------------------------

impl Ranked for SourceRange {
    open spec fn rank(&self) -> Seq<int> {
        seq![self.start as int, self.end as int]
    }

    fn precedes(&self, other: &SourceRange) -> (found: bool) {
        proof {
            reveal_with_fuel(order::ranks_before, 3);
        }
        if self.start != other.start {
            self.start < other.start
        } else {
            self.end < other.end
        }
    }
}

/// The range of one source. No range holds the greatest index, which no node has.
pub open spec fn single_range(source: u32) -> Seq<SourceRange> {
    if source < u32::MAX {
        seq![SourceRange { start: source, end: (source + 1) as u32 }]
    } else {
        Seq::empty()
    }
}

/// The ranges of the sources at which incoming rows start: their targets.
pub open spec fn incoming_ranges(rows: Seq<SegmentEdge>) -> Seq<SourceRange>
    decreases rows.len(),
{
    if rows.len() == 0 {
        Seq::empty()
    } else {
        incoming_ranges(rows.drop_last()) + single_range(rows.last().target)
    }
}

/// The source ranges that a segment is dirty in: the range that its header names,
/// and the sources at which its incoming rows start.
pub open spec fn segment_ranges(segment: DeltaSegmentView) -> Seq<SourceRange> {
    let named = if segment.header.source_start < segment.header.source_end {
        seq![
            SourceRange {
                start: segment.header.source_start,
                end: segment.header.source_end,
            },
        ]
    } else {
        Seq::empty()
    };
    if segment.header.direction is In {
        named + incoming_ranges(segment.edge_deletes) + incoming_ranges(segment.edge_inserts)
    } else {
        named
    }
}

/// The source ranges that segments are dirty in.
pub open spec fn dirty_ranges(segments: Seq<LoadedView>) -> Seq<SourceRange>
    decreases segments.len(),
{
    if segments.len() == 0 {
        Seq::empty()
    } else {
        dirty_ranges(segments.drop_last()) + segment_ranges(segments.last().segment)
    }
}

fn push_incoming_ranges(rows: &Vec<SegmentEdge>, ranges: &mut Vec<SourceRange>)
    ensures
        final(ranges)@ == old(ranges)@ + incoming_ranges(rows@),
{
    let ghost start = ranges@;
    assert(start + incoming_ranges(rows@.take(0)) =~= start);
    for i in 0..rows.len()
        invariant
            ranges@ == start + incoming_ranges(rows@.take(i as int)),
    {
        let source: u32 = rows[i].target;
        let ghost before = ranges@;
        assert(rows@.take(i + 1).drop_last() =~= rows@.take(i as int));
        if source < u32::MAX {
            ranges.push(SourceRange { start: source, end: source + 1 });
        }
        assert(ranges@ =~= before + single_range(source));
        assert(ranges@ =~= start + incoming_ranges(rows@.take(i + 1)));
    }
    assert(rows@.take(rows@.len() as int) =~= rows@);
}

fn push_segment_ranges(segment: &DeltaSegment, ranges: &mut Vec<SourceRange>)
    ensures
        final(ranges)@ == old(ranges)@ + segment_ranges(segment@),
{
    let ghost first = ranges@;
    let start: u32 = segment.header.source_start;
    let end: u32 = segment.header.source_end;
    if start < end {
        ranges.push(SourceRange { start, end });
    }
    match segment.header.direction {
        TraversalDirection::In => {
            push_incoming_ranges(&segment.edge_deletes, ranges);
            push_incoming_ranges(&segment.edge_inserts, ranges);
        },
        TraversalDirection::Out | TraversalDirection::Any => {},
    }
    assert(ranges@ =~= first + segment_ranges(segment@));
}

/// Sorted ranges with those merged that overlap.
pub open spec fn merged_ranges(sorted: Seq<SourceRange>) -> Seq<SourceRange>
    decreases sorted.len(),
{
    if sorted.len() == 0 {
        Seq::empty()
    } else {
        let earlier = merged_ranges(sorted.drop_last());
        let next = sorted.last();
        if earlier.len() > 0 && next.start < earlier.last().end {
            earlier.drop_last().push(
                SourceRange {
                    start: earlier.last().start,
                    end: if next.end > earlier.last().end {
                        next.end
                    } else {
                        earlier.last().end
                    },
                },
            )
        } else {
            earlier.push(next)
        }
    }
}

/// Whether `result` is the merge of ranges.
pub open spec fn is_range_merge(ranges: Seq<SourceRange>, result: Seq<SourceRange>) -> bool {
    exists|sorted: Seq<SourceRange>| #[trigger]
        order::sorted(sorted) && sorted.to_multiset() == ranges.to_multiset() && result
            == merged_ranges(sorted)
}

/// Whether ranges are not empty and do not overlap, in order.
pub open spec fn ranges_apart(ranges: Seq<SourceRange>) -> bool {
    &&& forall|i: int| 0 <= i < ranges.len() ==> (#[trigger] ranges[i]).start < ranges[i].end
    &&& forall|i: int, j: int|
        0 <= i < j < ranges.len() ==> (#[trigger] ranges[i]).end <= (#[trigger] ranges[j]).start
}

proof fn lemma_merged_ranges(sorted: Seq<SourceRange>)
    requires
        order::sorted(sorted),
        forall|i: int| 0 <= i < sorted.len() ==> (#[trigger] sorted[i]).start < sorted[i].end,
    ensures
        ranges_apart(merged_ranges(sorted)),
        sorted.len() > 0 ==> merged_ranges(sorted).len() > 0 && merged_ranges(sorted).last().start
            <= sorted.last().start,
        forall|source: u32| #[trigger]
            layered::covered(merged_ranges(sorted), source) <==> layered::covered(sorted, source),
    decreases sorted.len(),
{
    if sorted.len() == 0 {
        assert forall|source: u32| #[trigger]
            layered::covered(merged_ranges(sorted), source) <==> layered::covered(
                sorted,
                source,
            ) by {}
    } else {
        let init = sorted.drop_last();
        let next = sorted.last();
        assert(order::sorted(init)) by {
            assert forall|i: int, j: int| 0 <= i < j < init.len() implies !order::before(
                (#[trigger] init[j]).rank(),
                (#[trigger] init[i]).rank(),
            ) by {
                assert(init[i] == sorted[i] && init[j] == sorted[j]);
            }
        }
        assert forall|i: int| 0 <= i < init.len() implies (#[trigger] init[i]).start
            < init[i].end by {
            assert(init[i] == sorted[i]);
        }
        lemma_merged_ranges(init);
        let earlier = merged_ranges(init);
        let result = merged_ranges(sorted);
        assert(sorted[sorted.len() - 1] == next);
        assert(next.start < next.end);
        if init.len() > 0 {
            let before_last = init.len() - 1;
            assert(init.last() == sorted[before_last]);
            reveal_with_fuel(order::ranks_before, 3);
            assert(!order::before(
                sorted[sorted.len() - 1].rank(),
                sorted[before_last].rank(),
            ));
            assert(sorted[before_last].rank()[0] == init.last().start);
            assert(next.rank()[0] == next.start);
            assert(init.last().start <= next.start);
        }
        let n = earlier.len() as int;
        if earlier.len() > 0 && next.start < earlier.last().end {
            assert(result.len() == n);
            assert forall|i: int| 0 <= i < n - 1 implies result[i] == earlier[i] by {}
            assert(earlier.last() == earlier[n - 1]);
            assert forall|i: int, j: int| 0 <= i < j < result.len() implies (#[trigger] result[i]).end
                <= (#[trigger] result[j]).start by {
                assert(earlier[i].end <= earlier[j].start);
            }
            assert forall|source: u32| #[trigger]
                layered::covered(result, source) <==> layered::covered(sorted, source) by {
                assert(layered::covered(earlier, source) <==> layered::covered(init, source));
                if layered::covered(result, source) {
                    let i = choose|i: int|
                        0 <= i < result.len() && (#[trigger] result[i]).has(source);
                    if i < n - 1 {
                        assert(earlier[i].has(source));
                        let j = choose|j: int|
                            0 <= j < init.len() && (#[trigger] init[j]).has(source);
                        assert(sorted[j].has(source));
                    } else if earlier[n - 1].has(source) {
                        let j = choose|j: int|
                            0 <= j < init.len() && (#[trigger] init[j]).has(source);
                        assert(sorted[j].has(source));
                    } else {
                        assert(sorted[sorted.len() - 1].has(source));
                    }
                }
                if layered::covered(sorted, source) {
                    let j = choose|j: int|
                        0 <= j < sorted.len() && (#[trigger] sorted[j]).has(source);
                    if j < init.len() {
                        assert(init[j].has(source));
                        let i = choose|i: int|
                            0 <= i < earlier.len() && (#[trigger] earlier[i]).has(source);
                        if i < n - 1 {
                            assert(result[i].has(source));
                        } else {
                            assert(result[n - 1].has(source));
                        }
                    } else {
                        assert(result[n - 1].has(source));
                    }
                }
            }
        } else {
            assert(result == earlier.push(next));
            assert forall|i: int, j: int| 0 <= i < j < result.len() implies (#[trigger] result[i]).end
                <= (#[trigger] result[j]).start by {
                assert(result[i] == earlier[i]);
                if j < n {
                    assert(result[j] == earlier[j]);
                } else if i < n - 1 {
                    assert(earlier[i].end <= earlier[n - 1].start);
                    assert(earlier[n - 1].start < earlier[n - 1].end);
                }
            }
            assert forall|source: u32| #[trigger]
                layered::covered(result, source) <==> layered::covered(sorted, source) by {
                assert(layered::covered(earlier, source) <==> layered::covered(init, source));
                if layered::covered(result, source) {
                    let i = choose|i: int|
                        0 <= i < result.len() && (#[trigger] result[i]).has(source);
                    if i < n {
                        assert(earlier[i].has(source));
                        let j = choose|j: int|
                            0 <= j < init.len() && (#[trigger] init[j]).has(source);
                        assert(sorted[j].has(source));
                    } else {
                        assert(sorted[sorted.len() - 1].has(source));
                    }
                }
                if layered::covered(sorted, source) {
                    let j = choose|j: int|
                        0 <= j < sorted.len() && (#[trigger] sorted[j]).has(source);
                    if j < init.len() {
                        assert(init[j].has(source));
                        let i = choose|i: int|
                            0 <= i < earlier.len() && (#[trigger] earlier[i]).has(source);
                        assert(result[i].has(source));
                    } else {
                        assert(result[n].has(source));
                    }
                }
            }
        }
    }
}

/// The merge of ranges covers what the ranges cover, without overlaps.
pub proof fn lemma_range_merge_covers(ranges: Seq<SourceRange>, result: Seq<SourceRange>)
    requires
        is_range_merge(ranges, result),
        forall|i: int| 0 <= i < ranges.len() ==> (#[trigger] ranges[i]).start < ranges[i].end,
    ensures
        ranges_apart(result),
        forall|source: u32| #[trigger]
            layered::covered(result, source) <==> layered::covered(ranges, source),
{
    let sorted = choose|sorted: Seq<SourceRange>| #[trigger]
        order::sorted(sorted) && sorted.to_multiset() == ranges.to_multiset() && result
            == merged_ranges(sorted);
    assert forall|i: int| 0 <= i < sorted.len() implies (#[trigger] sorted[i]).start
        < sorted[i].end by {
        vstd::seq_lib::to_multiset_contains(sorted, sorted[i]);
        vstd::seq_lib::to_multiset_contains(ranges, sorted[i]);
        assert(sorted.contains(sorted[i]));
        let j = choose|j: int| 0 <= j < ranges.len() && ranges[j] == sorted[i];
        assert(ranges[j].start < ranges[j].end);
    }
    lemma_merged_ranges(sorted);
    assert forall|source: u32| #[trigger]
        layered::covered(result, source) <==> layered::covered(ranges, source) by {
        assert(layered::covered(sorted, source) <==> layered::covered(result, source));
        if layered::covered(sorted, source) {
            let i = choose|i: int| 0 <= i < sorted.len() && (#[trigger] sorted[i]).has(source);
            vstd::seq_lib::to_multiset_contains(sorted, sorted[i]);
            vstd::seq_lib::to_multiset_contains(ranges, sorted[i]);
            assert(sorted.contains(sorted[i]));
            let j = choose|j: int| 0 <= j < ranges.len() && ranges[j] == sorted[i];
            assert(ranges[j].has(source));
        }
        if layered::covered(ranges, source) {
            let i = choose|i: int| 0 <= i < ranges.len() && (#[trigger] ranges[i]).has(source);
            vstd::seq_lib::to_multiset_contains(sorted, ranges[i]);
            vstd::seq_lib::to_multiset_contains(ranges, ranges[i]);
            assert(ranges.contains(ranges[i]));
            let j = choose|j: int| 0 <= j < sorted.len() && sorted[j] == ranges[i];
            assert(sorted[j].has(source));
        }
    }
}

/// Merge ranges that overlap.
pub fn merge_ranges(ranges: Vec<SourceRange>) -> (result: Vec<SourceRange>)
    ensures
        is_range_merge(ranges@, result@),
{
    let sorted: Vec<SourceRange> = sort_ranked(ranges);
    let mut result: Vec<SourceRange> = Vec::new();
    for i in 0..sorted.len()
        invariant
            result@ == merged_ranges(sorted@.take(i as int)),
    {
        let next: SourceRange = sorted[i];
        let ghost before = result@;
        assert(sorted@.take(i + 1).drop_last() =~= sorted@.take(i as int));
        let count: usize = result.len();
        if count > 0 && next.start < result[count - 1].end {
            let last: SourceRange = result[count - 1];
            let end: u32 = if next.end > last.end {
                next.end
            } else {
                last.end
            };
            result.set(count - 1, SourceRange { start: last.start, end });
            assert(result@ =~= before.drop_last().push(SourceRange { start: last.start, end }));
        } else {
            result.push(next);
        }
    }
    assert(sorted@.take(sorted@.len() as int) =~= sorted@);
    result
}

/// The source ranges that segments are dirty in, merged where they overlap.
pub fn compacted_source_ranges(segments: &Vec<LoadedEdgeSegment>) -> (ranges: Vec<SourceRange>)
    ensures
        is_range_merge(dirty_ranges(loaded_views(segments@)), ranges@),
{
    let ghost held = loaded_views(segments@);
    let mut ranges: Vec<SourceRange> = Vec::new();
    assert(ranges@ =~= dirty_ranges(held.take(0)));
    for i in 0..segments.len()
        invariant
            held == loaded_views(segments@),
            ranges@ == dirty_ranges(held.take(i as int)),
    {
        assert(held[i as int] == segments@[i as int]@);
        push_segment_ranges(&segments[i].segment, &mut ranges);
        assert(held.take(i + 1).drop_last() =~= held.take(i as int));
    }
    assert(held.take(held.len() as int) =~= held);
    merge_ranges(ranges)
}

/// The ranges of the base chunks that ranges overlap.
pub open spec fn overlapped_ranges(chunks: Seq<ChunkRefView>, ranges: Seq<SourceRange>) -> Seq<
    SourceRange,
> {
    chunks.filter(|chunk: ChunkRefView| chunk::is_rewritten(chunk, ranges)).map_values(
        |chunk: ChunkRefView| chunk::chunk_range(chunk),
    )
}

/// Whether `result` are the ranges whose base chunks are rewritten for dirty
/// ranges: these ranges and those of the chunks that they overlap, merged.
pub open spec fn is_rewrite_range(
    dirty: Seq<SourceRange>,
    chunks: Seq<ChunkRefView>,
    result: Seq<SourceRange>,
) -> bool {
    is_range_merge(dirty + overlapped_ranges(chunks, dirty), result)
}

/// The ranges whose base chunks are rewritten: a chunk that a dirty range overlaps
/// is rewritten whole.
pub fn rewritten_ranges(dirty: &Vec<SourceRange>, chunks: &Vec<ManifestChunkRef>) -> (ranges: Vec<
    SourceRange,
>)
    ensures
        is_rewrite_range(dirty@, manifest::chunk_refs(chunks@), ranges@),
{
    let ghost refs = manifest::chunk_refs(chunks@);
    let mut ranges: Vec<SourceRange> = Vec::new();
    for i in 0..dirty.len()
        invariant
            ranges@ == dirty@.take(i as int),
    {
        ranges.push(dirty[i]);
        assert(ranges@ =~= dirty@.take(i + 1));
    }
    proof {
        reveal(Seq::filter);
        assert(ranges@ =~= dirty@ + overlapped_ranges(refs.take(0), dirty@));
    }
    for i in 0..chunks.len()
        invariant
            refs == manifest::chunk_refs(chunks@),
            ranges@ == dirty@ + overlapped_ranges(refs.take(i as int), dirty@),
    {
        assert(refs[i as int] == chunks@[i as int]@);
        let ghost before = ranges@;
        if chunk::rewritten(&chunks[i], dirty) {
            ranges.push(
                SourceRange { start: chunks[i].source_start, end: chunks[i].source_end },
            );
        }
        proof {
            reveal(Seq::filter);
            assert(refs.take(i + 1).drop_last() =~= refs.take(i as int));
            assert(ranges@ =~= dirty@ + overlapped_ranges(refs.take(i + 1), dirty@));
        }
    }
    assert(refs.take(refs.len() as int) =~= refs);
    merge_ranges(ranges)
}


// ---------------------------------------------------------------------------
// Compacted segment
// ---------------------------------------------------------------------------

/// The neighbor that a layered row leads to.
pub open spec fn row_key(row: (u32, LayeredEdge)) -> NeighborKey {
    NeighborKey {
        target: row.0,
        type_id: row.1.type_id,
        schema_reversed: row.1.schema_reversed,
    }
}

/// The weights of layered rows by the neighbors they lead to.
pub open spec fn rows_map(rows: Seq<(u32, LayeredEdge)>) -> Map<NeighborKey, Option<u32>>
    decreases rows.len(),
{
    if rows.len() == 0 {
        Map::empty()
    } else {
        rows_map(rows.drop_last()).insert(row_key(rows.last()), rows.last().1.weight)
    }
}

/// The edges that base and base chunks hold for a source.
pub open spec fn stored_of(layered: LayeredNeighbors, source: u32) -> Map<
    NeighborKey,
    Option<u32>,
> {
    layered.with_base(Map::empty(), TraversalDirection::Out, source)
}

/// The edges that base and base chunks hold for a source, by the neighbors they
/// lead to.
pub fn edge_set(layered: &LayeredNeighbors, source: u32) -> (edges: OrderedMap<
    NeighborKey,
    Option<u32>,
>)
    requires
        layered.wf(),
    ensures
        edges.wf(),
        edges@ == stored_of(*layered, source),
{
    let mut edges: OrderedMap<NeighborKey, Option<u32>> = OrderedMap::new();
    layered.merge_base(TraversalDirection::Out, source, &mut edges);
    edges
}

/// The edges of a layered node by the neighbors they lead to.
pub fn weighted_edge_map_from_layered(layered: &LayeredNeighbors, source: u32) -> (edges:
    OrderedMap<NeighborKey, Option<u32>>)
    requires
        layered.wf(),
    ensures
        edges.wf(),
        edges@ == rows_map(layered.rows(TraversalDirection::Out, source)),
{
    let rows: Vec<(u32, LayeredEdge)> = layered.merged_neighbors(
        TraversalDirection::Out,
        source,
        false,
    );
    rows_to_map(&rows)
}

fn rows_to_map(rows: &Vec<(u32, LayeredEdge)>) -> (edges: OrderedMap<NeighborKey, Option<u32>>)
    ensures
        edges.wf(),
        edges@ == rows_map(rows@),
{
    let mut edges: OrderedMap<NeighborKey, Option<u32>> = OrderedMap::new();
    for i in 0..rows.len()
        invariant
            edges.wf(),
            edges@ == rows_map(rows@.take(i as int)),
    {
        let (target, edge): (u32, LayeredEdge) = rows[i];
        assert(rows@.take(i + 1).drop_last() =~= rows@.take(i as int));
        edges.insert(
            NeighborKey { target, type_id: edge.type_id, schema_reversed: edge.schema_reversed },
            edge.weight,
        );
    }
    assert(rows@.take(rows@.len() as int) =~= rows@);
    edges
}

/// Segment row of an edge.
pub open spec fn edge_row(source: u32, key: NeighborKey) -> SegmentEdge {
    SegmentEdge {
        source,
        target: key.target,
        type_id: key.type_id,
        schema_reversed: key.schema_reversed,
    }
}

/// Weight row of an edge.
pub open spec fn weight_row(source: u32, key: NeighborKey, weight: u32) -> SegmentEdgeWeight {
    SegmentEdgeWeight {
        source,
        target: key.target,
        type_id: key.type_id,
        schema_reversed: key.schema_reversed,
        weight,
    }
}

/// The stored edges of a source that the layered read does not have.
pub open spec fn lost_rows(
    stored: Seq<(NeighborKey, Option<u32>)>,
    read: Map<NeighborKey, Option<u32>>,
    source: u32,
) -> Seq<SegmentEdge> {
    stored.filter(
        |entry: (NeighborKey, Option<u32>)| !read.contains_key(entry.0),
    ).map_values(|entry: (NeighborKey, Option<u32>)| edge_row(source, entry.0))
}

/// Whether base and base chunks have an edge with the weight that the layered read
/// gives it.
pub open spec fn in_base(
    base: Map<NeighborKey, Option<u32>>,
    row: (u32, LayeredEdge),
) -> bool {
    base.contains_key(row_key(row)) && base[row_key(row)] == row.1.weight
}

/// The edges of a source that the layered read has and base and base chunks have
/// not, or not with that weight.
pub open spec fn gained_rows(
    rows: Seq<(u32, LayeredEdge)>,
    base: Map<NeighborKey, Option<u32>>,
    source: u32,
) -> Seq<SegmentEdge> {
    rows.filter(|row: (u32, LayeredEdge)| !in_base(base, row)).map_values(
        |row: (u32, LayeredEdge)| edge_row(source, row_key(row)),
    )
}

/// The weights of the gained edges.
pub open spec fn gained_weights(
    rows: Seq<(u32, LayeredEdge)>,
    base: Map<NeighborKey, Option<u32>>,
    source: u32,
) -> Seq<SegmentEdgeWeight> {
    rows.filter(
        |row: (u32, LayeredEdge)| !in_base(base, row) && row.1.weight is Some,
    ).map_values(
        |row: (u32, LayeredEdge)| weight_row(source, row_key(row), row.1.weight->Some_0),
    )
}

/// The segment with the difference that the layered read of one source makes to
/// base and base chunks.
pub open spec fn with_source(
    segment: DeltaSegmentView,
    layered: LayeredNeighbors,
    source: u32,
) -> DeltaSegmentView {
    let rows = layered.rows(TraversalDirection::Out, source);
    let stored = stored_of(layered, source);
    DeltaSegmentView {
        edge_deletes: segment.edge_deletes + lost_rows(
            ordered_map::sorted_entries(stored),
            rows_map(rows),
            source,
        ),
        edge_inserts: segment.edge_inserts + gained_rows(rows, stored, source),
        edge_weights: segment.edge_weights + gained_weights(rows, stored, source),
        ..segment
    }
}

/// The segment with the difference for the sources from `start` up to `end`.
pub open spec fn with_sources(
    segment: DeltaSegmentView,
    layered: LayeredNeighbors,
    start: int,
    end: int,
) -> DeltaSegmentView
    decreases end - start,
{
    if end <= start {
        segment
    } else {
        with_source(
            with_sources(segment, layered, start, end - 1),
            layered,
            (end - 1) as u32,
        )
    }
}

/// The segment with the difference for the first `count` ranges.
pub open spec fn with_ranges(
    segment: DeltaSegmentView,
    layered: LayeredNeighbors,
    ranges: Seq<SourceRange>,
    count: int,
) -> DeltaSegmentView
    decreases count,
{
    if count <= 0 {
        segment
    } else {
        with_sources(
            with_ranges(segment, layered, ranges, count - 1),
            layered,
            ranges[count - 1].start as int,
            ranges[count - 1].end as int,
        )
    }
}

/// The least start of ranges, or zero.
pub open spec fn least_start(ranges: Seq<SourceRange>) -> u32
    decreases ranges.len(),
{
    if ranges.len() == 0 {
        0
    } else if ranges.len() == 1 {
        ranges[0].start
    } else {
        let earlier = least_start(ranges.drop_last());
        if ranges.last().start < earlier {
            ranges.last().start
        } else {
            earlier
        }
    }
}

/// The greatest end of ranges, or zero.
pub open spec fn greatest_end(ranges: Seq<SourceRange>) -> u32
    decreases ranges.len(),
{
    if ranges.len() == 0 {
        0
    } else {
        let earlier = greatest_end(ranges.drop_last());
        if ranges.last().end > earlier {
            ranges.last().end
        } else {
            earlier
        }
    }
}

/// The greatest level of segments, or zero.
pub open spec fn greatest_level(segments: Seq<LoadedView>) -> u8
    decreases segments.len(),
{
    if segments.len() == 0 {
        0
    } else {
        let earlier = greatest_level(segments.drop_last());
        if segments.last().segment.header.level > earlier {
            segments.last().segment.header.level
        } else {
            earlier
        }
    }
}

/// The level of the segment that compaction writes.
pub open spec fn next_level(segments: Seq<LoadedView>) -> u8 {
    if greatest_level(segments) >= 1 {
        2
    } else {
        1
    }
}

/// The segment that compaction writes, before its rows.
pub open spec fn blank_compacted(
    segments: Seq<LoadedView>,
    ranges: Seq<SourceRange>,
    sync_watermark: i64,
) -> Result<DeltaSegmentView, GraphErrorView> {
    segment::empty_segment(
        SegmentKind::Edge,
        next_level(segments),
        TraversalDirection::Out,
        least_start(ranges),
        greatest_end(ranges),
        sync_watermark,
    )
}

/// The segment that compaction writes: the difference that the layered read makes
/// to base and base chunks, over all sources that compacted segments are dirty in.
pub open spec fn compacted_segment(
    layered: LayeredNeighbors,
    segments: Seq<LoadedView>,
    ranges: Seq<SourceRange>,
    sync_watermark: i64,
) -> Result<DeltaSegmentView, GraphErrorView> {
    match blank_compacted(segments, ranges, sync_watermark) {
        Err(error) => Err(error),
        Ok(blank) => Ok(with_ranges(blank, layered, ranges, ranges.len() as int)),
    }
}

fn range_bounds(ranges: &Vec<SourceRange>) -> (bounds: (u32, u32))
    ensures
        bounds.0 == least_start(ranges@),
        bounds.1 == greatest_end(ranges@),
{
    if ranges.len() == 0 {
        return (0, 0);
    }
    let mut start: u32 = ranges[0].start;
    let mut end: u32 = ranges[0].end;
    proof {
        assert(ranges@.take(1).drop_last() =~= Seq::<SourceRange>::empty());
        reveal_with_fuel(greatest_end, 2);
    }
    for i in 1..ranges.len()
        invariant
            start == least_start(ranges@.take(i as int)),
            end == greatest_end(ranges@.take(i as int)),
    {
        assert(ranges@.take(i + 1).drop_last() =~= ranges@.take(i as int));
        if ranges[i].start < start {
            start = ranges[i].start;
        }
        if ranges[i].end > end {
            end = ranges[i].end;
        }
    }
    assert(ranges@.take(ranges@.len() as int) =~= ranges@);
    (start, end)
}

fn compacted_level(segments: &Vec<LoadedEdgeSegment>) -> (level: u8)
    ensures
        level == next_level(loaded_views(segments@)),
{
    let ghost held = loaded_views(segments@);
    let mut greatest: u8 = 0;
    for i in 0..segments.len()
        invariant
            held == loaded_views(segments@),
            greatest == greatest_level(held.take(i as int)),
    {
        assert(held[i as int] == segments@[i as int]@);
        assert(held.take(i + 1).drop_last() =~= held.take(i as int));
        if segments[i].segment.header.level > greatest {
            greatest = segments[i].segment.header.level;
        }
    }
    assert(held.take(held.len() as int) =~= held);
    let next: u8 = greatest.saturating_add(1);
    if next < 2 {
        next
    } else {
        2
    }
}

fn append_source(
    compacted: &mut DeltaSegment,
    layered: &LayeredNeighbors,
    source: u32,
)
    requires
        layered.wf(),
    ensures
        final(compacted)@ == with_source(old(compacted)@, *layered, source),
{
    let ghost start = compacted@;
    let rows: Vec<(u32, LayeredEdge)> = layered.merged_neighbors(
        TraversalDirection::Out,
        source,
        false,
    );
    let read: OrderedMap<NeighborKey, Option<u32>> = weighted_edge_map_from_layered(
        layered,
        source,
    );
    let stored: OrderedMap<NeighborKey, Option<u32>> = edge_set(layered, source);
    let ghost entries = stored.entries@;
    proof {
        ordered_map::lemma_sorted_entries(entries);
        reveal(Seq::filter);
        assert(compacted.edge_deletes@ =~= start.edge_deletes + lost_rows(
            entries.take(0),
            read@,
            source,
        ));
        assert(compacted.edge_inserts@ =~= start.edge_inserts + gained_rows(
            rows@.take(0),
            stored@,
            source,
        ));
        assert(compacted.edge_weights@ =~= start.edge_weights + gained_weights(
            rows@.take(0),
            stored@,
            source,
        ));
    }
    for i in 0..stored.entries.len()
        invariant
            read.wf(),
            entries == stored.entries@,
            compacted@ == (DeltaSegmentView {
                edge_deletes: start.edge_deletes + lost_rows(
                    entries.take(i as int),
                    read@,
                    source,
                ),
                ..start
            }),
    {
        let key: NeighborKey = stored.entries[i].0;
        let ghost before = compacted.edge_deletes@;
        if !read.contains(&key) {
            compacted.edge_deletes.push(
                SegmentEdge {
                    source,
                    target: key.target,
                    type_id: key.type_id,
                    schema_reversed: key.schema_reversed,
                },
            );
        }
        proof {
            reveal(Seq::filter);
            assert(entries.take(i + 1).drop_last() =~= entries.take(i as int));
            assert(compacted.edge_deletes@ =~= start.edge_deletes + lost_rows(
                entries.take(i + 1),
                read@,
                source,
            ));
        }
    }
    assert(entries.take(entries.len() as int) =~= entries);
    let ghost between = compacted@;
    for i in 0..rows.len()
        invariant
            stored.wf(),
            between.edge_inserts == start.edge_inserts,
            between.edge_weights == start.edge_weights,
            compacted@ == (DeltaSegmentView {
                edge_inserts: start.edge_inserts + gained_rows(
                    rows@.take(i as int),
                    stored@,
                    source,
                ),
                edge_weights: start.edge_weights + gained_weights(
                    rows@.take(i as int),
                    stored@,
                    source,
                ),
                ..between
            }),
    {
        let (target, edge): (u32, LayeredEdge) = rows[i];
        let neighbor: NeighborKey = NeighborKey {
            target,
            type_id: edge.type_id,
            schema_reversed: edge.schema_reversed,
        };
        let unchanged: bool = match stored.get(&neighbor) {
            Some(weight) => weight == edge.weight,
            None => false,
        };
        if !unchanged {
            compacted.edge_inserts.push(
                SegmentEdge {
                    source,
                    target,
                    type_id: edge.type_id,
                    schema_reversed: edge.schema_reversed,
                },
            );
            match edge.weight {
                Some(weight) => compacted.edge_weights.push(
                    SegmentEdgeWeight {
                        source,
                        target,
                        type_id: edge.type_id,
                        schema_reversed: edge.schema_reversed,
                        weight,
                    },
                ),
                None => {},
            }
        }
        proof {
            reveal(Seq::filter);
            assert(unchanged == in_base(stored@, rows@[i as int]));
            assert(rows@.take(i + 1).drop_last() =~= rows@.take(i as int));
            assert(compacted.edge_inserts@ =~= start.edge_inserts + gained_rows(
                rows@.take(i + 1),
                stored@,
                source,
            ));
            assert(compacted.edge_weights@ =~= start.edge_weights + gained_weights(
                rows@.take(i + 1),
                stored@,
                source,
            ));
        }
    }
    assert(rows@.take(rows@.len() as int) =~= rows@);
}

/// Whether sources are those that the layers of a read name, in order.
spec fn names_all(layered: LayeredNeighbors, named: Seq<u32>) -> bool {
    &&& sources::rising(named)
    &&& forall|source: u32| #[trigger]
        named.contains(source) <==> sources::names_source(layered, source)
}

/// Between two sources that a layer names nothing is read.
proof fn lemma_gap(layered: LayeredNeighbors, named: Seq<u32>, at: int, source: u32)
    requires
        names_all(layered, named),
        0 <= at <= named.len(),
        forall|i: int| 0 <= i < at ==> #[trigger] named[i] < source,
        at < named.len() ==> source < named[at],
    ensures
        stored_of(layered, source) == Map::<NeighborKey, Option<u32>>::empty(),
        layered.rows(TraversalDirection::Out, source).len() == 0,
{
    if named.contains(source) {
        let i = choose|i: int| 0 <= i < named.len() && named[i] == source;
        if i > at {
            assert(named[at] < named[i]);
        }
    }
    sources::lemma_unnamed_source(layered, source);
}

/// Sources without edges add nothing to a segment.
proof fn lemma_sources_gap(
    segment: DeltaSegmentView,
    layered: LayeredNeighbors,
    named: Seq<u32>,
    at: int,
    start: int,
    from: int,
    end: int,
)
    requires
        names_all(layered, named),
        0 <= at <= named.len(),
        0 <= start <= from <= end <= u32::MAX,
        forall|i: int| 0 <= i < at ==> #[trigger] named[i] < from,
        at < named.len() ==> end <= named[at],
    ensures
        with_sources(segment, layered, start, end) == with_sources(segment, layered, start, from),
    decreases end - from,
{
    if from < end {
        let last = (end - 1) as u32;
        lemma_sources_gap(segment, layered, named, at, start, from, end - 1);
        lemma_gap(layered, named, at, last);
        let before = with_sources(segment, layered, start, end - 1);
        let entries = Seq::<(NeighborKey, Option<u32>)>::empty();
        let rows = layered.rows(TraversalDirection::Out, last);
        ordered_map::lemma_no_entries(entries);
        ordered_map::lemma_sorted_entries(entries);
        reveal(Seq::filter);
        assert(with_source(before, layered, last).edge_deletes =~= before.edge_deletes);
        assert(with_source(before, layered, last).edge_inserts =~= before.edge_inserts);
        assert(with_source(before, layered, last).edge_weights =~= before.edge_weights);
    }
}

/// Append the difference for a range: only sources that a layer names make one.
fn append_range(
    compacted: &mut DeltaSegment,
    layered: &LayeredNeighbors,
    named: &Vec<u32>,
    range: SourceRange,
)
    requires
        layered.wf(),
        names_all(*layered, named@),
    ensures
        final(compacted)@ == with_sources(
            old(compacted)@,
            *layered,
            range.start as int,
            range.end as int,
        ),
{
    let ghost start = compacted@;
    if range.start >= range.end {
        return;
    }
    let mut at: usize = first_from(named, range.start);
    let ghost mut next: int = range.start as int;
    while at < named.len() && named[at] < range.end
        invariant
            layered.wf(),
            names_all(*layered, named@),
            at <= named@.len(),
            range.start <= next <= range.end,
            forall|i: int| 0 <= i < at ==> #[trigger] named@[i] < next,
            forall|i: int| at <= i < named@.len() ==> #[trigger] named@[i] >= next,
            compacted@ == with_sources(start, *layered, range.start as int, next),
        decreases named@.len() - at,
    {
        let source: u32 = named[at];
        proof {
            lemma_sources_gap(
                start,
                *layered,
                named@,
                at as int,
                range.start as int,
                next,
                source as int,
            );
        }
        append_source(compacted, layered, source);
        proof {
            next = source + 1;
            assert forall|i: int| at < i < named@.len() implies #[trigger] named@[i] >= next by {
                assert(named@[at as int] < named@[i]);
            }
        }
        at = at + 1;
    }
    proof {
        lemma_sources_gap(
            start,
            *layered,
            named@,
            at as int,
            range.start as int,
            next,
            range.end as int,
        );
    }
}

/// The segment that compaction writes.
pub fn build_compacted_segment(
    layered: &LayeredNeighbors,
    segments: &Vec<LoadedEdgeSegment>,
    ranges: &Vec<SourceRange>,
    sync_watermark: i64,
) -> (result: GraphResult<DeltaSegment>)
    requires
        layered.wf(),
    ensures
        safety::outcome(result) == compacted_segment(
            *layered,
            loaded_views(segments@),
            ranges@,
            sync_watermark,
        ),
{
    let (source_start, source_end): (u32, u32) = range_bounds(ranges);
    let mut compacted: DeltaSegment = DeltaSegment::new(
        SegmentKind::Edge,
        compacted_level(segments),
        TraversalDirection::Out,
        source_start,
        source_end,
        sync_watermark,
    )?;
    let ghost blank = compacted@;
    let named: Vec<u32> = named_sources(layered);
    for i in 0..ranges.len()
        invariant
            layered.wf(),
            names_all(*layered, named@),
            compacted@ == with_ranges(blank, *layered, ranges@, i as int),
    {
        append_range(&mut compacted, layered, &named, ranges[i]);
    }
    Ok(compacted)
}

// ---------------------------------------------------------------------------
// Materialized store
// ---------------------------------------------------------------------------

/// The raw edge of a layered row.
pub open spec fn raw_edge(source: u32, row: (u32, LayeredEdge)) -> RawEdge {
    RawEdge {
        source,
        target: row.0,
        type_id: row.1.type_id,
        weight: row.1.weight,
        schema_reversed: row.1.schema_reversed,
    }
}

/// The raw edges that a layered read gives for the sources below `end`.
pub open spec fn read_edges(layered: LayeredNeighbors, end: int) -> Seq<RawEdge>
    decreases end,
{
    if end <= 0 {
        Seq::empty()
    } else {
        read_edges(layered, end - 1) + layered.rows(
            TraversalDirection::Out,
            (end - 1) as u32,
        ).map_values(|row: (u32, LayeredEdge)| raw_edge((end - 1) as u32, row))
    }
}

/// Whether a layered read has weights.
pub open spec fn reads_weights(layered: LayeredNeighbors) -> bool {
    ||| layered.base.weighted
    ||| layered::has_weight(layered.base_chunk_out@)
    ||| layered::has_weight(layered.durable_out@)
    ||| layered.transaction matches Some(delta) && layered::adds_weight(delta@.added_edges)
}

/// Sources without edges add nothing to what is read.
proof fn lemma_read_gap(layered: LayeredNeighbors, named: Seq<u32>, at: int, from: int, end: int)
    requires
        names_all(layered, named),
        0 <= at <= named.len(),
        0 <= from <= end <= u32::MAX,
        forall|i: int| 0 <= i < at ==> #[trigger] named[i] < from,
        at < named.len() ==> end <= named[at],
    ensures
        read_edges(layered, end) == read_edges(layered, from),
    decreases end - from,
{
    if from < end {
        lemma_read_gap(layered, named, at, from, end - 1);
        lemma_gap(layered, named, at, (end - 1) as u32);
        assert(read_edges(layered, end) =~= read_edges(layered, end - 1));
    }
}

/// A store with the edges that a layered read gives for the nodes below
/// `node_count`. Only sources that a layer names are read.
pub fn materialize_layered_store(layered: &LayeredNeighbors, node_count: u32) -> (store: EdgeStore)
    requires
        layered.wf(),
    ensures
        store.wf(),
        store.node_count == node_count,
        store.weighted == reads_weights(*layered),
        store.edges@ == edge_store::stored_edges(
            read_edges(*layered, node_count as int),
            node_count,
            reads_weights(*layered),
        ),
{
    let mut edges: Vec<RawEdge> = Vec::new();
    let has_weights: bool = layered.has_weighted_edges();
    let named: Vec<u32> = named_sources(layered);
    let mut at: usize = 0;
    let ghost mut next: int = 0;
    while at < named.len() && named[at] < node_count
        invariant
            layered.wf(),
            names_all(*layered, named@),
            at <= named@.len(),
            0 <= next <= node_count,
            forall|i: int| 0 <= i < at ==> #[trigger] named@[i] < next,
            forall|i: int| at <= i < named@.len() ==> #[trigger] named@[i] >= next,
            edges@ == read_edges(*layered, next),
        decreases named@.len() - at,
    {
        let source: u32 = named[at];
        proof {
            lemma_read_gap(*layered, named@, at as int, next, source as int);
        }
        let rows: Vec<(u32, LayeredEdge)> = layered.merged_neighbors(
            TraversalDirection::Out,
            source,
            false,
        );
        let ghost before = edges@;
        let ghost added = rows@.map_values(|row: (u32, LayeredEdge)| raw_edge(source, row));
        for i in 0..rows.len()
            invariant
                added == rows@.map_values(|row: (u32, LayeredEdge)| raw_edge(source, row)),
                edges@ == before + added.take(i as int),
        {
            let (target, edge): (u32, LayeredEdge) = rows[i];
            edges.push(
                RawEdge {
                    source,
                    target,
                    type_id: edge.type_id,
                    weight: edge.weight,
                    schema_reversed: edge.schema_reversed,
                },
            );
            assert(edges@ =~= before + added.take(i + 1));
        }
        assert(added.take(rows@.len() as int) =~= added);
        assert(edges@ =~= read_edges(*layered, source + 1));
        proof {
            next = source + 1;
            assert forall|i: int| at < i < named@.len() implies #[trigger] named@[i] >= next by {
                assert(named@[at as int] < named@[i]);
            }
        }
        at = at + 1;
    }
    proof {
        lemma_read_gap(*layered, named@, at as int, next, node_count as int);
    }
    EdgeStore::from_edges(node_count, edges, has_weights)
}

// ---------------------------------------------------------------------------
// Compaction
// ---------------------------------------------------------------------------

/// What one compaction pass publishes.
#[derive(Debug, Clone, PartialEq, Eq)]
pub enum CompactionPlan {
    /// There is nothing to compact.
    Unchanged,
    /// One segment takes the place of the compacted ones.
    Segment(CompactedSegment),
    /// Base chunks take the place of the compacted segments.
    Chunks(DirtyChunks),
}

/// Segment that takes the place of others.
#[derive(Debug, Clone, PartialEq, Eq)]
pub struct CompactedSegment {
    /// Generation to publish.
    pub generation_id: u64,
    /// Segment to write.
    pub segment: DeltaSegment,
    /// Segments that stay.
    pub retained: Vec<ManifestSegmentRef>,
    /// Files of the segments that leave.
    pub obsolete: Vec<ManifestFileRef>,
}

/// Source ranges whose base chunks are rewritten.
#[derive(Debug, Clone, PartialEq, Eq)]
pub struct DirtyChunks {
    /// Store with the edges that the chunks get.
    pub store: EdgeStore,
    /// Ranges to rewrite.
    pub ranges: Vec<SourceRange>,
    /// Segments that stay.
    pub retained: Vec<ManifestSegmentRef>,
    /// Files of the segments that leave.
    pub obsolete: Vec<ManifestFileRef>,
}

/// Files of compacted segments.
pub open spec fn obsolete_of(segments: Seq<LoadedView>) -> Seq<FileRefView> {
    segments.map_values(
        |loaded: LoadedView| FileRefView { path: loaded.reference.path, bytes: 0 },
    )
}

fn obsolete_files(segments: &Vec<LoadedEdgeSegment>) -> (files: Vec<ManifestFileRef>)
    ensures
        manifest::file_refs(files@) == obsolete_of(loaded_views(segments@)),
{
    let ghost held = loaded_views(segments@);
    let mut files: Vec<ManifestFileRef> = Vec::new();
    for i in 0..segments.len()
        invariant
            held == loaded_views(segments@),
            manifest::file_refs(files@) == obsolete_of(held).take(i as int),
    {
        let ghost before = manifest::file_refs(files@);
        assert(held[i as int] == segments@[i as int]@);
        let next: ManifestFileRef = ManifestFileRef {
            path: segments[i].reference.path.clone(),
            bytes: 0,
        };
        files.push(next);
        assert(manifest::file_refs(files@) =~= before.push(next@));
        assert(manifest::file_refs(files@) =~= obsolete_of(held).take(i + 1));
    }
    assert(manifest::file_refs(files@) =~= obsolete_of(held));
    files
}

/// Whether enough segments are dirty to rewrite base chunks.
pub open spec fn rewrites_chunks(budgets: CompactionBudgets, segments: nat) -> bool {
    budgets.dirty_chunk_segment_threshold matches Some(threshold) && segments >= threshold
}

/// The number of nodes of the store that chunks over ranges are built from: all
/// nodes of the base, and all sources of the ranges.
pub open spec fn rewritten_nodes(base: EdgeStore, ranges: Seq<SourceRange>) -> u32 {
    if greatest_end(ranges) > base.node_count {
        greatest_end(ranges)
    } else {
        base.node_count
    }
}

/// Whether a plan is the one that compacted segments call for over a layered
/// read.
pub open spec fn is_plan(
    plan: CompactionPlan,
    previous: ManifestView,
    loaded: Seq<LoadedView>,
    layered: LayeredNeighbors,
    base: EdgeStore,
    budgets: CompactionBudgets,
) -> bool {
    match plan {
        CompactionPlan::Unchanged => false,
        CompactionPlan::Segment(compacted) => {
            &&& !rewrites_chunks(budgets, loaded.len())
            &&& compacted.generation_id == previous.generation_id + 1
            &&& exists|ranges: Seq<SourceRange>| #[trigger]
                is_range_merge(dirty_ranges(loaded), ranges) && compacted_segment(
                    layered,
                    loaded,
                    ranges,
                    previous.sync_watermark,
                ) == Ok::<_, GraphErrorView>(compacted.segment@)
            &&& manifest::segment_refs(compacted.retained@) == retained(previous.segments, loaded)
            &&& manifest::file_refs(compacted.obsolete@) == obsolete_of(loaded)
        },
        CompactionPlan::Chunks(chunks) => {
            &&& rewrites_chunks(budgets, loaded.len())
            &&& chunks.store.wf()
            &&& chunks.store.node_count == rewritten_nodes(base, chunks.ranges@)
            &&& chunks.store.weighted == reads_weights(layered)
            &&& chunks.store.edges@ == edge_store::stored_edges(
                read_edges(layered, rewritten_nodes(base, chunks.ranges@) as int),
                rewritten_nodes(base, chunks.ranges@),
                reads_weights(layered),
            )
            &&& exists|dirty: Seq<SourceRange>| #[trigger]
                is_range_merge(dirty_ranges(loaded), dirty) && is_rewrite_range(
                    dirty,
                    previous.base_chunks,
                    chunks.ranges@,
                )
            &&& manifest::segment_refs(chunks.retained@) == retained(previous.segments, loaded)
            &&& manifest::file_refs(chunks.obsolete@) == obsolete_of(loaded)
        },
    }
}

/// Whether compaction over a layered read fails with an error.
pub open spec fn plan_fails(
    error: GraphErrorView,
    previous: ManifestView,
    loaded: Seq<LoadedView>,
    layered: LayeredNeighbors,
    budgets: CompactionBudgets,
) -> bool {
    &&& !rewrites_chunks(budgets, loaded.len())
    &&& exists|ranges: Seq<SourceRange>| #[trigger]
        is_range_merge(dirty_ranges(loaded), ranges) && match compacted_segment(
            layered,
            loaded,
            ranges,
            previous.sync_watermark,
        ) {
            Err(given) => error == given,
            Ok(_) => manifest::following(previous.generation_id) == Err::<u64, _>(error),
        }
}

/// Whether a result is what compaction gives for the edge segments that it takes
/// in.
pub open spec fn compacts_loaded(
    result: GraphResult<CompactionPlan>,
    previous: ManifestView,
    loaded: Seq<LoadedView>,
    segment_files: Seq<Result<Seq<u8>, Seq<char>>>,
    chunk_files: Seq<Result<Seq<u8>, Seq<char>>>,
    base: EdgeStore,
    budgets: CompactionBudgets,
    elapsed_nanos: u128,
) -> bool {
    if loaded.len() == 0 {
        result == Ok::<CompactionPlan, GraphError>(CompactionPlan::Unchanged)
    } else if budget_error(loaded, budgets, elapsed_nanos) is Some {
        result matches Err(given) && given@ == budget_error(loaded, budgets, elapsed_nanos)->0
    } else {
        exists|read: GraphResult<LayeredNeighbors>| #[trigger]
            LayeredNeighbors::loads(
                read,
                &base,
                None,
                layered::loaded_chunks(previous.base_chunks, chunk_files, 0, Seq::empty()),
                layered::loaded_segments(previous.segments, segment_files, 0, Seq::empty()),
                None,
                None,
            ) && match read {
                Err(error) => result matches Err(given) && given@ == error@,
                Ok(layered) => match result {
                    Ok(plan) => is_plan(plan, previous, loaded, layered, base, budgets),
                    Err(error) => plan_fails(error@, previous, loaded, layered, budgets),
                },
            }
    }
}

/// Whether a result is what compaction of a generation gives.
pub open spec fn compacts(
    result: GraphResult<CompactionPlan>,
    previous: ManifestView,
    segment_files: Seq<Result<Seq<u8>, Seq<char>>>,
    chunk_files: Seq<Result<Seq<u8>, Seq<char>>>,
    base: EdgeStore,
    budgets: CompactionBudgets,
    elapsed_nanos: u128,
) -> bool {
    match edge_segments_of(previous.segments, segment_files, 0, Seq::empty()) {
        Err(error) => result matches Err(given) && given@ == error,
        Ok(loaded) => compacts_loaded(
            result,
            previous,
            loaded,
            segment_files,
            chunk_files,
            base,
            budgets,
            elapsed_nanos,
        ),
    }
}

/// Compact segment fanout for one manifest generation. `segment_files` and
/// `chunk_files` are what reading the files of the manifest gave, in its order.
pub fn compact_generation(
    previous: &ProjectionManifest,
    segment_files: &Vec<FileRead>,
    chunk_files: &Vec<FileRead>,
    base: &EdgeStore,
    budgets: CompactionBudgets,
    elapsed_nanos: u128,
) -> (result: GraphResult<CompactionPlan>)
    requires
        base.wf(),
        segment_files@.len() == previous@.segments.len(),
        chunk_files@.len() == previous@.base_chunks.len(),
    ensures
        compacts(
            result,
            previous@,
            layered::file_views(segment_files@),
            layered::file_views(chunk_files@),
            *base,
            budgets,
            elapsed_nanos,
        ),
{
    match load_edge_segments(previous, segment_files) {
        Ok(loaded) => compact_loaded(
            previous,
            &loaded,
            segment_files,
            chunk_files,
            base,
            budgets,
            elapsed_nanos,
        ),
        Err(error) => Err(error),
    }
}

/// Compact the edge segments of a generation that were loaded from its files.
pub fn compact_loaded(
    previous: &ProjectionManifest,
    edge_segments: &Vec<LoadedEdgeSegment>,
    segment_files: &Vec<FileRead>,
    chunk_files: &Vec<FileRead>,
    base: &EdgeStore,
    budgets: CompactionBudgets,
    elapsed_nanos: u128,
) -> (result: GraphResult<CompactionPlan>)
    requires
        base.wf(),
        segment_files@.len() == previous@.segments.len(),
        chunk_files@.len() == previous@.base_chunks.len(),
    ensures
        compacts_loaded(
            result,
            previous@,
            loaded_views(edge_segments@),
            layered::file_views(segment_files@),
            layered::file_views(chunk_files@),
            *base,
            budgets,
            elapsed_nanos,
        ),
{
    let ghost loaded = loaded_views(edge_segments@);
    if edge_segments.len() == 0 {
        return Ok(CompactionPlan::Unchanged);
    }
    match validate_budgets(edge_segments, budgets, elapsed_nanos) {
        Ok(_) => {},
        Err(error) => {
            return Err(error);
        },
    }
    let ranges: Vec<SourceRange> = compacted_source_ranges(edge_segments);
    let kept: Vec<ManifestSegmentRef> = retained_segments(previous, edge_segments);
    let obsolete: Vec<ManifestFileRef> = obsolete_files(edge_segments);
    let provider: ManifestSegmentProvider = ManifestSegmentProvider::new(
        previous,
        segment_files,
        chunk_files,
    );
    let read: GraphResult<LayeredNeighbors> = LayeredNeighbors::from_provider(base, &provider);
    let ghost given_read = read;
    assert(LayeredNeighbors::loads(
        given_read,
        base,
        None,
        layered::loaded_chunks(
            previous@.base_chunks,
            layered::file_views(chunk_files@),
            0,
            Seq::empty(),
        ),
        layered::loaded_segments(
            previous@.segments,
            layered::file_views(segment_files@),
            0,
            Seq::empty(),
        ),
        None,
        None,
    ));
    let layered: LayeredNeighbors = match read {
        Ok(layered) => layered,
        Err(error) => {
            return Err(error);
        },
    };
    let dirty: bool = match budgets.dirty_chunk_segment_threshold {
        Some(threshold) => edge_segments.len() >= threshold,
        None => false,
    };
    if dirty {
        let rewritten: Vec<SourceRange> = rewritten_ranges(&ranges, &previous.base_chunks);
        let (_, end): (u32, u32) = range_bounds(&rewritten);
        let node_count: u32 = if end > base.node_count() {
            end
        } else {
            base.node_count()
        };
        let store: EdgeStore = materialize_layered_store(&layered, node_count);
        let plan: CompactionPlan = CompactionPlan::Chunks(
            DirtyChunks { store, ranges: rewritten, retained: kept, obsolete },
        );
        assert(is_plan(plan, previous@, loaded, layered, *base, budgets));
        return Ok(plan);
    }
    let segment: DeltaSegment = match build_compacted_segment(
        &layered,
        edge_segments,
        &ranges,
        previous.sync_watermark,
    ) {
        Ok(segment) => segment,
        Err(error) => {
            assert(plan_fails(error@, previous@, loaded, layered, budgets));
            return Err(error);
        },
    };
    match manifest::following_generation_id(previous.generation_id) {
        Ok(generation_id) => {
            let plan: CompactionPlan = CompactionPlan::Segment(
                CompactedSegment { generation_id, segment, retained: kept, obsolete },
            );
            assert(is_plan(plan, previous@, loaded, layered, *base, budgets));
            Ok(plan)
        },
        Err(error) => {
            assert(plan_fails(error@, previous@, loaded, layered, budgets));
            Err(error)
        },
    }
}

/// The manifest that a compaction publishes.
pub open spec fn compaction_manifest_of(
    previous: ManifestView,
    generation_id: u64,
    segments: Seq<SegmentRefView>,
    obsolete: Seq<FileRefView>,
    now_unix_micros: i64,
) -> ManifestView {
    ManifestView {
        previous_generation_id: Some(previous.generation_id),
        last_ingestion_unix_micros: previous.last_ingestion_unix_micros,
        last_compaction_unix_micros: Some(now_unix_micros),
        last_repair_unix_micros: previous.last_repair_unix_micros,
        base_chunks: previous.base_chunks,
        segments,
        obsolete_files: previous.obsolete_files + obsolete,
        ..manifest::base_manifest(
            generation_id,
            previous.base_artifact_path,
            previous.base_artifact_checksum,
            previous.base_artifact_version,
            previous.sync_watermark,
            now_unix_micros,
        )
    }
}

/// The manifest that a compaction publishes once its segment is written.
pub fn compaction_manifest(
    previous: &ProjectionManifest,
    generation_id: u64,
    retained: Vec<ManifestSegmentRef>,
    segment_ref: ManifestSegmentRef,
    obsolete: Vec<ManifestFileRef>,
    now_unix_micros: i64,
) -> (manifest: ProjectionManifest)
    ensures
        manifest@ == compaction_manifest_of(
            previous@,
            generation_id,
            manifest::segment_refs(retained@).push(segment_ref@),
            manifest::file_refs(obsolete@),
            now_unix_micros,
        ),
{
    let mut manifest: ProjectionManifest = ProjectionManifest::base_only(
        generation_id,
        previous.base_artifact_path.as_str(),
        previous.base_artifact_checksum.as_str(),
        previous.base_artifact_version,
        previous.sync_watermark,
        now_unix_micros,
    );
    manifest.previous_generation_id = Some(previous.generation_id);
    manifest.inherit_operation_timestamps(previous);
    manifest.mark_compaction();
    manifest.base_chunks = manifest::duplicate_chunks(&previous.base_chunks);
    let mut segments: Vec<ManifestSegmentRef> = retained;
    let ghost kept = manifest::segment_refs(segments@);
    segments.push(segment_ref);
    assert(manifest::segment_refs(segments@) =~= kept.push(segment_ref@));
    manifest.segments = segments;
    manifest.obsolete_files = extended_files(&previous.obsolete_files, obsolete);
    assert(manifest@ =~= compaction_manifest_of(
        previous@,
        generation_id,
        kept.push(segment_ref@),
        manifest::file_refs(obsolete@),
        now_unix_micros,
    ));
    manifest
}

/// File references followed by more of them.
pub fn extended_files(files: &Vec<ManifestFileRef>, more: Vec<ManifestFileRef>) -> (all: Vec<
    ManifestFileRef,
>)
    ensures
        manifest::file_refs(all@) == manifest::file_refs(files@) + manifest::file_refs(more@),
{
    let mut all: Vec<ManifestFileRef> = manifest::duplicate_files(files);
    let ghost start = manifest::file_refs(files@);
    let ghost added = manifest::file_refs(more@);
    for i in 0..more.len()
        invariant
            added == manifest::file_refs(more@),
            manifest::file_refs(all@) == start + added.take(i as int),
    {
        let ghost before = manifest::file_refs(all@);
        let next: ManifestFileRef = more[i].duplicate();
        all.push(next);
        assert(manifest::file_refs(all@) =~= before.push(next@));
        assert(manifest::file_refs(all@) =~= start + added.take(i + 1));
    }
    assert(added.take(added.len() as int) =~= added);
    all
}

/// The name of a compacted segment file.
pub open spec fn compacted_name(generation_id: u64, segment_id: u32) -> Seq<char> {
    "projection-generation-"@ + text::fixed_digits(generation_id as nat, 10, 20)
        + "-compact-segment-"@ + ingest::padded(segment_id as nat, 8) + ".pggraph-delta"@
}

/// The name of a compacted segment file.
pub fn compacted_segment_file_name(generation_id: u64, segment_id: u32) -> (name: String)
    ensures
        name@ == compacted_name(generation_id, segment_id),
{
    concat5(
        "projection-generation-",
        fixed_digits_text(generation_id, 10, 20).as_str(),
        "-compact-segment-",
        ingest::padded_text(segment_id).as_str(),
        ".pggraph-delta",
    )
}

} // verus!
