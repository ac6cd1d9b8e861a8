//! What holds of every generation that ingestion and compaction publish.
use vstd::prelude::*;

use crate::edge_store::EdgeStore;
use crate::projection::chunk;
use crate::projection::compact::{
    self, CompactedSegment, CompactionBudgets, CompactionPlan, DirtyChunks, LoadedView,
};
use crate::projection::compaction_laws::{
    self, chunk_contents, levels_named, paths_differ, segment_contents, Content,
};
use crate::projection::ingest::{self, IngestPlanView, ProjectionIngester, ProjectionSyncRow};
use crate::projection::layered::{self, LayeredNeighbors, SourceRange};
use crate::projection::manifest::{self, ChunkRefView, FileRefView, ManifestView, SegmentRefView};
use crate::projection::neighbors::NeighborSource;
use crate::projection::normalize::{
    self, CommittedMutation, MutationBufferLimits, NormalizedMutation,
};
use crate::projection::preservation::{self, chunk_span, left, taken};
use crate::projection::readers;
use crate::projection::segment::{self, DeltaSegmentView};
use crate::safety::GraphErrorView;
use crate::text;
use crate::types::TraversalDirection;

verus! {

// ---------------------------------------------------------------------------
// File names
// ---------------------------------------------------------------------------

proof fn lemma_digits_len(n: nat, width: nat)
    ensures
        text::fixed_digits(n, 10, width).len() == width,
    decreases width,
{
    if width > 0 {
        lemma_digits_len(n / 10, (width - 1) as nat);
    }
}

proof fn lemma_digits_unique(a: nat, b: nat, width: nat)
    requires
        text::fixed_digits(a, 10, width) == text::fixed_digits(b, 10, width),
        a < vstd::arithmetic::power::pow(10, width),
        b < vstd::arithmetic::power::pow(10, width),
    ensures
        a == b,
    decreases width,
{
    vstd::arithmetic::power::lemma_pow0(10);
    if width > 0 {
        let fewer = (width - 1) as nat;
        let x = text::fixed_digits(a / 10, 10, fewer);
        let y = text::fixed_digits(b / 10, 10, fewer);
        let p = text::digit_char(a % 10);
        let q = text::digit_char(b % 10);
        assert(x.push(p).last() == y.push(q).last());
        assert(x.push(p).drop_last() =~= x);
        assert(y.push(q).drop_last() =~= y);
        vstd::arithmetic::power::lemma_pow1(10);
        vstd::arithmetic::power::lemma_pow_adds(10, 1, fewer);
        lemma_digits_unique(a / 10, b / 10, fewer);
        assert(a % 10 == b % 10);
    }
}

/// Where the digits of a generation stand in the name of a segment file.
proof fn lemma_name_digits(rest: Seq<char>, generation_id: u64)
    ensures
        ("projection-generation-"@ + text::fixed_digits(generation_id as nat, 10, 20)
            + rest).subrange(22, 42) == text::fixed_digits(generation_id as nat, 10, 20),
{
    reveal_strlit("projection-generation-");
    lemma_digits_len(generation_id as nat, 20);
    assert(("projection-generation-"@ + text::fixed_digits(generation_id as nat, 10, 20)
        + rest).subrange(22, 42) =~= text::fixed_digits(generation_id as nat, 10, 20));
}

/// Whether a path is the name of a segment file of a generation.
pub open spec fn names_generation(path: Seq<char>, generation_id: u64) -> bool {
    exists|segment_id: u32|
        path == #[trigger] ingest::segment_name(generation_id, segment_id) || path
            == compact::compacted_name(generation_id, segment_id)
}

proof fn lemma_named_digits(path: Seq<char>, generation_id: u64)
    requires
        names_generation(path, generation_id),
    ensures
        path.subrange(22, 42) == text::fixed_digits(generation_id as nat, 10, 20),
{
    let segment_id = choose|segment_id: u32|
        path == #[trigger] ingest::segment_name(generation_id, segment_id) || path
            == compact::compacted_name(generation_id, segment_id);
    let front = "projection-generation-"@ + text::fixed_digits(generation_id as nat, 10, 20);
    let number = ingest::padded(segment_id as nat, 8);
    let one = "-segment-"@ + number + ".pggraph-delta"@;
    let other = "-compact-segment-"@ + number + ".pggraph-delta"@;
    lemma_name_digits(one, generation_id);
    lemma_name_digits(other, generation_id);
    assert(ingest::segment_name(generation_id, segment_id) =~= front + one);
    assert(compact::compacted_name(generation_id, segment_id) =~= front + other);
}

/// Segment files of different generations have different names.
pub proof fn lemma_generations_have_files_of_their_own(
    a: Seq<char>,
    b: Seq<char>,
    generation_a: u64,
    generation_b: u64,
)
    requires
        names_generation(a, generation_a),
        names_generation(b, generation_b),
        generation_a != generation_b,
    ensures
        a != b,
{
    lemma_named_digits(a, generation_a);
    lemma_named_digits(b, generation_b);
    if a == b {
        assert(vstd::arithmetic::power::pow(10, 20) == 100_000_000_000_000_000_000) by {
            reveal(vstd::arithmetic::power::pow);
            reveal_with_fuel(vstd::arithmetic::power::pow, 21);
        }
        lemma_digits_unique(generation_a as nat, generation_b as nat, 20);
    }
}

/// Segments of one ingestion have files of their own.
proof fn lemma_small_ids_differ(generation_id: u64, a: u32, b: u32)
    requires
        a < b < 10,
    ensures
        ingest::segment_name(generation_id, a) != ingest::segment_name(generation_id, b),
{
    let x = ingest::padded(a as nat, 8);
    let y = ingest::padded(b as nat, 8);
    lemma_small_padded(a as nat);
    lemma_small_padded(b as nat);
    reveal_strlit(".pggraph-delta");
    let front = "projection-generation-"@ + text::fixed_digits(generation_id as nat, 10, 20)
        + "-segment-"@;
    let p = ingest::segment_name(generation_id, a);
    let q = ingest::segment_name(generation_id, b);
    assert(p[front.len() as int + 7] == x[7]);
    assert(q[front.len() as int + 7] == y[7]);
}

proof fn lemma_small_padded(n: nat)
    requires
        n < 10,
    ensures
        ingest::padded(n, 8).len() == 8,
        ingest::padded(n, 8)[7] == text::digit_char(n),
{
    assert(text::decimal(n).len() == 1);
    lemma_digits_len(n, 8);
    lemma_digits_len(n / 10, 7);
}

// ---------------------------------------------------------------------------
// Published generations
// ---------------------------------------------------------------------------

/// Whether a path is the name of a segment file of a generation or an earlier one.
pub open spec fn named_up_to(path: Seq<char>, generation_id: u64) -> bool {
    exists|earlier: u64|
        earlier <= generation_id && #[trigger] names_generation(path, earlier)
}

/// Whether the segments of a generation are as ingestion and compaction publish them:
/// they have files of their own, named by this generation or an earlier one, their
/// references name their levels, and none is above level two.
pub open spec fn published_segments(
    refs: Seq<SegmentRefView>,
    generation_id: u64,
    held: Seq<DeltaSegmentView>,
) -> bool {
    &&& refs.len() == held.len()
    &&& forall|i: int|
        0 <= i < refs.len() ==> named_up_to((#[trigger] refs[i]).path, generation_id)
    &&& paths_differ(refs)
    &&& levels_named(refs, held)
    &&& forall|i: int| 0 <= i < held.len() ==> (#[trigger] held[i]).header.level <= 2
}

/// Where no segment is above level two, compaction takes in all edge segments, so that
/// those it leaves speak of no edge.
pub proof fn lemma_published_segments_are_apart(
    refs: Seq<SegmentRefView>,
    generation_id: u64,
    held: Seq<DeltaSegmentView>,
)
    requires
        published_segments(refs, generation_id, held),
    ensures
        preservation::apart(held),
        forall|i: int|
            0 <= i < held.len() ==> (taken(#[trigger] held[i]) <==> held[i].header.kind is Edge),
{
}

/// A generation without segments, as a rebuild publishes it, is a published one.
pub proof fn lemma_base_generation_is_published(generation_id: u64)
    ensures
        published_segments(Seq::empty(), generation_id, Seq::empty()),
{
}

/// A later generation that keeps the segments of a published one, as a repair of base
/// chunks does, is a published one.
pub proof fn lemma_kept_segments_are_published(
    refs: Seq<SegmentRefView>,
    generation_id: u64,
    later: u64,
    held: Seq<DeltaSegmentView>,
)
    requires
        published_segments(refs, generation_id, held),
        generation_id <= later,
    ensures
        published_segments(refs, later, held),
{
    assert forall|i: int| 0 <= i < refs.len() implies named_up_to(
        (#[trigger] refs[i]).path,
        later,
    ) by {
        let earlier = choose|earlier: u64|
            earlier <= generation_id && #[trigger] names_generation(refs[i].path, earlier);
        assert(names_generation(refs[i].path, earlier));
    }
}

proof fn lemma_appended_level(
    segments: Seq<DeltaSegmentView>,
    more: Option<DeltaSegmentView>,
)
    requires
        forall|i: int| 0 <= i < segments.len() ==> (#[trigger] segments[i]).header.level == 0,
        more matches Some(segment) ==> segment.header.level == 0,
    ensures
        forall|i: int|
            0 <= i < ingest::appended(segments, more).len() ==> (#[trigger] ingest::appended(
                segments,
                more,
            )[i]).header.level == 0,
        ingest::appended(segments, more).len() <= segments.len() + 1,
{
}

/// Ingestion writes segments of level zero, four at most.
proof fn lemma_ingested_levels(
    previous: Option<ManifestView>,
    rows: Seq<ProjectionSyncRow>,
    limits: MutationBufferLimits,
    plan: IngestPlanView,
)
    requires
        ingest::ingest_plan(previous, rows, limits) == Ok::<_, GraphErrorView>(Some(plan)),
    ensures
        plan.segments.len() <= 4,
        forall|i: int|
            0 <= i < plan.segments.len() ==> (#[trigger] plan.segments[i]).header.level == 0,
{
    let due = ingest::due_rows(rows, ingest::watermark_of(previous));
    let outgoing = ingest::edge_segment(due, limits, TraversalDirection::Out)->Ok_0;
    let incoming = ingest::edge_segment(due, limits, TraversalDirection::In)->Ok_0;
    let both = ingest::edge_segment(due, limits, TraversalDirection::Any)->Ok_0;
    let nodes = ingest::node_segment_of(due, limits, plan.sync_watermark)->Ok_0;
    let none = Seq::<DeltaSegmentView>::empty();
    lemma_appended_level(none, outgoing);
    let one = ingest::appended(none, outgoing);
    lemma_appended_level(one, incoming);
    let two = ingest::appended(one, incoming);
    lemma_appended_level(two, both);
    let three = ingest::appended(two, both);
    lemma_appended_level(three, nodes);
}

/// Whether the sources of incoming edges are nodes: below the greatest index.
pub open spec fn incoming_sources_are_nodes(rows: Seq<ProjectionSyncRow>) -> bool {
    forall|i: int|
        0 <= i < rows.len() && (#[trigger] rows[i]).direction is In && normalize::on_edge(
            rows[i].operation,
        ) ==> rows[i].target < u32::MAX
}

/// The targets in a segment of normalized rows are those of the rows behind them.
proof fn lemma_targets_of_rows(
    rows: Seq<CommittedMutation>,
    result: Seq<NormalizedMutation>,
    tombstones: bool,
)
    requires
        normalize::is_normalization(rows.to_multiset(), result),
        forall|i: int| 0 <= i < rows.len() ==> (#[trigger] rows[i]).target < u32::MAX,
    ensures
        forall|k: int|
            0 <= k < segment::edges_of(result, tombstones).len() ==> (#[trigger] segment::edges_of(
                result,
                tombstones,
            )[k]).target < u32::MAX,
{
    broadcast use vstd::seq_lib::group_to_multiset_ensures;

    let keep = |row: NormalizedMutation| row.tombstone == tombstones;
    let edges = segment::edges_of(result, tombstones);
    assert forall|k: int| 0 <= k < edges.len() implies (#[trigger] edges[k]).target < u32::MAX by {
        layered::lemma_filter_member(result, keep, k);
        let row = result.filter(keep)[k];
        assert(edges[k] == segment::edge_of(row));
        let bag = rows.to_multiset();
        assert(normalize::resolved(normalize::group_of(bag, normalize::normalized_key(row)))
            == Some(row));
        normalize::lemma_resolved_key(bag, normalize::normalized_key(row));
        let top = choose|top: CommittedMutation| #[trigger]
            bag.contains(top) && row == normalize::normalized(top);
        assert(rows.contains(top));
        let i = choose|i: int| 0 <= i < rows.len() && rows[i] == top;
        assert(rows[i].target < u32::MAX);
    }
}

/// Segments that ingestion writes for incoming edges start at nodes where the rows do.
proof fn lemma_ingested_sources(
    previous: Option<ManifestView>,
    rows: Seq<ProjectionSyncRow>,
    limits: MutationBufferLimits,
    plan: IngestPlanView,
)
    requires
        ingest::ingest_plan(previous, rows, limits) == Ok::<_, GraphErrorView>(Some(plan)),
        incoming_sources_are_nodes(rows),
    ensures
        compaction_laws::sources_are_nodes(plan.segments),
{
    let due = ingest::due_rows(rows, ingest::watermark_of(previous));
    let is_due = |row: ProjectionSyncRow| ingest::is_due(row, ingest::watermark_of(previous));
    let is_in = |row: ProjectionSyncRow|
        normalize::on_edge(row.operation) && row.direction == TraversalDirection::In;
    let edges = ingest::edge_rows(due, TraversalDirection::In);
    assert(due == rows.filter(is_due));
    assert(edges == due.filter(is_in).map_values(|row: ProjectionSyncRow| ingest::mutation_of(row)));
    assert forall|i: int| 0 <= i < edges.len() implies (#[trigger] edges[i]).target < u32::MAX by {
        let row = due.filter(is_in)[i];
        due.lemma_filter_pred(is_in, i);
        layered::lemma_filter_member(due, is_in, i);
        let j = choose|j: int| 0 <= j < due.len() && due[j] == row;
        layered::lemma_filter_member(rows, is_due, j);
        let k = choose|k: int| 0 <= k < rows.len() && rows[k] == row;
        assert(rows[k].target < u32::MAX);
        assert(edges[i] == ingest::mutation_of(row));
    }
    normalize::lemma_normalization_exists(edges);
    let result = ingest::normal_form(edges);
    assert(normalize::is_normalization(edges.to_multiset(), result));
    lemma_targets_of_rows(edges, result, false);
    lemma_targets_of_rows(edges, result, true);
    let none = Seq::<DeltaSegmentView>::empty();
    let outgoing = ingest::edge_segment(due, limits, TraversalDirection::Out)->Ok_0;
    let incoming = ingest::edge_segment(due, limits, TraversalDirection::In)->Ok_0;
    let both = ingest::edge_segment(due, limits, TraversalDirection::Any)->Ok_0;
    let nodes = ingest::node_segment_of(due, limits, plan.sync_watermark)->Ok_0;
    let one = ingest::appended(none, outgoing);
    lemma_appended_sources(none, outgoing);
    let two = ingest::appended(one, incoming);
    lemma_appended_sources(one, incoming);
    let three = ingest::appended(two, both);
    lemma_appended_sources(two, both);
    lemma_appended_sources(three, nodes);
}

/// Whether a segment is not of incoming edges, or its rows start at nodes.
spec fn starts_at_nodes(segment: DeltaSegmentView) -> bool {
    segment.header.direction is In ==> {
        &&& forall|k: int|
            0 <= k < segment.edge_inserts.len() ==> (#[trigger] segment.edge_inserts[k]).target
                < u32::MAX
        &&& forall|k: int|
            0 <= k < segment.edge_deletes.len() ==> (#[trigger] segment.edge_deletes[k]).target
                < u32::MAX
    }
}

proof fn lemma_appended_sources(
    segments: Seq<DeltaSegmentView>,
    more: Option<DeltaSegmentView>,
)
    requires
        compaction_laws::sources_are_nodes(segments),
        more matches Some(segment) ==> starts_at_nodes(segment),
    ensures
        compaction_laws::sources_are_nodes(ingest::appended(segments, more)),
{
    let all = ingest::appended(segments, more);
    assert forall|i: int| 0 <= i < all.len() implies starts_at_nodes(#[trigger] all[i]) by {
        if i < segments.len() {
            assert(all[i] == segments[i]);
        }
    }
    assert forall|i: int| 0 <= i < all.len() && (#[trigger] all[i]).header.direction is In implies {
        &&& forall|k: int|
            0 <= k < all[i].edge_inserts.len() ==> (#[trigger] all[i].edge_inserts[k]).target
                < u32::MAX
        &&& forall|k: int|
            0 <= k < all[i].edge_deletes.len() ==> (#[trigger] all[i].edge_deletes[k]).target
                < u32::MAX
    } by {
        assert(starts_at_nodes(all[i]));
    }
}

/// Ingestion publishes a generation whose segments are published ones: `refs` are the
/// references of the segments of its plan, written one after the other.
pub proof fn lemma_ingestion_publishes(
    ingester: ProjectionIngester,
    previous: Option<ManifestView>,
    rows: Seq<ProjectionSyncRow>,
    limits: MutationBufferLimits,
    plan: IngestPlanView,
    images: Seq<Seq<u8>>,
    refs: Seq<SegmentRefView>,
    held: Seq<DeltaSegmentView>,
    now_unix_micros: i64,
)
    requires
        ingest::ingest_plan(previous, rows, limits) == Ok::<_, GraphErrorView>(Some(plan)),
        images.len() == plan.segments.len(),
        refs.len() == plan.segments.len(),
        held.len() == plan.segments.len(),
        forall|i: int|
            0 <= i < refs.len() ==> #[trigger] refs[i] == ingest::segment_ref_of(
                ingest::segment_name(plan.generation_id, i as u32),
                images[i],
                plan.segments[i],
            ),
        forall|i: int|
            0 <= i < held.len() ==> #[trigger] held[i] == segment::sealed(
                plan.segments[i],
                images[i],
            ),
    ensures
        ({
            let next = ingest::ingestion_manifest(
                ingester.base_of(plan.generation_id, plan.sync_watermark, now_unix_micros),
                previous,
                refs,
            );
            &&& published_segments(next.segments, next.generation_id, held)
            &&& incoming_sources_are_nodes(rows) ==> compaction_laws::sources_are_nodes(held)
            &&& next.base_chunks == Seq::<ChunkRefView>::empty()
        }),
{
    lemma_ingested_levels(previous, rows, limits, plan);
    if incoming_sources_are_nodes(rows) {
        lemma_ingested_sources(previous, rows, limits, plan);
        assert forall|i: int|
            0 <= i < held.len() && (#[trigger] held[i]).header.direction is In implies {
            &&& forall|k: int|
                0 <= k < held[i].edge_inserts.len() ==> (#[trigger] held[i].edge_inserts[k]).target
                    < u32::MAX
            &&& forall|k: int|
                0 <= k < held[i].edge_deletes.len() ==> (#[trigger] held[i].edge_deletes[k]).target
                    < u32::MAX
        } by {
            assert(held[i] == segment::sealed(plan.segments[i], images[i]));
            assert(plan.segments[i].header.direction is In);
        }
    }
    assert forall|i: int| 0 <= i < refs.len() implies named_up_to(
        (#[trigger] refs[i]).path,
        plan.generation_id,
    ) by {
        assert(refs[i].path == ingest::segment_name(plan.generation_id, i as u32));
        assert(names_generation(refs[i].path, plan.generation_id));
    }
    assert forall|i: int, j: int| 0 <= i < j < refs.len() implies (#[trigger] refs[i]).path != (
    #[trigger] refs[j]).path by {
        lemma_small_ids_differ(plan.generation_id, i as u32, j as u32);
    }
    assert forall|i: int| 0 <= i < refs.len() implies (#[trigger] refs[i]).level
        == held[i].header.level by {
        assert(held[i] == segment::sealed(plan.segments[i], images[i]));
    }
}

/// The segments that compaction leaves of published ones are published ones.
proof fn lemma_left_is_published(
    previous: ManifestView,
    disk: spec_fn(Seq<char>) -> Content,
    loaded: Seq<LoadedView>,
    held: Seq<DeltaSegmentView>,
)
    requires
        published_segments(previous.segments, previous.generation_id, held),
        layered::loaded_segments(
            previous.segments,
            segment_contents(previous.segments, disk),
            0,
            Seq::empty(),
        ) == Ok::<_, GraphErrorView>(held),
        compact::edge_segments_of(
            previous.segments,
            segment_contents(previous.segments, disk),
            0,
            Seq::empty(),
        ) == Ok::<_, GraphErrorView>(loaded),
    ensures
        published_segments(
            compact::retained(previous.segments, loaded),
            previous.generation_id,
            left(held),
        ),
        forall|i: int|
            0 <= i < left(held).len() ==> (#[trigger] left(held)[i]).header.kind is Node,
        compaction_laws::sources_are_nodes(held) ==> compaction_laws::sources_are_nodes(left(held)),
{
    let refs = previous.segments;
    let rest = compact::retained(refs, loaded);
    compaction_laws::lemma_retained_parallel(refs, disk, held, loaded);
    assert forall|k: int| 0 <= k < rest.len() implies named_up_to(
        (#[trigger] rest[k]).path,
        previous.generation_id,
    ) by {
        assert(left(held)[k] == left(held)[k]);
        let i = choose|i: int|
            0 <= i < refs.len() && #[trigger] refs[i] == rest[k] && held[i] == left(held)[k];
        let earlier = choose|earlier: u64|
            earlier <= previous.generation_id && #[trigger] names_generation(
                refs[i].path,
                earlier,
            );
        assert(names_generation(rest[k].path, earlier));
    }
    lemma_filter_paths(refs, |one: SegmentRefView| !compact::is_compacted(loaded, one.path));
    assert(paths_differ(rest));
    let stays = |one: DeltaSegmentView| !taken(one);
    assert forall|k: int| 0 <= k < left(held).len() implies rest[k].level == (
    #[trigger] left(held)[k]).header.level && left(held)[k].header.level <= 2
        && left(held)[k].header.kind is Node by {
        let i = choose|i: int|
            0 <= i < refs.len() && #[trigger] refs[i] == rest[k] && held[i] == left(held)[k];
        assert(refs[i].level == held[i].header.level);
        held.lemma_filter_pred(stays, k);
        assert(held.filter(stays)[k] == left(held)[k]);
    }
    assert forall|k: int| 0 <= k < rest.len() implies (#[trigger] rest[k]).level
        == left(held)[k].header.level by {}
    if compaction_laws::sources_are_nodes(held) {
        lemma_left_sources(held);
    }
}

proof fn lemma_left_sources(held: Seq<DeltaSegmentView>)
    requires
        compaction_laws::sources_are_nodes(held),
    ensures
        compaction_laws::sources_are_nodes(left(held)),
{
    let stays = |one: DeltaSegmentView| !taken(one);
    assert(left(held) =~= held.filter(stays));
    assert forall|k: int|
        0 <= k < left(held).len() && (#[trigger] left(held)[k]).header.direction is In implies {
        &&& forall|m: int|
            0 <= m < left(held)[k].edge_inserts.len() ==> (
            #[trigger] left(held)[k].edge_inserts[m]).target < u32::MAX
        &&& forall|m: int|
            0 <= m < left(held)[k].edge_deletes.len() ==> (
            #[trigger] left(held)[k].edge_deletes[m]).target < u32::MAX
    } by {
        layered::lemma_filter_member(held, stays, k);
        let i = choose|i: int| 0 <= i < held.len() && held[i] == held.filter(stays)[k];
        assert(held[i].header.direction is In);
    }
}

/// Where a published generation has no edge segment, compaction takes in none and
/// leaves all: it changes nothing.
pub proof fn lemma_nothing_to_compact(
    previous: ManifestView,
    disk: spec_fn(Seq<char>) -> Content,
    loaded: Seq<LoadedView>,
    held: Seq<DeltaSegmentView>,
)
    requires
        published_segments(previous.segments, previous.generation_id, held),
        forall|i: int| 0 <= i < held.len() ==> (#[trigger] held[i]).header.kind is Node,
        layered::loaded_segments(
            previous.segments,
            segment_contents(previous.segments, disk),
            0,
            Seq::empty(),
        ) == Ok::<_, GraphErrorView>(held),
        compact::edge_segments_of(
            previous.segments,
            segment_contents(previous.segments, disk),
            0,
            Seq::empty(),
        ) == Ok::<_, GraphErrorView>(loaded),
    ensures
        loaded.len() == 0,
        left(held) == held,
{
    compaction_laws::lemma_retained_parallel(previous.segments, disk, held, loaded);
    let takes = |one: DeltaSegmentView| taken(one);
    let stays = |one: DeltaSegmentView| !taken(one);
    let found = loaded.map_values(|one: LoadedView| one.segment);
    assert(found == held.filter(takes));
    if loaded.len() > 0 {
        held.lemma_filter_pred(takes, 0);
        layered::lemma_filter_member(held, takes, 0);
        let i = choose|i: int| 0 <= i < held.len() && held[i] == held.filter(takes)[0];
        assert(held[i].header.kind is Node);
    }
    lemma_filter_all(held, stays);
}

proof fn lemma_filter_all(held: Seq<DeltaSegmentView>, keep: spec_fn(DeltaSegmentView) -> bool)
    requires
        forall|i: int| 0 <= i < held.len() ==> keep(#[trigger] held[i]),
    ensures
        held.filter(keep) == held,
    decreases held.len(),
{
    reveal(Seq::filter);
    if held.len() > 0 {
        lemma_filter_all(held.drop_last(), keep);
        assert(keep(held[held.len() - 1]));
        assert(held.drop_last().push(held.last()) =~= held);
    }
}

proof fn lemma_filter_paths(refs: Seq<SegmentRefView>, keep: spec_fn(SegmentRefView) -> bool)
    requires
        paths_differ(refs),
    ensures
        paths_differ(refs.filter(keep)),
    decreases refs.len(),
{
    reveal(Seq::filter);
    if refs.len() > 0 {
        let init = refs.drop_last();
        let last = refs.len() - 1;
        assert forall|i: int, j: int| 0 <= i < j < init.len() implies (#[trigger] init[i]).path != (
        #[trigger] init[j]).path by {
            assert(refs[i].path != refs[j].path);
        }
        lemma_filter_paths(init, keep);
        let kept = init.filter(keep);
        assert forall|k: int| 0 <= k < kept.len() implies (#[trigger] kept[k]).path
            != refs[last].path by {
            layered::lemma_filter_member(init, keep, k);
            let i = choose|i: int| 0 <= i < init.len() && init[i] == kept[k];
            assert(refs[i].path != refs[last].path);
        }
    }
}

/// Compaction into a segment publishes a generation whose segments are published ones:
/// `bytes` is what was written of the compacted segment.
pub proof fn lemma_compaction_publishes(
    previous: ManifestView,
    disk: spec_fn(Seq<char>) -> Content,
    base: EdgeStore,
    budgets: CompactionBudgets,
    plan: CompactedSegment,
    loaded: Seq<LoadedView>,
    layered: LayeredNeighbors,
    held: Seq<DeltaSegmentView>,
    bytes: Seq<u8>,
    obsolete: Seq<FileRefView>,
    now_unix_micros: i64,
)
    requires
        published_segments(previous.segments, previous.generation_id, held),
        layered::loaded_segments(
            previous.segments,
            segment_contents(previous.segments, disk),
            0,
            Seq::empty(),
        ) == Ok::<_, GraphErrorView>(held),
        compact::edge_segments_of(
            previous.segments,
            segment_contents(previous.segments, disk),
            0,
            Seq::empty(),
        ) == Ok::<_, GraphErrorView>(loaded),
        compact::is_plan(
            CompactionPlan::Segment(plan),
            previous,
            loaded,
            layered,
            base,
            budgets,
        ),
    ensures
        ({
            let reference = ingest::segment_ref_of(
                compact::compacted_name(plan.generation_id, 0),
                bytes,
                plan.segment@,
            );
            let next = compact::compaction_manifest_of(
                previous,
                plan.generation_id,
                manifest::segment_refs(plan.retained@).push(reference),
                obsolete,
                now_unix_micros,
            );
            let written = segment::sealed(plan.segment@, bytes);
            &&& published_segments(next.segments, next.generation_id, left(held).push(written))
            &&& compaction_laws::sources_are_nodes(held) ==> compaction_laws::sources_are_nodes(
                left(held).push(written),
            )
            &&& next.base_chunks == previous.base_chunks
            &&& next.sync_watermark == previous.sync_watermark
        }),
{
    let rest = compact::retained(previous.segments, loaded);
    let reference = ingest::segment_ref_of(
        compact::compacted_name(plan.generation_id, 0),
        bytes,
        plan.segment@,
    );
    let written = segment::sealed(plan.segment@, bytes);
    let refs = rest.push(reference);
    let all = left(held).push(written);
    lemma_left_is_published(previous, disk, loaded, held);
    assert(ingest::segment_name(plan.generation_id, 0) == ingest::segment_name(
        plan.generation_id,
        0,
    ));
    assert(names_generation(reference.path, plan.generation_id));
    assert forall|i: int| 0 <= i < refs.len() implies named_up_to(
        (#[trigger] refs[i]).path,
        plan.generation_id,
    ) by {
        if i < rest.len() {
            assert(refs[i] == rest[i]);
            let earlier = choose|earlier: u64|
                earlier <= previous.generation_id && #[trigger] names_generation(
                    rest[i].path,
                    earlier,
                );
            assert(names_generation(refs[i].path, earlier));
        } else {
            assert(names_generation(refs[i].path, plan.generation_id));
        }
    }
    assert forall|i: int, j: int| 0 <= i < j < refs.len() implies (#[trigger] refs[i]).path != (
    #[trigger] refs[j]).path by {
        assert(refs[i] == rest[i]);
        if j < rest.len() {
            assert(refs[j] == rest[j]);
        } else {
            let earlier = choose|earlier: u64|
                earlier <= previous.generation_id && #[trigger] names_generation(
                    rest[i].path,
                    earlier,
                );
            lemma_generations_have_files_of_their_own(
                rest[i].path,
                reference.path,
                earlier,
                plan.generation_id,
            );
        }
    }
    let level = compact::next_level(loaded);
    assert(plan.segment@.header.level == level && level <= 2 && plan.segment@.header.direction
        is Out) by {
        let ranges = choose|ranges: Seq<SourceRange>| #[trigger]
            compact::is_range_merge(compact::dirty_ranges(loaded), ranges)
                && compact::compacted_segment(layered, loaded, ranges, previous.sync_watermark)
                == Ok::<_, GraphErrorView>(plan.segment@);
        let blank = compact::blank_compacted(loaded, ranges, previous.sync_watermark)->Ok_0;
        lemma_ranges_keep_header(blank, layered, ranges, ranges.len() as int);
    }
    assert forall|i: int| 0 <= i < refs.len() implies (#[trigger] refs[i]).level
        == all[i].header.level by {
        if i < rest.len() {
            assert(refs[i] == rest[i]);
        }
    }
    assert forall|i: int| 0 <= i < all.len() implies (#[trigger] all[i]).header.level <= 2 by {
        if i < rest.len() {
            assert(all[i] == left(held)[i]);
        }
    }
}

proof fn lemma_sources_keep_header(
    segment: DeltaSegmentView,
    layered: LayeredNeighbors,
    start: int,
    end: int,
)
    ensures
        compact::with_sources(segment, layered, start, end).header == segment.header,
    decreases end - start,
{
    if start < end {
        lemma_sources_keep_header(segment, layered, start, end - 1);
    }
}

proof fn lemma_ranges_keep_header(
    segment: DeltaSegmentView,
    layered: LayeredNeighbors,
    ranges: Seq<SourceRange>,
    count: int,
)
    ensures
        compact::with_ranges(segment, layered, ranges, count).header == segment.header,
    decreases count,
{
    if count > 0 {
        lemma_ranges_keep_header(segment, layered, ranges, count - 1);
        lemma_sources_keep_header(
            compact::with_ranges(segment, layered, ranges, count - 1),
            layered,
            ranges[count - 1].start as int,
            ranges[count - 1].end as int,
        );
    }
}

/// Compaction into base chunks publishes a generation whose segments are published
/// ones and whose base chunks have ranges of their own: `refs` are the references of
/// the written chunks.
pub proof fn lemma_rewrite_publishes(
    previous: ManifestView,
    disk: spec_fn(Seq<char>) -> Content,
    base: EdgeStore,
    budgets: CompactionBudgets,
    plan: DirtyChunks,
    loaded: Seq<LoadedView>,
    layered: LayeredNeighbors,
    chunks: Seq<DeltaSegmentView>,
    held: Seq<DeltaSegmentView>,
    refs: Seq<ChunkRefView>,
    later_chunks: Seq<DeltaSegmentView>,
    generation_id: u64,
    obsolete: Seq<FileRefView>,
    now_unix_micros: i64,
)
    requires
        generation_id == previous.generation_id + 1,
        published_segments(previous.segments, previous.generation_id, held),
        layered::loaded_segments(
            previous.segments,
            segment_contents(previous.segments, disk),
            0,
            Seq::empty(),
        ) == Ok::<_, GraphErrorView>(held),
        compact::edge_segments_of(
            previous.segments,
            segment_contents(previous.segments, disk),
            0,
            Seq::empty(),
        ) == Ok::<_, GraphErrorView>(loaded),
        compact::is_plan(CompactionPlan::Chunks(plan), previous, loaded, layered, base, budgets),
        preservation::chunks_named(chunks, previous.base_chunks),
        preservation::chunks_apart(chunks),
        refs.len() == plan.ranges@.len(),
        forall|i: int|
            0 <= i < refs.len() ==> chunk::chunk_range(#[trigger] refs[i]) == plan.ranges@[i],
        preservation::chunks_named(
            later_chunks,
            chunk::kept_chunks(previous.base_chunks, plan.ranges@) + refs,
        ),
    ensures
        ({
            let next = chunk::rewrite_manifest_of(
                previous,
                generation_id,
                manifest::segment_refs(plan.retained@),
                plan.ranges@,
                refs,
                obsolete,
                false,
                now_unix_micros,
            );
            &&& published_segments(next.segments, next.generation_id, left(held))
            &&& compaction_laws::sources_are_nodes(held) ==> compaction_laws::sources_are_nodes(
                left(held),
            )
            &&& preservation::chunks_named(later_chunks, next.base_chunks)
            &&& next.sync_watermark == previous.sync_watermark
        }),
        preservation::chunks_apart(later_chunks),
{
    let ranges = plan.ranges@;
    let rest = compact::retained(previous.segments, loaded);
    lemma_left_is_published(previous, disk, loaded, held);
    lemma_kept_segments_are_published(
        rest,
        previous.generation_id,
        generation_id,
        left(held),
    );
    let dirty = choose|dirty: Seq<SourceRange>| #[trigger]
        compact::is_range_merge(compact::dirty_ranges(loaded), dirty)
            && compact::is_rewrite_range(dirty, previous.base_chunks, ranges);
    preservation::lemma_dirty_filled(loaded);
    compact::lemma_range_merge_covers(compact::dirty_ranges(loaded), dirty);
    preservation::lemma_rewrite_ranges(dirty, chunks, previous.base_chunks, ranges);
    lemma_rewritten_chunks_apart(previous.base_chunks, ranges, refs, chunks, later_chunks);
}

proof fn lemma_rewritten_chunks_apart(
    named: Seq<ChunkRefView>,
    ranges: Seq<SourceRange>,
    refs: Seq<ChunkRefView>,
    chunks: Seq<DeltaSegmentView>,
    later: Seq<DeltaSegmentView>,
)
    requires
        preservation::chunks_named(chunks, named),
        preservation::chunks_apart(chunks),
        compact::ranges_apart(ranges),
        refs.len() == ranges.len(),
        forall|i: int|
            0 <= i < refs.len() ==> chunk::chunk_range(#[trigger] refs[i]) == ranges[i],
        preservation::chunks_named(later, chunk::kept_chunks(named, ranges) + refs),
    ensures
        preservation::chunks_apart(later),
{
    let kept = chunk::kept_chunks(named, ranges);
    let all = kept + refs;
    let keep = |one: ChunkRefView| !chunk::is_rewritten(one, ranges);
    lemma_kept_apart(named, keep, chunks);
    assert forall|i: int| 0 <= i < later.len() implies chunk_span(#[trigger] later[i]).start
        < chunk_span(later[i]).end by {
        assert(chunk_span(later[i]) == chunk::chunk_range(all[i]));
        if i < kept.len() {
            assert(all[i] == kept[i]);
            assert(chunk::chunk_range(kept[i]).start < chunk::chunk_range(kept[i]).end);
        } else {
            assert(all[i] == refs[i - kept.len()]);
            assert(ranges[i - kept.len()].start < ranges[i - kept.len()].end);
        }
    }
    assert forall|i: int, j: int, source: u32| 0 <= i < j < later.len() implies !(
    #[trigger] chunk_span(later[i]).has(source) && #[trigger] chunk_span(later[j]).has(source)) by {
        assert(chunk_span(later[i]) == chunk::chunk_range(all[i]));
        assert(chunk_span(later[j]) == chunk::chunk_range(all[j]));
        if j < kept.len() {
            assert(all[i] == kept[i] && all[j] == kept[j]);
            assert(!(chunk::chunk_range(kept[i]).has(source) && chunk::chunk_range(kept[j]).has(
                source,
            )));
        } else if i < kept.len() {
            let m = j - kept.len();
            assert(all[i] == kept[i] && all[j] == refs[m]);
            named.lemma_filter_pred(keep, i);
            assert(!chunk::is_rewritten(kept[i], ranges));
            assert(!(ranges[m].start < kept[i].source_end && kept[i].source_start
                < ranges[m].end));
        } else {
            let m = i - kept.len();
            let n = j - kept.len();
            assert(all[i] == refs[m] && all[j] == refs[n]);
            assert(ranges[m].end <= ranges[n].start);
        }
    }
}

/// Chunks that are kept keep ranges of their own.
proof fn lemma_kept_apart(
    named: Seq<ChunkRefView>,
    keep: spec_fn(ChunkRefView) -> bool,
    chunks: Seq<DeltaSegmentView>,
)
    requires
        preservation::chunks_named(chunks, named),
        preservation::chunks_apart(chunks),
    ensures
        forall|i: int|
            0 <= i < named.filter(keep).len() ==> chunk::chunk_range(
                #[trigger] named.filter(keep)[i],
            ).start < chunk::chunk_range(named.filter(keep)[i]).end,
        forall|i: int, j: int, source: u32|
            0 <= i < j < named.filter(keep).len() ==> !(#[trigger] chunk::chunk_range(
                named.filter(keep)[i],
            ).has(source) && #[trigger] chunk::chunk_range(named.filter(keep)[j]).has(source)),
    decreases named.len(),
{
    reveal(Seq::filter);
    if named.len() > 0 {
        let last = named.len() - 1;
        let init = named.drop_last();
        let fewer = chunks.drop_last();
        assert forall|i: int| 0 <= i < fewer.len() implies chunk_span(#[trigger] fewer[i])
            == chunk::chunk_range(init[i]) by {
            assert(chunk_span(chunks[i]) == chunk::chunk_range(named[i]));
        }
        assert forall|i: int| 0 <= i < fewer.len() implies chunk_span(#[trigger] fewer[i]).start
            < chunk_span(fewer[i]).end by {
            assert(chunk_span(chunks[i]).start < chunk_span(chunks[i]).end);
        }
        assert forall|i: int, j: int, source: u32| 0 <= i < j < fewer.len() implies !(
        #[trigger] chunk_span(fewer[i]).has(source) && #[trigger] chunk_span(fewer[j]).has(
            source,
        )) by {
            assert(!(chunk_span(chunks[i]).has(source) && chunk_span(chunks[j]).has(source)));
        }
        lemma_kept_apart(init, keep, fewer);
        let kept = init.filter(keep);
        assert(chunk_span(chunks[last]) == chunk::chunk_range(named[last]));
        assert forall|i: int, source: u32| 0 <= i < kept.len() implies !(
        #[trigger] chunk::chunk_range(kept[i]).has(source) && chunk::chunk_range(named[last]).has(
            source,
        )) by {
            layered::lemma_filter_member(init, keep, i);
            let m = choose|m: int| 0 <= m < init.len() && init[m] == kept[i];
            assert(chunk_span(chunks[m]) == chunk::chunk_range(named[m]));
            assert(!(chunk_span(chunks[m]).has(source) && chunk_span(chunks[last]).has(source)));
        }
    }
}

// ---------------------------------------------------------------------------
// Compaction of published generations
// ---------------------------------------------------------------------------

/// Compaction of a published generation into a segment exposes the same layered reads:
/// every node has the same neighbors, with the same weights, in the same order, and
/// the same incoming ones, also for a reader that is limited to a tenant or has
/// overlays and a transaction on top; Node segments stay. Node indices are below the
/// greatest one.
pub proof fn lemma_compacted_publication_reads_alike(
    previous: ManifestView,
    disk: spec_fn(Seq<char>) -> Content,
    base: EdgeStore,
    budgets: CompactionBudgets,
    plan: CompactedSegment,
    loaded: Seq<LoadedView>,
    chunks: Seq<DeltaSegmentView>,
    segments: Seq<DeltaSegmentView>,
    reference: SegmentRefView,
    bytes: Seq<u8>,
    before: LayeredNeighbors,
    after: LayeredNeighbors,
    node: u32,
    seen_before: LayeredNeighbors,
    seen_after: LayeredNeighbors,
)
    requires
        previous.segments.len() < usize::MAX,
        previous.base_chunks.len() <= usize::MAX,
        published_segments(previous.segments, previous.generation_id, segments),
        compaction_laws::sources_are_nodes(segments),
        layered::loaded_chunks(
            previous.base_chunks,
            chunk_contents(previous.base_chunks, disk),
            0,
            Seq::empty(),
        ) == Ok::<_, GraphErrorView>(chunks),
        layered::loaded_segments(
            previous.segments,
            segment_contents(previous.segments, disk),
            0,
            Seq::empty(),
        ) == Ok::<_, GraphErrorView>(segments),
        compact::edge_segments_of(
            previous.segments,
            segment_contents(previous.segments, disk),
            0,
            Seq::empty(),
        ) == Ok::<_, GraphErrorView>(loaded),
        compact::is_plan(
            CompactionPlan::Segment(plan),
            previous,
            loaded,
            before,
            base,
            budgets,
        ),
        layered::loaded_segment(reference, Ok(bytes)) == Ok::<_, GraphErrorView>(
            segment::sealed(plan.segment@, bytes),
        ),
        preservation::plain_source(before),
        preservation::plain_source(after),
        before.layers(&base, None, chunks, segments, None),
        layered::loaded_segments(
            compact::retained(previous.segments, loaded).push(reference),
            segment_contents(compact::retained(previous.segments, loaded), disk).push(Ok(bytes)),
            0,
            Seq::empty(),
        ) matches Ok(held) ==> after.layers(&base, None, chunks, held, None),
        readers::same_reader(seen_before, seen_after),
        readers::reads_generation(seen_before, base, chunks, segments),
        layered::loaded_segments(
            compact::retained(previous.segments, loaded).push(reference),
            segment_contents(compact::retained(previous.segments, loaded), disk).push(Ok(bytes)),
            0,
            Seq::empty(),
        ) matches Ok(held) ==> readers::reads_generation(seen_after, base, chunks, held),
    ensures
        seen_after.rows(TraversalDirection::Out, node) == seen_before.rows(
            TraversalDirection::Out,
            node,
        ),
        seen_after.rows(TraversalDirection::In, node) == seen_before.rows(
            TraversalDirection::In,
            node,
        ),
        after.rows(TraversalDirection::Out, node) == before.rows(TraversalDirection::Out, node),
        after.rows(TraversalDirection::In, node) == before.rows(TraversalDirection::In, node),
        after.neighbor_list(node) == before.neighbor_list(node),
        layered::weighted_rows(after.rows(TraversalDirection::Out, node))
            == layered::weighted_rows(before.rows(TraversalDirection::Out, node)),
        forall|i: int|
            0 <= i < segments.len() && (#[trigger] segments[i]).header.kind is Node ==> left(
                segments,
            ).contains(segments[i]),
{
    lemma_published_segments_are_apart(previous.segments, previous.generation_id, segments);
    compaction_laws::lemma_compacted_generation_reads_alike(
        previous,
        disk,
        base,
        budgets,
        plan,
        loaded,
        chunks,
        segments,
        reference,
        bytes,
        before,
        after,
        TraversalDirection::Out,
        node,
    );
    compaction_laws::lemma_readers_of_compacted_generation_read_alike(
        previous,
        disk,
        base,
        budgets,
        plan,
        loaded,
        chunks,
        segments,
        reference,
        bytes,
        before,
        after,
        TraversalDirection::Out,
        node,
        seen_before,
        seen_after,
    );
    compaction_laws::lemma_compacted_generation_reads_alike(
        previous,
        disk,
        base,
        budgets,
        plan,
        loaded,
        chunks,
        segments,
        reference,
        bytes,
        before,
        after,
        TraversalDirection::In,
        node,
    );
    compaction_laws::lemma_readers_of_compacted_generation_read_alike(
        previous,
        disk,
        base,
        budgets,
        plan,
        loaded,
        chunks,
        segments,
        reference,
        bytes,
        before,
        after,
        TraversalDirection::In,
        node,
        seen_before,
        seen_after,
    );
    lemma_nodes_left(segments);
}

proof fn lemma_nodes_left(segments: Seq<DeltaSegmentView>)
    ensures
        forall|i: int|
            0 <= i < segments.len() && (#[trigger] segments[i]).header.kind is Node ==> left(
                segments,
            ).contains(segments[i]),
{
    let stays = |one: DeltaSegmentView| !taken(one);
    assert forall|i: int|
        0 <= i < segments.len() && (#[trigger] segments[i]).header.kind is Node implies left(
        segments,
    ).contains(segments[i]) by {
        assert(stays(segments[i]));
        segments.lemma_filter_contains(stays, i);
    }
}

/// Compaction of a published generation into base chunks exposes the same layered
/// reads: every node has the same neighbors, with the same weights, in the same order,
/// and the same incoming ones, also for a reader that is limited to a tenant or has
/// overlays and a transaction on top; Node segments stay. Node indices are below the
/// greatest one.
pub proof fn lemma_rewritten_publication_reads_alike(
    previous: ManifestView,
    disk: spec_fn(Seq<char>) -> Content,
    base: EdgeStore,
    budgets: CompactionBudgets,
    plan: DirtyChunks,
    loaded: Seq<LoadedView>,
    chunks: Seq<DeltaSegmentView>,
    segments: Seq<DeltaSegmentView>,
    refs: Seq<ChunkRefView>,
    contents: Seq<Content>,
    images: Seq<Seq<u8>>,
    before: LayeredNeighbors,
    after: LayeredNeighbors,
    node: u32,
    seen_before: LayeredNeighbors,
    seen_after: LayeredNeighbors,
)
    requires
        base.wf(),
        previous.segments.len() <= usize::MAX,
        previous.base_chunks.len() + plan.ranges@.len() <= usize::MAX,
        previous.sync_watermark >= 0,
        published_segments(previous.segments, previous.generation_id, segments),
        preservation::chunks_apart(chunks),
        compaction_laws::sources_are_nodes(segments),
        layered::loaded_chunks(
            previous.base_chunks,
            chunk_contents(previous.base_chunks, disk),
            0,
            Seq::empty(),
        ) == Ok::<_, GraphErrorView>(chunks),
        layered::loaded_segments(
            previous.segments,
            segment_contents(previous.segments, disk),
            0,
            Seq::empty(),
        ) == Ok::<_, GraphErrorView>(segments),
        compact::edge_segments_of(
            previous.segments,
            segment_contents(previous.segments, disk),
            0,
            Seq::empty(),
        ) == Ok::<_, GraphErrorView>(loaded),
        compact::is_plan(CompactionPlan::Chunks(plan), previous, loaded, before, base, budgets),
        refs.len() == plan.ranges@.len(),
        contents.len() == refs.len(),
        images.len() == refs.len(),
        forall|i: int|
            0 <= i < refs.len() ==> layered::loaded_chunk(#[trigger] refs[i], contents[i])
                == Ok::<_, GraphErrorView>(
                segment::sealed(
                    preservation::written_chunks(plan, previous.sync_watermark)[i],
                    images[i],
                ),
            ),
        preservation::plain_source(before),
        preservation::plain_source(after),
        before.layers(&base, None, chunks, segments, None),
        (
            layered::loaded_chunks(
                chunk::kept_chunks(previous.base_chunks, plan.ranges@) + refs,
                chunk_contents(chunk::kept_chunks(previous.base_chunks, plan.ranges@), disk)
                    + contents,
                0,
                Seq::empty(),
            ),
            layered::loaded_segments(
                compact::retained(previous.segments, loaded),
                segment_contents(compact::retained(previous.segments, loaded), disk),
                0,
                Seq::empty(),
            ),
        ) matches (Ok(held_chunks), Ok(held)) ==> after.layers(
            &base,
            None,
            held_chunks,
            held,
            None,
        ),
        readers::same_reader(seen_before, seen_after),
        readers::reads_generation(seen_before, base, chunks, segments),
        (
            layered::loaded_chunks(
                chunk::kept_chunks(previous.base_chunks, plan.ranges@) + refs,
                chunk_contents(chunk::kept_chunks(previous.base_chunks, plan.ranges@), disk)
                    + contents,
                0,
                Seq::empty(),
            ),
            layered::loaded_segments(
                compact::retained(previous.segments, loaded),
                segment_contents(compact::retained(previous.segments, loaded), disk),
                0,
                Seq::empty(),
            ),
        ) matches (Ok(held_chunks), Ok(held)) ==> readers::reads_generation(
            seen_after,
            base,
            held_chunks,
            held,
        ),
    ensures
        seen_after.rows(TraversalDirection::Out, node) == seen_before.rows(
            TraversalDirection::Out,
            node,
        ),
        seen_after.rows(TraversalDirection::In, node) == seen_before.rows(
            TraversalDirection::In,
            node,
        ),
        after.rows(TraversalDirection::Out, node) == before.rows(TraversalDirection::Out, node),
        after.rows(TraversalDirection::In, node) == before.rows(TraversalDirection::In, node),
        after.neighbor_list(node) == before.neighbor_list(node),
        layered::weighted_rows(after.rows(TraversalDirection::Out, node))
            == layered::weighted_rows(before.rows(TraversalDirection::Out, node)),
        forall|i: int|
            0 <= i < segments.len() && (#[trigger] segments[i]).header.kind is Node ==> left(
                segments,
            ).contains(segments[i]),
{
    lemma_published_segments_are_apart(previous.segments, previous.generation_id, segments);
    compaction_laws::lemma_rewritten_generation_reads_alike(
        previous,
        disk,
        base,
        budgets,
        plan,
        loaded,
        chunks,
        segments,
        refs,
        contents,
        images,
        before,
        after,
        TraversalDirection::Out,
        node,
    );
    compaction_laws::lemma_readers_of_rewritten_generation_read_alike(
        previous,
        disk,
        base,
        budgets,
        plan,
        loaded,
        chunks,
        segments,
        refs,
        contents,
        images,
        before,
        after,
        TraversalDirection::Out,
        node,
        seen_before,
        seen_after,
    );
    compaction_laws::lemma_rewritten_generation_reads_alike(
        previous,
        disk,
        base,
        budgets,
        plan,
        loaded,
        chunks,
        segments,
        refs,
        contents,
        images,
        before,
        after,
        TraversalDirection::In,
        node,
    );
    compaction_laws::lemma_readers_of_rewritten_generation_read_alike(
        previous,
        disk,
        base,
        budgets,
        plan,
        loaded,
        chunks,
        segments,
        refs,
        contents,
        images,
        before,
        after,
        TraversalDirection::In,
        node,
        seen_before,
        seen_after,
    );
    lemma_nodes_left(segments);
}

} // verus!
