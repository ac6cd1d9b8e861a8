//! What operators are told, and what maintenance decides.
use vstd::prelude::*;

use crate::projection::compact::{self, CompactionBudgets, LoadedView};
use crate::projection::manifest::{FileRefView, ManifestView, SegmentRefView};
use crate::projection::recovery::{self, LoadedArtifactView, RecoveryPlanView};
use crate::projection::segment::{
    DeltaSegmentView, SegmentFilterValue, SegmentKind, SegmentNodeState, SegmentResolution,
    SegmentTenant,
};
use crate::projection::status;
use crate::safety::GraphErrorView;

verus! {

// ---------------------------------------------------------------------------
// Counts
// ---------------------------------------------------------------------------

/// How many of the first `count` items are as asked for.
pub open spec fn how_many<T>(items: Seq<T>, count: int, asked: spec_fn(T) -> bool) -> nat
    decreases count,
{
    if count <= 0 {
        0
    } else {
        how_many(items, count - 1, asked) + (if asked(items[count - 1]) {
            1nat
        } else {
            0
        })
    }
}

/// The sum of what the first `count` items amount to.
pub open spec fn sum_of<T>(items: Seq<T>, count: int, amount: spec_fn(T) -> nat) -> nat
    decreases count,
{
    if count <= 0 {
        0
    } else {
        sum_of(items, count - 1, amount) + amount(items[count - 1])
    }
}

/// Whether a number is shown as it is, or as the greatest where it is greater.
pub open spec fn shown(number: int, count: int, greatest: int) -> bool {
    if count <= greatest {
        number == count
    } else {
        number == greatest
    }
}

proof fn lemma_same_prefix<T>(a: Seq<T>, b: Seq<T>, count: int, asked: spec_fn(T) -> bool)
    requires
        0 <= count <= a.len(),
        count <= b.len(),
        forall|i: int| 0 <= i < count ==> a[i] == b[i],
    ensures
        how_many(a, count, asked) == how_many(b, count, asked),
    decreases count,
{
    if count > 0 {
        lemma_same_prefix(a, b, count - 1, asked);
    }
}

proof fn lemma_filter_counts<T>(items: Seq<T>, keep: spec_fn(T) -> bool, asked: spec_fn(T) -> bool)
    requires
        forall|i: int| 0 <= i < items.len() ==> keep(#[trigger] items[i]) == asked(items[i]),
    ensures
        items.filter(keep).len() == how_many(items, items.len() as int, asked),
    decreases items.len(),
{
    reveal(Seq::filter);
    if items.len() > 0 {
        let init = items.drop_last();
        assert forall|i: int| 0 <= i < init.len() implies keep(#[trigger] init[i]) == asked(
            init[i],
        ) by {
            assert(init[i] == items[i]);
        }
        lemma_filter_counts(init, keep, asked);
        lemma_same_prefix(init, items, init.len() as int, asked);
        assert(keep(items[items.len() - 1]) == asked(items[items.len() - 1]));
    }
}

/// How many rows a segment has.
pub open spec fn rows_in(segment: DeltaSegmentView) -> nat {
    segment.edge_inserts.len() + segment.edge_deletes.len() + segment.edge_weights.len()
        + segment.node_states.len() + segment.resolutions.len() + segment.filters.len()
        + segment.tenants.len()
}

/// How many rows of a segment take something away: deleted edges, inactive nodes, and
/// the tombstones of resolutions, filter values and tenants.
pub open spec fn takes_away(segment: DeltaSegmentView) -> nat {
    segment.edge_deletes.len() + how_many(
        segment.node_states,
        segment.node_states.len() as int,
        |row: SegmentNodeState| !row.active,
    ) + how_many(
        segment.resolutions,
        segment.resolutions.len() as int,
        |row: SegmentResolution| row.tombstone,
    ) + how_many(
        segment.filters,
        segment.filters.len() as int,
        |row: SegmentFilterValue| row.tombstone,
    ) + how_many(
        segment.tenants,
        segment.tenants.len() as int,
        |row: SegmentTenant| row.tombstone,
    )
}

proof fn lemma_tombstones(segment: DeltaSegmentView)
    ensures
        status::tombstone_count(segment) == takes_away(segment),
{
    lemma_filter_counts(
        segment.node_states,
        |row: SegmentNodeState| !row.active,
        |row: SegmentNodeState| !row.active,
    );
    lemma_filter_counts(
        segment.resolutions,
        |row: SegmentResolution| row.tombstone,
        |row: SegmentResolution| row.tombstone,
    );
    lemma_filter_counts(
        segment.filters,
        |row: SegmentFilterValue| row.tombstone,
        |row: SegmentFilterValue| row.tombstone,
    );
    lemma_filter_counts(
        segment.tenants,
        |row: SegmentTenant| row.tombstone,
        |row: SegmentTenant| row.tombstone,
    );
}

proof fn lemma_same_sum<T>(a: Seq<T>, b: Seq<T>, count: int, amount: spec_fn(T) -> nat)
    requires
        0 <= count <= a.len(),
        count <= b.len(),
        forall|i: int| 0 <= i < count ==> a[i] == b[i],
    ensures
        sum_of(a, count, amount) == sum_of(b, count, amount),
    decreases count,
{
    if count > 0 {
        lemma_same_sum(a, b, count - 1, amount);
    }
}

proof fn lemma_row_sums(held: Seq<DeltaSegmentView>)
    ensures
        status::all_rows(held) == sum_of(
            held,
            held.len() as int,
            |segment: DeltaSegmentView| rows_in(segment),
        ),
        status::all_tombstones(held) == sum_of(
            held,
            held.len() as int,
            |segment: DeltaSegmentView| takes_away(segment),
        ),
    decreases held.len(),
{
    let rows = |segment: DeltaSegmentView| rows_in(segment);
    let taken = |segment: DeltaSegmentView| takes_away(segment);
    if held.len() > 0 {
        let init = held.drop_last();
        lemma_row_sums(init);
        lemma_tombstones(held.last());
        lemma_same_sum(init, held, init.len() as int, rows);
        lemma_same_sum(init, held, init.len() as int, taken);
    }
}

proof fn lemma_lengths(lengths: Seq<Option<u64>>, count: int)
    requires
        count <= lengths.len(),
    ensures
        status::total_length(lengths, count) == sum_of(
            lengths,
            count,
            |length: Option<u64>|
                if let Some(bytes) = length {
                    bytes as nat
                } else {
                    0nat
                },
        ),
    decreases count,
{
    if count > 0 {
        lemma_lengths(lengths, count - 1);
    }
}

// ---------------------------------------------------------------------------
// Status
// ---------------------------------------------------------------------------

/// A status tells how far the sync log is ahead of the generation, and recommends
/// ingestion exactly where it is.
pub proof fn lemma_status_tells_lag(
    manifest: ManifestView,
    max_sync_log_id: i64,
    active_generation_count: i32,
    compaction_threshold: usize,
    last_gc_unix_micros: Option<i64>,
    state: Seq<char>,
    segment_lengths: Seq<Option<u64>>,
    chunk_lengths: Seq<Option<u64>>,
    held: Seq<DeltaSegmentView>,
)
    ensures
        ({
            let told = status::manifest_status(
                manifest,
                max_sync_log_id,
                active_generation_count,
                compaction_threshold,
                last_gc_unix_micros,
                state,
                segment_lengths,
                chunk_lengths,
                held,
            );
            let lag = max_sync_log_id - manifest.sync_watermark;
            &&& lag <= 0 ==> told.pending_durable_rows == 0
            &&& lag > 0 ==> shown(told.pending_durable_rows as int, lag, i64::MAX as int)
            &&& told.ingest_recommended <==> lag > 0
            &&& told.manifest_watermark == Some(manifest.sync_watermark)
            &&& manifest.generation_id <= i64::MAX ==> (told.manifest_generation matches Some(id)
                && id == manifest.generation_id)
            &&& manifest.generation_id > i64::MAX ==> told.manifest_generation is None
            &&& told.active_generation_count == active_generation_count
            &&& told.artifact_validation_state == state
            &&& told.last_ingestion_unix_micros == manifest.last_ingestion_unix_micros
            &&& told.last_compaction_unix_micros == manifest.last_compaction_unix_micros
            &&& told.last_repair_unix_micros == manifest.last_repair_unix_micros
            &&& told.last_gc_unix_micros == last_gc_unix_micros
            &&& !told.repair_recommended
        }),
{
}

/// A status counts the segments of each level and kind, their rows and tombstones, and
/// the bytes of the files.
pub proof fn lemma_status_counts(
    manifest: ManifestView,
    max_sync_log_id: i64,
    active_generation_count: i32,
    compaction_threshold: usize,
    last_gc_unix_micros: Option<i64>,
    state: Seq<char>,
    segment_lengths: Seq<Option<u64>>,
    chunk_lengths: Seq<Option<u64>>,
    held: Seq<DeltaSegmentView>,
)
    requires
        segment_lengths.len() == manifest.segments.len(),
        chunk_lengths.len() == manifest.base_chunks.len(),
    ensures
        ({
            let told = status::manifest_status(
                manifest,
                max_sync_log_id,
                active_generation_count,
                compaction_threshold,
                last_gc_unix_micros,
                state,
                segment_lengths,
                chunk_lengths,
                held,
            );
            let segments = manifest.segments;
            let all = segments.len() as int;
            let zero = how_many(segments, all, |segment: SegmentRefView| segment.level == 0);
            let one = how_many(segments, all, |segment: SegmentRefView| segment.level == 1);
            let more = how_many(segments, all, |segment: SegmentRefView| segment.level >= 2);
            let edges = how_many(
                held,
                held.len() as int,
                |segment: DeltaSegmentView| segment.header.kind is Edge,
            );
            let nodes = how_many(
                held,
                held.len() as int,
                |segment: DeltaSegmentView| segment.header.kind is Node,
            );
            let length = |length: Option<u64>|
                if let Some(bytes) = length {
                    bytes as nat
                } else {
                    0nat
                };
            &&& shown(told.segment_count as int, all, i32::MAX as int)
            &&& shown(told.l0_segment_count as int, zero as int, i32::MAX as int)
            &&& shown(told.l1_segment_count as int, one as int, i32::MAX as int)
            &&& shown(told.l2_segment_count as int, more as int, i32::MAX as int)
            &&& shown(told.edge_segment_count as int, edges as int, i32::MAX as int)
            &&& shown(told.node_segment_count as int, nodes as int, i32::MAX as int)
            &&& shown(
                told.dirty_chunk_count as int,
                manifest.base_chunks.len() as int,
                i32::MAX as int,
            )
            &&& shown(
                told.segment_bytes as int,
                sum_of(segment_lengths, all, length) as int,
                i64::MAX as int,
            )
            &&& shown(
                told.dirty_chunk_bytes as int,
                sum_of(chunk_lengths, chunk_lengths.len() as int, length) as int,
                i64::MAX as int,
            )
            &&& shown(
                told.mutation_rows as int,
                sum_of(held, held.len() as int, |segment: DeltaSegmentView| rows_in(segment)) as int,
                usize::MAX as int,
            )
            &&& shown(
                told.tombstone_rows as int,
                sum_of(
                    held,
                    held.len() as int,
                    |segment: DeltaSegmentView| takes_away(segment),
                ) as int,
                usize::MAX as int,
            )
        }),
{
    let segments = manifest.segments;
    lemma_levels(segments);
    lemma_kinds(held);
    lemma_row_sums(held);
    lemma_lengths(segment_lengths, segments.len() as int);
    lemma_lengths(chunk_lengths, chunk_lengths.len() as int);
}

proof fn lemma_level(segments: Seq<SegmentRefView>, class: u8)
    ensures
        status::level_count(segments, class) == how_many(
            segments,
            segments.len() as int,
            |segment: SegmentRefView| status::level_class(segment.level) == class,
        ),
    decreases segments.len(),
{
    reveal(Seq::filter);
    let asked = |segment: SegmentRefView| status::level_class(segment.level) == class;
    if segments.len() > 0 {
        lemma_level(segments.drop_last(), class);
        lemma_same_prefix(segments.drop_last(), segments, segments.len() - 1, asked);
    }
}

proof fn lemma_agree<T>(
    items: Seq<T>,
    count: int,
    a: spec_fn(T) -> bool,
    b: spec_fn(T) -> bool,
)
    requires
        count <= items.len(),
        forall|i: int| 0 <= i < count ==> a(#[trigger] items[i]) == b(items[i]),
    ensures
        how_many(items, count, a) == how_many(items, count, b),
    decreases count,
{
    if count > 0 {
        lemma_agree(items, count - 1, a, b);
        assert(a(items[count - 1]) == b(items[count - 1]));
    }
}

proof fn lemma_levels(segments: Seq<SegmentRefView>)
    ensures
        ({
            let all = segments.len() as int;
            &&& status::level_count(segments, 0) == how_many(
                segments,
                all,
                |segment: SegmentRefView| segment.level == 0,
            )
            &&& status::level_count(segments, 1) == how_many(
                segments,
                all,
                |segment: SegmentRefView| segment.level == 1,
            )
            &&& status::level_count(segments, 2) == how_many(
                segments,
                all,
                |segment: SegmentRefView| segment.level >= 2,
            )
        }),
{
    let all = segments.len() as int;
    lemma_level(segments, 0);
    lemma_level(segments, 1);
    lemma_level(segments, 2);
    lemma_agree(
        segments,
        all,
        |segment: SegmentRefView| status::level_class(segment.level) == 0u8,
        |segment: SegmentRefView| segment.level == 0,
    );
    lemma_agree(
        segments,
        all,
        |segment: SegmentRefView| status::level_class(segment.level) == 1u8,
        |segment: SegmentRefView| segment.level == 1,
    );
    lemma_agree(
        segments,
        all,
        |segment: SegmentRefView| status::level_class(segment.level) == 2u8,
        |segment: SegmentRefView| segment.level >= 2,
    );
}

proof fn lemma_kind(held: Seq<DeltaSegmentView>, kind: SegmentKind)
    ensures
        status::kind_count(held, kind) == how_many(
            held,
            held.len() as int,
            |segment: DeltaSegmentView| segment.header.kind == kind,
        ),
    decreases held.len(),
{
    reveal(Seq::filter);
    let asked = |segment: DeltaSegmentView| segment.header.kind == kind;
    if held.len() > 0 {
        lemma_kind(held.drop_last(), kind);
        lemma_same_prefix(held.drop_last(), held, held.len() - 1, asked);
    }
}

proof fn lemma_kinds(held: Seq<DeltaSegmentView>)
    ensures
        status::kind_count(held, SegmentKind::Edge) == how_many(
            held,
            held.len() as int,
            |segment: DeltaSegmentView| segment.header.kind is Edge,
        ),
        status::kind_count(held, SegmentKind::Node) == how_many(
            held,
            held.len() as int,
            |segment: DeltaSegmentView| segment.header.kind is Node,
        ),
{
    lemma_kind(held, SegmentKind::Edge);
    lemma_kind(held, SegmentKind::Node);
    lemma_agree(
        held,
        held.len() as int,
        |segment: DeltaSegmentView| segment.header.kind == SegmentKind::Edge,
        |segment: DeltaSegmentView| segment.header.kind is Edge,
    );
    lemma_agree(
        held,
        held.len() as int,
        |segment: DeltaSegmentView| segment.header.kind == SegmentKind::Node,
        |segment: DeltaSegmentView| segment.header.kind is Node,
    );
}

proof fn lemma_listed_bytes(
    files: Seq<FileRefView>,
    count: int,
)
    requires
        count <= files.len(),
    ensures
        status::listed_bytes(files, count) == sum_of(
            files,
            count,
            |file: FileRefView| file.bytes as nat,
        ),
    decreases count,
{
    if count > 0 {
        lemma_listed_bytes(files, count - 1);
    }
}

/// A status recommends compaction exactly where there are more segments than the
/// threshold, and garbage collection exactly where obsolete files have bytes.
pub proof fn lemma_status_recommends(
    manifest: ManifestView,
    max_sync_log_id: i64,
    active_generation_count: i32,
    compaction_threshold: usize,
    last_gc_unix_micros: Option<i64>,
    state: Seq<char>,
    segment_lengths: Seq<Option<u64>>,
    chunk_lengths: Seq<Option<u64>>,
    held: Seq<DeltaSegmentView>,
)
    ensures
        ({
            let told = status::manifest_status(
                manifest,
                max_sync_log_id,
                active_generation_count,
                compaction_threshold,
                last_gc_unix_micros,
                state,
                segment_lengths,
                chunk_lengths,
                held,
            );
            let beyond = manifest.segments.len() - compaction_threshold;
            let obsolete = manifest.obsolete_files;
            let bytes = sum_of(
                obsolete,
                obsolete.len() as int,
                |file: FileRefView| file.bytes as nat,
            );
            &&& told.compaction_recommended <==> beyond > 0
            &&& beyond <= 0 ==> told.compaction_backlog == 0
            &&& beyond > 0 ==> shown(told.compaction_backlog as int, beyond, i32::MAX as int)
            &&& told.gc_recommended <==> bytes > 0
            &&& shown(told.obsolete_file_count as int, obsolete.len() as int, i32::MAX as int)
            &&& shown(told.obsolete_bytes as int, bytes as int, i64::MAX as int)
        }),
{
    lemma_listed_bytes(manifest.obsolete_files, manifest.obsolete_files.len() as int);
}

/// The full status recommends repair exactly where recovery repairs or rebuilds, and a
/// root without a generation lags by the whole sync log.
pub proof fn lemma_full_status_recommends_repair(
    root: Seq<char>,
    plan: RecoveryPlanView,
    loaded: Result<Option<ManifestView>, GraphErrorView>,
    max_sync_log_id: i64,
    active_generation_count: i32,
    compaction_threshold: usize,
    last_gc_unix_micros: Option<i64>,
    segment_lengths: Seq<Option<u64>>,
    chunk_lengths: Seq<Option<u64>>,
    files: Seq<Result<Seq<u8>, Seq<char>>>,
)
    ensures
        status::full_status(
            root,
            plan,
            loaded,
            max_sync_log_id,
            active_generation_count,
            compaction_threshold,
            last_gc_unix_micros,
            segment_lengths,
            chunk_lengths,
            files,
        ) matches Ok(told) ==> {
            &&& loaded matches Ok(Some(_)) ==> (told.repair_recommended <==> (
            plan.action is TargetedChunkRepair || plan.action is FullRebuild))
            &&& loaded is Err ==> (told.repair_recommended <==> plan.action is FullRebuild)
            &&& loaded matches Ok(None) ==> !told.repair_recommended
            &&& loaded is Err || loaded->Ok_0 is None ==> {
                &&& max_sync_log_id > 0 ==> told.pending_durable_rows == max_sync_log_id
                &&& max_sync_log_id <= 0 ==> told.pending_durable_rows == 0
                &&& told.ingest_recommended <==> max_sync_log_id > 0
                &&& told.segment_count == 0 && told.mutation_rows == 0
            }
        },
{
}

// ---------------------------------------------------------------------------
// Recovery
// ---------------------------------------------------------------------------

/// Whether a generation stands on the graph artifact that is there: the same file, of
/// the same version, with the same checksum.
pub open spec fn stands_on(manifest: ManifestView, artifact: LoadedArtifactView) -> bool {
    &&& artifact.file_name == Some(manifest.base_artifact_path)
    &&& artifact.version == manifest.base_artifact_version
    &&& artifact.checksum == Ok::<_, GraphErrorView>(manifest.base_artifact_checksum)
}

/// A generation is healthy where it stands on its artifact and all its files decode; bad
/// base chunks alone are repaired, and anything else is rebuilt. All but the healthy have
/// a reason.
pub proof fn lemma_recovery_decides(
    manifest: ManifestView,
    artifact: Option<LoadedArtifactView>,
    segments: Result<Seq<DeltaSegmentView>, GraphErrorView>,
    chunks: Result<Seq<DeltaSegmentView>, GraphErrorView>,
)
    ensures
        ({
            let plan = recovery::manifest_recovery(manifest, artifact, segments, chunks);
            let fits = artifact matches Some(held) ==> stands_on(manifest, held);
            &&& plan.action is Healthy <==> fits && segments is Ok && chunks is Ok
            &&& plan.action is TargetedChunkRepair <==> fits && segments is Ok && chunks is Err
            &&& plan.action is FullRebuild <==> !fits || segments is Err
            &&& plan.generation_id == Some(manifest.generation_id)
            &&& plan.reason is None <==> plan.action is Healthy
            &&& plan.action is TargetedChunkRepair ==> plan.reason == Some(chunks->Err_0)
            &&& fits && segments is Err ==> plan.reason == Some(segments->Err_0)
        }),
{
}

/// A rebuilt generation holds nothing but the graph artifact that is there.
pub proof fn lemma_rebuilt_generation_is_the_artifact(
    artifact: LoadedArtifactView,
    generation_id: u64,
    sync_watermark: i64,
    now_unix_micros: i64,
)
    ensures
        recovery::rebuilt_manifest(
            artifact,
            generation_id,
            sync_watermark,
            now_unix_micros,
        ) matches Ok(manifest) ==> {
            &&& stands_on(manifest, artifact)
            &&& manifest.generation_id == generation_id
            &&& manifest.sync_watermark == sync_watermark
            &&& manifest.segments.len() == 0 && manifest.base_chunks.len() == 0
                && manifest.obsolete_files.len() == 0
            &&& manifest.previous_generation_id is None
            &&& manifest.last_repair_unix_micros == Some(now_unix_micros)
            &&& manifest.created_at_unix_micros == now_unix_micros
        },
        recovery::rebuilt_manifest(
            artifact,
            generation_id,
            sync_watermark,
            now_unix_micros,
        ) is Ok <==> artifact.file_name is Some && artifact.checksum is Ok,
{
}

// ---------------------------------------------------------------------------
// Compaction
// ---------------------------------------------------------------------------

/// Compaction starts exactly where the segments, their rows, the bytes estimated for
/// them and the time so far are within their budgets.
pub proof fn lemma_compaction_keeps_to_budgets(
    segments: Seq<LoadedView>,
    budgets: CompactionBudgets,
    elapsed_nanos: u128,
)
    ensures
        ({
            let rows = sum_of(
                segments,
                segments.len() as int,
                |loaded: LoadedView| rows_in(loaded.segment),
            );
            compact::budget_error(segments, budgets, elapsed_nanos) is None ==> {
                &&& segments.len() <= budgets.max_segments
                &&& elapsed_nanos <= budgets.max_elapsed_nanos
                &&& rows < usize::MAX ==> rows <= budgets.max_rows && 32 * rows
                    <= budgets.max_bytes
            }
        }),
        ({
            let rows = sum_of(
                segments,
                segments.len() as int,
                |loaded: LoadedView| rows_in(loaded.segment),
            );
            segments.len() <= budgets.max_segments && rows <= budgets.max_rows && 32 * rows
                <= budgets.max_bytes && elapsed_nanos <= budgets.max_elapsed_nanos
                ==> compact::budget_error(segments, budgets, elapsed_nanos) is None
        }),
{
    lemma_total_rows(segments, segments.len() as int);
}

proof fn lemma_total_rows(segments: Seq<LoadedView>, count: int)
    requires
        count <= segments.len(),
    ensures
        compact::total_rows(segments, count) == sum_of(
            segments,
            count,
            |loaded: LoadedView| rows_in(loaded.segment),
        ),
    decreases count,
{
    if count > 0 {
        lemma_total_rows(segments, count - 1);
    }
}

/// Whether reference `i` is to an edge segment of a level that is compacted.
pub open spec fn is_candidate(
    refs: Seq<SegmentRefView>,
    files: Seq<Result<Seq<u8>, Seq<char>>>,
    i: int,
) -> bool {
    &&& 0 <= i < refs.len()
    &&& refs[i].level <= 2
    &&& compact::loaded_segment(refs[i], files[i]) matches Ok(held) && held.header.kind is Edge
}

proof fn lemma_candidates_from(
    refs: Seq<SegmentRefView>,
    files: Seq<Result<Seq<u8>, Seq<char>>>,
    from: int,
    done: Seq<LoadedView>,
    i: int,
)
    requires
        0 <= from <= refs.len(),
        0 <= i < refs.len(),
        i < from && is_candidate(refs, files, i) ==> exists|k: int|
            0 <= k < done.len() && (#[trigger] done[k]).reference == refs[i] && done[k].segment
                == compact::loaded_segment(refs[i], files[i])->Ok_0,
        forall|k: int|
            0 <= k < done.len() ==> (#[trigger] done[k]).segment.header.kind is Edge
                && done[k].reference.level <= 2 && refs.contains(done[k].reference),
        compact::edge_segments_of(refs, files, from, done) is Ok,
    ensures
        ({
            let found = compact::edge_segments_of(refs, files, from, done)->Ok_0;
            &&& is_candidate(refs, files, i) ==> exists|k: int|
                0 <= k < found.len() && (#[trigger] found[k]).reference == refs[i]
                    && found[k].segment == compact::loaded_segment(refs[i], files[i])->Ok_0
            &&& forall|k: int|
                0 <= k < found.len() ==> (#[trigger] found[k]).segment.header.kind is Edge
                    && found[k].reference.level <= 2 && refs.contains(found[k].reference)
        }),
    decreases refs.len() - from,
{
    if from < refs.len() {
        if refs[from].level > 2 {
            lemma_candidates_from(refs, files, from + 1, done, i);
        } else {
            let held = compact::loaded_segment(refs[from], files[from])->Ok_0;
            if held.header.kind is Edge {
                let next = LoadedView { reference: refs[from], segment: held };
                let more = done.push(next);
                assert(more[done.len() as int] == next);
                assert forall|k: int| 0 <= k < more.len() implies (
                #[trigger] more[k]).segment.header.kind is Edge && more[k].reference.level <= 2
                    && refs.contains(more[k].reference) by {
                    if k < done.len() {
                        assert(more[k] == done[k]);
                    } else {
                        assert(refs[from] == more[k].reference);
                    }
                }
                if i < from && is_candidate(refs, files, i) {
                    let k = choose|k: int|
                        0 <= k < done.len() && (#[trigger] done[k]).reference == refs[i]
                            && done[k].segment == compact::loaded_segment(
                            refs[i],
                            files[i],
                        )->Ok_0;
                    assert(more[k] == done[k]);
                }
                lemma_candidates_from(refs, files, from + 1, more, i);
            } else {
                lemma_candidates_from(refs, files, from + 1, done, i);
            }
        }
    }
}

/// Compaction takes every edge segment of the levels zero to two, and no other segment.
pub proof fn lemma_compaction_takes_edge_segments(
    refs: Seq<SegmentRefView>,
    files: Seq<Result<Seq<u8>, Seq<char>>>,
    i: int,
)
    requires
        0 <= i < refs.len(),
        compact::edge_segments_of(refs, files, 0, Seq::empty()) is Ok,
    ensures
        ({
            let found = compact::edge_segments_of(refs, files, 0, Seq::empty())->Ok_0;
            &&& is_candidate(refs, files, i) ==> exists|k: int|
                0 <= k < found.len() && (#[trigger] found[k]).reference == refs[i]
                    && found[k].segment == compact::loaded_segment(refs[i], files[i])->Ok_0
            &&& forall|k: int|
                0 <= k < found.len() ==> (#[trigger] found[k]).segment.header.kind is Edge
                    && found[k].reference.level <= 2 && refs.contains(found[k].reference)
        }),
{
    lemma_candidates_from(refs, files, 0, Seq::empty(), i);
}

} // verus!
