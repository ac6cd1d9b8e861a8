//! What generations hold, and what collecting garbage leaves of them.
use vstd::prelude::*;

use crate::paths;
use crate::projection::chunk;
use crate::projection::compact;
use crate::projection::gc::{self, GcPlan, ProjectionGcConfig};
use crate::projection::ingest::{self, IngestPlanView, ProjectionIngester, ProjectionSyncRow};
use crate::projection::layered::SourceRange;
use crate::projection::manifest::{
    self, ChunkRefView, FileRefView, ManifestView, ProjectionGenerationHeartbeat, SegmentRefView,
};
use crate::projection::normalize::MutationBufferLimits;
use crate::safety::GraphErrorView;

verus! {

// ---------------------------------------------------------------------------
// Manifests
// ---------------------------------------------------------------------------

proof fn lemma_segments(refs: Seq<SegmentRefView>, from: int)
    requires
        0 <= from,
    ensures
        manifest::segments_error(refs, from) is None <==> forall|i: int|
            from <= i < refs.len() ==> {
                &&& !manifest::is_blank((#[trigger] refs[i]).path)
                &&& !manifest::is_blank(refs[i].checksum)
                &&& refs[i].source_start <= refs[i].source_end
                &&& refs[i].sync_watermark >= 0
            },
    decreases refs.len() - from,
{
    if from < refs.len() {
        lemma_segments(refs, from + 1);
        if manifest::segments_error(refs, from) is None {
            assert(manifest::segment_ref_error(refs[from]) is None);
        }
    }
}

proof fn lemma_chunks(refs: Seq<ChunkRefView>, from: int)
    requires
        0 <= from,
    ensures
        manifest::chunks_error(refs, from) is None <==> forall|i: int|
            from <= i < refs.len() ==> {
                &&& !manifest::is_blank((#[trigger] refs[i]).path)
                &&& !manifest::is_blank(refs[i].checksum)
                &&& refs[i].source_start < refs[i].source_end
            },
    decreases refs.len() - from,
{
    if from < refs.len() {
        lemma_chunks(refs, from + 1);
        if manifest::chunks_error(refs, from) is None {
            assert(manifest::chunk_ref_error(refs[from]) is None);
        }
    }
}

proof fn lemma_files(refs: Seq<FileRefView>, from: int)
    requires
        0 <= from,
    ensures
        manifest::files_error(refs, from) is None <==> forall|i: int|
            from <= i < refs.len() ==> !manifest::is_blank((#[trigger] refs[i]).path),
    decreases refs.len() - from,
{
    if from < refs.len() {
        lemma_files(refs, from + 1);
        if manifest::files_error(refs, from) is None {
            assert(manifest::file_ref_error(refs[from]) is None);
        }
    }
}

/// A manifest is accepted exactly where it has a generation, names its base artifact,
/// stands at a watermark of the sync log, is of a known state, and all its references
/// are complete: with a path, a checksum where they have one, and an ordered range.
pub proof fn lemma_accepted_manifests_are_complete(held: ManifestView)
    ensures
        manifest::manifest_error(held) is None <==> {
            &&& held.version == manifest::MANIFEST_VERSION
            &&& held.generation_id > 0
            &&& !manifest::is_blank(held.base_artifact_path)
            &&& !manifest::is_blank(held.base_artifact_checksum)
            &&& held.sync_watermark >= 0
            &&& held.validation_status == "valid"@ || held.validation_status == "corrupt"@
                || held.validation_status == "repairing"@
            &&& forall|i: int|
                0 <= i < held.segments.len() ==> {
                    &&& !manifest::is_blank((#[trigger] held.segments[i]).path)
                    &&& !manifest::is_blank(held.segments[i].checksum)
                    &&& held.segments[i].source_start <= held.segments[i].source_end
                    &&& held.segments[i].sync_watermark >= 0
                }
            &&& forall|i: int|
                0 <= i < held.base_chunks.len() ==> {
                    &&& !manifest::is_blank((#[trigger] held.base_chunks[i]).path)
                    &&& !manifest::is_blank(held.base_chunks[i].checksum)
                    &&& held.base_chunks[i].source_start < held.base_chunks[i].source_end
                }
            &&& forall|i: int|
                0 <= i < held.obsolete_files.len() ==> !manifest::is_blank(
                    (#[trigger] held.obsolete_files[i]).path,
                )
        },
{
    lemma_segments(held.segments, 0);
    lemma_chunks(held.base_chunks, 0);
    lemma_files(held.obsolete_files, 0);
}

/// An ingested generation follows the one before it, names it, stands on the base
/// artifact of the ingester at the watermark of its plan, and holds the segments of its
/// plan and nothing else.
pub proof fn lemma_ingested_generation(
    ingester: ProjectionIngester,
    previous: Option<ManifestView>,
    rows: Seq<ProjectionSyncRow>,
    limits: MutationBufferLimits,
    plan: IngestPlanView,
    refs: Seq<SegmentRefView>,
    now_unix_micros: i64,
)
    requires
        ingest::ingest_plan(previous, rows, limits) == Ok::<_, GraphErrorView>(Some(plan)),
    ensures
        ({
            let next = ingest::ingestion_manifest(
                ingester.base_of(plan.generation_id, plan.sync_watermark, now_unix_micros),
                previous,
                refs,
            );
            &&& next.generation_id == plan.generation_id
            &&& next.sync_watermark == plan.sync_watermark
            &&& previous matches Some(held) ==> {
                &&& next.generation_id == held.generation_id + 1
                &&& next.previous_generation_id == Some(held.generation_id)
                &&& next.last_compaction_unix_micros == held.last_compaction_unix_micros
                &&& next.last_repair_unix_micros == held.last_repair_unix_micros
            }
            &&& previous is None ==> next.previous_generation_id is None
                && next.last_compaction_unix_micros is None && next.last_repair_unix_micros is None
            &&& next.segments == refs
            &&& next.base_chunks.len() == 0 && next.obsolete_files.len() == 0
            &&& next.base_artifact_path == ingester.base_artifact_path@
            &&& next.base_artifact_checksum == ingester.base_artifact_checksum@
            &&& next.base_artifact_version == ingester.base_artifact_version
            &&& next.validation_status == "valid"@
            &&& next.created_at_unix_micros == now_unix_micros
            &&& next.last_ingestion_unix_micros == Some(now_unix_micros)
        }),
{
}

// ---------------------------------------------------------------------------
// Garbage collection
// ---------------------------------------------------------------------------

/// Whether a generation is kept: it is one of the latest, as many as are to be retained
/// and at least one, or it is in use.
pub open spec fn is_kept(
    manifests: Seq<ManifestView>,
    config: ProjectionGcConfig,
    active: Set<u64>,
    at: int,
) -> bool {
    &&& 0 <= at < manifests.len()
    &&& at == manifests.len() - 1 || manifests.len() - at <= config.retained_generation_floor
        || active.contains(manifests[at].generation_id)
}

/// Whether a generation needs a file: its base artifact, one of its segments or one of
/// its base chunks.
pub open spec fn needs(held: ManifestView, reference: Seq<char>) -> bool {
    ||| reference == held.base_artifact_path
    ||| exists|i: int|
        0 <= i < held.segments.len() && (#[trigger] held.segments[i]).path == reference
    ||| exists|i: int|
        0 <= i < held.base_chunks.len() && (#[trigger] held.base_chunks[i]).path == reference
}

proof fn lemma_needs(held: ManifestView, reference: Seq<char>)
    requires
        needs(held, reference),
    ensures
        gc::active_references(held).contains(reference),
{
    let all = gc::active_references(held);
    if reference == held.base_artifact_path {
        assert(all[0] == reference);
    } else if exists|i: int|
        0 <= i < held.segments.len() && (#[trigger] held.segments[i]).path == reference {
        let i = choose|i: int|
            0 <= i < held.segments.len() && (#[trigger] held.segments[i]).path == reference;
        assert(all[1 + i] == reference);
    } else {
        let i = choose|i: int|
            0 <= i < held.base_chunks.len() && (#[trigger] held.base_chunks[i]).path == reference;
        assert(all[1 + held.segments.len() + i] == reference);
    }
}

/// Collecting garbage deletes no file that a kept generation needs: its base artifact,
/// its segments and its base chunks.
pub proof fn lemma_kept_generations_keep_their_files(
    plan: GcPlan,
    root: Seq<char>,
    manifests: Seq<ManifestView>,
    config: ProjectionGcConfig,
    active: Set<u64>,
    at: int,
    reference: Seq<char>,
    candidate: int,
)
    requires
        gc::is_gc_plan(plan, root, manifests, config, active),
        is_kept(manifests, config, active, at),
        needs(manifests[at], reference),
        0 <= candidate < plan.candidates@.len(),
        paths::same_path(manifest::joined(root, reference), plan.candidates@[candidate]@),
    ensures
        plan.protected@[candidate],
{
    lemma_needs(manifests[at], reference);
    assert(gc::retained_ids(manifests, config).union(active).contains(
        manifests[at].generation_id,
    ));
    gc::lemma_gc_spares_referenced_files(
        plan,
        root,
        manifests,
        config,
        active,
        at,
        reference,
        candidate,
    );
}

proof fn lemma_obsolete_has(manifests: Seq<ManifestView>, at: int, i: int) -> (k: int)
    requires
        0 <= at < manifests.len(),
        0 <= i < manifests[at].obsolete_files.len(),
    ensures
        0 <= k < gc::obsolete_references(manifests).len(),
        gc::obsolete_references(manifests)[k] == manifests[at].obsolete_files[i].path,
    decreases manifests.len(),
{
    let init = manifests.drop_last();
    let earlier = gc::obsolete_references(init);
    if at < init.len() {
        lemma_obsolete_has(init, at, i)
    } else {
        earlier.len() + i
    }
}

/// Every file that a valid generation lists as obsolete is a candidate.
pub proof fn lemma_obsolete_files_are_candidates(
    plan: GcPlan,
    root: Seq<char>,
    manifests: Seq<ManifestView>,
    config: ProjectionGcConfig,
    active: Set<u64>,
    at: int,
    i: int,
)
    requires
        gc::is_gc_plan(plan, root, manifests, config, active),
        0 <= at < manifests.len(),
        0 <= i < manifests[at].obsolete_files.len(),
    ensures
        exists|candidate: int|
            0 <= candidate < plan.candidates@.len() && paths::same_path(
                (#[trigger] plan.candidates@[candidate])@,
                manifest::joined(root, manifests[at].obsolete_files[i].path),
            ),
{
    let references = gc::obsolete_references(manifests);
    let k = lemma_obsolete_has(manifests, at, i);
    gc::lemma_ordered_has(root, references, k);
    let listed = gc::ordered_paths(root, references);
    let path = manifest::joined(root, references[k]);
    let candidate = choose|candidate: int|
        0 <= candidate < listed.len() && paths::same_path(#[trigger] listed[candidate], path);
    assert(manifest::texts(plan.candidates@)[candidate] == plan.candidates@[candidate]@);
}

/// Whether a generation follows another in everything but its files: it names the other,
/// stands on the same base artifact at the same watermark, and is valid.
pub open spec fn succeeds(
    next: ManifestView,
    previous: ManifestView,
    generation_id: u64,
    now_unix_micros: i64,
) -> bool {
    &&& next.generation_id == generation_id
    &&& next.previous_generation_id == Some(previous.generation_id)
    &&& next.base_artifact_path == previous.base_artifact_path
    &&& next.base_artifact_checksum == previous.base_artifact_checksum
    &&& next.base_artifact_version == previous.base_artifact_version
    &&& next.sync_watermark == previous.sync_watermark
    &&& next.last_ingestion_unix_micros == previous.last_ingestion_unix_micros
    &&& next.created_at_unix_micros == now_unix_micros
    &&& next.validation_status == "valid"@
}

/// A compacted generation has the segments it is given and the base chunks of the one
/// before it, and lists as obsolete what that listed and what compaction replaced.
pub proof fn lemma_compacted_generation(
    previous: ManifestView,
    generation_id: u64,
    segments: Seq<SegmentRefView>,
    obsolete: Seq<FileRefView>,
    now_unix_micros: i64,
    file: FileRefView,
)
    ensures
        ({
            let next = compact::compaction_manifest_of(
                previous,
                generation_id,
                segments,
                obsolete,
                now_unix_micros,
            );
            &&& succeeds(next, previous, generation_id, now_unix_micros)
            &&& next.segments == segments
            &&& next.base_chunks == previous.base_chunks
            &&& next.last_compaction_unix_micros == Some(now_unix_micros)
            &&& next.last_repair_unix_micros == previous.last_repair_unix_micros
            &&& next.obsolete_files.contains(file) <==> previous.obsolete_files.contains(file)
                || obsolete.contains(file)
        }),
{
    lemma_both(previous.obsolete_files, obsolete, file);
}

proof fn lemma_both<A>(a: Seq<A>, b: Seq<A>, item: A)
    ensures
        (a + b).contains(item) <==> a.contains(item) || b.contains(item),
{
    let both = a + b;
    if a.contains(item) {
        let i = choose|i: int| 0 <= i < a.len() && a[i] == item;
        assert(both[i] == item);
    }
    if b.contains(item) {
        let i = choose|i: int| 0 <= i < b.len() && b[i] == item;
        assert(both[a.len() + i] == item);
    }
    if both.contains(item) {
        let i = choose|i: int| 0 <= i < both.len() && both[i] == item;
        if i < a.len() {
            assert(a[i] == item);
        } else {
            assert(b[i - a.len()] == item);
        }
    }
}

/// Whether a chunk has a source in one of the ranges.
pub open spec fn shares_source(chunk: ChunkRefView, ranges: Seq<SourceRange>) -> bool {
    exists|i: int, source: u32|
        0 <= i < ranges.len() && chunk.source_start <= source < chunk.source_end
            && #[trigger] ranges[i].has(source)
}

proof fn lemma_shares(chunk: ChunkRefView, ranges: Seq<SourceRange>)
    requires
        chunk.source_start < chunk.source_end,
        forall|i: int| 0 <= i < ranges.len() ==> (#[trigger] ranges[i]).start < ranges[i].end,
    ensures
        chunk::is_rewritten(chunk, ranges) <==> shares_source(chunk, ranges),
{
    if chunk::is_rewritten(chunk, ranges) {
        let i = choose|i: int|
            0 <= i < ranges.len() && (#[trigger] ranges[i]).start < chunk.source_end
                && chunk.source_start < ranges[i].end;
        let source = if ranges[i].start < chunk.source_start {
            chunk.source_start
        } else {
            ranges[i].start
        };
        assert(ranges[i].has(source));
    }
    if shares_source(chunk, ranges) {
        let (i, source) = choose|i: int, source: u32|
            0 <= i < ranges.len() && chunk.source_start <= source < chunk.source_end
                && #[trigger] ranges[i].has(source);
        assert(ranges[i].start < chunk.source_end);
    }
}

/// A generation with rewritten base chunks keeps exactly the chunks that have no source
/// in the rewritten ranges, beside the new ones, and lists the files of the others as
/// obsolete.
pub proof fn lemma_rewritten_generation(
    previous: ManifestView,
    generation_id: u64,
    segments: Seq<SegmentRefView>,
    ranges: Seq<SourceRange>,
    chunks: Seq<ChunkRefView>,
    obsolete: Seq<FileRefView>,
    repair: bool,
    now_unix_micros: i64,
    i: int,
)
    requires
        0 <= i < previous.base_chunks.len(),
        previous.base_chunks[i].source_start < previous.base_chunks[i].source_end,
        forall|k: int| 0 <= k < ranges.len() ==> (#[trigger] ranges[k]).start < ranges[k].end,
    ensures
        ({
            let next = chunk::rewrite_manifest_of(
                previous,
                generation_id,
                segments,
                ranges,
                chunks,
                obsolete,
                repair,
                now_unix_micros,
            );
            let held = previous.base_chunks[i];
            &&& succeeds(next, previous, generation_id, now_unix_micros)
            &&& next.segments == segments
            &&& shares_source(held, ranges) ==> exists|k: int|
                0 <= k < next.obsolete_files.len() && (#[trigger] next.obsolete_files[k]).path
                    == held.path
            &&& !shares_source(held, ranges) ==> next.base_chunks.contains(held)
            &&& shares_source(held, ranges) && !chunks.contains(held)
                ==> !next.base_chunks.contains(held)
            &&& forall|k: int|
                0 <= k < chunks.len() ==> next.base_chunks.contains(#[trigger] chunks[k])
            &&& repair ==> next.last_repair_unix_micros == Some(now_unix_micros)
                && next.last_compaction_unix_micros == previous.last_compaction_unix_micros
            &&& !repair ==> next.last_compaction_unix_micros == Some(now_unix_micros)
                && next.last_repair_unix_micros == previous.last_repair_unix_micros
        }),
{
    let next = chunk::rewrite_manifest_of(
        previous,
        generation_id,
        segments,
        ranges,
        chunks,
        obsolete,
        repair,
        now_unix_micros,
    );
    let all = previous.base_chunks;
    let held = all[i];
    let stays = |chunk: ChunkRefView| !chunk::is_rewritten(chunk, ranges);
    let goes = |chunk: ChunkRefView| chunk::is_rewritten(chunk, ranges);
    let kept = chunk::kept_chunks(all, ranges);
    let gone = all.filter(goes);
    let files = chunk::replaced_files(all, ranges);
    lemma_shares(held, ranges);
    lemma_both(kept, chunks, held);
    if shares_source(held, ranges) {
        all.lemma_filter_contains(goes, i);
        let k = choose|k: int| 0 <= k < gone.len() && gone[k] == held;
        assert(files[k].path == held.path);
        assert(next.obsolete_files[previous.obsolete_files.len() + k] == files[k]);
        if kept.contains(held) {
            let m = choose|m: int| 0 <= m < kept.len() && kept[m] == held;
            all.lemma_filter_pred(stays, m);
        }
    } else {
        all.lemma_filter_contains(stays, i);
    }
    assert forall|k: int| 0 <= k < chunks.len() implies next.base_chunks.contains(
        #[trigger] chunks[k],
    ) by {
        assert(next.base_chunks[kept.len() + k] == chunks[k]);
    }
}

// ---------------------------------------------------------------------------
// Heartbeats
// ---------------------------------------------------------------------------

/// A refreshed heartbeat is of the same backend and generation, beats now, and expires
/// after the time to live.
pub proof fn lemma_refreshed_heartbeat(
    heartbeat: ProjectionGenerationHeartbeat,
    now_unix_micros: i64,
    ttl_micros: u128,
)
    ensures
        manifest::refreshed(heartbeat, now_unix_micros, ttl_micros) is Ok <==> now_unix_micros
            + ttl_micros <= i64::MAX && ttl_micros <= i64::MAX,
        manifest::refreshed(heartbeat, now_unix_micros, ttl_micros) matches Ok(next) ==> {
            &&& next.backend_pid == heartbeat.backend_pid
            &&& next.database_oid == heartbeat.database_oid
            &&& next.generation_id == heartbeat.generation_id
            &&& next.heartbeat_at_unix_micros == now_unix_micros
            &&& next.expires_at_unix_micros - next.heartbeat_at_unix_micros == ttl_micros
        },
{
}

/// The row of a heartbeat tells the generation, its time to live and its watermark.
pub proof fn lemma_heartbeat_row(
    generation_id: u64,
    ttl_micros: u128,
    sync_watermark: i64,
    validation_status: Seq<char>,
)
    ensures
        manifest::heartbeat_row(
            generation_id,
            ttl_micros,
            sync_watermark,
            validation_status,
        ) matches Ok(row) ==> row.generation_id == generation_id && row.ttl_micros == ttl_micros
            && row.sync_watermark == sync_watermark && row.validation_status == validation_status,
        generation_id <= i64::MAX && ttl_micros <= i64::MAX && validation_status == "valid"@
            ==> manifest::heartbeat_row(
            generation_id,
            ttl_micros,
            sync_watermark,
            validation_status,
        ) is Ok,
{
}

} // verus!
