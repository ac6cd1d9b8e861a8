//! Durable projection status and operator diagnostics.
//!
//! Status collection reads manifest metadata and lightweight artifact metadata
//! so SQL diagnostics can recommend ingestion, compaction, GC, or repair.
use vstd::prelude::*;

use crate::projection::compact::{self, segment_row_count};
use crate::projection::gc;
use crate::projection::layered::{self, FileRead};
use crate::projection::manifest::{
    self, join_path, resolve_manifest_reference, ChunkRefView, FileRefView, ManifestView,
    ProjectionManifest, SegmentRefView, VALIDATION_STATUS_VALID,
};
use crate::projection::recovery::{self, ProjectionRecoveryAction, ProjectionRecoveryPlan};
use crate::projection::segment::{
    self, DeltaSegment, DeltaSegmentView, SegmentFilterValue, SegmentKind, SegmentNodeState,
    SegmentResolution, SegmentTenant,
};
use crate::safety::{self, GraphError, GraphErrorView, GraphResult};
use crate::text::{self, concat6, decimal_text, owned, same_text, wide_decimal_text};

verus! {

/// File that records when maintenance ran.
pub const PROJECTION_OPERATION_STATUS_FILE: &'static str = "projection-status.json";

/// Durable projection diagnostic row exposed to SQL. The share of tombstones is
/// `tombstone_rows` out of `mutation_rows`.
#[derive(Debug, Clone, PartialEq, Eq)]
pub struct ProjectionStatus {
    pub manifest_generation: Option<i64>,
    pub manifest_watermark: Option<i64>,
    pub pending_durable_rows: i64,
    pub segment_count: i32,
    pub segment_bytes: i64,
    pub l0_segment_count: i32,
    pub l1_segment_count: i32,
    pub l2_segment_count: i32,
    pub edge_segment_count: i32,
    pub node_segment_count: i32,
    pub dirty_chunk_count: i32,
    pub dirty_chunk_bytes: i64,
    pub mutation_rows: usize,
    pub tombstone_rows: usize,
    pub compaction_backlog: i32,
    pub obsolete_file_count: i32,
    pub obsolete_bytes: i64,
    pub active_generation_count: i32,
    pub artifact_validation_state: String,
    pub last_ingestion_unix_micros: Option<i64>,
    pub last_compaction_unix_micros: Option<i64>,
    pub last_gc_unix_micros: Option<i64>,
    pub last_repair_unix_micros: Option<i64>,
    pub ingest_recommended: bool,
    pub compaction_recommended: bool,
    pub gc_recommended: bool,
    pub repair_recommended: bool,
}

/// What a status row says.
pub struct StatusView {
    pub manifest_generation: Option<i64>,
    pub manifest_watermark: Option<i64>,
    pub pending_durable_rows: i64,
    pub segment_count: i32,
    pub segment_bytes: i64,
    pub l0_segment_count: i32,
    pub l1_segment_count: i32,
    pub l2_segment_count: i32,
    pub edge_segment_count: i32,
    pub node_segment_count: i32,
    pub dirty_chunk_count: i32,
    pub dirty_chunk_bytes: i64,
    pub mutation_rows: usize,
    pub tombstone_rows: usize,
    pub compaction_backlog: i32,
    pub obsolete_file_count: i32,
    pub obsolete_bytes: i64,
    pub active_generation_count: i32,
    pub artifact_validation_state: Seq<char>,
    pub last_ingestion_unix_micros: Option<i64>,
    pub last_compaction_unix_micros: Option<i64>,
    pub last_gc_unix_micros: Option<i64>,
    pub last_repair_unix_micros: Option<i64>,
    pub ingest_recommended: bool,
    pub compaction_recommended: bool,
    pub gc_recommended: bool,
    pub repair_recommended: bool,
}

impl View for ProjectionStatus {
    type V = StatusView;

    open spec fn view(&self) -> StatusView {
        StatusView {
            manifest_generation: self.manifest_generation,
            manifest_watermark: self.manifest_watermark,
            pending_durable_rows: self.pending_durable_rows,
            segment_count: self.segment_count,
            segment_bytes: self.segment_bytes,
            l0_segment_count: self.l0_segment_count,
            l1_segment_count: self.l1_segment_count,
            l2_segment_count: self.l2_segment_count,
            edge_segment_count: self.edge_segment_count,
            node_segment_count: self.node_segment_count,
            dirty_chunk_count: self.dirty_chunk_count,
            dirty_chunk_bytes: self.dirty_chunk_bytes,
            mutation_rows: self.mutation_rows,
            tombstone_rows: self.tombstone_rows,
            compaction_backlog: self.compaction_backlog,
            obsolete_file_count: self.obsolete_file_count,
            obsolete_bytes: self.obsolete_bytes,
            active_generation_count: self.active_generation_count,
            artifact_validation_state: self.artifact_validation_state@,
            last_ingestion_unix_micros: self.last_ingestion_unix_micros,
            last_compaction_unix_micros: self.last_compaction_unix_micros,
            last_gc_unix_micros: self.last_gc_unix_micros,
            last_repair_unix_micros: self.last_repair_unix_micros,
            ingest_recommended: self.ingest_recommended,
            compaction_recommended: self.compaction_recommended,
            gc_recommended: self.gc_recommended,
            repair_recommended: self.repair_recommended,
        }
    }
}

/// When maintenance ran last.
#[derive(Debug, Clone, Copy, PartialEq, Eq)]
pub struct ProjectionOperationStatus {
    pub last_gc_unix_micros: Option<i64>,
}

/// How much of the artifacts a status reads.
#[derive(Debug, Clone, Copy, PartialEq, Eq, Structural)]
pub enum StatusScan {
    /// Decode every segment.
    Full,
    /// Read metadata only.
    MetadataOnly,
}

// ---------------------------------------------------------------------------
// Counts
// ---------------------------------------------------------------------------

/// The number, or the greatest that an `i32` holds.
pub open spec fn capped_i32(n: nat) -> i32 {
    if n > i32::MAX {
        i32::MAX
    } else {
        n as i32
    }
}

/// The number, or the greatest that an `i64` holds.
pub open spec fn capped_i64(n: nat) -> i64 {
    if n > i64::MAX {
        i64::MAX
    } else {
        n as i64
    }
}

fn cap_count(n: usize) -> (capped: i32)
    ensures
        capped == capped_i32(n as nat),
{
    if n > 2_147_483_647 {
        2_147_483_647
    } else {
        n as i32
    }
}

fn cap_bytes(n: u64) -> (capped: i64)
    ensures
        capped == capped_i64(n as nat),
{
    if n > 9_223_372_036_854_775_807 {
        9_223_372_036_854_775_807
    } else {
        n as i64
    }
}

fn more_bytes(sum: i64, more: i64) -> (total: i64)
    requires
        sum >= 0,
        more >= 0,
    ensures
        total == capped_i64((sum + more) as nat),
{
    if more > 9_223_372_036_854_775_807 - sum {
        9_223_372_036_854_775_807
    } else {
        sum + more
    }
}

fn one_more(count: i32) -> (next: i32)
    requires
        count >= 0,
    ensures
        next == capped_i32((count + 1) as nat),
{
    if count == 2_147_483_647 {
        count
    } else {
        count + 1
    }
}

/// The value of an `u64` as an `i64`, where it fits.
pub fn u64_to_i64(value: u64) -> (signed: Option<i64>)
    ensures
        signed == (if value <= i64::MAX {
            Some(value as i64)
        } else {
            None
        }),
{
    if value <= 9_223_372_036_854_775_807 {
        Some(value as i64)
    } else {
        None
    }
}

/// The number of bytes of a file, or none where it could not be read.
pub open spec fn length_of(length: Option<u64>) -> nat {
    match length {
        Some(bytes) => bytes as nat,
        None => 0,
    }
}

/// The number of bytes of a file, capped at the greatest `i64`.
pub fn file_len_i64(length: Option<u64>) -> (bytes: i64)
    ensures
        bytes == capped_i64(length_of(length)),
{
    match length {
        Some(bytes) => cap_bytes(bytes),
        None => 0,
    }
}

/// The number of bytes of the first `count` files.
pub open spec fn total_length(lengths: Seq<Option<u64>>, count: int) -> nat
    decreases count,
{
    if count <= 0 {
        0
    } else {
        total_length(lengths, count - 1) + length_of(lengths[count - 1])
    }
}

/// The number of bytes of the first `count` listed files.
pub open spec fn listed_bytes(files: Seq<FileRefView>, count: int) -> nat
    decreases count,
{
    if count <= 0 {
        0
    } else {
        listed_bytes(files, count - 1) + files[count - 1].bytes as nat
    }
}

/// The level as which a status counts a segment.
pub open spec fn level_class(level: u8) -> u8 {
    if level == 0 {
        0
    } else if level == 1 {
        1
    } else {
        2
    }
}

/// The number of segments of a level.
pub open spec fn level_count(segments: Seq<SegmentRefView>, class: u8) -> nat {
    segments.filter(|segment: SegmentRefView| level_class(segment.level) == class).len()
}

/// The segments that decode out of the first `count` files.
pub open spec fn readable(files: Seq<Result<Seq<u8>, Seq<char>>>, count: int) -> Seq<
    DeltaSegmentView,
>
    decreases count,
{
    if count <= 0 {
        Seq::empty()
    } else {
        let earlier = readable(files, count - 1);
        match files[count - 1] {
            Err(_) => earlier,
            Ok(bytes) => match segment::parse(bytes) {
                Ok(held) => earlier.push(held),
                Err(_) => earlier,
            },
        }
    }
}

/// The number of segments of a kind.
pub open spec fn kind_count(segments: Seq<DeltaSegmentView>, kind: SegmentKind) -> nat {
    segments.filter(|held: DeltaSegmentView| held.header.kind == kind).len()
}

/// The number of rows of a segment that take something away.
pub open spec fn tombstone_count(segment: DeltaSegmentView) -> nat {
    segment.edge_deletes.len() + segment.node_states.filter(
        |row: SegmentNodeState| !row.active,
    ).len() + segment.resolutions.filter(|row: SegmentResolution| row.tombstone).len()
        + segment.filters.filter(|row: SegmentFilterValue| row.tombstone).len()
        + segment.tenants.filter(|row: SegmentTenant| row.tombstone).len()
}

/// The number of rows of segments.
pub open spec fn all_rows(segments: Seq<DeltaSegmentView>) -> nat
    decreases segments.len(),
{
    if segments.len() == 0 {
        0
    } else {
        all_rows(segments.drop_last()) + compact::row_count(segments.last())
    }
}

/// The number of rows of segments that take something away.
pub open spec fn all_tombstones(segments: Seq<DeltaSegmentView>) -> nat
    decreases segments.len(),
{
    if segments.len() == 0 {
        0
    } else {
        all_tombstones(segments.drop_last()) + tombstone_count(segments.last())
    }
}

/// The number of rows of a segment that take something away, capped at the
/// greatest `usize`.
pub fn segment_tombstone_count(segment: &DeltaSegment) -> (count: usize)
    ensures
        count == compact::capped(tombstone_count(segment@)),
{
    let mut inactive: usize = 0;
    proof {
        reveal(Seq::filter);
    }
    for i in 0..segment.node_states.len()
        invariant
            inactive == segment.node_states@.take(i as int).filter(
                |row: SegmentNodeState| !row.active,
            ).len(),
            inactive <= i,
    {
        proof {
            reveal(Seq::filter);
            assert(segment.node_states@.take(i + 1).drop_last() =~= segment.node_states@.take(
                i as int,
            ));
        }
        if !segment.node_states[i].active {
            inactive = inactive + 1;
        }
    }
    assert(segment.node_states@.take(segment.node_states@.len() as int) =~= segment.node_states@);
    let mut resolutions: usize = 0;
    for i in 0..segment.resolutions.len()
        invariant
            resolutions == segment.resolutions@.take(i as int).filter(
                |row: SegmentResolution| row.tombstone,
            ).len(),
            resolutions <= i,
    {
        proof {
            reveal(Seq::filter);
            assert(segment.resolutions@.take(i + 1).drop_last() =~= segment.resolutions@.take(
                i as int,
            ));
        }
        if segment.resolutions[i].tombstone {
            resolutions = resolutions + 1;
        }
    }
    assert(segment.resolutions@.take(segment.resolutions@.len() as int) =~= segment.resolutions@);
    let mut filters: usize = 0;
    for i in 0..segment.filters.len()
        invariant
            filters == segment.filters@.take(i as int).filter(
                |row: SegmentFilterValue| row.tombstone,
            ).len(),
            filters <= i,
    {
        proof {
            reveal(Seq::filter);
            assert(segment.filters@.take(i + 1).drop_last() =~= segment.filters@.take(i as int));
        }
        if segment.filters[i].tombstone {
            filters = filters + 1;
        }
    }
    assert(segment.filters@.take(segment.filters@.len() as int) =~= segment.filters@);
    let mut tenants: usize = 0;
    for i in 0..segment.tenants.len()
        invariant
            tenants == segment.tenants@.take(i as int).filter(
                |row: SegmentTenant| row.tombstone,
            ).len(),
            tenants <= i,
    {
        proof {
            reveal(Seq::filter);
            assert(segment.tenants@.take(i + 1).drop_last() =~= segment.tenants@.take(i as int));
        }
        if segment.tenants[i].tombstone {
            tenants = tenants + 1;
        }
    }
    assert(segment.tenants@.take(segment.tenants@.len() as int) =~= segment.tenants@);
    segment.edge_deletes.len().saturating_add(inactive).saturating_add(resolutions).saturating_add(
        filters,
    ).saturating_add(tenants)
}

// ---------------------------------------------------------------------------
// Status
// ---------------------------------------------------------------------------

/// The status without a manifest.
pub open spec fn empty_status(
    pending_durable_rows: i64,
    active_generation_count: i32,
    state: Seq<char>,
) -> StatusView {
    StatusView {
        manifest_generation: None,
        manifest_watermark: None,
        pending_durable_rows,
        segment_count: 0,
        segment_bytes: 0,
        l0_segment_count: 0,
        l1_segment_count: 0,
        l2_segment_count: 0,
        edge_segment_count: 0,
        node_segment_count: 0,
        dirty_chunk_count: 0,
        dirty_chunk_bytes: 0,
        mutation_rows: 0,
        tombstone_rows: 0,
        compaction_backlog: 0,
        obsolete_file_count: 0,
        obsolete_bytes: 0,
        active_generation_count,
        artifact_validation_state: state,
        last_ingestion_unix_micros: None,
        last_compaction_unix_micros: None,
        last_gc_unix_micros: None,
        last_repair_unix_micros: None,
        ingest_recommended: pending_durable_rows > 0,
        compaction_recommended: false,
        gc_recommended: false,
        repair_recommended: false,
    }
}

impl ProjectionStatus {
    /// The status without a manifest.
    pub fn empty(
        pending_durable_rows: i64,
        active_generation_count: i32,
        artifact_validation_state: &str,
    ) -> (status: ProjectionStatus)
        ensures
            status@ == empty_status(
                pending_durable_rows,
                active_generation_count,
                artifact_validation_state@,
            ),
    {
        ProjectionStatus {
            manifest_generation: None,
            manifest_watermark: None,
            pending_durable_rows,
            segment_count: 0,
            segment_bytes: 0,
            l0_segment_count: 0,
            l1_segment_count: 0,
            l2_segment_count: 0,
            edge_segment_count: 0,
            node_segment_count: 0,
            dirty_chunk_count: 0,
            dirty_chunk_bytes: 0,
            mutation_rows: 0,
            tombstone_rows: 0,
            compaction_backlog: 0,
            obsolete_file_count: 0,
            obsolete_bytes: 0,
            active_generation_count,
            artifact_validation_state: owned(artifact_validation_state),
            last_ingestion_unix_micros: None,
            last_compaction_unix_micros: None,
            last_gc_unix_micros: None,
            last_repair_unix_micros: None,
            ingest_recommended: pending_durable_rows > 0,
            compaction_recommended: false,
            gc_recommended: false,
            repair_recommended: false,
        }
    }
}

/// The number of rows after a watermark.
pub open spec fn pending_rows(max_sync_log_id: i64, watermark: i64) -> i64 {
    if max_sync_log_id <= watermark {
        0
    } else {
        capped_i64((max_sync_log_id - watermark) as nat)
    }
}

fn count_pending(max_sync_log_id: i64, watermark: i64) -> (pending: i64)
    ensures
        pending == pending_rows(max_sync_log_id, watermark),
{
    if max_sync_log_id <= watermark {
        0
    } else {
        let distance: i128 = max_sync_log_id as i128 - watermark as i128;
        if distance > 9_223_372_036_854_775_807 {
            9_223_372_036_854_775_807
        } else {
            distance as i64
        }
    }
}

/// The references of segments.
pub open spec fn segment_paths(segments: Seq<SegmentRefView>) -> Seq<Seq<char>> {
    segments.map_values(|segment: SegmentRefView| segment.path)
}

/// The references of base chunks.
pub open spec fn chunk_paths(chunks: Seq<ChunkRefView>) -> Seq<Seq<char>> {
    chunks.map_values(|chunk: ChunkRefView| chunk.path)
}

/// The status of a manifest.
pub open spec fn manifest_status(
    manifest: ManifestView,
    max_sync_log_id: i64,
    active_generation_count: i32,
    compaction_threshold: usize,
    last_gc_unix_micros: Option<i64>,
    state: Seq<char>,
    segment_lengths: Seq<Option<u64>>,
    chunk_lengths: Seq<Option<u64>>,
    held: Seq<DeltaSegmentView>,
) -> StatusView {
    let pending = pending_rows(max_sync_log_id, manifest.sync_watermark);
    let backlog = if manifest.segments.len() > compaction_threshold {
        capped_i32((manifest.segments.len() - compaction_threshold) as nat)
    } else {
        0
    };
    let obsolete = capped_i64(
        listed_bytes(manifest.obsolete_files, manifest.obsolete_files.len() as int),
    );
    StatusView {
        manifest_generation: if manifest.generation_id <= i64::MAX {
            Some(manifest.generation_id as i64)
        } else {
            None
        },
        manifest_watermark: Some(manifest.sync_watermark),
        pending_durable_rows: pending,
        segment_count: capped_i32(manifest.segments.len()),
        segment_bytes: capped_i64(total_length(segment_lengths, manifest.segments.len() as int)),
        l0_segment_count: capped_i32(level_count(manifest.segments, 0)),
        l1_segment_count: capped_i32(level_count(manifest.segments, 1)),
        l2_segment_count: capped_i32(level_count(manifest.segments, 2)),
        edge_segment_count: capped_i32(kind_count(held, SegmentKind::Edge)),
        node_segment_count: capped_i32(kind_count(held, SegmentKind::Node)),
        dirty_chunk_count: capped_i32(manifest.base_chunks.len()),
        dirty_chunk_bytes: capped_i64(
            total_length(chunk_lengths, manifest.base_chunks.len() as int),
        ),
        mutation_rows: compact::capped(all_rows(held)),
        tombstone_rows: compact::capped(all_tombstones(held)),
        compaction_backlog: backlog,
        obsolete_file_count: capped_i32(manifest.obsolete_files.len()),
        obsolete_bytes: obsolete,
        active_generation_count,
        artifact_validation_state: state,
        last_ingestion_unix_micros: manifest.last_ingestion_unix_micros,
        last_compaction_unix_micros: manifest.last_compaction_unix_micros,
        last_gc_unix_micros,
        last_repair_unix_micros: manifest.last_repair_unix_micros,
        ingest_recommended: pending > 0,
        compaction_recommended: backlog > 0,
        gc_recommended: manifest.obsolete_files.len() > 0 && obsolete > 0,
        repair_recommended: false,
    }
}

/// What a scan decodes of segment files.
pub open spec fn scanned(
    scan: StatusScan,
    files: Seq<Result<Seq<u8>, Seq<char>>>,
    count: int,
) -> Seq<DeltaSegmentView> {
    match scan {
        StatusScan::Full => readable(files, count),
        StatusScan::MetadataOnly => Seq::empty(),
    }
}

/// What a scan finds of a manifest, or the first reference outside the root.
pub open spec fn status_outcome(
    root: Seq<char>,
    manifest: ManifestView,
    status: StatusView,
) -> Result<StatusView, GraphErrorView> {
    match gc::resolve_error(root, segment_paths(manifest.segments), 0) {
        Some(error) => Err(error),
        None => match gc::resolve_error(root, chunk_paths(manifest.base_chunks), 0) {
            Some(error) => Err(error),
            None => Ok(status),
        },
    }
}

/// Counts over the segments of a manifest.
struct SegmentTotals {
    bytes: i64,
    l0: i32,
    l1: i32,
    l2: i32,
    edge: i32,
    node: i32,
    mutation_rows: usize,
    tombstone_rows: usize,
}

spec fn totals_of(
    segments: Seq<SegmentRefView>,
    lengths: Seq<Option<u64>>,
    held: Seq<DeltaSegmentView>,
) -> SegmentTotals {
    SegmentTotals {
        bytes: capped_i64(total_length(lengths, segments.len() as int)),
        l0: capped_i32(level_count(segments, 0)),
        l1: capped_i32(level_count(segments, 1)),
        l2: capped_i32(level_count(segments, 2)),
        edge: capped_i32(kind_count(held, SegmentKind::Edge)),
        node: capped_i32(kind_count(held, SegmentKind::Node)),
        mutation_rows: compact::capped(all_rows(held)),
        tombstone_rows: compact::capped(all_tombstones(held)),
    }
}

fn count_segments(
    root: &str,
    manifest: &ProjectionManifest,
    scan: StatusScan,
    segment_lengths: &Vec<Option<u64>>,
    segment_files: &Vec<FileRead>,
) -> (result: GraphResult<SegmentTotals>)
    requires
        segment_lengths@.len() == manifest@.segments.len(),
        scan is Full ==> segment_files@.len() == manifest@.segments.len(),
    ensures
        match gc::resolve_error(root@, segment_paths(manifest@.segments), 0) {
            Some(error) => result matches Err(given) && given@ == error,
            None => result matches Ok(totals) && totals == totals_of(
                manifest@.segments,
                segment_lengths@,
                scanned(
                    scan,
                    layered::file_views(segment_files@),
                    manifest@.segments.len() as int,
                ),
            ),
        },
{
    let mut totals: SegmentTotals = SegmentTotals {
        bytes: 0,
        l0: 0,
        l1: 0,
        l2: 0,
        edge: 0,
        node: 0,
        mutation_rows: 0,
        tombstone_rows: 0,
    };
    let ghost refs = manifest@.segments;
    let ghost files = layered::file_views(segment_files@);
    proof {
        reveal(Seq::filter);
    }
    for i in 0..manifest.segments.len()
        invariant
            refs == manifest@.segments,
            files == layered::file_views(segment_files@),
            segment_lengths@.len() == refs.len(),
            scan is Full ==> segment_files@.len() == refs.len(),
            gc::resolve_error(root@, segment_paths(refs), i as int) == gc::resolve_error(
                root@,
                segment_paths(refs),
                0,
            ),
            totals == totals_of(
                refs.take(i as int),
                segment_lengths@,
                scanned(scan, files, i as int),
            ),
    {
        let reference = &manifest.segments[i];
        assert(segment_paths(refs)[i as int] == reference.path@);
        match resolve_manifest_reference(root, reference.path.as_str()) {
            Ok(_) => {},
            Err(error) => {
                return Err(error);
            },
        }
        proof {
            reveal(Seq::filter);
            assert(refs.take(i + 1).drop_last() =~= refs.take(i as int));
            assert(refs.take(i + 1).last() == refs[i as int]);
            assert(refs[i as int].level == reference.level);
        }
        let length: i64 = file_len_i64(segment_lengths[i]);
        totals.bytes = more_bytes(totals.bytes, length);
        if reference.level == 0 {
            totals.l0 = one_more(totals.l0);
        } else if reference.level == 1 {
            totals.l1 = one_more(totals.l1);
        } else {
            totals.l2 = one_more(totals.l2);
        }
        if scan == StatusScan::Full {
            assert(files[i as int] == layered::file_view(segment_files@[i as int]));
            match &segment_files[i] {
                Ok(bytes) => match DeltaSegment::from_bytes(bytes.as_slice()) {
                    Ok(decoded) => {
                        proof {
                            let earlier = readable(files, i as int);
                            assert(readable(files, i + 1) == earlier.push(decoded@));
                            assert(earlier.push(decoded@).drop_last() =~= earlier);
                        }
                        match decoded.header.kind {
                            SegmentKind::Edge => {
                                totals.edge = one_more(totals.edge);
                            },
                            SegmentKind::Node => {
                                totals.node = one_more(totals.node);
                            },
                        }
                        totals.mutation_rows = totals.mutation_rows.saturating_add(
                            segment_row_count(&decoded),
                        );
                        totals.tombstone_rows = totals.tombstone_rows.saturating_add(
                            segment_tombstone_count(&decoded),
                        );
                    },
                    Err(_) => {},
                },
                Err(_) => {},
            }
        }
    }
    assert(refs.take(refs.len() as int) =~= refs);
    Ok(totals)
}

fn count_chunk_bytes(
    root: &str,
    manifest: &ProjectionManifest,
    chunk_lengths: &Vec<Option<u64>>,
) -> (result: GraphResult<i64>)
    requires
        chunk_lengths@.len() == manifest@.base_chunks.len(),
    ensures
        match gc::resolve_error(root@, chunk_paths(manifest@.base_chunks), 0) {
            Some(error) => result matches Err(given) && given@ == error,
            None => result matches Ok(bytes) && bytes == capped_i64(
                total_length(chunk_lengths@, manifest@.base_chunks.len() as int),
            ),
        },
{
    let mut sum: i64 = 0;
    let ghost refs = manifest@.base_chunks;
    for i in 0..manifest.base_chunks.len()
        invariant
            refs == manifest@.base_chunks,
            chunk_lengths@.len() == refs.len(),
            gc::resolve_error(root@, chunk_paths(refs), i as int) == gc::resolve_error(
                root@,
                chunk_paths(refs),
                0,
            ),
            sum == capped_i64(total_length(chunk_lengths@, i as int)),
    {
        let reference = &manifest.base_chunks[i];
        assert(chunk_paths(refs)[i as int] == reference.path@);
        match resolve_manifest_reference(root, reference.path.as_str()) {
            Ok(_) => {},
            Err(error) => {
                return Err(error);
            },
        }
        let length: i64 = file_len_i64(chunk_lengths[i]);
        sum = more_bytes(sum, length);
    }
    Ok(sum)
}

/// The status of a manifest: `segment_lengths`, `chunk_lengths` and
/// `segment_files` tell of the files it references, in its order.
pub fn status_from_manifest(
    root: &str,
    manifest: &ProjectionManifest,
    max_sync_log_id: i64,
    active_generation_count: i32,
    compaction_threshold: usize,
    last_gc_unix_micros: Option<i64>,
    scan: StatusScan,
    artifact_validation_state: &str,
    segment_lengths: &Vec<Option<u64>>,
    chunk_lengths: &Vec<Option<u64>>,
    segment_files: &Vec<FileRead>,
) -> (result: GraphResult<ProjectionStatus>)
    requires
        segment_lengths@.len() == manifest@.segments.len(),
        chunk_lengths@.len() == manifest@.base_chunks.len(),
        scan is Full ==> segment_files@.len() == manifest@.segments.len(),
    ensures
        safety::outcome(result) == status_outcome(
            root@,
            manifest@,
            manifest_status(
                manifest@,
                max_sync_log_id,
                active_generation_count,
                compaction_threshold,
                last_gc_unix_micros,
                artifact_validation_state@,
                segment_lengths@,
                chunk_lengths@,
                scanned(
                    scan,
                    layered::file_views(segment_files@),
                    manifest@.segments.len() as int,
                ),
            ),
        ),
{
    let totals: SegmentTotals = count_segments(
        root,
        manifest,
        scan,
        segment_lengths,
        segment_files,
    )?;
    let dirty_chunk_bytes: i64 = count_chunk_bytes(root, manifest, chunk_lengths)?;
    let mut obsolete_bytes: i64 = 0;
    let ghost files = manifest@.obsolete_files;
    for i in 0..manifest.obsolete_files.len()
        invariant
            files == manifest@.obsolete_files,
            obsolete_bytes == capped_i64(listed_bytes(files, i as int)),
    {
        assert(files[i as int].bytes == manifest.obsolete_files@[i as int].bytes);
        obsolete_bytes = more_bytes(obsolete_bytes, cap_bytes(manifest.obsolete_files[i].bytes));
    }
    let obsolete_file_count: i32 = cap_count(manifest.obsolete_files.len());
    let compaction_backlog: i32 = cap_count(
        manifest.segments.len().saturating_sub(compaction_threshold),
    );
    let pending_durable_rows: i64 = count_pending(max_sync_log_id, manifest.sync_watermark);
    Ok(
        ProjectionStatus {
            manifest_generation: u64_to_i64(manifest.generation_id),
            manifest_watermark: Some(manifest.sync_watermark),
            pending_durable_rows,
            segment_count: cap_count(manifest.segments.len()),
            segment_bytes: totals.bytes,
            l0_segment_count: totals.l0,
            l1_segment_count: totals.l1,
            l2_segment_count: totals.l2,
            edge_segment_count: totals.edge,
            node_segment_count: totals.node,
            dirty_chunk_count: cap_count(manifest.base_chunks.len()),
            dirty_chunk_bytes,
            mutation_rows: totals.mutation_rows,
            tombstone_rows: totals.tombstone_rows,
            compaction_backlog,
            obsolete_file_count,
            obsolete_bytes,
            active_generation_count,
            artifact_validation_state: owned(artifact_validation_state),
            last_ingestion_unix_micros: manifest.last_ingestion_unix_micros,
            last_compaction_unix_micros: manifest.last_compaction_unix_micros,
            last_gc_unix_micros,
            last_repair_unix_micros: manifest.last_repair_unix_micros,
            ingest_recommended: pending_durable_rows > 0,
            compaction_recommended: compaction_backlog > 0,
            gc_recommended: obsolete_file_count > 0 && obsolete_bytes > 0,
            repair_recommended: false,
        },
    )
}

/// The text for the validation status of a manifest.
pub open spec fn validation_text(status: Seq<char>) -> Seq<char> {
    if status == VALIDATION_STATUS_VALID@ {
        "healthy"@
    } else {
        "full_rebuild"@
    }
}

/// The text for the validation status of a manifest.
pub fn validation_status_text(manifest: &ProjectionManifest) -> (text: &'static str)
    ensures
        text@ == validation_text(manifest@.validation_status),
{
    if same_text(manifest.validation_status.as_str(), VALIDATION_STATUS_VALID) {
        "healthy"
    } else {
        "full_rebuild"
    }
}

/// The text for a recovery action.
pub open spec fn action_text(action: ProjectionRecoveryAction) -> Seq<char> {
    match action {
        ProjectionRecoveryAction::NoProjection => "no_projection"@,
        ProjectionRecoveryAction::Healthy => "healthy"@,
        ProjectionRecoveryAction::TargetedChunkRepair => "targeted_chunk_repair"@,
        ProjectionRecoveryAction::FullRebuild => "full_rebuild"@,
    }
}

/// The text for a recovery action.
pub fn recovery_action_text(action: ProjectionRecoveryAction) -> (text: &'static str)
    ensures
        text@ == action_text(action),
{
    match action {
        ProjectionRecoveryAction::NoProjection => "no_projection",
        ProjectionRecoveryAction::Healthy => "healthy",
        ProjectionRecoveryAction::TargetedChunkRepair => "targeted_chunk_repair",
        ProjectionRecoveryAction::FullRebuild => "full_rebuild",
    }
}

/// A status with a recommendation to repair.
pub open spec fn with_repair(
    outcome: Result<StatusView, GraphErrorView>,
    repair_recommended: bool,
) -> Result<StatusView, GraphErrorView> {
    match outcome {
        Ok(status) => Ok(StatusView { repair_recommended, ..status }),
        Err(error) => Err(error),
    }
}

/// The number, or 0 below it.
pub open spec fn at_least_zero(n: i64) -> i64 {
    if n > 0 {
        n
    } else {
        0
    }
}

/// The full status of an artifact root.
pub open spec fn full_status(
    root: Seq<char>,
    recovery: recovery::RecoveryPlanView,
    loaded: Result<Option<ManifestView>, GraphErrorView>,
    max_sync_log_id: i64,
    active_generation_count: i32,
    compaction_threshold: usize,
    last_gc_unix_micros: Option<i64>,
    segment_lengths: Seq<Option<u64>>,
    chunk_lengths: Seq<Option<u64>>,
    files: Seq<Result<Seq<u8>, Seq<char>>>,
) -> Result<StatusView, GraphErrorView> {
    let state = action_text(recovery.action);
    match loaded {
        Ok(None) => Ok(
            empty_status(at_least_zero(max_sync_log_id), active_generation_count, state),
        ),
        Err(_) => Ok(
            StatusView {
                manifest_generation: match recovery.generation_id {
                    Some(id) => if id <= i64::MAX {
                        Some(id as i64)
                    } else {
                        None
                    },
                    None => None,
                },
                repair_recommended: recovery.action is FullRebuild,
                ..empty_status(at_least_zero(max_sync_log_id), active_generation_count, state)
            },
        ),
        Ok(Some(manifest)) => with_repair(
            status_outcome(
                root,
                manifest,
                manifest_status(
                    manifest,
                    max_sync_log_id,
                    active_generation_count,
                    compaction_threshold,
                    last_gc_unix_micros,
                    state,
                    segment_lengths,
                    chunk_lengths,
                    readable(files, manifest.segments.len() as int),
                ),
            ),
            recovery.action is TargetedChunkRepair || recovery.action is FullRebuild,
        ),
    }
}

/// What loading a manifest gave.
pub open spec fn load_view(loaded: GraphResult<Option<&ProjectionManifest>>) -> Result<
    Option<ManifestView>,
    GraphErrorView,
> {
    match loaded {
        Ok(Some(manifest)) => Ok(Some(manifest@)),
        Ok(None) => Ok(None),
        Err(error) => Err(error@),
    }
}

fn clamp_to_zero(n: i64) -> (clamped: i64)
    ensures
        clamped == at_least_zero(n),
{
    if n > 0 {
        n
    } else {
        0
    }
}

/// The projection status for the latest generation under `root`, given the
/// recovery it needs and what loading its manifest for recovery gave.
pub fn collect_projection_status(
    root: &str,
    recovery: &ProjectionRecoveryPlan,
    loaded: GraphResult<Option<&ProjectionManifest>>,
    max_sync_log_id: i64,
    active_generation_count: i32,
    compaction_threshold: usize,
    operation_status: ProjectionOperationStatus,
    segment_lengths: &Vec<Option<u64>>,
    chunk_lengths: &Vec<Option<u64>>,
    segment_files: &Vec<FileRead>,
) -> (result: GraphResult<ProjectionStatus>)
    requires
        loaded matches Ok(Some(manifest)) ==> segment_lengths@.len() == manifest@.segments.len()
            && chunk_lengths@.len() == manifest@.base_chunks.len() && segment_files@.len()
            == manifest@.segments.len(),
    ensures
        safety::outcome(result) == full_status(
            root@,
            recovery@,
            load_view(loaded),
            max_sync_log_id,
            active_generation_count,
            compaction_threshold,
            operation_status.last_gc_unix_micros,
            segment_lengths@,
            chunk_lengths@,
            layered::file_views(segment_files@),
        ),
{
    let action: &'static str = recovery_action_text(recovery.action);
    let manifest: &ProjectionManifest = match loaded {
        Ok(Some(manifest)) => manifest,
        Ok(None) => {
            return Ok(
                ProjectionStatus::empty(
                    clamp_to_zero(max_sync_log_id),
                    active_generation_count,
                    action,
                ),
            );
        },
        Err(_) => {
            let mut status: ProjectionStatus = ProjectionStatus::empty(
                clamp_to_zero(max_sync_log_id),
                active_generation_count,
                action,
            );
            status.manifest_generation = match recovery.generation_id {
                Some(id) => u64_to_i64(id),
                None => None,
            };
            status.repair_recommended = recovery.action == ProjectionRecoveryAction::FullRebuild;
            return Ok(status);
        },
    };
    let mut status: ProjectionStatus = status_from_manifest(
        root,
        manifest,
        max_sync_log_id,
        active_generation_count,
        compaction_threshold,
        operation_status.last_gc_unix_micros,
        StatusScan::Full,
        action,
        segment_lengths,
        chunk_lengths,
        segment_files,
    )?;
    status.repair_recommended = recovery.action == ProjectionRecoveryAction::TargetedChunkRepair
        || recovery.action == ProjectionRecoveryAction::FullRebuild;
    Ok(status)
}

/// The metadata status of an artifact root.
pub open spec fn metadata_status(
    root: Seq<char>,
    loaded: Result<Option<ManifestView>, GraphErrorView>,
    max_sync_log_id: i64,
    active_generation_count: i32,
    compaction_threshold: usize,
    last_gc_unix_micros: Option<i64>,
    segment_lengths: Seq<Option<u64>>,
    chunk_lengths: Seq<Option<u64>>,
) -> Result<StatusView, GraphErrorView> {
    match loaded {
        Ok(None) => Ok(
            empty_status(
                at_least_zero(max_sync_log_id),
                active_generation_count,
                "no_projection"@,
            ),
        ),
        Err(_) => Ok(
            StatusView {
                repair_recommended: true,
                last_gc_unix_micros,
                ..empty_status(
                    at_least_zero(max_sync_log_id),
                    active_generation_count,
                    "full_rebuild"@,
                )
            },
        ),
        Ok(Some(manifest)) => with_repair(
            status_outcome(
                root,
                manifest,
                manifest_status(
                    manifest,
                    max_sync_log_id,
                    active_generation_count,
                    compaction_threshold,
                    last_gc_unix_micros,
                    validation_text(manifest.validation_status),
                    segment_lengths,
                    chunk_lengths,
                    Seq::empty(),
                ),
            ),
            manifest.validation_status != VALIDATION_STATUS_VALID@,
        ),
    }
}

/// Lightweight projection recommendations, without decoding any artifact.
pub fn collect_projection_metadata_status(
    root: &str,
    loaded: GraphResult<Option<&ProjectionManifest>>,
    max_sync_log_id: i64,
    active_generation_count: i32,
    compaction_threshold: usize,
    operation_status: ProjectionOperationStatus,
    segment_lengths: &Vec<Option<u64>>,
    chunk_lengths: &Vec<Option<u64>>,
) -> (result: GraphResult<ProjectionStatus>)
    requires
        loaded matches Ok(Some(manifest)) ==> segment_lengths@.len() == manifest@.segments.len()
            && chunk_lengths@.len() == manifest@.base_chunks.len(),
    ensures
        safety::outcome(result) == metadata_status(
            root@,
            load_view(loaded),
            max_sync_log_id,
            active_generation_count,
            compaction_threshold,
            operation_status.last_gc_unix_micros,
            segment_lengths@,
            chunk_lengths@,
        ),
{
    let manifest: &ProjectionManifest = match loaded {
        Ok(Some(manifest)) => manifest,
        Ok(None) => {
            return Ok(
                ProjectionStatus::empty(
                    clamp_to_zero(max_sync_log_id),
                    active_generation_count,
                    "no_projection",
                ),
            );
        },
        Err(_) => {
            let mut status: ProjectionStatus = ProjectionStatus::empty(
                clamp_to_zero(max_sync_log_id),
                active_generation_count,
                "full_rebuild",
            );
            status.repair_recommended = true;
            status.last_gc_unix_micros = operation_status.last_gc_unix_micros;
            return Ok(status);
        },
    };
    let no_files: Vec<FileRead> = Vec::new();
    let mut status: ProjectionStatus = status_from_manifest(
        root,
        manifest,
        max_sync_log_id,
        active_generation_count,
        compaction_threshold,
        operation_status.last_gc_unix_micros,
        StatusScan::MetadataOnly,
        validation_status_text(manifest),
        segment_lengths,
        chunk_lengths,
        &no_files,
    )?;
    status.repair_recommended = !same_text(
        manifest.validation_status.as_str(),
        VALIDATION_STATUS_VALID,
    );
    Ok(status)
}

// ---------------------------------------------------------------------------
// Operation status
// ---------------------------------------------------------------------------

/// The operation status after a garbage collection. A status that could not be
/// loaded counts as one that records nothing.
pub fn record_projection_gc(loaded: GraphResult<ProjectionOperationStatus>, now_unix_micros: i64) -> (status:
    ProjectionOperationStatus)
    ensures
        status == (ProjectionOperationStatus { last_gc_unix_micros: Some(now_unix_micros) }),
{
    let mut status: ProjectionOperationStatus = match loaded {
        Ok(status) => status,
        Err(_) => ProjectionOperationStatus { last_gc_unix_micros: None },
    };
    status.last_gc_unix_micros = Some(now_unix_micros);
    status
}

/// The path of the operation status file.
pub fn operation_status_path(root: &str) -> (path: String)
    ensures
        path@ == manifest::joined(root@, PROJECTION_OPERATION_STATUS_FILE@),
{
    join_path(root, PROJECTION_OPERATION_STATUS_FILE)
}

/// The name of a temporary operation status file.
pub fn temp_operation_status_name(process_id: u32, created_at_nanos: u128, attempt: u32) -> (name:
    String)
    ensures
        name@ == PROJECTION_OPERATION_STATUS_FILE@ + ".tmp-"@ + text::decimal(process_id as nat)
            + "-"@ + text::decimal(created_at_nanos as nat) + "-"@ + text::decimal(attempt as nat),
{
    let start: String = text::concat2(PROJECTION_OPERATION_STATUS_FILE, ".tmp-");
    concat6(
        start.as_str(),
        decimal_text(process_id as u64).as_str(),
        "-",
        wide_decimal_text(created_at_nanos).as_str(),
        "-",
        decimal_text(attempt as u64).as_str(),
    )
}

/// The error of a failed file operation.
pub fn status_io(operation: &str, path: &str, err: &str) -> (error: GraphError)
    ensures
        error@ == GraphErrorView::Internal(operation@ + " failed for "@ + path@ + ": "@ + err@),
{
    GraphError::Internal(text::concat5(operation, " failed for ", path, ": ", err))
}

/// A timestamp in microseconds as the operation status holds it.
pub fn now_unix_micros(micros: u128) -> (result: GraphResult<i64>)
    ensures
        match result {
            Ok(now) => now == micros,
            Err(error) => micros > i64::MAX && error@ == GraphErrorView::Internal(
                "system time exceeds i64 microseconds"@,
            ),
        },
{
    if micros > 9_223_372_036_854_775_807 {
        Err(GraphError::Internal(owned("system time exceeds i64 microseconds")))
    } else {
        Ok(micros as i64)
    }
}

// ---------------------------------------------------------------------------
// Laws
// ---------------------------------------------------------------------------

/// Every segment of a manifest counts toward exactly one level.
pub proof fn lemma_levels_partition(segments: Seq<SegmentRefView>)
    ensures
        level_count(segments, 0) + level_count(segments, 1) + level_count(segments, 2)
            == segments.len(),
    decreases segments.len(),
{
    reveal(Seq::filter);
    if segments.len() > 0 {
        lemma_levels_partition(segments.drop_last());
    }
}

/// Tombstones are among the rows of a segment, so their share is at most one.
pub proof fn lemma_tombstones_are_rows(segments: Seq<DeltaSegmentView>)
    ensures
        all_tombstones(segments) <= all_rows(segments),
    decreases segments.len(),
{
    if segments.len() > 0 {
        lemma_tombstones_are_rows(segments.drop_last());
        let held = segments.last();
        held.node_states.lemma_filter_len(|row: SegmentNodeState| !row.active);
        held.resolutions.lemma_filter_len(|row: SegmentResolution| row.tombstone);
        held.filters.lemma_filter_len(|row: SegmentFilterValue| row.tombstone);
        held.tenants.lemma_filter_len(|row: SegmentTenant| row.tombstone);
    }
}

} // verus!
