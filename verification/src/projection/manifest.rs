//! Durable projection manifest metadata and active-generation heartbeats.
//!
//! A projection manifest is the publication boundary for derived graph
//! artifacts. Readers load a complete generation from a validated manifest
//! instead of discovering segment files directly.
use vstd::prelude::*;
use vstd::string::StrSliceExecFns;

use crate::safety::{self, GraphError, GraphErrorView, GraphResult};
use crate::text::{
    self, concat2, concat3, concat4, concat6, decimal_text, fixed_digits_text, owned, same_text,
    wide_decimal_text,
};

verus! {

/// Current JSON manifest format version.
pub const MANIFEST_VERSION: u32 = 1;

/// Validation state for a generation whose artifacts are ready to read.
pub const VALIDATION_STATUS_VALID: &'static str = "valid";

/// Validation state for a generation that has been marked corrupt.
pub const VALIDATION_STATUS_CORRUPT: &'static str = "corrupt";

/// Validation state for a generation that is being repaired.
pub const VALIDATION_STATUS_REPAIRING: &'static str = "repairing";

/// Default time to live of backend active-generation heartbeat rows, in
/// microseconds.
pub const DEFAULT_ACTIVE_GENERATION_TTL_MICROS: u128 = 300_000_000;

/// Human-readable manifest for one durable projection generation.
#[derive(Debug, Clone, PartialEq, Eq)]
pub struct ProjectionManifest {
    /// Manifest format version.
    pub version: u32,
    /// Monotonic projection generation identifier.
    pub generation_id: u64,
    /// Previous generation when this manifest replaces another generation.
    pub previous_generation_id: Option<u64>,
    /// Base `.pggraph` artifact path used by this generation.
    pub base_artifact_path: String,
    /// Hex or algorithm-qualified checksum for the base artifact.
    pub base_artifact_checksum: String,
    /// Base `.pggraph` file-format version.
    pub base_artifact_version: u32,
    /// Durable segment files layered over the base artifact.
    pub segments: Vec<ManifestSegmentRef>,
    /// Base chunks that are active for this generation.
    pub base_chunks: Vec<ManifestChunkRef>,
    /// Files that became obsolete when this generation was published.
    pub obsolete_files: Vec<ManifestFileRef>,
    /// Highest durable sync-log row represented by this generation.
    pub sync_watermark: i64,
    /// Current validation status for the manifest and referenced files.
    pub validation_status: String,
    /// Manifest creation timestamp as Unix microseconds.
    pub created_at_unix_micros: i64,
    /// When rows were last ingested, as Unix microseconds.
    pub last_ingestion_unix_micros: Option<i64>,
    /// When segments were last compacted, as Unix microseconds.
    pub last_compaction_unix_micros: Option<i64>,
    /// When the projection was last repaired, as Unix microseconds.
    pub last_repair_unix_micros: Option<i64>,
}

/// Segment file reference stored in a projection manifest.
#[derive(Debug, Clone, PartialEq, Eq)]
pub struct ManifestSegmentRef {
    /// Segment file path relative to the projection artifact directory.
    pub path: String,
    /// Segment file checksum.
    pub checksum: String,
    /// Segment level, where L0 is the newest un-compacted level.
    pub level: u8,
    /// Inclusive source-node range start covered by the segment.
    pub source_start: u32,
    /// Exclusive source-node range end covered by the segment.
    pub source_end: u32,
    /// Highest sync-log row represented by the segment.
    pub sync_watermark: i64,
}

/// Base chunk reference stored in a projection manifest.
#[derive(Debug, Clone, PartialEq, Eq)]
pub struct ManifestChunkRef {
    /// Chunk file path relative to the projection artifact directory.
    pub path: String,
    /// Chunk file checksum.
    pub checksum: String,
    /// Inclusive source-node range start covered by the chunk.
    pub source_start: u32,
    /// Exclusive source-node range end covered by the chunk.
    pub source_end: u32,
    /// Dirty source-node count that caused this chunk rewrite.
    pub dirty_source_count: u32,
    /// Dirty edge-row count that caused this chunk rewrite.
    pub dirty_edge_count: u32,
}

/// Obsolete file reference retained for generation-aware cleanup.
#[derive(Debug, Clone, PartialEq, Eq)]
pub struct ManifestFileRef {
    /// Obsolete file path relative to the projection artifact directory.
    pub path: String,
    /// Number of bytes occupied by the obsolete file when known.
    pub bytes: u64,
}

/// What a segment reference says.
pub struct SegmentRefView {
    pub path: Seq<char>,
    pub checksum: Seq<char>,
    pub level: u8,
    pub source_start: u32,
    pub source_end: u32,
    pub sync_watermark: i64,
}

/// What a chunk reference says.
pub struct ChunkRefView {
    pub path: Seq<char>,
    pub checksum: Seq<char>,
    pub source_start: u32,
    pub source_end: u32,
    pub dirty_source_count: u32,
    pub dirty_edge_count: u32,
}

/// What an obsolete file reference says.
pub struct FileRefView {
    pub path: Seq<char>,
    pub bytes: u64,
}

/// What a manifest says.
#[verifier::ext_equal]
pub struct ManifestView {
    pub version: u32,
    pub generation_id: u64,
    pub previous_generation_id: Option<u64>,
    pub base_artifact_path: Seq<char>,
    pub base_artifact_checksum: Seq<char>,
    pub base_artifact_version: u32,
    pub segments: Seq<SegmentRefView>,
    pub base_chunks: Seq<ChunkRefView>,
    pub obsolete_files: Seq<FileRefView>,
    pub sync_watermark: i64,
    pub validation_status: Seq<char>,
    pub created_at_unix_micros: i64,
    pub last_ingestion_unix_micros: Option<i64>,
    pub last_compaction_unix_micros: Option<i64>,
    pub last_repair_unix_micros: Option<i64>,
}

impl View for ManifestSegmentRef {
    type V = SegmentRefView;

    open spec fn view(&self) -> SegmentRefView {
        SegmentRefView {
            path: self.path@,
            checksum: self.checksum@,
            level: self.level,
            source_start: self.source_start,
            source_end: self.source_end,
            sync_watermark: self.sync_watermark,
        }
    }
}

impl View for ManifestChunkRef {
    type V = ChunkRefView;

    open spec fn view(&self) -> ChunkRefView {
        ChunkRefView {
            path: self.path@,
            checksum: self.checksum@,
            source_start: self.source_start,
            source_end: self.source_end,
            dirty_source_count: self.dirty_source_count,
            dirty_edge_count: self.dirty_edge_count,
        }
    }
}

impl View for ManifestFileRef {
    type V = FileRefView;

    open spec fn view(&self) -> FileRefView {
        FileRefView { path: self.path@, bytes: self.bytes }
    }
}

/// What segment references say.
pub open spec fn segment_refs(refs: Seq<ManifestSegmentRef>) -> Seq<SegmentRefView> {
    refs.map_values(|segment: ManifestSegmentRef| segment@)
}

/// What chunk references say.
pub open spec fn chunk_refs(refs: Seq<ManifestChunkRef>) -> Seq<ChunkRefView> {
    refs.map_values(|chunk: ManifestChunkRef| chunk@)
}

/// What obsolete file references say.
pub open spec fn file_refs(refs: Seq<ManifestFileRef>) -> Seq<FileRefView> {
    refs.map_values(|file: ManifestFileRef| file@)
}

impl View for ProjectionManifest {
    type V = ManifestView;

    open spec fn view(&self) -> ManifestView {
        ManifestView {
            version: self.version,
            generation_id: self.generation_id,
            previous_generation_id: self.previous_generation_id,
            base_artifact_path: self.base_artifact_path@,
            base_artifact_checksum: self.base_artifact_checksum@,
            base_artifact_version: self.base_artifact_version,
            segments: segment_refs(self.segments@),
            base_chunks: chunk_refs(self.base_chunks@),
            obsolete_files: file_refs(self.obsolete_files@),
            sync_watermark: self.sync_watermark,
            validation_status: self.validation_status@,
            created_at_unix_micros: self.created_at_unix_micros,
            last_ingestion_unix_micros: self.last_ingestion_unix_micros,
            last_compaction_unix_micros: self.last_compaction_unix_micros,
            last_repair_unix_micros: self.last_repair_unix_micros,
        }
    }
}

impl ManifestSegmentRef {
    /// A copy of the reference.
    pub fn duplicate(&self) -> (copy: ManifestSegmentRef)
        ensures
            copy@ == self@,
    {
        ManifestSegmentRef {
            path: self.path.clone(),
            checksum: self.checksum.clone(),
            level: self.level,
            source_start: self.source_start,
            source_end: self.source_end,
            sync_watermark: self.sync_watermark,
        }
    }
}

impl ManifestChunkRef {
    /// A copy of the reference.
    pub fn duplicate(&self) -> (copy: ManifestChunkRef)
        ensures
            copy@ == self@,
    {
        ManifestChunkRef {
            path: self.path.clone(),
            checksum: self.checksum.clone(),
            source_start: self.source_start,
            source_end: self.source_end,
            dirty_source_count: self.dirty_source_count,
            dirty_edge_count: self.dirty_edge_count,
        }
    }
}

impl ManifestFileRef {
    /// A copy of the reference.
    pub fn duplicate(&self) -> (copy: ManifestFileRef)
        ensures
            copy@ == self@,
    {
        ManifestFileRef { path: self.path.clone(), bytes: self.bytes }
    }
}

/// Copies of segment references.
pub fn duplicate_segments(refs: &Vec<ManifestSegmentRef>) -> (copies: Vec<ManifestSegmentRef>)
    ensures
        segment_refs(copies@) == segment_refs(refs@),
{
    let mut copies: Vec<ManifestSegmentRef> = Vec::new();
    for i in 0..refs.len()
        invariant
            segment_refs(copies@) == segment_refs(refs@).take(i as int),
    {
        let copy: ManifestSegmentRef = refs[i].duplicate();
        let ghost before = segment_refs(copies@);
        copies.push(copy);
        assert(segment_refs(copies@) =~= before.push(copy@));
        assert(segment_refs(copies@) =~= segment_refs(refs@).take(i + 1));
    }
    assert(segment_refs(copies@) =~= segment_refs(refs@));
    copies
}

/// Copies of chunk references.
pub fn duplicate_chunks(refs: &Vec<ManifestChunkRef>) -> (copies: Vec<ManifestChunkRef>)
    ensures
        chunk_refs(copies@) == chunk_refs(refs@),
{
    let mut copies: Vec<ManifestChunkRef> = Vec::new();
    for i in 0..refs.len()
        invariant
            chunk_refs(copies@) == chunk_refs(refs@).take(i as int),
    {
        let copy: ManifestChunkRef = refs[i].duplicate();
        let ghost before = chunk_refs(copies@);
        copies.push(copy);
        assert(chunk_refs(copies@) =~= before.push(copy@));
        assert(chunk_refs(copies@) =~= chunk_refs(refs@).take(i + 1));
    }
    assert(chunk_refs(copies@) =~= chunk_refs(refs@));
    copies
}

/// Copies of obsolete file references.
pub fn duplicate_files(refs: &Vec<ManifestFileRef>) -> (copies: Vec<ManifestFileRef>)
    ensures
        file_refs(copies@) == file_refs(refs@),
{
    let mut copies: Vec<ManifestFileRef> = Vec::new();
    for i in 0..refs.len()
        invariant
            file_refs(copies@) == file_refs(refs@).take(i as int),
    {
        let copy: ManifestFileRef = refs[i].duplicate();
        let ghost before = file_refs(copies@);
        copies.push(copy);
        assert(file_refs(copies@) =~= before.push(copy@));
        assert(file_refs(copies@) =~= file_refs(refs@).take(i + 1));
    }
    assert(file_refs(copies@) =~= file_refs(refs@));
    copies
}

/// The generation that follows another.
pub open spec fn following(generation_id: u64) -> Result<u64, GraphErrorView> {
    if generation_id == u64::MAX {
        Err(GraphErrorView::Internal("projection generation id overflowed"@))
    } else {
        Ok((generation_id + 1) as u64)
    }
}

/// The generation that follows another.
pub fn following_generation_id(generation_id: u64) -> (result: GraphResult<u64>)
    ensures
        safety::outcome(result) == following(generation_id),
{
    match generation_id.checked_add(1) {
        Some(id) => Ok(id),
        None => Err(GraphError::Internal(owned("projection generation id overflowed"))),
    }
}

// ---------------------------------------------------------------------------
// Validation
// ---------------------------------------------------------------------------

/// The error of a malformed manifest.
pub open spec fn corrupt(reason: Seq<char>) -> GraphErrorView {
    GraphErrorView::CorruptFile { reason: "projection manifest: "@ + reason }
}

/// The error of a malformed manifest.
pub fn manifest_corrupt(reason: &str) -> (error: GraphError)
    ensures
        error@ == corrupt(reason@),
{
    GraphError::CorruptFile { reason: concat2("projection manifest: ", reason) }
}

/// The error of a file operation that failed.
pub fn manifest_io(operation: &str, path: &str, err: &str) -> (error: GraphError)
    ensures
        error@ == GraphErrorView::Internal(
            "projection manifest "@ + operation@ + " failed for "@ + path@ + ": "@ + err@,
        ),
{
    GraphError::Internal(
        concat6("projection manifest ", operation, " failed for ", path, ": ", err),
    )
}

/// Whether a text holds nothing but white space.
pub open spec fn is_blank(value: Seq<char>) -> bool {
    text::trimmed(value).len() == 0
}

fn blank(value: &String) -> (found: bool)
    ensures
        found == is_blank(value@),
{
    value.as_str().trim().unicode_len() == 0
}

/// Why a validation status is refused.
pub open spec fn status_error(status: Seq<char>) -> Option<GraphErrorView> {
    if status == VALIDATION_STATUS_VALID@ || status == VALIDATION_STATUS_CORRUPT@ || status
        == VALIDATION_STATUS_REPAIRING@ {
        None
    } else {
        Some(corrupt("unsupported validation_status '"@ + status + "'"@))
    }
}

/// Check that a validation status is known.
pub fn validate_status(status: &str) -> (result: GraphResult<()>)
    ensures
        safety::refusal(result) == status_error(status@),
{
    if same_text(status, VALIDATION_STATUS_VALID) || same_text(status, VALIDATION_STATUS_CORRUPT)
        || same_text(status, VALIDATION_STATUS_REPAIRING) {
        Ok(())
    } else {
        Err(
            manifest_corrupt(
                concat3("unsupported validation_status '", status, "'").as_str(),
            ),
        )
    }
}

/// Why a segment reference is refused.
pub open spec fn segment_ref_error(segment: SegmentRefView) -> Option<GraphErrorView> {
    if is_blank(segment.path) {
        Some(corrupt("segment path is required"@))
    } else if is_blank(segment.checksum) {
        Some(corrupt("segment checksum is required"@))
    } else if segment.source_start > segment.source_end {
        Some(corrupt("segment source_start must not exceed source_end"@))
    } else if segment.sync_watermark < 0 {
        Some(corrupt("segment sync_watermark must be nonnegative"@))
    } else {
        None
    }
}

/// Why a chunk reference is refused.
pub open spec fn chunk_ref_error(chunk: ChunkRefView) -> Option<GraphErrorView> {
    if is_blank(chunk.path) {
        Some(corrupt("base chunk path is required"@))
    } else if is_blank(chunk.checksum) {
        Some(corrupt("base chunk checksum is required"@))
    } else if chunk.source_start >= chunk.source_end {
        Some(corrupt("base chunk source_start must be less than source_end"@))
    } else {
        None
    }
}

/// Why an obsolete file reference is refused.
pub open spec fn file_ref_error(file: FileRefView) -> Option<GraphErrorView> {
    if is_blank(file.path) {
        Some(corrupt("obsolete file path is required"@))
    } else {
        None
    }
}

/// The first refusal among segment references from `from` on.
pub open spec fn segments_error(refs: Seq<SegmentRefView>, from: int) -> Option<GraphErrorView>
    decreases refs.len() - from,
{
    if from >= refs.len() {
        None
    } else if segment_ref_error(refs[from]) is Some {
        segment_ref_error(refs[from])
    } else {
        segments_error(refs, from + 1)
    }
}

/// The first refusal among chunk references from `from` on.
pub open spec fn chunks_error(refs: Seq<ChunkRefView>, from: int) -> Option<GraphErrorView>
    decreases refs.len() - from,
{
    if from >= refs.len() {
        None
    } else if chunk_ref_error(refs[from]) is Some {
        chunk_ref_error(refs[from])
    } else {
        chunks_error(refs, from + 1)
    }
}

/// The first refusal among obsolete file references from `from` on.
pub open spec fn files_error(refs: Seq<FileRefView>, from: int) -> Option<GraphErrorView>
    decreases refs.len() - from,
{
    if from >= refs.len() {
        None
    } else if file_ref_error(refs[from]) is Some {
        file_ref_error(refs[from])
    } else {
        files_error(refs, from + 1)
    }
}

/// Why a manifest is refused.
pub open spec fn manifest_error(manifest: ManifestView) -> Option<GraphErrorView> {
    if manifest.version != MANIFEST_VERSION {
        Some(
            GraphErrorView::IncompatibleVersion(
                "projection manifest version "@ + text::decimal(manifest.version as nat)
                    + " is unsupported; expected "@ + text::decimal(MANIFEST_VERSION as nat),
            ),
        )
    } else if manifest.generation_id == 0 {
        Some(corrupt("generation_id must be positive"@))
    } else if is_blank(manifest.base_artifact_path) {
        Some(corrupt("base_artifact_path is required"@))
    } else if is_blank(manifest.base_artifact_checksum) {
        Some(corrupt("base_artifact_checksum is required"@))
    } else if manifest.sync_watermark < 0 {
        Some(corrupt("sync_watermark must be nonnegative"@))
    } else if status_error(manifest.validation_status) is Some {
        status_error(manifest.validation_status)
    } else if segments_error(manifest.segments, 0) is Some {
        segments_error(manifest.segments, 0)
    } else if chunks_error(manifest.base_chunks, 0) is Some {
        chunks_error(manifest.base_chunks, 0)
    } else {
        files_error(manifest.obsolete_files, 0)
    }
}

impl ManifestSegmentRef {
    /// Check that the reference is complete.
    pub fn validate(&self) -> (result: GraphResult<()>)
        ensures
            safety::refusal(result) == segment_ref_error(self@),
    {
        if blank(&self.path) {
            return Err(manifest_corrupt("segment path is required"));
        }
        if blank(&self.checksum) {
            return Err(manifest_corrupt("segment checksum is required"));
        }
        if self.source_start > self.source_end {
            return Err(manifest_corrupt("segment source_start must not exceed source_end"));
        }
        if self.sync_watermark < 0 {
            return Err(manifest_corrupt("segment sync_watermark must be nonnegative"));
        }
        Ok(())
    }
}

impl ManifestChunkRef {
    /// Check that the reference is complete.
    pub fn validate(&self) -> (result: GraphResult<()>)
        ensures
            safety::refusal(result) == chunk_ref_error(self@),
    {
        if blank(&self.path) {
            return Err(manifest_corrupt("base chunk path is required"));
        }
        if blank(&self.checksum) {
            return Err(manifest_corrupt("base chunk checksum is required"));
        }
        if self.source_start >= self.source_end {
            return Err(manifest_corrupt("base chunk source_start must be less than source_end"));
        }
        Ok(())
    }
}

impl ManifestFileRef {
    /// Check that the reference is complete.
    pub fn validate(&self) -> (result: GraphResult<()>)
        ensures
            safety::refusal(result) == file_ref_error(self@),
    {
        if blank(&self.path) {
            return Err(manifest_corrupt("obsolete file path is required"));
        }
        Ok(())
    }
}

/// A manifest that references only the base artifact.
pub open spec fn base_manifest(
    generation_id: u64,
    base_artifact_path: Seq<char>,
    base_artifact_checksum: Seq<char>,
    base_artifact_version: u32,
    sync_watermark: i64,
    created_at_unix_micros: i64,
) -> ManifestView {
    ManifestView {
        version: MANIFEST_VERSION,
        generation_id,
        previous_generation_id: None,
        base_artifact_path,
        base_artifact_checksum,
        base_artifact_version,
        segments: Seq::empty(),
        base_chunks: Seq::empty(),
        obsolete_files: Seq::empty(),
        sync_watermark,
        validation_status: VALIDATION_STATUS_VALID@,
        created_at_unix_micros,
        last_ingestion_unix_micros: None,
        last_compaction_unix_micros: None,
        last_repair_unix_micros: None,
    }
}

impl ProjectionManifest {
    /// Construct a base-only manifest for tests and initial engine loading.
    pub fn base_only(
        generation_id: u64,
        base_artifact_path: &str,
        base_artifact_checksum: &str,
        base_artifact_version: u32,
        sync_watermark: i64,
        created_at_unix_micros: i64,
    ) -> (manifest: ProjectionManifest)
        ensures
            manifest@ == base_manifest(
                generation_id,
                base_artifact_path@,
                base_artifact_checksum@,
                base_artifact_version,
                sync_watermark,
                created_at_unix_micros,
            ),
    {
        let manifest: ProjectionManifest = ProjectionManifest {
            version: MANIFEST_VERSION,
            generation_id,
            previous_generation_id: None,
            base_artifact_path: owned(base_artifact_path),
            base_artifact_checksum: owned(base_artifact_checksum),
            base_artifact_version,
            segments: Vec::new(),
            base_chunks: Vec::new(),
            obsolete_files: Vec::new(),
            sync_watermark,
            validation_status: owned(VALIDATION_STATUS_VALID),
            created_at_unix_micros,
            last_ingestion_unix_micros: None,
            last_compaction_unix_micros: None,
            last_repair_unix_micros: None,
        };
        assert(manifest@ =~= base_manifest(
            generation_id,
            base_artifact_path@,
            base_artifact_checksum@,
            base_artifact_version,
            sync_watermark,
            created_at_unix_micros,
        ));
        manifest
    }

    /// Validate required semantic fields after decoding.
    pub fn validate(&self) -> (result: GraphResult<()>)
        ensures
            safety::refusal(result) == manifest_error(self@),
    {
        if self.version != MANIFEST_VERSION {
            return Err(
                GraphError::IncompatibleVersion(
                    concat4(
                        "projection manifest version ",
                        decimal_text(self.version as u64).as_str(),
                        " is unsupported; expected ",
                        decimal_text(MANIFEST_VERSION as u64).as_str(),
                    ),
                ),
            );
        }
        if self.generation_id == 0 {
            return Err(manifest_corrupt("generation_id must be positive"));
        }
        if blank(&self.base_artifact_path) {
            return Err(manifest_corrupt("base_artifact_path is required"));
        }
        if blank(&self.base_artifact_checksum) {
            return Err(manifest_corrupt("base_artifact_checksum is required"));
        }
        if self.sync_watermark < 0 {
            return Err(manifest_corrupt("sync_watermark must be nonnegative"));
        }
        validate_status(self.validation_status.as_str())?;
        self.validate_references()
    }

    fn validate_references(&self) -> (result: GraphResult<()>)
        ensures
            safety::refusal(result) == (if segments_error(self@.segments, 0) is Some {
                segments_error(self@.segments, 0)
            } else if chunks_error(self@.base_chunks, 0) is Some {
                chunks_error(self@.base_chunks, 0)
            } else {
                files_error(self@.obsolete_files, 0)
            }),
    {
        for i in 0..self.segments.len()
            invariant
                segments_error(self@.segments, 0) == segments_error(self@.segments, i as int),
        {
            assert(self@.segments[i as int] == self.segments@[i as int]@);
            self.segments[i].validate()?;
        }
        for i in 0..self.base_chunks.len()
            invariant
                segments_error(self@.segments, 0) is None,
                chunks_error(self@.base_chunks, 0) == chunks_error(self@.base_chunks, i as int),
        {
            assert(self@.base_chunks[i as int] == self.base_chunks@[i as int]@);
            self.base_chunks[i].validate()?;
        }
        for i in 0..self.obsolete_files.len()
            invariant
                segments_error(self@.segments, 0) is None,
                chunks_error(self@.base_chunks, 0) is None,
                files_error(self@.obsolete_files, 0) == files_error(
                    self@.obsolete_files,
                    i as int,
                ),
        {
            assert(self@.obsolete_files[i as int] == self.obsolete_files@[i as int]@);
            self.obsolete_files[i].validate()?;
        }
        Ok(())
    }

    /// Accept a manifest that was decoded from its file, or say why not.
    pub fn from_decoded(decoded: Result<ProjectionManifest, String>) -> (result: GraphResult<
        ProjectionManifest,
    >)
        ensures
            safety::outcome(result) == accepted(
                match decoded {
                    Ok(manifest) => Ok(manifest@),
                    Err(err) => Err(err@),
                },
            ),
    {
        match decoded {
            Ok(manifest) => {
                manifest.validate()?;
                Ok(manifest)
            },
            Err(err) => Err(
                manifest_corrupt(concat2("manifest JSON decoding failed: ", err.as_str()).as_str()),
            ),
        }
    }

    /// Whether this generation references only the base `.pggraph` artifact.
    pub fn is_base_only(&self) -> (found: bool)
        ensures
            found == (self@.segments.len() == 0 && self@.base_chunks.len() == 0),
    {
        self.segments.len() == 0 && self.base_chunks.len() == 0
    }

    /// A copy of the manifest.
    pub fn duplicate(&self) -> (copy: ProjectionManifest)
        ensures
            copy@ == self@,
    {
        ProjectionManifest {
            version: self.version,
            generation_id: self.generation_id,
            previous_generation_id: self.previous_generation_id,
            base_artifact_path: self.base_artifact_path.clone(),
            base_artifact_checksum: self.base_artifact_checksum.clone(),
            base_artifact_version: self.base_artifact_version,
            segments: duplicate_segments(&self.segments),
            base_chunks: duplicate_chunks(&self.base_chunks),
            obsolete_files: duplicate_files(&self.obsolete_files),
            sync_watermark: self.sync_watermark,
            validation_status: self.validation_status.clone(),
            created_at_unix_micros: self.created_at_unix_micros,
            last_ingestion_unix_micros: self.last_ingestion_unix_micros,
            last_compaction_unix_micros: self.last_compaction_unix_micros,
            last_repair_unix_micros: self.last_repair_unix_micros,
        }
    }

    /// Take over when the operations of the previous generation were.
    pub fn inherit_operation_timestamps(&mut self, previous: &ProjectionManifest)
        ensures
            final(self)@ == (ManifestView {
                last_ingestion_unix_micros: previous@.last_ingestion_unix_micros,
                last_compaction_unix_micros: previous@.last_compaction_unix_micros,
                last_repair_unix_micros: previous@.last_repair_unix_micros,
                ..old(self)@
            }),
    {
        self.last_ingestion_unix_micros = previous.last_ingestion_unix_micros;
        self.last_compaction_unix_micros = previous.last_compaction_unix_micros;
        self.last_repair_unix_micros = previous.last_repair_unix_micros;
    }

    /// Note that this generation ingested rows.
    pub fn mark_ingestion(&mut self)
        ensures
            final(self)@ == (ManifestView {
                last_ingestion_unix_micros: Some(old(self)@.created_at_unix_micros),
                ..old(self)@
            }),
    {
        self.last_ingestion_unix_micros = Some(self.created_at_unix_micros);
    }

    /// Note that this generation compacted segments.
    pub fn mark_compaction(&mut self)
        ensures
            final(self)@ == (ManifestView {
                last_compaction_unix_micros: Some(old(self)@.created_at_unix_micros),
                ..old(self)@
            }),
    {
        self.last_compaction_unix_micros = Some(self.created_at_unix_micros);
    }

    /// Note that this generation repaired the projection.
    pub fn mark_repair(&mut self)
        ensures
            final(self)@ == (ManifestView {
                last_repair_unix_micros: Some(old(self)@.created_at_unix_micros),
                ..old(self)@
            }),
    {
        self.last_repair_unix_micros = Some(self.created_at_unix_micros);
    }
}

/// What becomes of a decoded manifest.
pub open spec fn accepted(decoded: Result<ManifestView, Seq<char>>) -> Result<
    ManifestView,
    GraphErrorView,
> {
    match decoded {
        Ok(manifest) => match manifest_error(manifest) {
            Some(error) => Err(error),
            None => Ok(manifest),
        },
        Err(err) => Err(corrupt("manifest JSON decoding failed: "@ + err)),
    }
}


// ---------------------------------------------------------------------------
// File names and references
// ---------------------------------------------------------------------------

/// The name of the manifest file of a generation.
pub open spec fn file_name(generation_id: u64) -> Seq<char> {
    "projection-generation-"@ + text::fixed_digits(generation_id as nat, 10, 20) + ".json"@
}

/// The name of the manifest file of a generation.
pub fn manifest_file_name(generation_id: u64) -> (name: String)
    ensures
        name@ == file_name(generation_id),
{
    concat3(
        "projection-generation-",
        fixed_digits_text(generation_id, 10, 20).as_str(),
        ".json",
    )
}

/// The name of a temporary manifest file.
pub fn temp_manifest_file_name(
    generation_id: u64,
    process_id: u32,
    created_at_nanos: u128,
    attempt: u32,
) -> (name: String)
    ensures
        name@ == "projection-generation-"@ + text::fixed_digits(generation_id as nat, 10, 20)
            + ".tmp-"@ + text::decimal(process_id as nat) + "-"@ + text::decimal(
            created_at_nanos as nat,
        ) + "-"@ + text::decimal(attempt as nat),
{
    let start: String = concat3(
        "projection-generation-",
        fixed_digits_text(generation_id, 10, 20).as_str(),
        ".tmp-",
    );
    concat6(
        start.as_str(),
        decimal_text(process_id as u64).as_str(),
        "-",
        wide_decimal_text(created_at_nanos).as_str(),
        "-",
        decimal_text(attempt as u64).as_str(),
    )
}

/// Whether a character is a decimal digit.
pub open spec fn is_digit(c: char) -> bool {
    '0' <= c <= '9'
}

/// The value of a decimal digit.
pub open spec fn digit_value(c: char) -> nat {
    (c as nat - '0' as nat) as nat
}

/// The number that decimal digits stand for.
pub open spec fn number(digits: Seq<char>) -> nat
    decreases digits.len(),
{
    if digits.len() == 0 {
        0
    } else {
        number(digits.drop_last()) * 10 + digit_value(digits.last())
    }
}

/// The generation whose manifest has this file name.
pub open spec fn parsed_file_name(name: Seq<char>) -> Option<u64> {
    let prefix = "projection-generation-"@;
    let suffix = ".json"@;
    let digits = name.subrange(prefix.len() as int, name.len() - suffix.len());
    if name.len() == prefix.len() + 20 + suffix.len() && name.subrange(0, prefix.len() as int)
        == prefix && name.subrange(name.len() - suffix.len(), name.len() as int) == suffix && (
    forall|i: int| 0 <= i < digits.len() ==> is_digit(#[trigger] digits[i])) && number(digits)
        <= u64::MAX {
        Some(number(digits) as u64)
    } else {
        None
    }
}

/// The generation whose manifest has this file name.
pub fn parse_manifest_file_name(file_name: &str) -> (generation_id: Option<u64>)
    ensures
        generation_id == parsed_file_name(file_name@),
{
    let prefix: &str = "projection-generation-";
    let suffix: &str = ".json";
    proof {
        reveal_strlit("projection-generation-");
        reveal_strlit(".json");
    }
    if file_name.unicode_len() != 47 {
        return None;
    }
    if !same_text(file_name.substring_char(0, 22), prefix) {
        return None;
    }
    if !same_text(file_name.substring_char(42, 47), suffix) {
        return None;
    }
    let digits: &str = file_name.substring_char(22, 42);
    let ghost held = digits@;
    let mut value: u128 = 0;
    proof {
        vstd::arithmetic::power::lemma_pow0(10);
        assert(held.take(0) =~= Seq::<char>::empty());
    }
    for i in 0..20usize
        invariant
            held == digits@,
            held.len() == 20,
            forall|j: int| 0 <= j < i ==> is_digit(#[trigger] held[j]),
            value == number(held.take(i as int)),
            value < vstd::arithmetic::power::pow(10, i as nat),
            held == file_name@.subrange(22, 42),
            file_name@.len() == 47,
            "projection-generation-"@.len() == 22,
            ".json"@.len() == 5,
    {
        let c: char = digits.get_char(i);
        if c < '0' || c > '9' {
            assert(!is_digit(held[i as int]));
            return None;
        }
        proof {
            assert(held.take(i + 1).drop_last() =~= held.take(i as int));
            vstd::arithmetic::power::lemma_pow1(10);
            vstd::arithmetic::power::lemma_pow_adds(10, i as nat, 1);
            lemma_pow_bound(i as nat);
        }
        value = value * 10 + (c as u32 - 48) as u128;
    }
    proof {
        assert(held.take(20) =~= held);
    }
    if value <= 18_446_744_073_709_551_615 {
        Some(value as u64)
    } else {
        None
    }
}

proof fn lemma_pow_bound(n: nat)
    requires
        n < 20,
    ensures
        vstd::arithmetic::power::pow(10, n) <= 10_000_000_000_000_000_000,
{
    vstd::arithmetic::power::lemma_pow_increases(10, n, 19);
    reveal(vstd::arithmetic::power::pow);
    reveal_with_fuel(vstd::arithmetic::power::pow, 20);
    assert(vstd::arithmetic::power::pow(10, 19) == 10_000_000_000_000_000_000);
}

proof fn lemma_number_of_digits(n: nat, width: nat)
    requires
        n < vstd::arithmetic::power::pow(10, width),
    ensures
        text::fixed_digits(n, 10, width).len() == width,
        number(text::fixed_digits(n, 10, width)) == n,
        forall|i: int|
            0 <= i < width ==> is_digit(#[trigger] text::fixed_digits(n, 10, width)[i]),
    decreases width,
{
    reveal(vstd::arithmetic::power::pow);
    if width > 0 {
        let fewer = (width - 1) as nat;
        let head = text::fixed_digits(n / 10, 10, fewer);
        vstd::arithmetic::power::lemma_pow1(10);
        vstd::arithmetic::power::lemma_pow_adds(10, fewer, 1);
        lemma_number_of_digits(n / 10, fewer);
        let digits = text::fixed_digits(n, 10, width);
        assert(digits == head.push(text::digit_char(n % 10)));
        assert(digits.drop_last() =~= head);
        assert forall|i: int| 0 <= i < width implies is_digit(#[trigger] digits[i]) by {
            if i < fewer {
                assert(digits[i] == head[i]);
            }
        }
    }
}

/// The generation in a manifest file name has twenty digits.
pub proof fn lemma_file_name_digits(generation_id: u64)
    ensures
        text::fixed_digits(generation_id as nat, 10, 20).len() == 20,
        forall|i: int|
            0 <= i < 20 ==> is_digit(#[trigger] text::fixed_digits(generation_id as nat, 10, 20)[i]),
{
    reveal(vstd::arithmetic::power::pow);
    reveal_with_fuel(vstd::arithmetic::power::pow, 21);
    assert(vstd::arithmetic::power::pow(10, 20) == 100_000_000_000_000_000_000);
    lemma_number_of_digits(generation_id as nat, 20);
}

/// The name of a manifest file gives back the generation that it was made from.
pub proof fn lemma_file_name_parses(generation_id: u64)
    ensures
        parsed_file_name(file_name(generation_id)) == Some(generation_id),
{
    reveal_strlit("projection-generation-");
    reveal_strlit(".json");
    let prefix = "projection-generation-"@;
    let suffix = ".json"@;
    let digits = text::fixed_digits(generation_id as nat, 10, 20);
    let name = file_name(generation_id);
    reveal(vstd::arithmetic::power::pow);
    reveal_with_fuel(vstd::arithmetic::power::pow, 21);
    assert(vstd::arithmetic::power::pow(10, 20) == 100_000_000_000_000_000_000);
    lemma_number_of_digits(generation_id as nat, 20);
    assert(name.subrange(0, prefix.len() as int) =~= prefix);
    assert(name.subrange(name.len() - suffix.len(), name.len() as int) =~= suffix);
    assert(name.subrange(prefix.len() as int, name.len() - suffix.len()) =~= digits);
}

/// The path of a name under a directory.
pub open spec fn joined(root: Seq<char>, name: Seq<char>) -> Seq<char> {
    if root.len() == 0 || root.last() == '/' {
        root + name
    } else {
        root + "/"@ + name
    }
}

/// The path of a relative name under a directory.
pub fn join_path(root: &str, name: &str) -> (path: String)
    ensures
        path@ == joined(root@, name@),
{
    let length: usize = root.unicode_len();
    if length == 0 {
        concat2(root, name)
    } else if root.get_char(length - 1) == '/' {
        concat2(root, name)
    } else {
        concat3(root, "/", name)
    }
}

/// Whether `..` is a component of a path at `at`.
pub open spec fn parent_at(path: Seq<char>, at: int) -> bool {
    &&& 0 <= at
    &&& at + 2 <= path.len()
    &&& path[at] == '.'
    &&& path[at + 1] == '.'
    &&& at == 0 || path[at - 1] == '/'
    &&& at + 2 == path.len() || path[at + 2] == '/'
}

/// Whether `..` is a component of a path.
pub open spec fn has_parent(path: Seq<char>) -> bool {
    exists|at: int| parent_at(path, at)
}

/// The path that a reference stands for, or why the reference is refused: it has
/// to be relative, and no component may lead upwards.
pub open spec fn resolved(root: Seq<char>, reference: Seq<char>) -> Result<
    Seq<char>,
    GraphErrorView,
> {
    if reference.len() > 0 && reference[0] == '/' {
        Err(
            corrupt("reference '"@ + reference + "' must be relative to the artifact directory"@),
        )
    } else if has_parent(reference) {
        Err(corrupt("reference '"@ + reference + "' must stay inside the artifact directory"@))
    } else {
        Ok(joined(root, reference))
    }
}

fn leads_upwards(path: &str) -> (found: bool)
    ensures
        found == has_parent(path@),
{
    let length: usize = path.unicode_len();
    let mut at: usize = 0;
    while at < length && length - at > 1
        invariant
            length == path@.len(),
            at <= length,
            forall|j: int| 0 <= j < at ==> !parent_at(path@, j),
        decreases length - at,
    {
        let first: bool = path.get_char(at) == '.' && path.get_char(at + 1) == '.';
        if first {
            let starts: bool = at == 0 || path.get_char(at - 1) == '/';
            let ends: bool = at + 2 == length || path.get_char(at + 2) == '/';
            if starts && ends {
                assert(parent_at(path@, at as int));
                return true;
            }
        }
        at = at + 1;
    }
    assert forall|j: int| !parent_at(path@, j) by {}
    false
}

/// The path that a reference stands for.
pub fn resolve_manifest_reference(root: &str, reference: &str) -> (result: GraphResult<String>)
    ensures
        safety::outcome(result) == resolved(root@, reference@),
{
    if reference.unicode_len() > 0 && reference.get_char(0) == '/' {
        return Err(
            manifest_corrupt(
                concat3(
                    "reference '",
                    reference,
                    "' must be relative to the artifact directory",
                ).as_str(),
            ),
        );
    }
    if leads_upwards(reference) {
        return Err(
            manifest_corrupt(
                concat3(
                    "reference '",
                    reference,
                    "' must stay inside the artifact directory",
                ).as_str(),
            ),
        );
    }
    Ok(join_path(root, reference))
}

/// A path that a manifest reference stands for has no component that leads
/// upwards, nor is it absolute.
pub proof fn lemma_resolved_stays_inside(root: Seq<char>, reference: Seq<char>)
    ensures
        resolved(root, reference) is Ok ==> {
            &&& !has_parent(reference)
            &&& !(reference.len() > 0 && reference[0] == '/')
            &&& resolved(root, reference) == Ok::<_, GraphErrorView>(joined(root, reference))
        },
{
}

/// Why a reference of an active artifact is refused, where `present` tells
/// whether its file is there.
pub open spec fn reference_error(
    root: Seq<char>,
    reference: Seq<char>,
    label: Seq<char>,
    present: bool,
) -> Option<GraphErrorView> {
    match resolved(root, reference) {
        Err(error) => Some(error),
        Ok(path) => if present {
            None
        } else {
            Some(corrupt(label + " reference '"@ + path + "' is missing"@))
        },
    }
}

/// Check that a reference stands for a file that is there.
pub fn require_existing_reference(root: &str, reference: &str, label: &str, present: bool) -> (result:
    GraphResult<()>)
    ensures
        safety::refusal(result) == reference_error(root@, reference@, label@, present),
{
    let path: String = resolve_manifest_reference(root, reference)?;
    if present {
        Ok(())
    } else {
        Err(
            manifest_corrupt(
                concat4(label, " reference '", path.as_str(), "' is missing").as_str(),
            ),
        )
    }
}

/// The first refusal among the segment references from `from` on. The file of
/// the segment at `i` is there where `present[i + 1]` says so.
pub open spec fn active_segments_error(
    root: Seq<char>,
    refs: Seq<SegmentRefView>,
    present: Seq<bool>,
    from: int,
) -> Option<GraphErrorView>
    decreases refs.len() - from,
{
    if from >= refs.len() {
        None
    } else {
        let error = reference_error(root, refs[from].path, "segment"@, present[from + 1]);
        if error is Some {
            error
        } else {
            active_segments_error(root, refs, present, from + 1)
        }
    }
}

/// The first refusal among the chunk references from `from` on. The file of the
/// chunk at `i` is there where `present[offset + i]` says so.
pub open spec fn active_chunks_error(
    root: Seq<char>,
    refs: Seq<ChunkRefView>,
    present: Seq<bool>,
    offset: int,
    from: int,
) -> Option<GraphErrorView>
    decreases refs.len() - from,
{
    if from >= refs.len() {
        None
    } else {
        let error = reference_error(root, refs[from].path, "base chunk"@, present[offset + from]);
        if error is Some {
            error
        } else {
            active_chunks_error(root, refs, present, offset, from + 1)
        }
    }
}

/// The number of files that a manifest references as active: the base artifact,
/// the segments and the base chunks.
pub open spec fn active_count(manifest: ManifestView) -> nat {
    1 + manifest.segments.len() + manifest.base_chunks.len()
}

/// Why the active references of a manifest are refused. `present` tells for the
/// base artifact, the segments and the base chunks, in this order, whether their
/// files are there.
pub open spec fn active_error(
    root: Seq<char>,
    manifest: ManifestView,
    present: Seq<bool>,
) -> Option<GraphErrorView> {
    let base = reference_error(root, manifest.base_artifact_path, "base artifact"@, present[0]);
    if base is Some {
        base
    } else if active_segments_error(root, manifest.segments, present, 0) is Some {
        active_segments_error(root, manifest.segments, present, 0)
    } else {
        active_chunks_error(
            root,
            manifest.base_chunks,
            present,
            1 + manifest.segments.len() as int,
            0,
        )
    }
}

/// Store of durable projection manifest generations under a directory.
#[derive(Debug, Clone, PartialEq, Eq)]
pub struct ProjectionManifestStore {
    /// Artifact directory.
    pub root: String,
}

/// The latest generation among file names from `from` on, with the position of
/// its file; the first of equal generations counts.
pub open spec fn latest(
    names: Seq<Seq<char>>,
    from: int,
    found: Option<(u64, usize)>,
) -> Option<(u64, usize)>
    decreases names.len() - from,
{
    if from >= names.len() {
        found
    } else {
        latest(
            names,
            from + 1,
            match parsed_file_name(names[from]) {
                Some(generation_id) => match found {
                    Some((current, _)) => if generation_id > current {
                        Some((generation_id, from as usize))
                    } else {
                        found
                    },
                    None => Some((generation_id, from as usize)),
                },
                None => found,
            },
        )
    }
}

/// The characters of texts.
pub open spec fn texts(values: Seq<String>) -> Seq<Seq<char>> {
    values.map_values(|value: String| value@)
}

/// What becomes of the manifest in the latest manifest file: it has to hold the
/// generation of its file name, and its active files have to be there.
pub open spec fn current_manifest(
    root: Seq<char>,
    generation_id: u64,
    manifest: ManifestView,
    present: Seq<bool>,
) -> Result<ManifestView, GraphErrorView> {
    if manifest.generation_id != generation_id {
        Err(
            corrupt(
                "manifest filename generation "@ + text::decimal(generation_id as nat)
                    + " does not match JSON generation "@ + text::decimal(
                    manifest.generation_id as nat,
                ),
            ),
        )
    } else {
        match active_error(root, manifest, present) {
            Some(error) => Err(error),
            None => Ok(manifest),
        }
    }
}

/// Why a manifest is not published.
pub open spec fn publish_error(
    root: Seq<char>,
    manifest: ManifestView,
    present: Seq<bool>,
    published: bool,
) -> Option<GraphErrorView> {
    if manifest_error(manifest) is Some {
        manifest_error(manifest)
    } else if active_error(root, manifest, present) is Some {
        active_error(root, manifest, present)
    } else if published {
        Some(
            corrupt(
                "generation "@ + text::decimal(manifest.generation_id as nat)
                    + " already has a published manifest"@,
            ),
        )
    } else {
        None
    }
}

/// Why a manifest that was written does not count as published.
pub open spec fn confirm_error(
    root: Seq<char>,
    manifest: ManifestView,
    reloaded: ManifestView,
    present: Seq<bool>,
) -> Option<GraphErrorView> {
    if reloaded.generation_id != manifest.generation_id {
        Some(
            corrupt(
                "published generation "@ + text::decimal(manifest.generation_id as nat)
                    + " reloaded as generation "@ + text::decimal(reloaded.generation_id as nat),
            ),
        )
    } else {
        active_error(root, reloaded, present)
    }
}

impl ProjectionManifestStore {
    /// Create a manifest store rooted at `root`.
    pub fn new(root: &str) -> (store: ProjectionManifestStore)
        ensures
            store.root@ == root@,
    {
        ProjectionManifestStore { root: owned(root) }
    }

    /// The final manifest path for `generation_id`.
    pub fn manifest_path(&self, generation_id: u64) -> (path: String)
        ensures
            path@ == joined(self.root@, file_name(generation_id)),
    {
        join_path(self.root.as_str(), manifest_file_name(generation_id).as_str())
    }

    /// The latest generation among the files of the directory, with the position
    /// of its manifest file. Other files are ignored.
    pub fn latest_manifest_path(&self, file_names: &Vec<String>) -> (found: Option<(u64, usize)>)
        ensures
            found == latest(texts(file_names@), 0, None),
    {
        let mut found: Option<(u64, usize)> = None;
        let ghost names = texts(file_names@);
        for i in 0..file_names.len()
            invariant
                names == texts(file_names@),
                latest(names, 0, None) == latest(names, i as int, found),
        {
            assert(names[i as int] == file_names@[i as int]@);
            match parse_manifest_file_name(file_names[i].as_str()) {
                Some(generation_id) => {
                    let newer: bool = match found {
                        Some((current, _)) => generation_id > current,
                        None => true,
                    };
                    if newer {
                        found = Some((generation_id, i));
                    }
                },
                None => {},
            }
        }
        found
    }

    /// Check that all active files of a manifest are there. `present` tells for
    /// the base artifact, the segments and the base chunks, in this order,
    /// whether they are.
    pub fn validate_active_references(&self, manifest: &ProjectionManifest, present: &Vec<bool>) -> (result:
        GraphResult<()>)
        requires
            present@.len() == active_count(manifest@),
        ensures
            safety::refusal(result) == active_error(self.root@, manifest@, present@),
    {
        let root: &str = self.root.as_str();
        let ghost held = manifest@;
        require_existing_reference(
            root,
            manifest.base_artifact_path.as_str(),
            "base artifact",
            present[0],
        )?;
        for i in 0..manifest.segments.len()
            invariant
                held == manifest@,
                root@ == self.root@,
                present@.len() == active_count(held),
                reference_error(root@, held.base_artifact_path, "base artifact"@, present@[0]) is None,
                active_segments_error(root@, held.segments, present@, 0) == active_segments_error(
                    root@,
                    held.segments,
                    present@,
                    i as int,
                ),
        {
            assert(held.segments[i as int] == manifest.segments@[i as int]@);
            require_existing_reference(
                root,
                manifest.segments[i].path.as_str(),
                "segment",
                present[i + 1],
            )?;
        }
        let offset: usize = manifest.segments.len();
        for i in 0..manifest.base_chunks.len()
            invariant
                held == manifest@,
                root@ == self.root@,
                offset == held.segments.len(),
                present@.len() == active_count(held),
                reference_error(root@, held.base_artifact_path, "base artifact"@, present@[0]) is None,
                active_segments_error(root@, held.segments, present@, 0) is None,
                active_chunks_error(root@, held.base_chunks, present@, offset + 1, 0)
                    == active_chunks_error(
                    root@,
                    held.base_chunks,
                    present@,
                    offset + 1,
                    i as int,
                ),
        {
            assert(held.base_chunks[i as int] == manifest.base_chunks@[i as int]@);
            assert(present.len() == active_count(held));
            require_existing_reference(
                root,
                manifest.base_chunks[i].path.as_str(),
                "base chunk",
                present[1 + offset + i],
            )?;
        }
        Ok(())
    }

    /// What loading the latest manifest gives. `found` holds the generation of
    /// the latest manifest file and what decoding the file gave.
    pub fn load_latest_current(
        &self,
        found: Option<(u64, GraphResult<ProjectionManifest>)>,
        present: &Vec<bool>,
    ) -> (result: GraphResult<Option<ProjectionManifest>>)
        requires
            found matches Some((_, Ok(manifest))) ==> present@.len() == active_count(manifest@),
        ensures
            match found {
                None => result matches Ok(None),
                Some((_, Err(error))) => result == Err::<Option<ProjectionManifest>, GraphError>(
                    error,
                ),
                Some((generation_id, Ok(manifest))) => match current_manifest(
                    self.root@,
                    generation_id,
                    manifest@,
                    present@,
                ) {
                    Ok(_) => result == Ok::<Option<ProjectionManifest>, GraphError>(
                        Some(manifest),
                    ),
                    Err(error) => result matches Err(given) && given@ == error,
                },
            },
    {
        match found {
            None => Ok(None),
            Some((generation_id, loaded)) => {
                let manifest: ProjectionManifest = match loaded {
                    Ok(manifest) => manifest,
                    Err(error) => {
                        return Err(error);
                    },
                };
                if manifest.generation_id != generation_id {
                    return Err(
                        manifest_corrupt(
                            concat4(
                                "manifest filename generation ",
                                decimal_text(generation_id).as_str(),
                                " does not match JSON generation ",
                                decimal_text(manifest.generation_id).as_str(),
                            ).as_str(),
                        ),
                    );
                }
                match self.validate_active_references(&manifest, present) {
                    Ok(_) => Ok(Some(manifest)),
                    Err(error) => Err(error),
                }
            },
        }
    }

    /// Check that a manifest can be published. `published` tells whether its
    /// generation has a manifest file.
    pub fn check_publish(
        &self,
        manifest: &ProjectionManifest,
        present: &Vec<bool>,
        published: bool,
    ) -> (result: GraphResult<()>)
        requires
            present@.len() == active_count(manifest@),
        ensures
            safety::refusal(result) == publish_error(self.root@, manifest@, present@, published),
    {
        manifest.validate()?;
        self.validate_active_references(manifest, present)?;
        if published {
            return Err(
                manifest_corrupt(
                    concat3(
                        "generation ",
                        decimal_text(manifest.generation_id).as_str(),
                        " already has a published manifest",
                    ).as_str(),
                ),
            );
        }
        Ok(())
    }

    /// Check that a manifest that was written reads back as the generation it
    /// was written for.
    pub fn confirm_publish(
        &self,
        manifest: &ProjectionManifest,
        reloaded: &ProjectionManifest,
        present: &Vec<bool>,
    ) -> (result: GraphResult<()>)
        requires
            present@.len() == active_count(reloaded@),
        ensures
            safety::refusal(result) == confirm_error(self.root@, manifest@, reloaded@, present@),
    {
        if reloaded.generation_id != manifest.generation_id {
            return Err(
                manifest_corrupt(
                    concat4(
                        "published generation ",
                        decimal_text(manifest.generation_id).as_str(),
                        " reloaded as generation ",
                        decimal_text(reloaded.generation_id).as_str(),
                    ).as_str(),
                ),
            );
        }
        self.validate_active_references(reloaded, present)
    }
}

/// The latest generation is the greatest that a manifest file has.
pub proof fn lemma_latest_wins(names: Seq<Seq<char>>, i: int)
    requires
        0 <= i < names.len(),
        parsed_file_name(names[i]) is Some,
    ensures
        latest(names, 0, None) matches Some((generation_id, _)) && generation_id
            >= parsed_file_name(names[i])->Some_0,
{
    lemma_latest_from(names, 0, None);
}

proof fn lemma_latest_from(names: Seq<Seq<char>>, from: int, found: Option<(u64, usize)>)
    requires
        0 <= from <= names.len(),
    ensures
        found matches Some((current, _)) ==> (latest(names, from, found) matches Some((newest, _))
            && newest >= current),
        forall|i: int|
            from <= i < names.len() && parsed_file_name(#[trigger] names[i]) is Some ==> (latest(
                names,
                from,
                found,
            ) matches Some((newest, _)) && newest >= parsed_file_name(names[i])->Some_0),
    decreases names.len() - from,
{
    if from < names.len() {
        let next = match parsed_file_name(names[from]) {
            Some(generation_id) => match found {
                Some((current, _)) => if generation_id > current {
                    Some((generation_id, from as usize))
                } else {
                    found
                },
                None => Some((generation_id, from as usize)),
            },
            None => found,
        };
        lemma_latest_from(names, from + 1, next);
    }
}

// ---------------------------------------------------------------------------
// Heartbeats
// ---------------------------------------------------------------------------

/// Active backend heartbeat row used by generation-aware cleanup.
#[derive(Debug, Clone, Copy, PartialEq, Eq, Structural)]
pub struct ProjectionGenerationHeartbeat {
    /// PostgreSQL backend PID that is using the generation.
    pub backend_pid: i32,
    /// PostgreSQL database OID for the backend.
    pub database_oid: u32,
    /// Active manifest generation identifier.
    pub generation_id: u64,
    /// Heartbeat timestamp as Unix microseconds.
    pub heartbeat_at_unix_micros: i64,
    /// Expiration timestamp as Unix microseconds.
    pub expires_at_unix_micros: i64,
}

/// The heartbeat after a refresh.
pub open spec fn refreshed(
    heartbeat: ProjectionGenerationHeartbeat,
    now_unix_micros: i64,
    ttl_micros: u128,
) -> Result<ProjectionGenerationHeartbeat, GraphErrorView> {
    if ttl_micros > i64::MAX {
        Err(GraphErrorView::Internal("projection heartbeat TTL is too large"@))
    } else if now_unix_micros + ttl_micros > i64::MAX {
        Err(GraphErrorView::Internal("projection heartbeat expiry overflowed"@))
    } else {
        Ok(
            ProjectionGenerationHeartbeat {
                heartbeat_at_unix_micros: now_unix_micros,
                expires_at_unix_micros: (now_unix_micros + ttl_micros) as i64,
                ..heartbeat
            },
        )
    }
}

impl ProjectionGenerationHeartbeat {
    /// Whether this heartbeat is stale at `now_unix_micros`.
    pub fn is_expired_at(self, now_unix_micros: i64) -> (expired: bool)
        ensures
            expired == (self.expires_at_unix_micros <= now_unix_micros),
    {
        self.expires_at_unix_micros <= now_unix_micros
    }

    /// A refreshed copy of this heartbeat.
    pub fn refreshed_at(self, now_unix_micros: i64, ttl_micros: u128) -> (result: GraphResult<
        ProjectionGenerationHeartbeat,
    >)
        ensures
            match result {
                Ok(heartbeat) => refreshed(self, now_unix_micros, ttl_micros) == Ok::<
                    _,
                    GraphErrorView,
                >(heartbeat),
                Err(error) => refreshed(self, now_unix_micros, ttl_micros) == Err::<
                    ProjectionGenerationHeartbeat,
                    _,
                >(error@),
            },
    {
        if ttl_micros > 9_223_372_036_854_775_807 {
            return Err(GraphError::Internal(owned("projection heartbeat TTL is too large")));
        }
        match now_unix_micros.checked_add(ttl_micros as i64) {
            Some(expires_at_unix_micros) => Ok(
                ProjectionGenerationHeartbeat {
                    backend_pid: self.backend_pid,
                    database_oid: self.database_oid,
                    generation_id: self.generation_id,
                    heartbeat_at_unix_micros: now_unix_micros,
                    expires_at_unix_micros,
                },
            ),
            None => Err(GraphError::Internal(owned("projection heartbeat expiry overflowed"))),
        }
    }
}

/// A heartbeat that was refreshed is live until its time to live has passed.
pub proof fn lemma_refreshed_is_live(
    heartbeat: ProjectionGenerationHeartbeat,
    now_unix_micros: i64,
    ttl_micros: u128,
    at: i64,
)
    requires
        refreshed(heartbeat, now_unix_micros, ttl_micros) is Ok,
    ensures
        (refreshed(heartbeat, now_unix_micros, ttl_micros)->Ok_0.expires_at_unix_micros <= at)
            <==> now_unix_micros + ttl_micros <= at,
{
}

/// Heartbeat as it is handed to the database.
#[derive(Debug, Clone, PartialEq, Eq)]
pub struct HeartbeatRow {
    /// Generation identifier as the database stores it.
    pub generation_id: i64,
    /// Time to live in microseconds.
    pub ttl_micros: i64,
    /// Highest durable sync-log row represented by the generation.
    pub sync_watermark: i64,
    /// Validation status of the generation.
    pub validation_status: String,
}

/// What a heartbeat row says.
pub struct HeartbeatRowView {
    pub generation_id: i64,
    pub ttl_micros: i64,
    pub sync_watermark: i64,
    pub validation_status: Seq<char>,
}

impl View for HeartbeatRow {
    type V = HeartbeatRowView;

    open spec fn view(&self) -> HeartbeatRowView {
        HeartbeatRowView {
            generation_id: self.generation_id,
            ttl_micros: self.ttl_micros,
            sync_watermark: self.sync_watermark,
            validation_status: self.validation_status@,
        }
    }
}

/// The row that records an active generation.
pub open spec fn heartbeat_row(
    generation_id: u64,
    ttl_micros: u128,
    sync_watermark: i64,
    validation_status: Seq<char>,
) -> Result<HeartbeatRowView, GraphErrorView> {
    match status_error(validation_status) {
        Some(error) => Err(error),
        None => if generation_id > i64::MAX {
            Err(GraphErrorView::Internal("projection generation id exceeds BIGINT"@))
        } else if ttl_micros > i64::MAX {
            Err(GraphErrorView::Internal("projection heartbeat TTL is too large"@))
        } else {
            Ok(
                HeartbeatRowView {
                    generation_id: generation_id as i64,
                    ttl_micros: ttl_micros as i64,
                    sync_watermark,
                    validation_status,
                },
            )
        },
    }
}

/// The row that records an active generation, for the database.
pub fn record_active_generation_heartbeat(
    generation_id: u64,
    ttl_micros: u128,
    sync_watermark: i64,
    validation_status: &str,
) -> (result: GraphResult<HeartbeatRow>)
    ensures
        safety::outcome(result) == heartbeat_row(
            generation_id,
            ttl_micros,
            sync_watermark,
            validation_status@,
        ),
{
    match validate_status(validation_status) {
        Ok(_) => {},
        Err(error) => {
            return Err(error);
        },
    }
    let generation_id: i64 = generation_key(generation_id)?;
    if ttl_micros > 9_223_372_036_854_775_807 {
        return Err(GraphError::Internal(owned("projection heartbeat TTL is too large")));
    }
    Ok(
        HeartbeatRow {
            generation_id,
            ttl_micros: ttl_micros as i64,
            sync_watermark,
            validation_status: owned(validation_status),
        },
    )
}

/// The row that records a generation that was loaded.
pub fn record_loaded_generation_heartbeat(manifest: &ProjectionManifest) -> (result: GraphResult<
    HeartbeatRow,
>)
    ensures
        safety::outcome(result) == heartbeat_row(
            manifest@.generation_id,
            DEFAULT_ACTIVE_GENERATION_TTL_MICROS,
            manifest@.sync_watermark,
            manifest@.validation_status,
        ),
{
    record_active_generation_heartbeat(
        manifest.generation_id,
        DEFAULT_ACTIVE_GENERATION_TTL_MICROS,
        manifest.sync_watermark,
        manifest.validation_status.as_str(),
    )
}

/// The generation identifier as the database stores it.
pub fn generation_key(generation_id: u64) -> (result: GraphResult<i64>)
    ensures
        match result {
            Ok(key) => key == generation_id,
            Err(error) => generation_id > i64::MAX && error@ == GraphErrorView::Internal(
                "projection generation id exceeds BIGINT"@,
            ),
        },
{
    if generation_id > 9_223_372_036_854_775_807 {
        Err(GraphError::Internal(owned("projection generation id exceeds BIGINT")))
    } else {
        Ok(generation_id as i64)
    }
}

/// The number of active generations that the database counted, as far as 32 bits hold it.
pub fn active_generation_count(counted: Option<i64>) -> (count: i32)
    ensures
        count == (match counted {
            Some(n) => if n > i32::MAX {
                i32::MAX
            } else {
                n as i32
            },
            None => 0,
        }),
        counted matches Some(n) ==> (0 <= n <= i32::MAX ==> count == n),
{
    match counted {
        Some(n) => if n > 2_147_483_647 {
            2_147_483_647
        } else {
            n as i32
        },
        None => 0,
    }
}

/// The identifiers of active generations that the database listed.
pub fn active_generation_ids(rows: Vec<i64>) -> (result: GraphResult<Vec<u64>>)
    ensures
        match result {
            Ok(ids) => ids@.len() == rows@.len() && forall|i: int|
                0 <= i < rows@.len() ==> #[trigger] ids@[i] == rows@[i],
            Err(error) => (exists|i: int| 0 <= i < rows@.len() && #[trigger] rows@[i] < 0) && error@
                == GraphErrorView::Internal("projection generation id is negative"@),
        },
{
    let mut ids: Vec<u64> = Vec::new();
    for i in 0..rows.len()
        invariant
            ids@.len() == i,
            forall|j: int| 0 <= j < i ==> #[trigger] ids@[j] == rows@[j],
    {
        if rows[i] < 0 {
            return Err(GraphError::Internal(owned("projection generation id is negative")));
        }
        ids.push(rows[i] as u64);
    }
    Ok(ids)
}

} // verus!
