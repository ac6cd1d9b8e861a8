//! Durable projection recovery planning and rebuild publication.
//!
//! Recovery validates active manifest metadata and referenced artifacts before
//! deciding whether the projection can keep running, needs targeted chunk
//! repair, or must be rebuilt from PostgreSQL source tables by the SQL layer.
use vstd::prelude::*;
use vstd::string::StrSliceExecFns;

use crate::projection::chunk::{self, corrupt_chunk_ranges};
use crate::projection::layered::{
    self, FileRead, ManifestSegmentProvider, SegmentProvider, SourceRange,
};
use crate::projection::manifest::{
    self, manifest_file_name, ManifestView, ProjectionManifest, ProjectionManifestStore,
};
use crate::safety::{self, GraphError, GraphErrorView, GraphResult};
use crate::text::{self, concat2, concat3, concat4, concat5, decimal_text, owned};

verus! {

/// Recovery action required for the current durable projection artifacts.
#[derive(Debug, Clone, Copy, PartialEq, Eq, Structural)]
pub enum ProjectionRecoveryAction {
    /// No projection artifacts are present.
    NoProjection,
    /// The active projection manifest and every referenced artifact validate.
    Healthy,
    /// One or more base chunks can be replaced from source table data.
    TargetedChunkRepair,
    /// The projection must be rebuilt from PostgreSQL source tables.
    FullRebuild,
}

/// Recovery inspection result for the active projection artifact root.
#[derive(Debug, Clone, PartialEq, Eq)]
pub struct ProjectionRecoveryPlan {
    pub action: ProjectionRecoveryAction,
    pub generation_id: Option<u64>,
    pub reason: Option<GraphError>,
}

/// What a recovery plan says.
pub struct RecoveryPlanView {
    pub action: ProjectionRecoveryAction,
    pub generation_id: Option<u64>,
    pub reason: Option<GraphErrorView>,
}

impl View for ProjectionRecoveryPlan {
    type V = RecoveryPlanView;

    open spec fn view(&self) -> RecoveryPlanView {
        RecoveryPlanView {
            action: self.action,
            generation_id: self.generation_id,
            reason: match self.reason {
                Some(error) => Some(error@),
                None => None,
            },
        }
    }
}

pub open spec fn no_projection_plan() -> RecoveryPlanView {
    RecoveryPlanView {
        action: ProjectionRecoveryAction::NoProjection,
        generation_id: None,
        reason: None,
    }
}

pub open spec fn healthy_plan(generation_id: u64) -> RecoveryPlanView {
    RecoveryPlanView {
        action: ProjectionRecoveryAction::Healthy,
        generation_id: Some(generation_id),
        reason: None,
    }
}

pub open spec fn repair_plan(generation_id: u64, reason: GraphErrorView) -> RecoveryPlanView {
    RecoveryPlanView {
        action: ProjectionRecoveryAction::TargetedChunkRepair,
        generation_id: Some(generation_id),
        reason: Some(reason),
    }
}

pub open spec fn rebuild_plan(generation_id: Option<u64>, reason: GraphErrorView) -> RecoveryPlanView {
    RecoveryPlanView {
        action: ProjectionRecoveryAction::FullRebuild,
        generation_id,
        reason: Some(reason),
    }
}

impl ProjectionRecoveryPlan {
    /// There is nothing to recover.
    pub fn no_projection() -> (plan: ProjectionRecoveryPlan)
        ensures
            plan@ == no_projection_plan(),
    {
        ProjectionRecoveryPlan {
            action: ProjectionRecoveryAction::NoProjection,
            generation_id: None,
            reason: None,
        }
    }

    /// Everything validates.
    pub fn healthy(manifest: &ProjectionManifest) -> (plan: ProjectionRecoveryPlan)
        ensures
            plan@ == healthy_plan(manifest@.generation_id),
    {
        ProjectionRecoveryPlan {
            action: ProjectionRecoveryAction::Healthy,
            generation_id: Some(manifest.generation_id),
            reason: None,
        }
    }

    /// Base chunks have to be replaced.
    pub fn repair(manifest: &ProjectionManifest, reason: GraphError) -> (plan:
        ProjectionRecoveryPlan)
        ensures
            plan@ == repair_plan(manifest@.generation_id, reason@),
    {
        ProjectionRecoveryPlan {
            action: ProjectionRecoveryAction::TargetedChunkRepair,
            generation_id: Some(manifest.generation_id),
            reason: Some(reason),
        }
    }

    /// The projection has to be rebuilt.
    pub fn rebuild(generation_id: Option<u64>, reason: GraphError) -> (plan:
        ProjectionRecoveryPlan)
        ensures
            plan@ == rebuild_plan(generation_id, reason@),
    {
        ProjectionRecoveryPlan {
            action: ProjectionRecoveryAction::FullRebuild,
            generation_id,
            reason: Some(reason),
        }
    }
}

// ---------------------------------------------------------------------------
// Loading for recovery
// ---------------------------------------------------------------------------

/// A manifest without its base chunks.
pub open spec fn without_chunks(manifest: ManifestView) -> ManifestView {
    ManifestView { base_chunks: Seq::empty(), ..manifest }
}

/// What becomes of the latest manifest where base chunks may be missing.
pub open spec fn recovery_manifest(
    root: Seq<char>,
    generation_id: u64,
    manifest: ManifestView,
    present: Seq<bool>,
) -> Result<ManifestView, GraphErrorView> {
    match manifest::current_manifest(root, generation_id, without_chunks(manifest), present) {
        Ok(_) => Ok(manifest),
        Err(error) => Err(error),
    }
}

impl ProjectionManifestStore {
    /// What loading the latest manifest for recovery gives: base chunks may be
    /// missing, since they can be repaired. `present` tells for the base artifact
    /// and the segments, in this order, whether their files are there.
    pub fn load_latest_current_for_recovery(
        &self,
        found: Option<(u64, GraphResult<ProjectionManifest>)>,
        present: &Vec<bool>,
    ) -> (result: GraphResult<Option<ProjectionManifest>>)
        requires
            found matches Some((_, Ok(manifest))) ==> present@.len() == 1
                + manifest@.segments.len(),
        ensures
            match found {
                None => result matches Ok(None),
                Some((_, Err(error))) => result == Err::<Option<ProjectionManifest>, GraphError>(
                    error,
                ),
                Some((generation_id, Ok(manifest))) => match recovery_manifest(
                    self.root@,
                    generation_id,
                    manifest@,
                    present@,
                ) {
                    Ok(_) => result matches Ok(Some(given)) && given@ == manifest@,
                    Err(error) => result matches Err(given) && given@ == error,
                },
            },
    {
        match found {
            None => Ok(None),
            Some((generation_id, loaded)) => {
                let mut manifest: ProjectionManifest = match loaded {
                    Ok(manifest) => manifest,
                    Err(error) => {
                        return Err(error);
                    },
                };
                let ghost whole = manifest@;
                let chunks: Vec<manifest::ManifestChunkRef> = manifest::duplicate_chunks(
                    &manifest.base_chunks,
                );
                manifest.base_chunks = Vec::new();
                assert(manifest@ =~= without_chunks(whole));
                match self.load_latest_current(Some((generation_id, Ok(manifest))), present) {
                    Ok(Some(given)) => {
                        let mut given: ProjectionManifest = given;
                        given.base_chunks = chunks;
                        assert(given@ =~= whole);
                        Ok(Some(given))
                    },
                    Ok(None) => Ok(None),
                    Err(error) => Err(error),
                }
            },
        }
    }
}

// ---------------------------------------------------------------------------
// Planning
// ---------------------------------------------------------------------------

/// What is known of the graph artifact that the projection builds on.
pub struct LoadedArtifact {
    /// File name, where the path has one.
    pub file_name: Option<String>,
    /// File-format version.
    pub version: u32,
    /// Checksum of the file, or why it could not be computed.
    pub checksum: GraphResult<String>,
}

/// What is known of the graph artifact.
pub struct LoadedArtifactView {
    pub file_name: Option<Seq<char>>,
    pub version: u32,
    pub checksum: Result<Seq<char>, GraphErrorView>,
}

impl View for LoadedArtifact {
    type V = LoadedArtifactView;

    open spec fn view(&self) -> LoadedArtifactView {
        LoadedArtifactView {
            file_name: match self.file_name {
                Some(name) => Some(name@),
                None => None,
            },
            version: self.version,
            checksum: match self.checksum {
                Ok(checksum) => Ok(checksum@),
                Err(error) => Err(error@),
            },
        }
    }
}

/// Why a manifest does not fit the graph artifact.
pub open spec fn base_metadata_error(
    artifact: LoadedArtifactView,
    manifest: ManifestView,
) -> Option<GraphErrorView> {
    match artifact.file_name {
        None => Some(GraphErrorView::Internal("graph artifact path has no file name"@)),
        Some(name) => if manifest.base_artifact_path != name {
            Some(
                GraphErrorView::CorruptFile {
                    reason: "projection manifest: base artifact '"@ + manifest.base_artifact_path
                        + "' does not match loaded artifact '"@ + name + "'"@,
                },
            )
        } else if manifest.base_artifact_version != artifact.version {
            Some(
                GraphErrorView::IncompatibleVersion(
                    "projection manifest references base artifact version "@ + text::decimal(
                        manifest.base_artifact_version as nat,
                    ) + "; expected "@ + text::decimal(artifact.version as nat),
                ),
            )
        } else {
            match artifact.checksum {
                Err(error) => Some(error),
                Ok(checksum) => if manifest.base_artifact_checksum != checksum {
                    Some(
                        GraphErrorView::CorruptFile {
                            reason: "projection manifest: base artifact checksum '"@
                                + manifest.base_artifact_checksum
                                + "' does not match loaded artifact checksum '"@ + checksum + "'"@,
                        },
                    )
                } else {
                    None
                },
            }
        },
    }
}

/// A copy of an error.
fn duplicate_error(error: &GraphError) -> (copy: GraphError)
    ensures
        copy@ == error@,
{
    match error {
        GraphError::CorruptFile { reason } => GraphError::CorruptFile { reason: reason.clone() },
        GraphError::IncompatibleVersion(reason) => GraphError::IncompatibleVersion(reason.clone()),
        GraphError::Internal(reason) => GraphError::Internal(reason.clone()),
        GraphError::OverlayLimit { kind, requested, limit } => GraphError::OverlayLimit {
            kind: kind.clone(),
            requested: *requested,
            limit: *limit,
        },
        GraphError::UnsupportedOperation { operation, reason } => {
            GraphError::UnsupportedOperation {
                operation: operation.clone(),
                reason: reason.clone(),
            }
        },
        GraphError::BuildLocked => GraphError::BuildLocked,
        GraphError::NotBuilt => GraphError::NotBuilt,
        GraphError::GqlExecution { reason } => GraphError::GqlExecution {
            reason: reason.clone(),
        },
        GraphError::InvalidFilter { reason } => GraphError::InvalidFilter {
            reason: reason.clone(),
        },
        GraphError::GqlParameter { reason } => GraphError::GqlParameter { reason: reason.clone() },
    }
}

/// Check that a manifest fits the graph artifact.
pub fn validate_manifest_base_metadata(artifact: &LoadedArtifact, manifest: &ProjectionManifest) -> (result:
    GraphResult<()>)
    ensures
        safety::refusal(result) == base_metadata_error(artifact@, manifest@),
{
    let expected_base: &String = match &artifact.file_name {
        Some(name) => name,
        None => {
            return Err(GraphError::Internal(owned("graph artifact path has no file name")));
        },
    };
    if manifest.base_artifact_path != *expected_base {
        return Err(
            GraphError::CorruptFile {
                reason: concat5(
                    "projection manifest: base artifact '",
                    manifest.base_artifact_path.as_str(),
                    "' does not match loaded artifact '",
                    expected_base.as_str(),
                    "'",
                ),
            },
        );
    }
    if manifest.base_artifact_version != artifact.version {
        return Err(
            GraphError::IncompatibleVersion(
                concat4(
                    "projection manifest references base artifact version ",
                    decimal_text(manifest.base_artifact_version as u64).as_str(),
                    "; expected ",
                    decimal_text(artifact.version as u64).as_str(),
                ),
            ),
        );
    }
    match &artifact.checksum {
        Err(error) => Err(duplicate_error(error)),
        Ok(expected_checksum) => {
            if manifest.base_artifact_checksum != *expected_checksum {
                return Err(
                    GraphError::CorruptFile {
                        reason: concat5(
                            "projection manifest: base artifact checksum '",
                            manifest.base_artifact_checksum.as_str(),
                            "' does not match loaded artifact checksum '",
                            expected_checksum.as_str(),
                            "'",
                        ),
                    },
                );
            }
            Ok(())
        },
    }
}

/// The recovery that a manifest and its files call for.
pub open spec fn manifest_recovery(
    manifest: ManifestView,
    artifact: Option<LoadedArtifactView>,
    segments: Result<Seq<crate::projection::segment::DeltaSegmentView>, GraphErrorView>,
    chunks: Result<Seq<crate::projection::segment::DeltaSegmentView>, GraphErrorView>,
) -> RecoveryPlanView {
    let metadata = match artifact {
        Some(artifact) => base_metadata_error(artifact, manifest),
        None => None,
    };
    match metadata {
        Some(error) => rebuild_plan(Some(manifest.generation_id), error),
        None => match segments {
            Err(error) => rebuild_plan(Some(manifest.generation_id), error),
            Ok(_) => match chunks {
                Err(error) => repair_plan(manifest.generation_id, error),
                Ok(_) => healthy_plan(manifest.generation_id),
            },
        },
    }
}

/// Decide which recovery action is needed, including base metadata checks.
/// `loaded` is what loading the latest manifest for recovery gave; the files are
/// those of its segments and base chunks, in its order.
pub fn plan_projection_recovery_for_artifact(
    latest_generation: Option<u64>,
    loaded: GraphResult<Option<&ProjectionManifest>>,
    artifact: Option<&LoadedArtifact>,
    segment_files: &Vec<FileRead>,
    chunk_files: &Vec<FileRead>,
) -> (plan: ProjectionRecoveryPlan)
    requires
        loaded matches Ok(Some(manifest)) ==> segment_files@.len() == manifest@.segments.len()
            && chunk_files@.len() == manifest@.base_chunks.len(),
    ensures
        plan@ == (match loaded {
            Err(error) => rebuild_plan(latest_generation, error@),
            Ok(None) => no_projection_plan(),
            Ok(Some(manifest)) => manifest_recovery(
                manifest@,
                match artifact {
                    Some(artifact) => Some(artifact@),
                    None => None,
                },
                layered::loaded_segments(
                    manifest@.segments,
                    layered::file_views(segment_files@),
                    0,
                    Seq::empty(),
                ),
                layered::loaded_chunks(
                    manifest@.base_chunks,
                    layered::file_views(chunk_files@),
                    0,
                    Seq::empty(),
                ),
            ),
        }),
{
    let manifest: &ProjectionManifest = match loaded {
        Ok(Some(manifest)) => manifest,
        Ok(None) => {
            return ProjectionRecoveryPlan::no_projection();
        },
        Err(error) => {
            return ProjectionRecoveryPlan::rebuild(latest_generation, error);
        },
    };
    match artifact {
        Some(artifact) => match validate_manifest_base_metadata(artifact, manifest) {
            Ok(_) => {},
            Err(error) => {
                return ProjectionRecoveryPlan::rebuild(Some(manifest.generation_id), error);
            },
        },
        None => {},
    }
    let provider: ManifestSegmentProvider = ManifestSegmentProvider::new(
        manifest,
        segment_files,
        chunk_files,
    );
    match provider.load_segments() {
        Ok(_) => {},
        Err(error) => {
            return ProjectionRecoveryPlan::rebuild(Some(manifest.generation_id), error);
        },
    }
    match provider.load_base_chunks() {
        Ok(_) => {},
        Err(error) => {
            return ProjectionRecoveryPlan::repair(manifest, error);
        },
    }
    ProjectionRecoveryPlan::healthy(manifest)
}

/// Decide which recovery action is needed for the current projection root.
pub fn plan_projection_recovery(
    latest_generation: Option<u64>,
    loaded: GraphResult<Option<&ProjectionManifest>>,
    segment_files: &Vec<FileRead>,
    chunk_files: &Vec<FileRead>,
) -> (plan: ProjectionRecoveryPlan)
    requires
        loaded matches Ok(Some(manifest)) ==> segment_files@.len() == manifest@.segments.len()
            && chunk_files@.len() == manifest@.base_chunks.len(),
    ensures
        plan@ == (match loaded {
            Err(error) => rebuild_plan(latest_generation, error@),
            Ok(None) => no_projection_plan(),
            Ok(Some(manifest)) => manifest_recovery(
                manifest@,
                None,
                layered::loaded_segments(
                    manifest@.segments,
                    layered::file_views(segment_files@),
                    0,
                    Seq::empty(),
                ),
                layered::loaded_chunks(
                    manifest@.base_chunks,
                    layered::file_views(chunk_files@),
                    0,
                    Seq::empty(),
                ),
            ),
        }),
{
    plan_projection_recovery_for_artifact(
        latest_generation,
        loaded,
        None,
        segment_files,
        chunk_files,
    )
}

/// Validate the latest active manifest and every referenced segment and chunk.
pub fn validate_active_projection(
    loaded: GraphResult<Option<ProjectionManifest>>,
    segment_files: &Vec<FileRead>,
    chunk_files: &Vec<FileRead>,
) -> (result: GraphResult<Option<ProjectionManifest>>)
    requires
        loaded matches Ok(Some(manifest)) ==> segment_files@.len() == manifest@.segments.len()
            && chunk_files@.len() == manifest@.base_chunks.len(),
    ensures
        match loaded {
            Ok(Some(manifest)) => {
                let segments = layered::loaded_segments(
                    manifest@.segments,
                    layered::file_views(segment_files@),
                    0,
                    Seq::empty(),
                );
                let chunks = layered::loaded_chunks(
                    manifest@.base_chunks,
                    layered::file_views(chunk_files@),
                    0,
                    Seq::empty(),
                );
                match (segments, chunks) {
                    (Err(error), _) => result matches Err(given) && given@ == error,
                    (Ok(_), Err(error)) => result matches Err(given) && given@ == error,
                    (Ok(_), Ok(_)) => result == loaded,
                }
            },
            _ => result == loaded,
        },
{
    let manifest: ProjectionManifest = match loaded {
        Ok(Some(manifest)) => manifest,
        Ok(None) => {
            return Ok(None);
        },
        Err(error) => {
            return Err(error);
        },
    };
    let provider: ManifestSegmentProvider = ManifestSegmentProvider::new(
        &manifest,
        segment_files,
        chunk_files,
    );
    match provider.load_segments() {
        Ok(_) => {},
        Err(error) => {
            return Err(error);
        },
    }
    match provider.load_base_chunks() {
        Ok(_) => {},
        Err(error) => {
            return Err(error);
        },
    }
    Ok(Some(manifest))
}

// ---------------------------------------------------------------------------
// Repair and rebuild
// ---------------------------------------------------------------------------

/// The source ranges whose base chunks a repair rewrites, where the manifest has
/// any base chunks.
pub fn repair_active_base_chunks(
    loaded: GraphResult<Option<&ProjectionManifest>>,
    chunk_files: &Vec<FileRead>,
) -> (result: GraphResult<Option<Vec<SourceRange>>>)
    requires
        loaded matches Ok(Some(manifest)) ==> chunk_files@.len() == manifest@.base_chunks.len(),
    ensures
        match loaded {
            Err(error) => result == Err::<Option<Vec<SourceRange>>, GraphError>(error),
            Ok(None) => result matches Ok(None),
            Ok(Some(manifest)) => if manifest@.base_chunks.len() == 0 {
                result matches Ok(None)
            } else {
                result matches Ok(Some(ranges)) && ranges@ == chunk::corrupt_ranges(
                    manifest@.base_chunks,
                    layered::file_views(chunk_files@),
                    manifest@.base_chunks.len() as int,
                )
            },
        },
{
    match loaded {
        Err(error) => Err(error),
        Ok(None) => Ok(None),
        Ok(Some(manifest)) => {
            if manifest.base_chunks.len() == 0 {
                return Ok(None);
            }
            Ok(Some(corrupt_chunk_ranges(manifest, chunk_files)))
        },
    }
}

/// The fresh base-only manifest of a rebuilt graph artifact.
pub open spec fn rebuilt_manifest(
    artifact: LoadedArtifactView,
    generation_id: u64,
    sync_watermark: i64,
    now_unix_micros: i64,
) -> Result<ManifestView, GraphErrorView> {
    match artifact.file_name {
        None => Err(GraphErrorView::Internal("graph artifact path has no file name"@)),
        Some(name) => match artifact.checksum {
            Err(error) => Err(error),
            Ok(checksum) => Ok(
                ManifestView {
                    last_repair_unix_micros: Some(now_unix_micros),
                    ..manifest::base_manifest(
                        generation_id,
                        name,
                        checksum,
                        artifact.version,
                        sync_watermark,
                        now_unix_micros,
                    )
                },
            ),
        },
    }
}

/// The fresh base-only manifest to publish after a successful rebuild.
pub fn publish_rebuilt_base_manifest(
    artifact: &LoadedArtifact,
    generation_id: u64,
    sync_watermark: i64,
    now_unix_micros: i64,
) -> (result: GraphResult<ProjectionManifest>)
    ensures
        safety::outcome(result) == rebuilt_manifest(
            artifact@,
            generation_id,
            sync_watermark,
            now_unix_micros,
        ),
{
    let base_artifact_path: &String = match &artifact.file_name {
        Some(name) => name,
        None => {
            return Err(GraphError::Internal(owned("graph artifact path has no file name")));
        },
    };
    let checksum: &String = match &artifact.checksum {
        Ok(checksum) => checksum,
        Err(error) => {
            return Err(duplicate_error(error));
        },
    };
    let mut manifest: ProjectionManifest = ProjectionManifest::base_only(
        generation_id,
        base_artifact_path.as_str(),
        checksum.as_str(),
        artifact.version,
        sync_watermark,
        now_unix_micros,
    );
    manifest.mark_repair();
    Ok(manifest)
}

/// The latest generation among the manifest files of a directory.
pub fn latest_manifest_generation(file_names: &Vec<String>) -> (found: Option<u64>)
    ensures
        found == (match manifest::latest(manifest::texts(file_names@), 0, None) {
            Some((generation_id, _)) => Some(generation_id),
            None => None,
        }),
{
    let store: ProjectionManifestStore = ProjectionManifestStore::new("");
    match store.latest_manifest_path(file_names) {
        Some((generation_id, _)) => Some(generation_id),
        None => None,
    }
}

/// The generation after every manifest file.
pub fn next_rebuild_generation_id(latest_generation: Option<u64>) -> (result: GraphResult<u64>)
    ensures
        safety::outcome(result) == (match latest_generation {
            Some(latest) => manifest::following(latest),
            None => Ok(1),
        }),
{
    match latest_generation {
        Some(latest) => manifest::following_generation_id(latest),
        None => Ok(1),
    }
}

// ---------------------------------------------------------------------------
// Quarantine
// ---------------------------------------------------------------------------

/// The name under which a manifest file is set aside.
pub open spec fn quarantine_name(generation_id: u64, attempt: u32) -> Seq<char> {
    manifest::file_name(generation_id) + ".invalid-"@ + text::decimal(attempt as nat)
}

/// The name under which the manifest file of a generation is set aside.
pub fn quarantine_file_name(generation_id: u64, attempt: u32) -> (name: String)
    ensures
        name@ == quarantine_name(generation_id, attempt),
{
    concat3(
        manifest_file_name(generation_id).as_str(),
        ".invalid-",
        decimal_text(attempt as u64).as_str(),
    )
}

/// The name that a manifest file had before it was set aside.
pub open spec fn restored_name(file_name: Seq<char>, path: Seq<char>) -> Result<
    Seq<char>,
    GraphErrorView,
> {
    match text::found_from(file_name, ".invalid-"@, 0) {
        Some(at) => Ok(file_name.take(at)),
        None => Err(
            GraphErrorView::Internal("projection quarantine path has no invalid suffix: "@ + path),
        ),
    }
}

/// The name that a manifest file had before it was set aside at `path`.
pub fn restored_file_name(file_name: &str, path: &str) -> (result: GraphResult<String>)
    ensures
        safety::outcome(result) == restored_name(file_name@, path@),
{
    match text::find(file_name, ".invalid-") {
        Some(at) => {
            let name: &str = file_name.substring_char(0, at);
            assert(name@ =~= file_name@.take(at as int));
            Ok(owned(name))
        },
        None => Err(
            GraphError::Internal(
                concat2("projection quarantine path has no invalid suffix: ", path),
            ),
        ),
    }
}

proof fn lemma_not_earlier(name: Seq<char>, part: Seq<char>, rest: Seq<char>, from: int)
    requires
        0 <= from <= name.len(),
        part.len() > 0,
        forall|at: int| from <= at < name.len() ==> !text::stands_at(name + part + rest, part, at),
    ensures
        text::found_from(name + part + rest, part, from) == Some(name.len() as int),
    decreases name.len() - from,
{
    let whole = name + part + rest;
    if from == name.len() {
        assert(whole.subrange(from, from + part.len()) =~= part);
    } else {
        assert(!text::stands_at(whole, part, from));
        lemma_not_earlier(name, part, rest, from + 1);
    }
}

/// A manifest file that was set aside gets its name back.
pub proof fn lemma_quarantine_restores(generation_id: u64, attempt: u32, path: Seq<char>)
    ensures
        restored_name(quarantine_name(generation_id, attempt), path) == Ok::<_, GraphErrorView>(
            manifest::file_name(generation_id),
        ),
{
    let name = manifest::file_name(generation_id);
    let part = ".invalid-"@;
    let rest = text::decimal(attempt as nat);
    let whole = name + part + rest;
    reveal_strlit(".invalid-");
    reveal_strlit("projection-generation-");
    reveal_strlit(".json");
    manifest::lemma_file_name_digits(generation_id);
    assert(name.len() == 47);
    assert forall|at: int| 0 <= at < name.len() implies !text::stands_at(whole, part, at) by {
        if text::stands_at(whole, part, at) {
            let found = whole.subrange(at, at + part.len());
            assert(found[0] == part[0] && found[1] == part[1]);
            assert(whole[at] == '.' && whole[at + 1] == 'i');
            assert(whole[at] == name[at]);
            if at < 22 {
                assert(name[at] == "projection-generation-"@[at]);
            } else if at < 42 {
                assert(name[at] == text::fixed_digits(generation_id as nat, 10, 20)[at - 22]);
            } else {
                assert(name[at] == ".json"@[at - 42]);
                if at + 1 < 47 {
                    assert(whole[at + 1] == name[at + 1]);
                    assert(name[at + 1] == ".json"@[at + 1 - 42]);
                }
            }
        }
    }
    lemma_not_earlier(name, part, rest, 0);
    assert(whole.take(name.len() as int) =~= name);
}

} // verus!
