//! Manifests, ingestion, compaction, garbage collection, recovery and status of
//! projection artifacts, over a directory held in memory.

use std::collections::{BTreeMap, BTreeSet, HashMap};
use std::path::{Path, PathBuf};

use pggraph::checksum::checksum_text;
use pggraph::edge_store::{EdgeStore, RawEdge};
use pggraph::paths::{key_precedes, path_key, same_key};
use pggraph::projection::chunk::{build_base_chunk, chunk_file_name, chunk_ref, rewrite_manifest};
use pggraph::projection::compact::{
    self, compaction_manifest, compacted_segment_file_name, CompactionBudgets, CompactionPlan,
};
use pggraph::projection::gc::{
    self, load_valid_manifests, summarize, CandidateOutcome, ManifestFile, ProjectionGcConfig,
    ProjectionGcSummary,
};
use pggraph::projection::ingest::{
    segment_file_name, segment_ref, ActiveIngestRoots, ProjectionIngestResult, ProjectionIngester,
    ProjectionSyncRow,
};
use pggraph::projection::layered::{
    FileRead, LayeredNeighbors, ManifestSegmentProvider, SourceRange,
};
use pggraph::projection::manifest::{
    active_generation_count, active_generation_ids, following_generation_id, manifest_file_name,
    parse_manifest_file_name,
    record_active_generation_heartbeat, resolve_manifest_reference, ManifestChunkRef,
    ManifestFileRef, ManifestSegmentRef, ProjectionGenerationHeartbeat, ProjectionManifest,
    ProjectionManifestStore, MANIFEST_VERSION, VALIDATION_STATUS_VALID,
};
use pggraph::projection::neighbors::{CsrNeighbors, Neighbor, NeighborSource, WeightedNeighbor};
use pggraph::projection::normalize::{MutationBufferLimits, MutationOperation};
use pggraph::projection::recovery::{
    self, latest_manifest_generation, next_rebuild_generation_id, publish_rebuilt_base_manifest,
    quarantine_file_name, restored_file_name, LoadedArtifact, ProjectionRecoveryAction, ProjectionRecoveryPlan,
};
use pggraph::projection::segment::{
    DeltaSegment, SegmentEdge, SegmentEdgeWeight, SegmentFilterValue, SegmentKind,
    SegmentNodeState, SegmentResolution, SegmentTenant,
};
use pggraph::projection::sources::named_sources;
use pggraph::projection::status::{
    collect_projection_metadata_status, collect_projection_status, record_projection_gc,
    ProjectionOperationStatus, ProjectionStatus,
};
use pggraph::projection::tx_delta::{
    default_limits, record_added_edge, DeltaEdge, TxGraphDelta, TxState,
};
use pggraph::safety::{GraphError, GraphResult};
use pggraph::types::TraversalDirection;

/// An artifact directory: its files, and the manifests among them as they decode.
struct Directory {
    root: String,
    files: BTreeMap<String, Vec<u8>>,
    manifests: BTreeMap<String, Result<ProjectionManifest, String>>,
    active: ActiveIngestRoots,
}

/// What compacting a generation published.
#[derive(Debug)]
struct Compacted {
    manifest: ProjectionManifest,
    segments_compacted: usize,
    chunks_rewritten: usize,
}

const NOW: i64 = 1_700_000_000_000_000;

impl Directory {
    fn new(name: &str) -> Self {
        Self {
            root: format!("/artifacts/{name}"),
            files: BTreeMap::new(),
            manifests: BTreeMap::new(),
            active: ActiveIngestRoots::new(),
        }
    }

    fn path(&self) -> &str {
        &self.root
    }

    fn store(&self) -> ProjectionManifestStore {
        ProjectionManifestStore::new(&self.root)
    }

    fn write(&mut self, name: &str, bytes: &[u8]) -> String {
        self.files.insert(name.to_string(), bytes.to_vec());
        name.to_string()
    }

    fn has(&self, name: &str) -> bool {
        self.files.contains_key(name) || self.manifests.contains_key(name)
    }

    fn names(&self) -> Vec<String> {
        self.files.keys().chain(self.manifests.keys()).cloned().collect()
    }

    fn read(&self, name: &str) -> FileRead {
        self.files.get(name).cloned().ok_or_else(|| "No such file or directory".to_string())
    }

    fn segment_files(&self, manifest: &ProjectionManifest) -> Vec<FileRead> {
        manifest.segments.iter().map(|segment| self.read(&segment.path)).collect()
    }

    fn chunk_files(&self, manifest: &ProjectionManifest) -> Vec<FileRead> {
        manifest.base_chunks.iter().map(|chunk| self.read(&chunk.path)).collect()
    }

    fn present(&self, manifest: &ProjectionManifest) -> Vec<bool> {
        let mut present = vec![self.files.contains_key(&manifest.base_artifact_path)];
        present.extend(manifest.segments.iter().map(|segment| self.files.contains_key(&segment.path)));
        present.extend(manifest.base_chunks.iter().map(|chunk| self.files.contains_key(&chunk.path)));
        present
    }

    fn publish(&mut self, manifest: &ProjectionManifest) -> GraphResult<()> {
        let name = manifest_file_name(manifest.generation_id);
        let present = self.present(manifest);
        self.store().check_publish(manifest, &present, self.manifests.contains_key(&name))?;
        self.manifests.insert(name, Ok(manifest.clone()));
        self.store().confirm_publish(manifest, manifest, &present)
    }

    fn found(&self) -> Option<(u64, GraphResult<ProjectionManifest>)> {
        let names = self.names();
        self.store().latest_manifest_path(&names).map(|(generation_id, position)| {
            let decoded = self.manifests[&names[position]].clone();
            (generation_id, ProjectionManifest::from_decoded(decoded))
        })
    }

    fn load_latest_current(&self) -> GraphResult<Option<ProjectionManifest>> {
        let found = self.found();
        let present = match &found {
            Some((_, Ok(manifest))) => self.present(manifest),
            _ => Vec::new(),
        };
        self.store().load_latest_current(found, &present)
    }

    fn load_latest_current_for_recovery(&self) -> GraphResult<Option<ProjectionManifest>> {
        let found = self.found();
        let present = match &found {
            Some((_, Ok(manifest))) => self.present(manifest)[..manifest.segments.len() + 1].to_vec(),
            _ => Vec::new(),
        };
        self.store().load_latest_current_for_recovery(found, &present)
    }

    fn layered<'a>(
        &self,
        base: &'a EdgeStore,
        manifest: &ProjectionManifest,
    ) -> GraphResult<LayeredNeighbors<'a>> {
        let segments = self.segment_files(manifest);
        let chunks = self.chunk_files(manifest);
        LayeredNeighbors::from_provider(
            base,
            &ManifestSegmentProvider::new(manifest, &segments, &chunks),
        )
    }

    fn write_segment(
        &mut self,
        generation_id: u64,
        segment_id: u32,
        segment: &DeltaSegment,
    ) -> ManifestSegmentRef {
        let name = segment_file_name(generation_id, segment_id);
        let bytes = segment.to_bytes().expect("segment writes");
        self.write(&name, &bytes);
        segment_ref(&name, &bytes, segment)
    }

    fn write_chunks(
        &mut self,
        store: &EdgeStore,
        ranges: &[SourceRange],
        generation_id: u64,
        sync_watermark: i64,
    ) -> GraphResult<Vec<ManifestChunkRef>> {
        let mut refs = Vec::new();
        for (idx, range) in ranges.iter().enumerate() {
            let chunk = build_base_chunk(store, *range, sync_watermark)?;
            let name = chunk_file_name(generation_id, idx as u32);
            let bytes = chunk.to_bytes()?;
            refs.push(chunk_ref(&name, &bytes, *range, &chunk));
            self.write(&name, &bytes);
        }
        Ok(refs)
    }

    fn compact(
        &mut self,
        previous: &ProjectionManifest,
        base: &EdgeStore,
        budgets: CompactionBudgets,
    ) -> GraphResult<Compacted> {
        let segments = self.segment_files(previous);
        let chunks = self.chunk_files(previous);
        let plan = compact::compact_generation(previous, &segments, &chunks, base, budgets, 0)?;
        match plan {
            CompactionPlan::Unchanged => Ok(Compacted {
                manifest: previous.clone(),
                segments_compacted: 0,
                chunks_rewritten: 0,
            }),
            CompactionPlan::Segment(plan) => {
                let segments_compacted = plan.obsolete.len();
                let name = compacted_segment_file_name(plan.generation_id, 0);
                let bytes = plan.segment.to_bytes()?;
                let reference = segment_ref(&name, &bytes, &plan.segment);
                self.write(&name, &bytes);
                let manifest = compaction_manifest(
                    previous,
                    plan.generation_id,
                    plan.retained,
                    reference,
                    plan.obsolete,
                    NOW,
                );
                self.publish(&manifest)?;
                Ok(Compacted {
                    manifest,
                    segments_compacted,
                    chunks_rewritten: 0,
                })
            }
            CompactionPlan::Chunks(plan) => {
                let segments_compacted = plan.obsolete.len();
                let generation_id = previous.generation_id + 1;
                let refs = self.write_chunks(
                    &plan.store,
                    &plan.ranges,
                    generation_id,
                    previous.sync_watermark,
                )?;
                let manifest = rewrite_manifest(
                    previous,
                    generation_id,
                    plan.retained,
                    &plan.ranges,
                    &refs,
                    plan.obsolete,
                    false,
                    NOW,
                );
                self.publish(&manifest)?;
                Ok(Compacted {
                    manifest,
                    segments_compacted,
                    chunks_rewritten: refs.len(),
                })
            }
        }
    }

    fn ingest(
        &mut self,
        ingester: &ProjectionIngester,
        rows: &[ProjectionSyncRow],
        limits: MutationBufferLimits,
    ) -> GraphResult<ProjectionIngestResult> {
        let root = self.root.clone();
        self.active.try_enter(&root)?;
        let result = self.ingest_locked(ingester, rows, limits);
        self.active.leave(&root);
        result
    }

    fn ingest_locked(
        &mut self,
        ingester: &ProjectionIngester,
        rows: &[ProjectionSyncRow],
        limits: MutationBufferLimits,
    ) -> GraphResult<ProjectionIngestResult> {
        let previous = self.load_latest_current()?;
        let plan = match ingester.ingest_committed_rows_locked(previous.as_ref(), rows, limits)? {
            Some(plan) => plan,
            None => {
                return Ok(ProjectionIngestResult {
                    manifest: None,
                    rows_ingested: 0,
                    segments_published: 0,
                })
            }
        };
        let mut refs = Vec::new();
        for (idx, segment) in plan.segments.iter().enumerate() {
            let name = segment_file_name(plan.generation_id, idx as u32);
            let bytes = segment.to_bytes()?;
            ingester.write_segment(segment, &DeltaSegment::from_bytes(&bytes)?)?;
            refs.push(segment_ref(&name, &bytes, segment));
            self.write(&name, &bytes);
        }
        let written: Vec<String> = refs.iter().map(|segment| segment.path.clone()).collect();
        let manifest = ingester.ingestion_manifest(
            previous.as_ref(),
            plan.generation_id,
            plan.sync_watermark,
            refs,
            NOW,
        );
        if let Err(error) = self.publish(&manifest) {
            for name in written {
                self.files.remove(&name);
            }
            return Err(error);
        }
        Ok(ingester.published(manifest, plan.rows_ingested))
    }

    fn collect_garbage(
        &mut self,
        config: ProjectionGcConfig,
        active: Vec<u64>,
    ) -> GraphResult<ProjectionGcSummary> {
        let files: Vec<ManifestFile> = self
            .names()
            .into_iter()
            .map(|name| {
                let manifest = self.manifests.get(&name).cloned().and_then(Result::ok);
                ManifestFile { name, manifest }
            })
            .collect();
        let manifests = load_valid_manifests(&files);
        let plan = gc::collect_projection_garbage_with_active_generation_ids(
            &self.root,
            &manifests,
            config,
            &active,
        )?;
        let mut outcomes = Vec::new();
        for (path, protected) in plan.candidates.iter().zip(plan.protected.iter()) {
            let name = path.strip_prefix(&format!("{}/", self.root)).expect("inside the root");
            outcomes.push(if *protected {
                CandidateOutcome::Protected
            } else {
                match self.files.remove(name) {
                    Some(bytes) => CandidateOutcome::Deleted(bytes.len() as u64),
                    None => CandidateOutcome::Missing,
                }
            });
        }
        Ok(summarize(plan, &outcomes))
    }

    fn plan_recovery(&self, artifact: Option<&LoadedArtifact>) -> ProjectionRecoveryPlan {
        let loaded = self.load_latest_current_for_recovery();
        let (segments, chunks) = match &loaded {
            Ok(Some(manifest)) => (self.segment_files(manifest), self.chunk_files(manifest)),
            _ => (Vec::new(), Vec::new()),
        };
        let latest = latest_manifest_generation(&self.names());
        let loaded = match &loaded {
            Ok(manifest) => Ok(manifest.as_ref()),
            Err(error) => Err(error.clone()),
        };
        match artifact {
            Some(artifact) => recovery::plan_projection_recovery_for_artifact(
                latest,
                loaded,
                Some(artifact),
                &segments,
                &chunks,
            ),
            None => recovery::plan_projection_recovery(latest, loaded, &segments, &chunks),
        }
    }

    fn validate_active(&self) -> GraphResult<Option<ProjectionManifest>> {
        let loaded = self.load_latest_current();
        let (segments, chunks) = match &loaded {
            Ok(Some(manifest)) => (self.segment_files(manifest), self.chunk_files(manifest)),
            _ => (Vec::new(), Vec::new()),
        };
        recovery::validate_active_projection(loaded, &segments, &chunks)
    }

    fn repair_chunks(&mut self, source: &EdgeStore) -> GraphResult<Option<ProjectionManifest>> {
        let manifest = match self.load_latest_current_for_recovery()? {
            Some(manifest) => manifest,
            None => return Ok(None),
        };
        let files = self.chunk_files(&manifest);
        let ranges = match recovery::repair_active_base_chunks(Ok(Some(&manifest)), &files)? {
            Some(ranges) => ranges,
            None => return Ok(None),
        };
        let generation_id = manifest.generation_id + 1;
        let refs =
            self.write_chunks(source, &ranges, generation_id, manifest.sync_watermark)?;
        let repaired = rewrite_manifest(
            &manifest,
            generation_id,
            manifest.segments.clone(),
            &ranges,
            &refs,
            Vec::new(),
            true,
            NOW,
        );
        self.publish(&repaired)?;
        Ok(Some(repaired))
    }

    fn lengths(&self, paths: Vec<&String>) -> Vec<Option<u64>> {
        paths
            .into_iter()
            .map(|path| self.files.get(path).map(|bytes| bytes.len() as u64))
            .collect()
    }

    fn status(
        &self,
        max_sync_log_id: i64,
        active: i32,
        threshold: usize,
        operations: ProjectionOperationStatus,
    ) -> GraphResult<ProjectionStatus> {
        let plan = self.plan_recovery(None);
        let loaded = self.load_latest_current_for_recovery();
        match &loaded {
            Ok(Some(manifest)) => collect_projection_status(
                &self.root,
                &plan,
                Ok(Some(manifest)),
                max_sync_log_id,
                active,
                threshold,
                operations,
                &self.lengths(manifest.segments.iter().map(|segment| &segment.path).collect()),
                &self.lengths(manifest.base_chunks.iter().map(|chunk| &chunk.path).collect()),
                &self.segment_files(manifest),
            ),
            Ok(None) => collect_projection_status(
                &self.root,
                &plan,
                Ok(None),
                max_sync_log_id,
                active,
                threshold,
                operations,
                &Vec::new(),
                &Vec::new(),
                &Vec::new(),
            ),
            Err(error) => collect_projection_status(
                &self.root,
                &plan,
                Err(error.clone()),
                max_sync_log_id,
                active,
                threshold,
                operations,
                &Vec::new(),
                &Vec::new(),
                &Vec::new(),
            ),
        }
    }
}

fn edge_store_from_tuples(node_count: u32, edges: &[(u32, u32, u8)]) -> EdgeStore {
    EdgeStore::from_edges(
        node_count,
        edges
            .iter()
            .map(|&(source, target, type_id)| RawEdge {
                source,
                target,
                type_id,
                weight: None,
                schema_reversed: false,
            })
            .collect(),
        false,
    )
}

fn weighted_edge_store_from_tuples(node_count: u32, edges: &[(u32, u32, u8, u32)]) -> EdgeStore {
    EdgeStore::from_edges(
        node_count,
        edges
            .iter()
            .map(|&(source, target, type_id, weight)| RawEdge {
                source,
                target,
                type_id,
                weight: Some(weight),
                schema_reversed: false,
            })
            .collect(),
        true,
    )
}

fn collect_neighbors(source: &impl NeighborSource, node_idx: u32) -> Vec<Neighbor> {
    source.neighbors(node_idx).collect()
}

fn assert_full_csr_equivalence(
    node_count: u32,
    expected: &impl NeighborSource,
    actual: &impl NeighborSource,
) {
    for node_idx in 0..node_count {
        assert_eq!(
            collect_neighbors(expected, node_idx),
            collect_neighbors(actual, node_idx),
            "neighbor mismatch at node {node_idx}"
        );
        assert_eq!(
            expected.neighbors_reversed(node_idx).collect(),
            actual.neighbors_reversed(node_idx).collect(),
            "reversed neighbor mismatch at node {node_idx}"
        );
    }
}

#[test]
fn manifest_projection_manifest_roundtrips_base_only_generation() {
    let manifest =
        ProjectionManifest::base_only(1, "base.pggraph", "xxh3:abcd", 2, 42, 1_700_000);

    manifest.validate().expect("manifest encodes");
    let decoded = ProjectionManifest::from_decoded(Ok(manifest.clone())).expect("manifest decodes");

    assert_eq!(decoded, manifest);
    assert!(decoded.segments.is_empty());
    assert_eq!(decoded.validation_status, VALIDATION_STATUS_VALID);
}

#[test]
fn projection_manifest_rejects_unsupported_version() {
    let mut manifest =
        ProjectionManifest::base_only(1, "base.pggraph", "xxh3:abcd", 2, 42, 1_700_000);
    manifest.version = MANIFEST_VERSION + 1;

    let err = manifest
        .validate()
        .expect_err("unsupported version should reject");

    assert!(matches!(err, GraphError::IncompatibleVersion(_)));
}

#[test]
fn projection_manifest_rejects_partial_references() {
    let mut manifest =
        ProjectionManifest::base_only(1, "base.pggraph", "xxh3:abcd", 2, 42, 1_700_000);
    manifest.segments.push(ManifestSegmentRef {
        path: String::new(),
        checksum: "xxh3:segment".to_string(),
        level: 0,
        source_start: 0,
        source_end: 10,
        sync_watermark: 42,
    });

    let err = manifest.validate().expect_err("empty segment path rejects");

    assert!(matches!(err, GraphError::CorruptFile { .. }));
}

#[test]
fn projection_manifest_rejects_blank_references() {
    for path in ["", " ", "\t\n", "\r\n "] {
        let manifest = ProjectionManifest::base_only(1, path, "xxh3:abcd", 2, 42, 1_700_000);
        let err = manifest.validate().expect_err("blank base path rejects");
        assert!(matches!(err, GraphError::CorruptFile { .. }));
    }
    let manifest = ProjectionManifest::base_only(1, " base ", "xxh3:abcd", 2, 42, 1_700_000);
    assert_eq!(manifest.validate(), Ok(()));
}

#[test]
fn projection_generation_heartbeat_expires_stale_backend() {
    let heartbeat = ProjectionGenerationHeartbeat {
        backend_pid: 123,
        database_oid: 456,
        generation_id: 7,
        heartbeat_at_unix_micros: 1_000,
        expires_at_unix_micros: 2_000,
    };

    assert!(!heartbeat.is_expired_at(1_999));
    assert!(heartbeat.is_expired_at(2_000));

    let refreshed = heartbeat
        .refreshed_at(3_000, 250_000)
        .expect("heartbeat refreshes");
    assert_eq!(refreshed.heartbeat_at_unix_micros, 3_000);
    assert_eq!(refreshed.expires_at_unix_micros, 253_000);
}

#[test]
fn projection_manifest_ignores_unreferenced_temp_files() {
    let mut dir = Directory::new("projection_manifest_ignores_unreferenced_temp_files");
    dir.write("base.pggraph", b"base");
    dir.write("projection-generation-99999999999999999999.tmp-orphan", b"partial");
    let manifest = ProjectionManifest::base_only(1, "base.pggraph", "xxh3:base", 2, 0, 1);
    dir.publish(&manifest).expect("manifest publishes");

    let loaded = dir
        .load_latest_current()
        .expect("manifest loads")
        .expect("current manifest exists");

    assert_eq!(loaded.generation_id, 1);
    assert_eq!(loaded, manifest);
}

#[test]
fn projection_manifest_latest_current_generation_wins() {
    let mut dir = Directory::new("projection_manifest_latest_current_generation_wins");
    dir.write("base.pggraph", b"base");
    let first = ProjectionManifest::base_only(1, "base.pggraph", "xxh3:first", 2, 10, 1);
    let second = ProjectionManifest::base_only(2, "base.pggraph", "xxh3:second", 2, 20, 2);
    dir.publish(&first).expect("first manifest publishes");
    dir.publish(&second).expect("second manifest publishes");

    let loaded = dir
        .load_latest_current()
        .expect("manifest loads")
        .expect("current manifest exists");

    assert_eq!(loaded, second);
}

#[test]
fn projection_manifest_publish_failure_keeps_previous_generation_current() {
    let mut dir = Directory::new(
        "projection_manifest_publish_failure_keeps_previous_generation_current",
    );
    dir.write("base.pggraph", b"base");
    let first = ProjectionManifest::base_only(1, "base.pggraph", "xxh3:first", 2, 10, 1);
    let invalid =
        ProjectionManifest::base_only(2, "missing-base.pggraph", "xxh3:second", 2, 20, 2);
    dir.publish(&first).expect("first manifest publishes");

    let err = dir
        .publish(&invalid)
        .expect_err("missing base artifact rejects before publish");
    let loaded = dir
        .load_latest_current()
        .expect("manifest loads")
        .expect("current manifest exists");

    assert!(matches!(err, GraphError::CorruptFile { .. }));
    assert_eq!(loaded, first);
    assert!(!dir.has(&manifest_file_name(2)));
    assert_eq!(
        manifest_temp_file_count(&dir),
        0,
        "failed validation should not leave temp manifests"
    );
}

#[test]
fn projection_manifest_publish_rejects_duplicate_generation() {
    let mut dir =
        Directory::new("projection_manifest_publish_rejects_duplicate_generation");
    dir.write("base.pggraph", b"base");
    let first = ProjectionManifest::base_only(1, "base.pggraph", "xxh3:first", 2, 10, 1);
    let duplicate = ProjectionManifest::base_only(1, "base.pggraph", "xxh3:second", 2, 20, 2);
    dir.publish(&first).expect("first manifest publishes");

    let err = dir
        .publish(&duplicate)
        .expect_err("duplicate generation rejects");
    let loaded = dir
        .load_latest_current()
        .expect("manifest loads")
        .expect("current manifest exists");

    assert!(matches!(err, GraphError::CorruptFile { .. }));
    assert_eq!(loaded, first);
    assert_eq!(manifest_temp_file_count(&dir), 0);
}

#[test]
fn projection_manifest_rejects_references_outside_artifact_root() {
    let mut dir = Directory::new(
        "projection_manifest_rejects_references_outside_artifact_root",
    );
    let mut outside = Directory::new(
        "projection_manifest_rejects_references_outside_artifact_root_outside",
    );
    dir.write("base.pggraph", b"base");
    outside.write("outside.pggraph", b"outside");

    let absolute = ProjectionManifest::base_only(
        1,
        &format!("{}/outside.pggraph", outside.path()),
        "xxh3:absolute",
        2,
        0,
        1,
    );
    let parent = ProjectionManifest::base_only(2, "../outside.pggraph", "xxh3:parent", 2, 0, 2);

    let absolute_err = dir
        .publish(&absolute)
        .expect_err("absolute reference rejects");
    let parent_err = dir
        .publish(&parent)
        .expect_err("parent traversal reference rejects");

    assert!(matches!(absolute_err, GraphError::CorruptFile { .. }));
    assert!(matches!(parent_err, GraphError::CorruptFile { .. }));
    assert!(dir
        .load_latest_current()
        .expect("empty store loads")
        .is_none());
}

#[test]
fn projection_manifest_rejects_missing_referenced_file() {
    let mut dir = Directory::new("projection_manifest_rejects_missing_referenced_file");
    let manifest =
        ProjectionManifest::base_only(1, "missing-base.pggraph", "xxh3:base", 2, 0, 1);
    manifest.validate().expect("manifest encodes");
    dir.manifests.insert(manifest_file_name(1), Ok(manifest));

    let err = dir
        .load_latest_current()
        .expect_err("missing referenced base rejects");

    assert!(matches!(err, GraphError::CorruptFile { .. }));
}

fn manifest_temp_file_count(dir: &Directory) -> usize {
    dir.names().iter().filter(|name| name.contains(".tmp-")).count()
}

#[test]
fn compaction_l0_to_l1_preserves_layered_neighbors() {
    let (mut dir, base, manifest) = fixture_manifest(
        "compaction_l0_to_l1_preserves_layered_neighbors",
        vec![
            segment(1, 0, 0, &[(0, 2, 1)], &[]),
            segment(2, 0, 0, &[(1, 3, 1)], &[]),
        ],
    );

    let result =
        dir.compact(&manifest, &base, CompactionBudgets::generous())
            .expect("compaction publishes");
    let expected = dir.layered(&base, &manifest).expect("old loads");
    let actual = dir.layered(&base, &result.manifest).expect("new loads");

    assert_eq!(result.segments_compacted, 2);
    assert_eq!(result.manifest.segments[0].level, 1);
    assert_full_csr_equivalence(base.node_count(), &expected, &actual);
}

#[test]
fn compaction_l1_to_l2_preserves_layered_neighbors() {
    let (mut dir, base, manifest) = fixture_manifest(
        "compaction_l1_to_l2_preserves_layered_neighbors",
        vec![
            segment(1, 1, 0, &[(0, 2, 1)], &[]),
            segment(2, 1, 0, &[(2, 3, 1)], &[]),
        ],
    );

    let result =
        dir.compact(&manifest, &base, CompactionBudgets::generous())
            .expect("compaction publishes");

    assert_eq!(result.manifest.segments[0].level, 2);
    assert_compacted_matches_previous(&dir, &base, &manifest, &result.manifest);
}

#[test]
fn compaction_preserves_tombstone_precedence() {
    let (mut dir, base, manifest) = fixture_manifest(
        "compaction_preserves_tombstone_precedence",
        vec![
            segment(1, 0, 0, &[(0, 2, 1)], &[]),
            segment(2, 0, 0, &[], &[(0, 1, 1), (0, 2, 1)]),
        ],
    );

    let result =
        dir.compact(&manifest, &base, CompactionBudgets::generous())
            .expect("compaction publishes");
    let expected_store = edge_store_from_tuples(4, &[(1, 2, 1), (2, 3, 1)]);
    let expected = CsrNeighbors::new(&expected_store);
    let actual = dir.layered(&base, &result.manifest).expect("compacted loads");

    assert_full_csr_equivalence(4, &expected, &actual);
}

#[test]
fn compaction_preserves_non_edge_segments() {
    let mut node_segment =
        DeltaSegment::new(SegmentKind::Node, 0, TraversalDirection::Any, 0, 4, 3)
            .expect("node segment");
    node_segment.node_states.push(SegmentNodeState {
        node_idx: 2,
        active: false,
    });
    let (mut dir, base, manifest) = fixture_manifest(
        "compaction_preserves_non_edge_segments",
        vec![segment(1, 0, 0, &[(0, 2, 1)], &[]), node_segment],
    );

    let result =
        dir.compact(&manifest, &base, CompactionBudgets::generous())
            .expect("compaction publishes");
    let actual = dir.layered(&base, &result.manifest).expect("compacted loads");

    assert_eq!(result.manifest.segments.len(), 2);
    assert!(actual.neighbors(2).collect().is_empty());
}

#[test]
fn compaction_preserves_weighted_edge_state() {
    let mut dir = Directory::new("compaction_preserves_weighted_edge_state");
    dir.write("base.pggraph", b"base");
    let base = weighted_edge_store_from_tuples(4, &[(0, 1, 1, 7)]);
    let mut weighted = segment(1, 0, 0, &[(0, 1, 1), (0, 2, 1)], &[]);
    weighted.edge_weights.push(SegmentEdgeWeight {
        source: 0,
        target: 1,
        type_id: 1,
        weight: 11,
        schema_reversed: false,
    });
    weighted.edge_weights.push(SegmentEdgeWeight {
        source: 0,
        target: 2,
        type_id: 1,
        weight: 13,
        schema_reversed: false,
    });
    let mut manifest = ProjectionManifest::base_only(1, "base.pggraph", "crc32:base", 1, 10, 1);
    manifest.segments.push(dir.write_segment(1, 0, &weighted));
    dir
        .publish(&manifest)
        .expect("manifest publishes");

    let result =
        dir.compact(&manifest, &base, CompactionBudgets::generous())
            .expect("compaction publishes");
    let actual = dir.layered(&base, &result.manifest).expect("compacted loads");

    assert_eq!(
        actual.weighted_neighbors(0),
        vec![
            WeightedNeighbor {
                target: 1,
                type_id: 1,
                weight: 11,
                schema_reversed: false,
            },
            WeightedNeighbor {
                target: 2,
                type_id: 1,
                weight: 13,
                schema_reversed: false,
            },
        ]
    );
}

#[test]
fn compaction_preserves_weighted_schema_reversed_parallel_edges() {
    let mut dir = Directory::new(
        "compaction_preserves_weighted_schema_reversed_parallel_edges",
    );
    dir.write("base.pggraph", b"base");
    let base = weighted_edge_store_from_tuples(4, &[(2, 3, 1, 5)]);
    let mut weighted =
        DeltaSegment::new(SegmentKind::Edge, 0, TraversalDirection::Out, 0, 1, 1)
            .expect("edge segment");
    weighted.edge_inserts.push(SegmentEdge {
        source: 0,
        target: 1,
        type_id: 1,
        schema_reversed: false,
    });
    weighted.edge_inserts.push(SegmentEdge {
        source: 0,
        target: 1,
        type_id: 1,
        schema_reversed: true,
    });
    weighted.edge_weights.push(SegmentEdgeWeight {
        source: 0,
        target: 1,
        type_id: 1,
        schema_reversed: false,
        weight: 11,
    });
    weighted.edge_weights.push(SegmentEdgeWeight {
        source: 0,
        target: 1,
        type_id: 1,
        schema_reversed: true,
        weight: 13,
    });
    let mut manifest = ProjectionManifest::base_only(1, "base.pggraph", "crc32:base", 1, 10, 1);
    manifest.segments.push(dir.write_segment(1, 0, &weighted));
    dir
        .publish(&manifest)
        .expect("manifest publishes");

    let result =
        dir.compact(&manifest, &base, CompactionBudgets::generous())
            .expect("compaction publishes");
    let actual = dir.layered(&base, &result.manifest).expect("compacted loads");

    assert_eq!(
        actual.weighted_neighbors(0),
        vec![
            WeightedNeighbor {
                target: 1,
                type_id: 1,
                weight: 11,
                schema_reversed: false,
            },
            WeightedNeighbor {
                target: 1,
                type_id: 1,
                weight: 13,
                schema_reversed: true,
            },
        ]
    );
}

#[test]
fn compaction_dirty_chunk_rewrite_reduces_segment_pressure() {
    let (mut dir, base, manifest) = fixture_manifest(
        "compaction_dirty_chunk_rewrite_reduces_segment_pressure",
        vec![
            segment(1, 0, 0, &[(0, 2, 1)], &[]),
            segment(2, 0, 1, &[(1, 3, 1)], &[]),
        ],
    );
    let budgets = CompactionBudgets {
        dirty_chunk_segment_threshold: Some(2),
        ..CompactionBudgets::generous()
    };

    let result = dir.compact(&manifest, &base, budgets)
        .expect("chunk rewrite publishes");

    assert_eq!(result.chunks_rewritten, 2);
    assert!(result.manifest.segments.is_empty());
    assert_eq!(result.manifest.base_chunks.len(), 2);
    assert_compacted_matches_previous(&dir, &base, &manifest, &result.manifest);
}

#[test]
fn compaction_dirty_chunk_rewrite_merges_overlapping_ranges() {
    let (mut dir, base, manifest) = fixture_manifest(
        "compaction_dirty_chunk_rewrite_merges_overlapping_ranges",
        vec![
            segment(1, 0, 0, &[(1, 3, 1)], &[]),
            segment(2, 0, 1, &[(2, 0, 1)], &[]),
        ],
    );
    let budgets = CompactionBudgets {
        dirty_chunk_segment_threshold: Some(2),
        ..CompactionBudgets::generous()
    };

    let result = dir.compact(&manifest, &base, budgets)
        .expect("chunk rewrite publishes");

    assert_eq!(result.chunks_rewritten, 1);
    assert_compacted_matches_previous(&dir, &base, &manifest, &result.manifest);
}

#[test]
fn compaction_dirty_chunk_rewrite_preserves_weights_and_non_edge_segments() {
    let mut dir = Directory::new(
        "compaction_dirty_chunk_rewrite_preserves_weights_and_non_edge_segments",
    );
    dir.write("base.pggraph", b"base");
    let base = weighted_edge_store_from_tuples(4, &[(0, 1, 1, 7), (2, 3, 1, 5)]);
    let mut edge_segment = segment(1, 0, 0, &[(0, 1, 1), (0, 3, 1)], &[]);
    edge_segment.edge_weights.push(SegmentEdgeWeight {
        source: 0,
        target: 1,
        type_id: 1,
        weight: 11,
        schema_reversed: false,
    });
    edge_segment.edge_weights.push(SegmentEdgeWeight {
        source: 0,
        target: 3,
        type_id: 1,
        weight: 13,
        schema_reversed: false,
    });
    let mut node_segment =
        DeltaSegment::new(SegmentKind::Node, 0, TraversalDirection::Any, 0, 4, 2)
            .expect("node segment");
    node_segment.node_states.push(SegmentNodeState {
        node_idx: 2,
        active: false,
    });
    let mut manifest = ProjectionManifest::base_only(1, "base.pggraph", "crc32:base", 1, 10, 1);
    for (idx, segment) in [edge_segment, node_segment].into_iter().enumerate() {
        manifest.segments.push(dir.write_segment(1, idx as u32, &segment));
    }
    dir
        .publish(&manifest)
        .expect("manifest publishes");
    let budgets = CompactionBudgets {
        dirty_chunk_segment_threshold: Some(1),
        ..CompactionBudgets::generous()
    };

    let result = dir.compact(&manifest, &base, budgets)
        .expect("chunk rewrite publishes");
    let actual = dir.layered(&base, &result.manifest).expect("compacted loads");

    assert_eq!(result.chunks_rewritten, 1);
    assert_eq!(result.manifest.segments.len(), 1);
    assert_eq!(
        actual.weighted_neighbors(0),
        vec![
            WeightedNeighbor {
                target: 1,
                type_id: 1,
                weight: 11,
                schema_reversed: false,
            },
            WeightedNeighbor {
                target: 3,
                type_id: 1,
                weight: 13,
                schema_reversed: false,
            },
        ]
    );
    assert!(actual.neighbors(2).collect().is_empty());
}

#[test]
fn compaction_dirty_chunk_rewrite_preserves_schema_reversed_weights() {
    let mut dir = Directory::new(
        "compaction_dirty_chunk_rewrite_preserves_schema_reversed_weights",
    );
    dir.write("base.pggraph", b"base");
    let base = weighted_edge_store_from_tuples(4, &[(2, 3, 1, 5)]);
    let mut edge_segment =
        DeltaSegment::new(SegmentKind::Edge, 0, TraversalDirection::Out, 0, 1, 1)
            .expect("edge segment");
    edge_segment.edge_inserts.push(SegmentEdge {
        source: 0,
        target: 1,
        type_id: 1,
        schema_reversed: false,
    });
    edge_segment.edge_inserts.push(SegmentEdge {
        source: 0,
        target: 1,
        type_id: 1,
        schema_reversed: true,
    });
    edge_segment.edge_weights.push(SegmentEdgeWeight {
        source: 0,
        target: 1,
        type_id: 1,
        schema_reversed: false,
        weight: 11,
    });
    edge_segment.edge_weights.push(SegmentEdgeWeight {
        source: 0,
        target: 1,
        type_id: 1,
        schema_reversed: true,
        weight: 13,
    });
    let mut manifest = ProjectionManifest::base_only(1, "base.pggraph", "crc32:base", 1, 10, 1);
    manifest.segments.push(dir.write_segment(1, 0, &edge_segment));
    dir
        .publish(&manifest)
        .expect("manifest publishes");
    let budgets = CompactionBudgets {
        dirty_chunk_segment_threshold: Some(1),
        ..CompactionBudgets::generous()
    };

    let result = dir.compact(&manifest, &base, budgets)
        .expect("chunk rewrite publishes");
    let actual = dir.layered(&base, &result.manifest).expect("compacted loads");

    assert_eq!(result.chunks_rewritten, 1);
    assert_eq!(
        actual.weighted_neighbors(0),
        vec![
            WeightedNeighbor {
                target: 1,
                type_id: 1,
                weight: 11,
                schema_reversed: false,
            },
            WeightedNeighbor {
                target: 1,
                type_id: 1,
                weight: 13,
                schema_reversed: true,
            },
        ]
    );
}

#[test]
fn compaction_interruption_keeps_previous_generation_current() {
    let (mut dir, base, manifest) = fixture_manifest(
        "compaction_interruption_keeps_previous_generation_current",
        vec![segment(1, 0, 0, &[(0, 2, 1)], &[])],
    );
    let budgets = CompactionBudgets {
        max_segments: 0,
        ..CompactionBudgets::generous()
    };

    let err = dir.compact(&manifest, &base, budgets)
        .expect_err("budget interruption rejects");
    let current = dir
        .load_latest_current()
        .expect("manifest loads")
        .expect("current exists");

    assert!(matches!(err, GraphError::OverlayLimit { .. }));
    assert_eq!(current.generation_id, manifest.generation_id);
}

fn fixture_manifest(
    test_name: &str,
    segments: Vec<DeltaSegment>,
) -> (Directory, EdgeStore, ProjectionManifest) {
    let mut dir = Directory::new(test_name);
    dir.write("base.pggraph", b"base");
    let base = edge_store_from_tuples(4, &[(0, 1, 1), (1, 2, 1), (2, 3, 1)]);
    let mut manifest = ProjectionManifest::base_only(1, "base.pggraph", "crc32:base", 1, 10, 1);
    for (idx, segment) in segments.into_iter().enumerate() {
        manifest.segments.push(dir.write_segment(1, idx as u32, &segment));
    }
    dir.publish(&manifest).expect("manifest publishes");
    (dir, base, manifest)
}

fn segment(
    watermark: i64,
    level: u8,
    source_start: u32,
    inserts: &[(u32, u32, u8)],
    deletes: &[(u32, u32, u8)],
) -> DeltaSegment {
    let source_end = inserts
        .iter()
        .chain(deletes.iter())
        .map(|(source, _, _)| source + 1)
        .max()
        .unwrap_or(source_start + 1);
    let mut segment = DeltaSegment::new(
        SegmentKind::Edge,
        level,
        TraversalDirection::Out,
        source_start,
        source_end,
        watermark,
    )
    .expect("segment builds");
    segment.edge_inserts.extend(
        inserts
            .iter()
            .map(|&(source, target, type_id)| SegmentEdge {
                source,
                target,
                type_id,
                schema_reversed: false,
            }),
    );
    segment.edge_deletes.extend(
        deletes
            .iter()
            .map(|&(source, target, type_id)| SegmentEdge {
                source,
                target,
                type_id,
                schema_reversed: false,
            }),
    );
    segment
}

fn directed_segment(
    direction: TraversalDirection,
    watermark: i64,
    range: (u32, u32),
    inserts: &[(u32, u32)],
    deletes: &[(u32, u32)],
) -> DeltaSegment {
    let row = |&(source, target): &(u32, u32)| SegmentEdge {
        source,
        target,
        type_id: 1,
        schema_reversed: false,
    };
    let mut segment =
        DeltaSegment::new(SegmentKind::Edge, 0, direction, range.0, range.1, watermark)
            .expect("segment builds");
    segment.edge_inserts.extend(inserts.iter().map(row));
    segment.edge_deletes.extend(deletes.iter().map(row));
    segment
}

fn assert_same_reads(
    dir: &Directory,
    base: &EdgeStore,
    previous: &ProjectionManifest,
    compacted: &ProjectionManifest,
    nodes: u32,
    directions: &[TraversalDirection],
) {
    let old = dir.layered(base, previous).expect("old loads");
    let new = dir.layered(base, compacted).expect("new loads");
    for node in 0..nodes {
        for direction in directions {
            assert_eq!(
                old.merged_neighbors(*direction, node, false),
                new.merged_neighbors(*direction, node, false),
                "{direction:?} reads of node {node}"
            );
        }
    }
}

const ALL_DIRECTIONS: [TraversalDirection; 3] =
    [TraversalDirection::Out, TraversalDirection::In, TraversalDirection::Any];

fn chunk_budgets() -> CompactionBudgets {
    CompactionBudgets {
        dirty_chunk_segment_threshold: Some(1),
        ..CompactionBudgets::generous()
    }
}

#[test]
fn compaction_keeps_edges_of_incoming_segments() {
    for budgets in [CompactionBudgets::generous(), chunk_budgets()] {
        let (mut dir, base, manifest) = fixture_manifest(
            "compaction_keeps_edges_of_incoming_segments",
            vec![directed_segment(TraversalDirection::In, 1, (0, 1), &[(0, 3)], &[])],
        );
        let before = dir.layered(&base, &manifest).expect("old loads");
        assert_eq!(
            collect_neighbors(&before, 3),
            vec![Neighbor { target: 0, type_id: 1, schema_reversed: false }]
        );
        let result = dir.compact(&manifest, &base, budgets).expect("compaction publishes");
        assert_same_reads(&dir, &base, &manifest, &result.manifest, 5, &ALL_DIRECTIONS);
    }
}

#[test]
fn compaction_keeps_deletes_of_chunk_edges() {
    let (mut dir, base, manifest) = fixture_manifest(
        "compaction_keeps_deletes_of_chunk_edges",
        vec![directed_segment(TraversalDirection::Out, 1, (0, 1), &[(0, 3)], &[(0, 1)])],
    );
    let chunked = dir.compact(&manifest, &base, chunk_budgets()).expect("chunk is written");
    let mut later = chunked.manifest.clone();
    later.generation_id = 3;
    later.previous_generation_id = Some(2);
    let delete = directed_segment(TraversalDirection::Out, 2, (0, 1), &[(0, 1)], &[(0, 3)]);
    later.segments.push(dir.write_segment(3, 0, &delete));
    dir.publish(&later).expect("manifest publishes");
    let read = dir.layered(&base, &later).expect("layers load");
    assert_eq!(
        collect_neighbors(&read, 0),
        vec![Neighbor { target: 1, type_id: 1, schema_reversed: false }]
    );
    let compacted =
        dir.compact(&later, &base, CompactionBudgets::generous()).expect("compaction publishes");
    assert_same_reads(&dir, &base, &later, &compacted.manifest, 5, &ALL_DIRECTIONS);
    let rows = DeltaSegment::from_bytes(
        dir.segment_files(&compacted.manifest)[0].as_ref().expect("segment is there"),
    )
    .expect("segment decodes");
    assert_eq!(rows.edge_deletes.len(), 1);
    assert_eq!(rows.edge_inserts.len(), 1);
}

#[test]
fn chunk_rewrite_covers_whole_chunks_and_new_sources() {
    let (mut dir, base, manifest) = fixture_manifest(
        "chunk_rewrite_covers_whole_chunks_and_new_sources",
        vec![directed_segment(TraversalDirection::Out, 1, (0, 3), &[(0, 2), (2, 1)], &[])],
    );
    let first = dir.compact(&manifest, &base, chunk_budgets()).expect("chunk is written");
    let mut later = first.manifest.clone();
    later.generation_id = 3;
    later.previous_generation_id = Some(2);
    let more = directed_segment(TraversalDirection::Out, 2, (1, 2), &[(1, 0)], &[]);
    let beyond = directed_segment(TraversalDirection::Out, 3, (6, 7), &[(6, 0)], &[]);
    later.segments.push(dir.write_segment(3, 0, &more));
    later.segments.push(dir.write_segment(3, 1, &beyond));
    dir.publish(&later).expect("manifest publishes");
    let second = dir.compact(&later, &base, chunk_budgets()).expect("chunks are rewritten");
    assert_eq!(
        second
            .manifest
            .base_chunks
            .iter()
            .map(|chunk| (chunk.source_start, chunk.source_end))
            .collect::<Vec<_>>(),
        vec![(0, 3), (6, 7)]
    );
    let directions = [TraversalDirection::Out, TraversalDirection::In];
    assert_same_reads(&dir, &base, &later, &second.manifest, 8, &directions);
}

#[test]
fn compaction_of_open_ranges_reads_only_named_sources() {
    for budgets in [CompactionBudgets::generous(), chunk_budgets()] {
        let open = directed_segment(
            TraversalDirection::Out,
            1,
            (0, u32::MAX),
            &[(0, 3), (7, 1), (4_000_000_000, 2)],
            &[(1, 2)],
        );
        let (mut dir, base, manifest) =
            fixture_manifest("compaction_of_open_ranges_reads_only_named_sources", vec![open]);
        let result = dir.compact(&manifest, &base, budgets).expect("compaction publishes");
        assert_same_reads(&dir, &base, &manifest, &result.manifest, 9, &ALL_DIRECTIONS);
        let new = dir.layered(&base, &result.manifest).expect("new loads");
        assert_eq!(
            collect_neighbors(&new, 4_000_000_000),
            vec![Neighbor { target: 2, type_id: 1, schema_reversed: false }]
        );
        assert_eq!(named_sources(&new).last(), Some(&4_000_000_000));
    }
}

fn reader<'a>(
    dir: &Directory,
    base: &'a EdgeStore,
    reversed: &'a EdgeStore,
    manifest: &ProjectionManifest,
    tenant: Option<u64>,
    delta: Option<&'a TxGraphDelta>,
) -> LayeredNeighbors<'a> {
    let decode = |files: Vec<FileRead>| -> Vec<DeltaSegment> {
        files
            .into_iter()
            .map(|file| DeltaSegment::from_bytes(&file.expect("file is there")).expect("decodes"))
            .collect()
    };
    let inserts = HashMap::from([(0u32, vec![(2u32, 9u8)])]);
    let deletes = HashMap::from([(2u32, vec![(3u32, 1u8)])]);
    LayeredNeighbors::new_with_base_chunks(
        base,
        Some(reversed),
        decode(dir.chunk_files(manifest)),
        decode(dir.segment_files(manifest)),
        tenant,
        Some((inserts, deletes)),
        None,
    )
    .with_transaction(delta)
}

#[test]
fn compaction_keeps_what_readers_read() {
    let mut members = DeltaSegment::new(SegmentKind::Node, 0, TraversalDirection::Any, 0, 6, 3)
        .expect("node segment");
    for node_idx in [0, 1, 3] {
        members.tenants.push(SegmentTenant { node_idx, tenant_hash: 7, tombstone: false });
    }
    let edges = directed_segment(TraversalDirection::Out, 1, (0, 3), &[(0, 2), (0, 3)], &[(1, 2)]);
    let reversed = edge_store_from_tuples(4, &[(1, 0, 1), (2, 1, 1), (3, 2, 1)]);
    let mut state = TxState::new(default_limits());
    record_added_edge(&mut state, 1, DeltaEdge { target: 3, type_id: 4, weight: None })
        .expect("edge is recorded");
    for budgets in [CompactionBudgets::generous(), chunk_budgets()] {
        let (mut dir, base, manifest) = fixture_manifest(
            "compaction_keeps_what_readers_read",
            vec![edges.clone(), members.clone()],
        );
        let result = dir.compact(&manifest, &base, budgets).expect("compaction publishes");
        for tenant in [None, Some(7), Some(8)] {
            let old = reader(&dir, &base, &reversed, &manifest, tenant, state.delta.as_ref());
            let new = reader(&dir, &base, &reversed, &result.manifest, tenant, state.delta.as_ref());
            for node in 0..5 {
                for direction in ALL_DIRECTIONS {
                    assert_eq!(
                        old.merged_neighbors(direction, node, false),
                        new.merged_neighbors(direction, node, false),
                        "{direction:?} reads of node {node} for {tenant:?}"
                    );
                }
            }
        }
        let limited = reader(&dir, &base, &reversed, &result.manifest, Some(7), state.delta.as_ref());
        let targets = |node: u32| -> Vec<u32> {
            collect_neighbors(&limited, node).iter().map(|neighbor| neighbor.target).collect()
        };
        assert_eq!(targets(0), vec![1, 3]);
        assert_eq!(targets(1), vec![3]);
    }
}

#[test]
fn generations_keep_segment_files_of_their_own() {
    let mut dir = seeded_artifacts("generations_keep_segment_files_of_their_own");
    let base = edge_store_from_tuples(4, &[(0, 1, 2), (1, 2, 2)]);
    let publisher = ingester(&dir);
    let incoming = ProjectionSyncRow {
        direction: TraversalDirection::In,
        ..edge_row(2, 3, 1, None, MutationOperation::InsertEdge)
    };
    let node = ProjectionSyncRow {
        node_idx: Some(3),
        table_oid: Some(10),
        pk_hash: Some(7),
        ..edge_row(3, 0, 0, None, MutationOperation::DeleteNode)
    };
    let rows = vec![edge_row(1, 0, 2, None, MutationOperation::InsertEdge), incoming, node];
    let ingested = dir
        .ingest(&publisher, &rows, MutationBufferLimits::new(10, 10_000))
        .expect("ingestion publishes")
        .manifest
        .expect("manifest published");
    assert!(ingested.base_chunks.is_empty());

    let mut generations = vec![ingested];
    for _ in 0..2 {
        let previous = generations.last().unwrap();
        let result = dir
            .compact(previous, &base, CompactionBudgets::generous())
            .expect("compaction publishes");
        assert_eq!(result.manifest.generation_id, previous.generation_id + 1);
        assert_eq!(result.manifest.sync_watermark, previous.sync_watermark);
        assert_compacted_matches_previous(&dir, &base, previous, &result.manifest);
        generations.push(result.manifest);
    }
    for manifest in &generations {
        for (i, segment) in manifest.segments.iter().enumerate() {
            let loaded = load_segment(&dir, &segment.path);
            assert_eq!(segment.level, loaded.header.level);
            assert!(segment.level <= 2);
            assert!(manifest.segments[..i].iter().all(|other| other.path != segment.path));
        }
        let nodes = manifest
            .segments
            .iter()
            .filter(|segment| load_segment(&dir, &segment.path).header.kind == SegmentKind::Node)
            .count();
        assert_eq!(nodes, 1);
    }
    assert_eq!(generations[2].segments.last().unwrap().level, 2);
}

#[test]
fn generations_without_edge_segments_are_left_unchanged() {
    let mut node_segment =
        DeltaSegment::new(SegmentKind::Node, 0, TraversalDirection::Any, 0, 4, 3)
            .expect("node segment");
    node_segment.node_states.push(SegmentNodeState {
        node_idx: 2,
        active: false,
    });
    let (mut dir, base, manifest) = fixture_manifest(
        "generations_without_edge_segments_are_left_unchanged",
        vec![node_segment],
    );
    let result = dir
        .compact(&manifest, &base, CompactionBudgets::generous())
        .expect("compaction succeeds");
    assert_eq!(result.segments_compacted, 0);
    assert_eq!(result.manifest, manifest);
}

fn assert_compacted_matches_previous(
    dir: &Directory,
    base: &EdgeStore,
    previous: &ProjectionManifest,
    compacted: &ProjectionManifest,
) {
    let old = dir.layered(base, previous).expect("old loads");
    let new = dir.layered(base, compacted).expect("new loads");
    assert_full_csr_equivalence(base.node_count(), &old, &new);
}

#[test]
fn projection_gc_refuses_referenced_files() {
    let mut dir = Directory::new("projection_gc_refuses_referenced_files");
    let old_segment = dir.write("old.pggraph-delta", b"old");
    let new_segment = dir.write("new.pggraph-delta", b"new");
    let old = manifest_with_segment(1, &old_segment, Vec::new());
    let new = manifest_with_segment(2,
        &new_segment,
        vec![obsolete_ref(&dir, &old_segment)],
    );
    publish(&mut dir, old);
    publish(&mut dir, new);

    let summary = dir.collect_garbage(
        ProjectionGcConfig {
            retained_generation_floor: 2,
        },
        Vec::new(),
    )
    .expect("gc runs");

    assert!(dir.has(&old_segment));
    assert_eq!(summary.deleted_files, 0);
    assert_eq!(summary.protected_candidates, 1);
    assert_eq!(summary.retained_generations, vec![1, 2]);
}

#[test]
fn projection_gc_refuses_active_generation_files() {
    let mut dir = Directory::new("projection_gc_refuses_active_generation_files");
    let old_segment = dir.write("old-active.pggraph-delta", b"old");
    let middle_segment = dir.write("middle.pggraph-delta", b"middle");
    let current_segment = dir.write("current.pggraph-delta", b"current");
    let manifest = manifest_with_segment(1, &old_segment, Vec::new());
    publish(&mut dir, manifest);
    let manifest = manifest_with_segment(2,
            &middle_segment,
            vec![obsolete_ref(&dir, &old_segment)],
        );
    publish(&mut dir, manifest);
    let manifest = manifest_with_segment(3,
            &current_segment,
            vec![obsolete_ref(&dir, &middle_segment)],
        );
    publish(&mut dir, manifest);

    let summary = dir.collect_garbage(
        ProjectionGcConfig {
            retained_generation_floor: 1,
        },
        vec![1],
    )
    .expect("gc runs");

    assert!(dir.has(&old_segment));
    assert!(!dir.has(&middle_segment));
    assert!(dir.has(&current_segment));
    assert_eq!(summary.active_generations, vec![1]);
    assert_eq!(summary.deleted_files, 1);
    assert_eq!(summary.protected_candidates, 1);
}

#[test]
fn projection_gc_removes_obsolete_unreferenced_segments_after_retention() {
    let mut dir = Directory::new(
        "projection_gc_removes_obsolete_unreferenced_segments_after_retention",
    );
    let old_segment = dir.write("old-obsolete.pggraph-delta", b"obsolete");
    let current_segment = dir.write("current-retained.pggraph-delta", b"now");
    let manifest = manifest_with_segment(1, &old_segment, Vec::new());
    publish(&mut dir, manifest);
    let manifest = manifest_with_segment(2,
            &current_segment,
            vec![obsolete_ref(&dir, &old_segment)],
        );
    publish(&mut dir, manifest);

    let summary = dir.collect_garbage(
        ProjectionGcConfig {
            retained_generation_floor: 1,
        },
        Vec::new(),
    )
    .expect("gc runs");

    assert!(!dir.has(&old_segment));
    assert!(dir.has(&current_segment));
    assert_eq!(summary.deleted_files, 1);
    assert_eq!(summary.deleted_bytes, b"obsolete".len() as u64);
    assert_eq!(summary.retained_generations, vec![2]);

    let second = dir.collect_garbage(
        ProjectionGcConfig {
            retained_generation_floor: 1,
        },
        Vec::new(),
    )
    .expect("gc is idempotent");
    assert_eq!(second.deleted_files, 0);
}

#[test]
fn projection_gc_crash_does_not_invalidate_current_generation() {
    let mut dir = Directory::new(
        "projection_gc_crash_does_not_invalidate_current_generation",
    );
    let old_segment = dir.write("old-crash.pggraph-delta", b"old");
    let current_segment =
        dir.write("current-crash.pggraph-delta", b"current");
    let manifest = manifest_with_segment(1, &old_segment, Vec::new());
    publish(&mut dir, manifest);
    let manifest = manifest_with_segment(2,
            &current_segment,
            vec![obsolete_ref(&dir, &old_segment)],
        );
    publish(&mut dir, manifest);

    let summary = dir.collect_garbage(
        ProjectionGcConfig {
            retained_generation_floor: 1,
        },
        Vec::new(),
    )
    .expect("gc runs");
    let current = dir
        .load_latest_current()
        .expect("current loads")
        .expect("current exists");

    assert_eq!(summary.deleted_files, 1);
    assert_eq!(current.generation_id, 2);
    assert!(dir.has(&current_segment));
    assert!(!dir.has(&old_segment));
}

#[test]
fn projection_gc_refuses_unmatched_active_generation_files() {
    let mut dir = Directory::new("projection_gc_refuses_unmatched_active_generation_files");
    let old_segment = dir.write("old-unmatched.pggraph-delta", b"old");
    let current_segment = dir.write("current-unmatched.pggraph-delta", b"current");
    let manifest = manifest_with_segment(1, &old_segment, Vec::new());
    publish(&mut dir, manifest);
    let manifest = manifest_with_segment(2,
            &current_segment,
            vec![obsolete_ref(&dir, &old_segment)],
        );
    publish(&mut dir, manifest);
    dir.manifests.remove(&manifest_file_name(1)).expect("old manifest is removed");

    let err = dir.collect_garbage(
        ProjectionGcConfig {
            retained_generation_floor: 1,
        },
        vec![1],
    )
    .expect_err("unmatched active generation refuses GC");

    assert!(matches!(err, GraphError::Internal(_)));
    assert!(dir.has(&old_segment));
    assert!(dir.has(&current_segment));
}

#[test]
fn gc_candidates_stand_in_path_order() {
    let names = ["b.old", "c", "b/x", "a", "b/./x", "b", "\u{e9}", "b/x/y"];
    let mut manifest = ProjectionManifest::base_only(1, "base.pggraph", "crc32:base", 1, 1, 1);
    manifest.obsolete_files = names
        .iter()
        .map(|name| ManifestFileRef { path: name.to_string(), bytes: 0 })
        .collect();
    let plan = gc::collect_projection_garbage_with_active_generation_ids(
        "/artifacts",
        &vec![manifest],
        ProjectionGcConfig { retained_generation_floor: 1 },
        &Vec::new(),
    )
    .expect("gc is planned");
    let mut ordered: BTreeSet<PathBuf> = BTreeSet::new();
    for name in names {
        ordered.insert(Path::new("/artifacts").join(name));
    }
    let expected: Vec<String> =
        ordered.iter().map(|path| path.to_str().expect("text").to_string()).collect();
    assert_eq!(plan.candidates, expected);
    assert_eq!(
        plan.candidates,
        ["a", "b", "b/x", "b/x/y", "b.old", "c", "\u{e9}"].map(|name| format!("/artifacts/{name}"))
    );
}

#[test]
fn paths_stand_in_the_order_of_their_components() {
    let texts = [
        "", "/", ".", "..", "./a", "a", "a/b", "a.b", "/a", "/a/../b", "a//b", "../a", "/./a", "a/..",
        "\u{10000}", "\u{ffff}",
    ];
    for left in texts {
        for right in texts {
            let (a, b) = (path_key(left), path_key(right));
            assert_eq!(
                key_precedes(&a, &b),
                Path::new(left) < Path::new(right),
                "{left:?} before {right:?}"
            );
            assert_eq!(same_key(&a, &b), Path::new(left) == Path::new(right));
        }
    }
}

fn manifest_with_segment(
    generation_id: u64,
    segment_path: &str,
    obsolete_files: Vec<ManifestFileRef>,
) -> ProjectionManifest {
    let mut manifest = ProjectionManifest::base_only(
        generation_id,
        "base.pggraph",
        "crc32:base",
        1,
        generation_id as i64,
        generation_id as i64,
    );
    manifest.previous_generation_id = generation_id.checked_sub(1);
    manifest.segments.push(ManifestSegmentRef {
        path: segment_path.to_string(),
        checksum: format!("crc32:segment-{generation_id}"),
        level: 0,
        source_start: 0,
        source_end: 1,
        sync_watermark: generation_id as i64,
    });
    manifest.obsolete_files = obsolete_files;
    manifest
}

fn publish(dir: &mut Directory, manifest: ProjectionManifest) {
    dir.write("base.pggraph", b"base");
    dir.publish(&manifest).expect("manifest publishes");
}

fn obsolete_ref(dir: &Directory, path: &str) -> ManifestFileRef {
    ManifestFileRef {
        path: path.to_string(),
        bytes: dir.files[path].len() as u64,
    }
}

#[test]
fn ingest_projection_ingest_committed_edge_insert_publishes_l0_manifest() {
    let mut dir = seeded_artifacts("projection_ingest_committed_edge_insert");
    let publisher = ingester(&dir);
    let rows = vec![edge_row(1, 0, 1, None, MutationOperation::InsertEdge)];

    let result = dir.ingest(&publisher, &rows, MutationBufferLimits::new(10, 10_000))
        .expect("ingestion publishes");
    let manifest = result.manifest.expect("manifest published");
    let segment = load_segment(&dir, &manifest.segments[0].path);

    assert_eq!(manifest.sync_watermark, 1);
    assert_eq!(manifest.segments.len(), 1);
    assert_eq!(segment.header.level, 0);
    assert_eq!(segment.edge_inserts[0].source, 0);
    assert_eq!(segment.edge_inserts[0].target, 1);
}

#[test]
fn projection_ingest_publishes_weight_node_resolution_filter_tenant_deltas() {
    let mut dir = seeded_artifacts("projection_ingest_publishes_all_surfaces");
    let publisher = ingester(&dir);
    let rows = vec![
        edge_row(1, 0, 1, Some(7), MutationOperation::InsertEdge),
        ProjectionSyncRow {
            sync_id: 2,
            generation_id: 1,
            committed: true,
            operation: MutationOperation::UpsertNode,
            direction: TraversalDirection::Any,
            source: 2,
            target: 2,
            type_id: 0,
            weight: None,
            table_oid: Some(100),
            pk_hash: Some(7000),
            node_idx: Some(2),
            filter_column_id: Some(3),
            filter_value: Some(88),
            tenant_hash: Some(8001),
            schema_reversed: false,
        },
        ProjectionSyncRow {
            sync_id: 3,
            generation_id: 1,
            committed: true,
            operation: MutationOperation::DeleteNode,
            direction: TraversalDirection::Any,
            source: 2,
            target: 2,
            type_id: 0,
            weight: None,
            table_oid: Some(100),
            pk_hash: Some(7000),
            node_idx: Some(2),
            filter_column_id: Some(3),
            filter_value: Some(88),
            tenant_hash: Some(8001),
            schema_reversed: false,
        },
        ProjectionSyncRow {
            sync_id: 4,
            generation_id: 1,
            committed: true,
            operation: MutationOperation::UpsertNode,
            direction: TraversalDirection::Any,
            source: 4,
            target: 4,
            type_id: 0,
            weight: None,
            table_oid: Some(100),
            pk_hash: Some(7001),
            node_idx: Some(4),
            filter_column_id: Some(3),
            filter_value: Some(99),
            tenant_hash: Some(8002),
            schema_reversed: false,
        },
        ProjectionSyncRow {
            sync_id: 5,
            generation_id: 1,
            committed: true,
            operation: MutationOperation::UpsertNode,
            direction: TraversalDirection::Any,
            source: 4,
            target: 4,
            type_id: 0,
            weight: None,
            table_oid: Some(101),
            pk_hash: Some(7002),
            node_idx: Some(4),
            filter_column_id: Some(4),
            filter_value: Some(100),
            tenant_hash: Some(8003),
            schema_reversed: false,
        },
    ];

    let result = dir.ingest(&publisher, &rows, MutationBufferLimits::new(10, 10_000))
        .expect("ingestion publishes");
    let manifest = result.manifest.expect("manifest published");

    assert_eq!(manifest.segments.len(), 2);
    let edge = load_segment(&dir, &manifest.segments[0].path);
    let node = load_segment(&dir, &manifest.segments[1].path);
    assert_eq!(edge.edge_weights[0].weight, 7);
    assert_eq!(edge.header.direction, TraversalDirection::Out);
    assert_eq!(node.node_states[0].node_idx, 4);
    assert_eq!(node.resolutions[0].pk_hash, 7001);
    assert_eq!(node.filters[0].value, 99);
    assert_eq!(node.tenants[0].tenant_hash, 8002);
    assert_eq!(node.node_states.len(), 1);
    assert_eq!(node.resolutions.len(), 2);
    assert_eq!(node.filters.len(), 2);
    assert_eq!(node.tenants.len(), 2);
}

#[test]
fn projection_manifest_watermark_advances_only_after_publish() {
    let mut dir = seeded_artifacts("projection_watermark_after_publish");
    let publisher = ingester(&dir);
    let bad_rows = vec![ProjectionSyncRow {
        operation: MutationOperation::UpsertNode,
        direction: TraversalDirection::Any,
        ..edge_row(1, 0, 1, None, MutationOperation::InsertEdge)
    }];
    let err = dir.ingest(&publisher, &bad_rows, MutationBufferLimits::new(0, 0))
        .expect_err("limit failure prevents publish");

    assert!(matches!(err, GraphError::OverlayLimit { .. }));
    let latest = dir
        .load_latest_current()
        .expect("manifest loads")
        .expect("base manifest remains current");
    assert_eq!(latest.sync_watermark, 0);

    let mut publish_failure_dir = seeded_artifacts("projection_publish_failure_retry");
    let bad_ingester = ProjectionIngester::new(
        publish_failure_dir.path(),
        "missing.pggraph",
        "crc32:00000000",
        1,
    );
    let rows = vec![edge_row(1, 0, 1, None, MutationOperation::InsertEdge)];
    let publish_err = publish_failure_dir.ingest(&bad_ingester, &rows, MutationBufferLimits::new(10, 10_000))
        .expect_err("missing base artifact rejects manifest publish");

    assert!(matches!(publish_err, GraphError::CorruptFile { .. }));
    let retry_ingester = ingester(&publish_failure_dir);
    let retry = publish_failure_dir.ingest(&retry_ingester, &rows, MutationBufferLimits::new(10, 10_000))
        .expect("retry publishes after orphan cleanup");
    assert!(retry.manifest.is_some());
}

#[test]
fn projection_ingest_aborted_gql_write_is_not_published() {
    let mut dir = seeded_artifacts("projection_ingest_aborted");
    let publisher = ingester(&dir);
    let rows = vec![ProjectionSyncRow {
        committed: false,
        ..edge_row(1, 0, 1, None, MutationOperation::InsertEdge)
    }];

    let result = dir.ingest(&publisher, &rows, MutationBufferLimits::new(10, 10_000))
        .expect("aborted row ignored");

    assert!(result.manifest.is_none());
    assert_eq!(result.rows_ingested, 0);
}

#[test]
fn projection_ingest_respects_build_vacuum_compaction_lock() {
    let mut dir = seeded_artifacts("projection_ingest_lock");
    let primary_ingester = ingester(&dir);
    let contending_ingester = ingester(&dir);
    let root = primary_ingester.store.root.clone();
    dir.active.try_enter(&root).expect("lock acquired");

    let err = dir.ingest(&contending_ingester, &[edge_row(1, 0, 1, None, MutationOperation::InsertEdge)],
            MutationBufferLimits::new(10, 10_000),
        )
        .expect_err("held lock rejects ingestion");

    assert!(matches!(err, GraphError::BuildLocked));
}

#[test]
fn projection_ingest_concurrent_publishers_serialize() {
    let mut dir = seeded_artifacts("projection_ingest_serial_generations");
    let publisher = ingester(&dir);

    let first = dir.ingest(&publisher, &[edge_row(1, 0, 1, None, MutationOperation::InsertEdge)],
            MutationBufferLimits::new(10, 10_000),
        )
        .expect("first publish")
        .manifest
        .expect("first manifest");
    let second = dir.ingest(&publisher, &[ProjectionSyncRow {
                direction: TraversalDirection::In,
                ..edge_row(2, 1, 2, None, MutationOperation::InsertEdge)
            }],
            MutationBufferLimits::new(10, 10_000),
        )
        .expect("second publish")
        .manifest
        .expect("second manifest");
    let second_segment = load_segment(&dir, &second.segments[0].path);

    assert_eq!(second.previous_generation_id, Some(first.generation_id));
    assert!(second.generation_id > first.generation_id);
    assert_eq!(second.sync_watermark, 2);
    assert_eq!(second_segment.header.direction, TraversalDirection::In);

    let mut overflow_dir = seeded_artifacts("projection_ingest_generation_overflow");
    overflow_dir
        .publish(&ProjectionManifest::base_only(
            u64::MAX,
            "base.pggraph",
            "crc32:00000000",
            1,
            0,
            1,
        ))
        .expect("max manifest publishes");
    let overflow_ingester = ingester(&overflow_dir);
    let overflow_err = overflow_dir.ingest(&overflow_ingester, &[edge_row(1, 0, 1, None, MutationOperation::InsertEdge)],
            MutationBufferLimits::new(10, 10_000),
        )
        .expect_err("generation overflow is rejected");

    assert!(matches!(overflow_err, GraphError::Internal(_)));
}

fn seeded_artifacts(name: &str) -> Directory {
    let mut dir = Directory::new(name);
    dir.write("base.pggraph", b"base");
    let base = ProjectionManifest::base_only(1, "base.pggraph", "crc32:00000000", 1, 0, 1);
    dir.publish(&base).expect("base manifest publishes");
    dir
}

fn ingester(dir: &Directory) -> ProjectionIngester {
    ProjectionIngester::new(dir.path(), "base.pggraph", "crc32:00000000", 1)
}

fn edge_row(
    sync_id: u64,
    source: u32,
    target: u32,
    weight: Option<u32>,
    operation: MutationOperation,
) -> ProjectionSyncRow {
    ProjectionSyncRow {
        sync_id,
        generation_id: 1,
        committed: true,
        operation,
        direction: TraversalDirection::Out,
        source,
        target,
        type_id: 2,
        weight,
        table_oid: None,
        pk_hash: None,
        node_idx: None,
        filter_column_id: None,
        filter_value: None,
        tenant_hash: None,
        schema_reversed: false,
    }
}

fn load_segment(dir: &Directory, relative_path: &str) -> DeltaSegment {
    DeltaSegment::from_bytes(&dir.files[relative_path]).expect("segment reads")
}

#[test]
fn load_corrupt_active_segment_repairs_or_rebuilds() {
    let mut dir = Directory::new("load_corrupt_active_segment_repairs_or_rebuilds");
    dir.write("base.pggraph", b"base");
    let segment_path = "active.pggraph-delta";
    let segment = edge_segment(1, 0, &[(0, 1, 1)]);
    dir.write(segment_path, &segment.to_bytes().expect("segment writes"));
    let mut manifest = base_manifest(1);
    manifest
        .segments
        .push(active_segment_ref(segment_path, "crc32:00000000"));
    dir
        .publish(&manifest)
        .expect("manifest publishes");

    let plan = dir.plan_recovery(None);

    assert_eq!(plan.action, ProjectionRecoveryAction::FullRebuild);
    assert_eq!(plan.generation_id, Some(1));
}

#[test]
fn load_missing_referenced_segment_is_rejected() {
    let mut dir = Directory::new("load_missing_referenced_segment_is_rejected");
    dir.write("base.pggraph", b"base");
    let mut manifest = base_manifest(1);
    manifest.segments.push(ManifestSegmentRef {
        path: "missing.pggraph-delta".to_string(),
        checksum: "crc32:missing".to_string(),
        level: 0,
        source_start: 0,
        source_end: 1,
        sync_watermark: 1,
    });
    dir
        .publish(&manifest)
        .expect_err("missing referenced segment rejects");
}

#[test]
fn load_missing_unref_temp_segment_is_ignored() {
    let mut dir = Directory::new("load_missing_unref_temp_segment_is_ignored");
    dir.write("base.pggraph", b"base");
    dir.write("projection-generation-00000000000000000003-segment-00000000.tmp", b"partial");
    dir
        .publish(&base_manifest(1))
        .expect("manifest publishes");

    let loaded = dir.validate_active()
        .expect("validation ignores temp")
        .expect("manifest exists");

    assert_eq!(loaded.generation_id, 1);
}

#[test]
fn base_chunk_corruption_repairs_from_postgresql() {
    let mut dir = Directory::new("base_chunk_corruption_repairs_from_postgresql");
    dir.write("base.pggraph", b"base");
    let source = edge_store_from_tuples(3, &[(0, 1, 1), (1, 2, 1)]);
    let chunk_path = "active.pggraph-chunk";
    let chunk = edge_segment(1, 0, &[(0, 1, 1)]);
    dir.write(chunk_path, &chunk.to_bytes().expect("chunk writes"));
    let checksum = checksum_text(&dir.files[chunk_path]);
    let mut manifest = base_manifest(1);
    manifest.base_chunks.push(ManifestChunkRef {
        path: chunk_path.to_string(),
        checksum,
        source_start: 0,
        source_end: 2,
        dirty_source_count: 2,
        dirty_edge_count: 2,
    });
    dir
        .publish(&manifest)
        .expect("manifest publishes");
    dir.write(chunk_path, b"corrupt");

    let plan = dir.plan_recovery(None);
    assert_eq!(plan.action, ProjectionRecoveryAction::TargetedChunkRepair);
    assert_eq!(plan.generation_id, Some(1));

    let repaired = dir.repair_chunks(&source)
        .expect("chunk repair runs")
        .expect("chunk repair publishes");

    assert_eq!(repaired.previous_generation_id, Some(1));
    assert_eq!(repaired.base_chunks.len(), 1);
    assert_ne!(repaired.base_chunks[0].path, manifest.base_chunks[0].path);
}

#[test]
fn missing_base_chunk_repairs_from_postgresql_when_metadata_validates() {
    let mut dir = Directory::new(
        "missing_base_chunk_repairs_from_postgresql_when_metadata_validates",
    );
    dir.write("base.pggraph", b"base");
    let source = edge_store_from_tuples(3, &[(0, 1, 1), (1, 2, 1)]);
    let chunk_path = "missing.pggraph-chunk";
    let mut manifest = base_manifest(1);
    manifest.base_chunks.push(ManifestChunkRef {
        path: chunk_path.to_string(),
        checksum: "crc32:missing".to_string(),
        source_start: 0,
        source_end: 2,
        dirty_source_count: 2,
        dirty_edge_count: 2,
    });
    dir.write(chunk_path, b"placeholder");
    dir
        .publish(&manifest)
        .expect("manifest publishes");
    dir.files.remove(chunk_path).expect("chunk file removed");

    let plan = dir.plan_recovery(None);
    assert_eq!(plan.action, ProjectionRecoveryAction::TargetedChunkRepair);
    assert_eq!(plan.generation_id, Some(1));

    let repaired = dir.repair_chunks(&source)
        .expect("chunk repair runs")
        .expect("chunk repair publishes");

    assert_eq!(repaired.previous_generation_id, Some(1));
    assert_eq!(repaired.base_chunks.len(), 1);
    assert!(dir.has(&repaired.base_chunks[0].path));
}

#[test]
fn corrupt_manifest_triggers_full_projection_rebuild() {
    let mut dir = Directory::new("corrupt_manifest_triggers_full_projection_rebuild");
    dir.manifests.insert(manifest_file_name(3), Err("key must be a string at line 1 column 2".to_string()));

    let plan = dir.plan_recovery(None);

    assert_eq!(plan.action, ProjectionRecoveryAction::FullRebuild);
    assert_eq!(plan.generation_id, Some(3));
}

#[test]
fn full_rebuild_restores_valid_projection_generation() {

    let mut dir = Directory::new("full_rebuild_restores_valid_projection_generation");
    dir.write("main.pggraph", b"base graph");
    dir.manifests.insert(manifest_file_name(4), Err("key must be a string at line 1 column 2".to_string()));

    let generation_id = next_rebuild_generation_id(latest_manifest_generation(&dir.names()))
        .expect("next generation id");
    let manifest = publish_rebuilt_base_manifest(&graph_artifact(&dir), generation_id, 42, NOW)
        .expect("rebuilt projection manifest builds");
    dir.publish(&manifest).expect("rebuilt projection manifest publishes");
    let loaded = dir.validate_active()
        .expect("rebuilt generation validates")
        .expect("rebuilt manifest exists");

    assert_eq!(generation_id, 5);
    assert_eq!(manifest.generation_id, 5);
    assert_eq!(loaded.generation_id, 5);
    assert_eq!(loaded.base_artifact_path, "main.pggraph");
    assert_eq!(loaded.sync_watermark, 42);
}

#[test]
fn stale_base_artifact_checksum_triggers_full_projection_rebuild() {

    let mut dir = Directory::new(
        "stale_base_artifact_checksum_triggers_full_projection_rebuild",
    );
    dir.write("main.pggraph", b"base graph");
    let manifest = ProjectionManifest::base_only(1, "main.pggraph", "crc32:stale", 1, 1, 1);
    dir
        .publish(&manifest)
        .expect("manifest publishes");

    let plan = dir.plan_recovery(Some(&graph_artifact(&dir)));

    assert_eq!(plan.action, ProjectionRecoveryAction::FullRebuild);
    assert_eq!(plan.generation_id, Some(1));
}

fn base_manifest(generation_id: u64) -> ProjectionManifest {
    ProjectionManifest::base_only(generation_id, "base.pggraph", "crc32:base", 1, 1, 1)
}

fn graph_artifact(dir: &Directory) -> LoadedArtifact {
    LoadedArtifact {
        file_name: Some("main.pggraph".to_string()),
        version: 1,
        checksum: Ok(checksum_text(&dir.files["main.pggraph"])),
    }
}

fn edge_segment(
    generation_id: u64,
    source_start: u32,
    edges: &[(u32, u32, u8)],
) -> DeltaSegment {
    let source_end = edges
        .iter()
        .map(|(source, _, _)| source + 1)
        .max()
        .unwrap_or(source_start + 1);
    let mut segment = DeltaSegment::new(
        SegmentKind::Edge,
        0,
        TraversalDirection::Out,
        source_start,
        source_end,
        i64::try_from(generation_id).expect("generation fits i64"),
    )
    .expect("segment creates");
    for &(source, target, type_id) in edges {
        segment.edge_inserts.push(SegmentEdge {
            source,
            target,
            type_id,
            schema_reversed: false,
        });
    }
    segment
}

fn active_segment_ref(path: &str, checksum: &str) -> ManifestSegmentRef {
    ManifestSegmentRef {
        path: path.to_string(),
        checksum: checksum.to_string(),
        level: 0,
        source_start: 0,
        source_end: 1,
        sync_watermark: 1,
    }
}

#[test]
fn status_status_reports_manifest_watermark_segments_chunks_gc_and_repair() {
    let mut dir = Directory::new(
        "status_reports_manifest_watermark_segments_chunks_gc_and_repair",
    );
    dir.write("base.pggraph", b"base");
    let edge_path = "l0-edge.pggraph-delta";
    let mut edge_segment =
        DeltaSegment::new(SegmentKind::Edge, 0, TraversalDirection::Out, 0, 2, 5)
            .expect("edge segment creates");
    edge_segment.edge_inserts.push(SegmentEdge {
        source: 0,
        target: 1,
        type_id: 1,
        schema_reversed: false,
    });
    edge_segment.edge_deletes.push(SegmentEdge {
        source: 1,
        target: 0,
        type_id: 1,
        schema_reversed: false,
    });
    dir.write(edge_path, &edge_segment.to_bytes().expect("edge segment writes"));
    let node_path = "l1-node.pggraph-delta";
    let mut node_segment =
        DeltaSegment::new(SegmentKind::Node, 1, TraversalDirection::Any, 0, 2, 5)
            .expect("node segment creates");
    node_segment.node_states.push(SegmentNodeState {
        node_idx: 1,
        active: false,
    });
    dir.write(node_path, &node_segment.to_bytes().expect("node segment writes"));
    let chunk_path = "base.pggraph-chunk";
    dir.write(chunk_path, &edge_segment.to_bytes().expect("chunk writes"));
    let obsolete_path = "old.pggraph-delta";
    dir.write(obsolete_path, b"old");

    let mut manifest = ProjectionManifest::base_only(3, "base.pggraph", "crc32:base", 1, 5, 9);
    manifest.mark_ingestion();
    manifest.mark_compaction();
    manifest.mark_repair();
    manifest
        .segments
        .push(leveled_segment_ref(&dir, edge_path, 0));
    manifest
        .segments
        .push(leveled_segment_ref(&dir, node_path, 1));
    manifest
        .base_chunks
        .push(ManifestChunkRef {
            path: chunk_path.to_string(),
            checksum: checksum_text(&dir.files[chunk_path]),
            source_start: 0,
            source_end: 2,
            dirty_source_count: 2,
            dirty_edge_count: 1,
        });
    manifest.obsolete_files.push(ManifestFileRef {
        path: obsolete_path.to_string(),
        bytes: 3,
    });
    dir
        .publish(&manifest)
        .expect("manifest publishes");
    let operations =
        record_projection_gc(Ok(ProjectionOperationStatus { last_gc_unix_micros: None }), NOW);

    let status = dir.status(8, 2, 1, operations).expect("status collects");

    assert_eq!(status.manifest_generation, Some(3));
    assert_eq!(status.manifest_watermark, Some(5));
    assert_eq!(status.pending_durable_rows, 3);
    assert_eq!(status.segment_count, 2);
    assert_eq!(status.l0_segment_count, 1);
    assert_eq!(status.l1_segment_count, 1);
    assert_eq!(status.edge_segment_count, 1);
    assert_eq!(status.node_segment_count, 1);
    assert_eq!(status.dirty_chunk_count, 1);
    assert_eq!(status.obsolete_file_count, 1);
    assert_eq!(status.obsolete_bytes, 3);
    assert_eq!(status.active_generation_count, 2);
    assert_eq!(status.artifact_validation_state, "healthy");
    assert_eq!(status.last_ingestion_unix_micros, Some(9));
    assert_eq!(status.last_compaction_unix_micros, Some(9));
    assert!(status.last_gc_unix_micros.is_some());
    assert_eq!(status.last_repair_unix_micros, Some(9));
    assert!(status.tombstone_rows as f64 / status.mutation_rows as f64 > 0.0);
    assert!(status.compaction_recommended);
    assert!(status.gc_recommended);
    assert!(status.ingest_recommended);
}

fn leveled_segment_ref(dir: &Directory, path: &str, level: u8) -> ManifestSegmentRef {
    ManifestSegmentRef {
        path: path.to_string(),
        checksum: checksum_text(&dir.files[path]),
        level,
        source_start: 0,
        source_end: 2,
        sync_watermark: 5,
    }
}

/// An edge as a segment writer is handed it.
#[derive(Clone, Copy)]
struct MutationFixture {
    source: u32,
    target: u32,
    type_id: u8,
    weight: Option<u32>,
}

#[test]
fn test_contracts_projection_manifest_roundtrips_base_only_generation() {
    let dir = Directory::new("projection_manifest_roundtrips_base_only_generation");
    let manifest_path = dir.store().manifest_path(1);
    let manifest = ProjectionManifest::base_only(
        1,
        &manifest_path,
        "xxh3:base",
        2,
        42,
        1_700_000,
    );

    manifest.validate().expect("manifest encodes");
    let decoded = ProjectionManifest::from_decoded(Ok(manifest.clone())).expect("manifest decodes");

    assert_eq!(decoded, manifest);
    assert_eq!(decoded.validation_status, VALIDATION_STATUS_VALID);
}

#[test]
fn test_contracts_delta_segment_roundtrips_edge_topology_weight_and_delete_sections() {
    let weighted = MutationFixture {
        source: 0,
        target: 1,
        type_id: 2,
        weight: Some(7),
    };
    let delete = weighted;
    let mut segment = DeltaSegment::new(SegmentKind::Edge, 0, TraversalDirection::Out, 0, 4, 42)
        .expect("segment constructs");
    segment.edge_inserts.push(SegmentEdge {
        source: weighted.source,
        target: weighted.target,
        type_id: weighted.type_id,
        schema_reversed: false,
    });
    segment.edge_weights.push(SegmentEdgeWeight {
        source: weighted.source,
        target: weighted.target,
        type_id: weighted.type_id,
        weight: weighted.weight.expect("fixture has weight"),
        schema_reversed: false,
    });
    segment.edge_deletes.push(SegmentEdge {
        source: delete.source,
        target: delete.target,
        type_id: delete.type_id,
        schema_reversed: false,
    });

    let bytes = segment.to_bytes().expect("segment writes");
    let decoded = DeltaSegment::from_bytes(&bytes).expect("segment reads");

    assert_eq!(decoded.edge_inserts, segment.edge_inserts);
    assert_eq!(decoded.edge_weights, segment.edge_weights);
    assert_eq!(decoded.edge_deletes, segment.edge_deletes);
}

#[test]
fn test_contracts_delta_segment_roundtrips_node_resolution_filter_tenant_sections() {
    let mut segment = DeltaSegment::new(SegmentKind::Node, 0, TraversalDirection::Any, 0, 4, 43)
        .expect("segment constructs");
    segment.node_states.push(SegmentNodeState {
        node_idx: 1,
        active: true,
    });
    segment.resolutions.push(SegmentResolution {
        table_oid: 100,
        pk_hash: 7_001,
        node_idx: 1,
        tombstone: false,
    });
    segment.filters.push(SegmentFilterValue {
        node_idx: 1,
        column_id: 2,
        value: 99,
        tombstone: false,
    });
    segment.tenants.push(SegmentTenant {
        node_idx: 1,
        tenant_hash: 8_002,
        tombstone: true,
    });

    let bytes = segment.to_bytes().expect("segment writes");
    let decoded = DeltaSegment::from_bytes(&bytes).expect("segment reads");

    assert_eq!(decoded.node_states, segment.node_states);
    assert_eq!(decoded.resolutions, segment.resolutions);
    assert_eq!(decoded.filters, segment.filters);
    assert_eq!(decoded.tenants, segment.tenants);
}

#[test]
fn test_contracts_projection_ingest_committed_edge_insert_publishes_l0_manifest() {
    let mut dir = Directory::new("projection_ingest_committed_edge_contract");
    dir.write("base.pggraph", b"base");
    dir
        .publish(&ProjectionManifest::base_only(
            1,
            "base.pggraph",
            "crc32:00000000",
            1,
            0,
            1,
        ))
        .expect("base manifest publishes");
    let ingester = ProjectionIngester::new(dir.path(), "base.pggraph", "crc32:00000000", 1);
    let row = ProjectionSyncRow {
        sync_id: 1,
        generation_id: 1,
        committed: true,
        operation: MutationOperation::InsertEdge,
        direction: TraversalDirection::Out,
        source: 0,
        target: 1,
        type_id: 2,
        weight: None,
        table_oid: None,
        pk_hash: None,
        node_idx: None,
        filter_column_id: None,
        filter_value: None,
        tenant_hash: None,
        schema_reversed: false,
    };

    let result = dir.ingest(&ingester, &[row], MutationBufferLimits::new(10, 10_000))
        .expect("ingestion publishes");
    let manifest = result.manifest.expect("manifest published");
    let segment = DeltaSegment::from_bytes(&dir.files[&manifest.segments[0].path])
        .expect("segment reads");

    assert_eq!(manifest.sync_watermark, 1);
    assert_eq!(manifest.segments.len(), 1);
    assert_eq!(
        segment.edge_inserts,
        vec![SegmentEdge {
            source: 0,
            target: 1,
            type_id: 2,
            schema_reversed: false,
        }]
    );
}

#[test]
fn test_contracts_status_reports_manifest_watermark_segments_chunks_gc_and_repair() {
    let mut dir = Directory::new(
        "status_reports_manifest_watermark_segments_chunks_gc_and_repair",
    );
    dir.write("base.pggraph", b"base");
    let edge_path = "l0-edge.pggraph-delta";
    let mut edge_segment =
        DeltaSegment::new(SegmentKind::Edge, 0, TraversalDirection::Out, 0, 2, 5)
            .expect("edge segment creates");
    edge_segment.edge_inserts.push(SegmentEdge {
        source: 0,
        target: 1,
        type_id: 1,
        schema_reversed: false,
    });
    edge_segment.edge_deletes.push(SegmentEdge {
        source: 1,
        target: 0,
        type_id: 1,
        schema_reversed: false,
    });
    dir.write(edge_path, &edge_segment.to_bytes().expect("edge segment writes"));
    let node_path = "l1-node.pggraph-delta";
    let mut node_segment =
        DeltaSegment::new(SegmentKind::Node, 1, TraversalDirection::Any, 0, 2, 5)
            .expect("node segment creates");
    node_segment.node_states.push(SegmentNodeState {
        node_idx: 1,
        active: false,
    });
    dir.write(node_path, &node_segment.to_bytes().expect("node segment writes"));
    let chunk_path = "base.pggraph-chunk";
    dir.write(chunk_path, &edge_segment.to_bytes().expect("chunk writes"));
    let obsolete_path = "old.pggraph-delta";
    dir.write(obsolete_path, b"old");

    let mut manifest = ProjectionManifest::base_only(3, "base.pggraph", "crc32:base", 1, 5, 9);
    manifest.mark_ingestion();
    manifest.mark_compaction();
    manifest.mark_repair();
    manifest
        .segments
        .push(leveled_segment_ref(&dir, edge_path, 0));
    manifest
        .segments
        .push(leveled_segment_ref(&dir, node_path, 1));
    manifest
        .base_chunks
        .push(ManifestChunkRef {
            path: chunk_path.to_string(),
            checksum: checksum_text(&dir.files[chunk_path]),
            source_start: 0,
            source_end: 2,
            dirty_source_count: 2,
            dirty_edge_count: 1,
        });
    manifest.obsolete_files.push(ManifestFileRef {
        path: obsolete_path.to_string(),
        bytes: 3,
    });
    dir
        .publish(&manifest)
        .expect("manifest publishes");
    let operations =
        record_projection_gc(Ok(ProjectionOperationStatus { last_gc_unix_micros: None }), NOW);

    let status = dir.status(8, 2, 1, operations).expect("status collects");

    assert_eq!(status.manifest_generation, Some(3));
    assert_eq!(status.manifest_watermark, Some(5));
    assert_eq!(status.pending_durable_rows, 3);
    assert_eq!(status.segment_count, 2);
    assert_eq!(status.l0_segment_count, 1);
    assert_eq!(status.l1_segment_count, 1);
    assert_eq!(status.edge_segment_count, 1);
    assert_eq!(status.node_segment_count, 1);
    assert_eq!(status.dirty_chunk_count, 1);
    assert_eq!(status.obsolete_file_count, 1);
    assert_eq!(status.obsolete_bytes, 3);
    assert_eq!(status.active_generation_count, 2);
    assert_eq!(status.artifact_validation_state, "healthy");
    assert_eq!(status.last_ingestion_unix_micros, Some(9));
    assert_eq!(status.last_compaction_unix_micros, Some(9));
    assert!(status.last_gc_unix_micros.is_some());
    assert_eq!(status.last_repair_unix_micros, Some(9));
    assert!(status.tombstone_rows as f64 / status.mutation_rows as f64 > 0.0);
    assert!(status.compaction_recommended);
    assert!(status.gc_recommended);
    assert!(status.ingest_recommended);
}

// ---------------------------------------------------------------------------
// Names and references
// ---------------------------------------------------------------------------

#[test]
fn manifest_names_parse_back() {
    for generation_id in [0, 1, 42, u64::MAX] {
        assert_eq!(
            parse_manifest_file_name(&manifest_file_name(generation_id)),
            Some(generation_id)
        );
    }
    assert_eq!(parse_manifest_file_name("projection-generation-1.json"), None);
    assert_eq!(parse_manifest_file_name("projection-generation-.json"), None);
    assert_eq!(parse_manifest_file_name("projection-generation-x.json"), None);
    assert_eq!(parse_manifest_file_name("projection-generation-18446744073709551616.json"), None);
}

#[test]
fn references_resolve_inside_the_root() {
    assert_eq!(
        resolve_manifest_reference("/artifacts", "segments/l0").as_deref(),
        Ok("/artifacts/segments/l0")
    );
    assert!(matches!(
        resolve_manifest_reference("/artifacts", "/etc/passwd"),
        Err(GraphError::CorruptFile { .. })
    ));
    assert!(matches!(
        resolve_manifest_reference("/artifacts", "segments/../../l0"),
        Err(GraphError::CorruptFile { .. })
    ));
}

#[test]
fn quarantined_manifest_name_restores() {
    let quarantined = quarantine_file_name(3, 5);

    assert_eq!(
        restored_file_name(&quarantined, &format!("/artifacts/{quarantined}")),
        Ok(manifest_file_name(3))
    );
    assert!(restored_file_name("base.pggraph", "/artifacts/base.pggraph").is_err());
}

#[test]
fn checksum_label_is_the_crc32_of_the_bytes() {
    assert_eq!(checksum_text(b"123456789"), "crc32:cbf43926");
    assert_eq!(checksum_text(b""), "crc32:00000000");
}

#[test]
fn rebuild_follows_the_latest_generation() {
    assert_eq!(following_generation_id(0), Ok(1));
    assert_eq!(following_generation_id(u64::MAX - 1), Ok(u64::MAX));
    assert_eq!(
        following_generation_id(u64::MAX),
        Err(GraphError::Internal("projection generation id overflowed".into()))
    );
    assert_eq!(next_rebuild_generation_id(None), Ok(1));
    assert_eq!(next_rebuild_generation_id(Some(4)), Ok(5));
    assert!(matches!(
        next_rebuild_generation_id(Some(u64::MAX)),
        Err(GraphError::Internal(_))
    ));
}

// ---------------------------------------------------------------------------
// Heartbeats
// ---------------------------------------------------------------------------

#[test]
fn heartbeat_rows_hold_the_generation_they_keep_alive() {
    let row = record_active_generation_heartbeat(7, 250_000, 5, VALIDATION_STATUS_VALID)
        .expect("heartbeat records");

    assert_eq!(row.generation_id, 7);
    assert_eq!(row.ttl_micros, 250_000);
    assert_eq!(row.sync_watermark, 5);
    assert_eq!(row.validation_status, "valid");
    assert!(record_active_generation_heartbeat(u64::MAX, 1, 0, VALIDATION_STATUS_VALID).is_err());
    assert_eq!(active_generation_count(None), 0);
    assert_eq!(active_generation_count(Some(7)), 7);
    assert_eq!(active_generation_count(Some(i64::MAX)), i32::MAX);
    assert_eq!(active_generation_ids(vec![3, 1]), Ok(vec![3, 1]));
    assert!(matches!(
        active_generation_ids(vec![3, -1]),
        Err(GraphError::Internal(_))
    ));
}

// ---------------------------------------------------------------------------
// Status
// ---------------------------------------------------------------------------

#[test]
fn metadata_status_counts_without_reading_segments() {
    let (dir, _, manifest) = fixture_manifest(
        "metadata_status_counts_without_reading_segments",
        vec![segment(1, 0, 0, &[(0, 2, 1)], &[]), segment(2, 1, 0, &[(1, 3, 1)], &[])],
    );
    let lengths = dir.lengths(manifest.segments.iter().map(|segment| &segment.path).collect());

    let status = collect_projection_metadata_status(
        dir.path(),
        Ok(Some(&manifest)),
        12,
        0,
        8,
        ProjectionOperationStatus { last_gc_unix_micros: None },
        &lengths,
        &Vec::new(),
    )
    .expect("status collects");

    assert_eq!(status.manifest_generation, Some(1));
    assert_eq!(status.pending_durable_rows, 2);
    assert_eq!(status.segment_count, 2);
    assert_eq!(status.l0_segment_count, 1);
    assert_eq!(status.l1_segment_count, 1);
    assert_eq!(
        status.segment_bytes,
        lengths.iter().map(|length| length.unwrap_or(0) as i64).sum::<i64>()
    );
    assert!(!status.compaction_recommended);
}

#[test]
fn status_of_an_empty_directory_is_empty() {
    let dir = Directory::new("status_of_an_empty_directory_is_empty");

    let status = dir
        .status(4, 0, 8, ProjectionOperationStatus { last_gc_unix_micros: None })
        .expect("status collects");

    assert_eq!(status.manifest_generation, None);
    assert_eq!(status.pending_durable_rows, 4);
    assert_eq!(status.segment_count, 0);
}

// ---------------------------------------------------------------------------
// Ingestion
// ---------------------------------------------------------------------------

#[test]
fn covered_rows_publish_nothing() {
    let mut dir = seeded_artifacts("covered_rows_publish_nothing");
    let publisher = ingester(&dir);
    let rows = vec![edge_row(1, 0, 1, None, MutationOperation::InsertEdge)];
    let limits = MutationBufferLimits::new(10, 10_000);
    dir.ingest(&publisher, &rows, limits).expect("ingestion publishes");

    let again = dir.ingest(&publisher, &rows, limits).expect("covered row ignored");

    assert!(again.manifest.is_none());
    assert_eq!(again.rows_ingested, 0);
}

#[test]
fn segments_that_read_back_otherwise_are_refused() {
    let publisher = ProjectionIngester::new("/artifacts", "base.pggraph", "crc32:00000000", 1);
    let written = segment(1, 0, 0, &[(0, 2, 1)], &[]);
    let other = segment(2, 0, 0, &[(0, 2, 1)], &[]);

    assert_eq!(publisher.write_segment(&written, &written.clone()), Ok(()));
    assert!(publisher.write_segment(&written, &other).is_err());
}

// ---------------------------------------------------------------------------
// Compaction
// ---------------------------------------------------------------------------

#[test]
fn compaction_budgets_are_enforced() {
    for budgets in [
        CompactionBudgets { max_rows: 1, ..CompactionBudgets::generous() },
        CompactionBudgets { max_bytes: 1, ..CompactionBudgets::generous() },
        CompactionBudgets { max_segments: 1, ..CompactionBudgets::generous() },
    ] {
        let (mut dir, base, manifest) = fixture_manifest(
            "compaction_budgets_are_enforced",
            vec![segment(1, 0, 0, &[(0, 2, 1)], &[]), segment(2, 0, 0, &[(1, 3, 1)], &[])],
        );
        assert!(matches!(
            dir.compact(&manifest, &base, budgets),
            Err(GraphError::OverlayLimit { .. })
        ));
    }
}

#[test]
fn compaction_without_segments_changes_nothing() {
    let (mut dir, base, manifest) =
        fixture_manifest("compaction_without_segments_changes_nothing", Vec::new());

    let result = dir
        .compact(&manifest, &base, CompactionBudgets::generous())
        .expect("nothing to compact");

    assert_eq!(result.segments_compacted, 0);
    assert_eq!(result.manifest, manifest);
}

#[test]
fn ingested_rows_are_read_back() {
    let mut dir = seeded_artifacts("ingested_rows_are_read_back");
    let publisher = ingester(&dir);
    let base = edge_store_from_tuples(4, &[(0, 1, 2), (0, 2, 2)]);
    let node_row = |sync_id, node_idx, operation| ProjectionSyncRow {
        direction: TraversalDirection::Any,
        node_idx: Some(node_idx),
        ..edge_row(sync_id, node_idx, node_idx, None, operation)
    };
    let rows = vec![
        edge_row(1, 0, 3, Some(7), MutationOperation::InsertEdge),
        edge_row(2, 0, 1, None, MutationOperation::DeleteEdge),
        node_row(3, 2, MutationOperation::DeleteNode),
    ];

    let manifest = dir
        .ingest(&publisher, &rows, MutationBufferLimits::new(10, 10_000))
        .expect("ingestion publishes")
        .manifest
        .expect("manifest published");
    let layered = dir.layered(&base, &manifest).expect("segments load");

    assert_eq!(
        collect_neighbors(&layered, 0),
        vec![Neighbor {
            target: 3,
            type_id: 2,
            schema_reversed: false,
        }]
    );
    assert!(layered.node_visible(3));
    assert!(!layered.node_visible(2));
}

#[test]
fn base_only_generations_reference_no_deltas() {
    let mut manifest = base_manifest(1);
    assert!(manifest.is_base_only());
    manifest.segments.push(active_segment_ref("active.pggraph-delta", "crc32:00000000"));
    assert!(!manifest.is_base_only());
}

#[test]
fn empty_watermark_generations_only_move_forward() {
    let publisher = ProjectionIngester::new("/artifacts", "base.pggraph", "crc32:00000000", 1);
    let previous = base_manifest(4);

    let advanced = publisher
        .publish_empty_watermark(Some(&previous), 9, NOW)
        .expect("watermark advances")
        .manifest
        .expect("manifest builds");
    assert_eq!(advanced.generation_id, 5);
    assert_eq!(advanced.sync_watermark, 9);
    assert_eq!(advanced.previous_generation_id, Some(4));
    assert!(advanced.segments.is_empty());

    let stale = publisher
        .publish_empty_watermark(Some(&previous), 1, NOW)
        .expect("stale watermark is ignored");
    assert!(stale.manifest.is_none());
}
