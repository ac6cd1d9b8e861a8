//! Base chunks: edges of a source range that replace the base artifact there.
use vstd::prelude::*;

use crate::checksum::{self, checksum_text};
use crate::edge_store::{EdgeKey, EdgeStore};
use crate::ordered_map;
use crate::projection::compact::extended_files;
use crate::projection::ingest;
use crate::projection::layered::{
    self, DurableEdgeState, FileRead, NeighborKey, SourceRange,
};
use crate::projection::manifest::{
    self, ChunkRefView, FileRefView, ManifestChunkRef, ManifestFileRef, ManifestSegmentRef,
    ManifestView, ProjectionManifest, SegmentRefView,
};
use crate::projection::says;
use crate::projection::segment::{
    self, DeltaSegment, DeltaSegmentView, SegmentEdge, SegmentEdgeWeight, SegmentKind,
};
use crate::safety::{self, GraphErrorView, GraphResult};
use crate::text::{self, concat5, fixed_digits_text, owned};
use crate::types::TraversalDirection;

verus! {

/// Whether an entry is that of an edge that starts in a range.
pub open spec fn starts_in(entry: (EdgeKey, Option<u32>), range: SourceRange) -> bool {
    range.has(entry.0.source)
}

/// The edge rows of a source range.
pub open spec fn chunk_edges(entries: Seq<(EdgeKey, Option<u32>)>, range: SourceRange) -> Seq<
    SegmentEdge,
> {
    entries.filter(|entry: (EdgeKey, Option<u32>)| starts_in(entry, range)).map_values(
        |entry: (EdgeKey, Option<u32>)| says::row_of(entry.0),
    )
}

/// The weight row of an entry with a weight.
pub open spec fn weight_of(entry: (EdgeKey, Option<u32>)) -> SegmentEdgeWeight {
    SegmentEdgeWeight {
        source: entry.0.source,
        target: entry.0.target,
        type_id: entry.0.type_id,
        schema_reversed: entry.0.schema_reversed,
        weight: entry.1->Some_0,
    }
}

/// The weight rows of a source range.
pub open spec fn chunk_weights(entries: Seq<(EdgeKey, Option<u32>)>, range: SourceRange) -> Seq<
    SegmentEdgeWeight,
> {
    entries.filter(
        |entry: (EdgeKey, Option<u32>)| starts_in(entry, range) && entry.1 is Some,
    ).map_values(|entry: (EdgeKey, Option<u32>)| weight_of(entry))
}

/// The base chunk of a source range: all edges of a store that start there.
pub open spec fn base_chunk(
    store: EdgeStore,
    range: SourceRange,
    sync_watermark: i64,
) -> Result<DeltaSegmentView, GraphErrorView> {
    match segment::empty_segment(
        SegmentKind::Edge,
        0,
        TraversalDirection::Out,
        range.start,
        range.end,
        sync_watermark,
    ) {
        Err(error) => Err(error),
        Ok(blank) => Ok(
            DeltaSegmentView {
                edge_inserts: chunk_edges(store.edges.entries@, range),
                edge_weights: chunk_weights(store.edges.entries@, range),
                ..blank
            },
        ),
    }
}

/// Build the base chunk of a source range.
pub fn build_base_chunk(store: &EdgeStore, range: SourceRange, sync_watermark: i64) -> (result:
    GraphResult<DeltaSegment>)
    ensures
        safety::outcome(result) == base_chunk(*store, range, sync_watermark),
{
    let mut chunk: DeltaSegment = DeltaSegment::new(
        SegmentKind::Edge,
        0,
        TraversalDirection::Out,
        range.start,
        range.end,
        sync_watermark,
    )?;
    let ghost blank = chunk@;
    let ghost entries = store.edges.entries@;
    proof {
        reveal(Seq::filter);
        assert(chunk.edge_inserts@ =~= chunk_edges(entries.take(0), range));
        assert(chunk.edge_weights@ =~= chunk_weights(entries.take(0), range));
    }
    for i in 0..store.edges.entries.len()
        invariant
            entries == store.edges.entries@,
            chunk@ == (DeltaSegmentView {
                edge_inserts: chunk_edges(entries.take(i as int), range),
                edge_weights: chunk_weights(entries.take(i as int), range),
                ..blank
            }),
    {
        let (key, weight): (EdgeKey, Option<u32>) = store.edges.entries[i];
        if range.contains(key.source) {
            chunk.edge_inserts.push(
                SegmentEdge {
                    source: key.source,
                    target: key.target,
                    type_id: key.type_id,
                    schema_reversed: key.schema_reversed,
                },
            );
            match weight {
                Some(weight) => chunk.edge_weights.push(
                    SegmentEdgeWeight {
                        source: key.source,
                        target: key.target,
                        type_id: key.type_id,
                        schema_reversed: key.schema_reversed,
                        weight,
                    },
                ),
                None => {},
            }
        }
        proof {
            reveal(Seq::filter);
            assert(entries.take(i + 1).drop_last() =~= entries.take(i as int));
            assert(chunk.edge_inserts@ =~= chunk_edges(entries.take(i + 1), range));
            assert(chunk.edge_weights@ =~= chunk_weights(entries.take(i + 1), range));
        }
    }
    assert(entries.take(entries.len() as int) =~= entries);
    Ok(chunk)
}

/// The name of a base chunk file.
pub fn chunk_file_name(generation_id: u64, chunk_id: u32) -> (name: String)
    ensures
        name@ == "projection-generation-"@ + text::fixed_digits(generation_id as nat, 10, 20)
            + "-chunk-"@ + ingest::padded(chunk_id as nat, 8) + ".pggraph-chunk"@,
{
    concat5(
        "projection-generation-",
        fixed_digits_text(generation_id, 10, 20).as_str(),
        "-chunk-",
        ingest::padded_text(chunk_id).as_str(),
        ".pggraph-chunk",
    )
}

/// A length as a count, or the greatest count.
pub open spec fn row_count(length: nat) -> u32 {
    if length > u32::MAX {
        u32::MAX
    } else {
        length as u32
    }
}

/// The manifest reference of a base chunk file that holds `bytes`.
pub fn chunk_ref(name: &str, bytes: &[u8], range: SourceRange, chunk: &DeltaSegment) -> (reference:
    ManifestChunkRef)
    ensures
        reference@ == (ChunkRefView {
            path: name@,
            checksum: checksum::checksum_label(checksum::crc32_of(bytes@)),
            source_start: range.start,
            source_end: range.end,
            dirty_source_count: if range.start <= range.end {
                (range.end - range.start) as u32
            } else {
                0
            },
            dirty_edge_count: row_count(chunk@.edge_inserts.len()),
        }),
{
    let edges: usize = chunk.edge_inserts.len();
    ManifestChunkRef {
        path: owned(name),
        checksum: checksum_text(bytes),
        source_start: range.start,
        source_end: range.end,
        dirty_source_count: if range.start <= range.end {
            range.end - range.start
        } else {
            0
        },
        dirty_edge_count: if edges > u32::MAX as usize {
            u32::MAX
        } else {
            edges as u32
        },
    }
}

/// Whether a chunk overlaps one of the ranges.
pub open spec fn is_rewritten(chunk: ChunkRefView, ranges: Seq<SourceRange>) -> bool {
    exists|i: int|
        0 <= i < ranges.len() && (#[trigger] ranges[i]).start < chunk.source_end
            && chunk.source_start < ranges[i].end
}

/// The chunks that no range overlaps.
pub open spec fn kept_chunks(chunks: Seq<ChunkRefView>, ranges: Seq<SourceRange>) -> Seq<
    ChunkRefView,
> {
    chunks.filter(|chunk: ChunkRefView| !is_rewritten(chunk, ranges))
}

/// The files of chunks that a range overlaps.
pub open spec fn replaced_files(chunks: Seq<ChunkRefView>, ranges: Seq<SourceRange>) -> Seq<
    FileRefView,
> {
    chunks.filter(|chunk: ChunkRefView| is_rewritten(chunk, ranges)).map_values(
        |chunk: ChunkRefView| FileRefView { path: chunk.path, bytes: 0 },
    )
}

/// Whether a chunk overlaps one of the ranges.
pub fn rewritten(chunk: &ManifestChunkRef, ranges: &Vec<SourceRange>) -> (found: bool)
    ensures
        found == is_rewritten(chunk@, ranges@),
{
    for i in 0..ranges.len()
        invariant
            forall|j: int|
                0 <= j < i ==> !((#[trigger] ranges@[j]).start < chunk.source_end
                    && chunk.source_start < ranges@[j].end),
    {
        if ranges[i].start < chunk.source_end && chunk.source_start < ranges[i].end {
            return true;
        }
    }
    false
}

/// The manifest of a generation whose base chunks were rewritten.
pub open spec fn rewrite_manifest_of(
    previous: ManifestView,
    generation_id: u64,
    segments: Seq<SegmentRefView>,
    ranges: Seq<SourceRange>,
    chunks: Seq<ChunkRefView>,
    obsolete: Seq<FileRefView>,
    repair: bool,
    now_unix_micros: i64,
) -> ManifestView {
    ManifestView {
        previous_generation_id: Some(previous.generation_id),
        last_ingestion_unix_micros: previous.last_ingestion_unix_micros,
        last_compaction_unix_micros: if repair {
            previous.last_compaction_unix_micros
        } else {
            Some(now_unix_micros)
        },
        last_repair_unix_micros: if repair {
            Some(now_unix_micros)
        } else {
            previous.last_repair_unix_micros
        },
        base_chunks: kept_chunks(previous.base_chunks, ranges) + chunks,
        segments,
        obsolete_files: previous.obsolete_files + replaced_files(previous.base_chunks, ranges)
            + obsolete,
        ..manifest::base_manifest(
            generation_id,
            previous.base_artifact_path,
            previous.base_artifact_checksum,
            previous.base_artifact_version,
            previous.sync_watermark,
            now_unix_micros,
        )
    }
}

fn split_chunks(chunks: &Vec<ManifestChunkRef>, ranges: &Vec<SourceRange>) -> (parts: (
    Vec<ManifestChunkRef>,
    Vec<ManifestFileRef>,
))
    ensures
        manifest::chunk_refs(parts.0@) == kept_chunks(manifest::chunk_refs(chunks@), ranges@),
        manifest::file_refs(parts.1@) == replaced_files(manifest::chunk_refs(chunks@), ranges@),
{
    let ghost all = manifest::chunk_refs(chunks@);
    let mut kept: Vec<ManifestChunkRef> = Vec::new();
    let mut replaced: Vec<ManifestFileRef> = Vec::new();
    proof {
        reveal(Seq::filter);
        assert(manifest::chunk_refs(kept@) =~= kept_chunks(all.take(0), ranges@));
        assert(manifest::file_refs(replaced@) =~= replaced_files(all.take(0), ranges@));
    }
    for i in 0..chunks.len()
        invariant
            all == manifest::chunk_refs(chunks@),
            manifest::chunk_refs(kept@) == kept_chunks(all.take(i as int), ranges@),
            manifest::file_refs(replaced@) == replaced_files(all.take(i as int), ranges@),
    {
        let chunk: &ManifestChunkRef = &chunks[i];
        assert(all[i as int] == chunk@);
        let ghost kept_before = manifest::chunk_refs(kept@);
        let ghost replaced_before = manifest::file_refs(replaced@);
        if rewritten(chunk, ranges) {
            let file: ManifestFileRef = ManifestFileRef { path: chunk.path.clone(), bytes: 0 };
            replaced.push(file);
            assert(manifest::file_refs(replaced@) =~= replaced_before.push(file@));
        } else {
            let copy: ManifestChunkRef = chunk.duplicate();
            kept.push(copy);
            assert(manifest::chunk_refs(kept@) =~= kept_before.push(copy@));
        }
        proof {
            reveal(Seq::filter);
            assert(all.take(i + 1).drop_last() =~= all.take(i as int));
            assert(manifest::chunk_refs(kept@) =~= kept_chunks(all.take(i + 1), ranges@));
            assert(manifest::file_refs(replaced@) =~= replaced_files(all.take(i + 1), ranges@));
        }
    }
    assert(all.take(all.len() as int) =~= all);
    (kept, replaced)
}

/// The manifest of a generation whose base chunks were rewritten: `chunks` are
/// the references of the new ones.
pub fn rewrite_manifest(
    previous: &ProjectionManifest,
    generation_id: u64,
    segments: Vec<ManifestSegmentRef>,
    ranges: &Vec<SourceRange>,
    chunks: &Vec<ManifestChunkRef>,
    obsolete: Vec<ManifestFileRef>,
    repair: bool,
    now_unix_micros: i64,
) -> (manifest: ProjectionManifest)
    ensures
        manifest@ == rewrite_manifest_of(
            previous@,
            generation_id,
            manifest::segment_refs(segments@),
            ranges@,
            manifest::chunk_refs(chunks@),
            manifest::file_refs(obsolete@),
            repair,
            now_unix_micros,
        ),
{
    let mut manifest: ProjectionManifest = ProjectionManifest::base_only(
        generation_id,
        previous.base_artifact_path.as_str(),
        previous.base_artifact_checksum.as_str(),
        previous.base_artifact_version,
        previous.sync_watermark,
        now_unix_micros,
    );
    manifest.previous_generation_id = Some(previous.generation_id);
    manifest.inherit_operation_timestamps(previous);
    if repair {
        manifest.mark_repair();
    } else {
        manifest.mark_compaction();
    }
    let (kept, replaced): (Vec<ManifestChunkRef>, Vec<ManifestFileRef>) = split_chunks(
        &previous.base_chunks,
        ranges,
    );
    let mut all: Vec<ManifestChunkRef> = kept;
    let ghost start = manifest::chunk_refs(all@);
    let ghost added = manifest::chunk_refs(chunks@);
    for i in 0..chunks.len()
        invariant
            added == manifest::chunk_refs(chunks@),
            manifest::chunk_refs(all@) == start + added.take(i as int),
    {
        let ghost before = manifest::chunk_refs(all@);
        let copy: ManifestChunkRef = chunks[i].duplicate();
        all.push(copy);
        assert(manifest::chunk_refs(all@) =~= before.push(copy@));
        assert(manifest::chunk_refs(all@) =~= start + added.take(i + 1));
    }
    assert(added.take(added.len() as int) =~= added);
    manifest.base_chunks = all;
    manifest.segments = segments;
    let files: Vec<ManifestFileRef> = extended_files(&previous.obsolete_files, replaced);
    manifest.obsolete_files = extended_files(&files, obsolete);
    assert(manifest@ =~= rewrite_manifest_of(
        previous@,
        generation_id,
        manifest::segment_refs(segments@),
        ranges@,
        added,
        manifest::file_refs(obsolete@),
        repair,
        now_unix_micros,
    ));
    manifest
}

/// The range of a chunk.
pub open spec fn chunk_range(chunk: ChunkRefView) -> SourceRange {
    SourceRange { start: chunk.source_start, end: chunk.source_end }
}

/// The ranges of the first `count` chunks whose files do not load.
pub open spec fn corrupt_ranges(
    chunks: Seq<ChunkRefView>,
    files: Seq<Result<Seq<u8>, Seq<char>>>,
    count: int,
) -> Seq<SourceRange>
    decreases count,
{
    if count <= 0 {
        Seq::empty()
    } else if layered::loaded_chunk(chunks[count - 1], files[count - 1]) is Err {
        corrupt_ranges(chunks, files, count - 1).push(chunk_range(chunks[count - 1]))
    } else {
        corrupt_ranges(chunks, files, count - 1)
    }
}

/// The ranges of the chunks whose files do not load, which a repair rewrites.
pub fn corrupt_chunk_ranges(manifest: &ProjectionManifest, chunk_files: &Vec<FileRead>) -> (ranges:
    Vec<SourceRange>)
    requires
        chunk_files@.len() == manifest@.base_chunks.len(),
    ensures
        ranges@ == corrupt_ranges(
            manifest@.base_chunks,
            layered::file_views(chunk_files@),
            manifest@.base_chunks.len() as int,
        ),
{
    let ghost chunks = manifest@.base_chunks;
    let ghost files = layered::file_views(chunk_files@);
    let mut ranges: Vec<SourceRange> = Vec::new();
    for i in 0..manifest.base_chunks.len()
        invariant
            chunks == manifest@.base_chunks,
            files == layered::file_views(chunk_files@),
            chunk_files@.len() == chunks.len(),
            ranges@ == corrupt_ranges(chunks, files, i as int),
    {
        let chunk: &ManifestChunkRef = &manifest.base_chunks[i];
        assert(chunks[i as int] == chunk@);
        assert(files[i as int] == layered::file_view(chunk_files@[i as int]));
        match layered::read_manifest_chunk(chunk, &chunk_files[i]) {
            Ok(_) => {},
            Err(_) => ranges.push(
                SourceRange { start: chunk.source_start, end: chunk.source_end },
            ),
        }
    }
    ranges
}

// ---------------------------------------------------------------------------
// Law
// ---------------------------------------------------------------------------

/// Reading a base chunk gives the edges of the store that it was built from,
/// with their weights.
pub proof fn lemma_chunk_reads_store(
    store: EdgeStore,
    range: SourceRange,
    sync_watermark: i64,
    source: u32,
)
    requires
        store.wf(),
        range.has(source),
        base_chunk(store, range, sync_watermark) is Ok,
    ensures
        layered::with_durable(
            Map::empty(),
            layered::leads_to(
                layered::with_segment(
                    layered::blank_state(),
                    base_chunk(store, range, sync_watermark)->Ok_0,
                ).out_edges,
                source,
            ),
        ) == layered::leads_to(store.edges@, source),
{
    let chunk = base_chunk(store, range, sync_watermark)->Ok_0;
    let entries = store.edges.entries@;
    let state = layered::with_segment(layered::blank_state(), chunk).out_edges;
    let read = layered::with_durable(Map::empty(), layered::leads_to(state, source));
    let stored = layered::leads_to(store.edges@, source);
    assert forall|key: NeighborKey| #[trigger] read.contains_key(key) <==> stored.contains_key(
        key,
    ) by {
        lemma_chunk_says(store, range, chunk, layered::edge_to(source, key));
    }
    assert forall|key: NeighborKey| #[trigger] read.contains_key(key) implies read[key]
        == stored[key] by {
        lemma_chunk_says(store, range, chunk, layered::edge_to(source, key));
    }
    assert(read =~= stored);
}

/// What a base chunk says of an edge of its range: that it is there if it is in the
/// store, with its weight.
pub proof fn lemma_chunk_says(
    store: EdgeStore,
    range: SourceRange,
    chunk: DeltaSegmentView,
    key: EdgeKey,
)
    requires
        store.wf(),
        range.has(key.source),
        chunk.header.kind is Edge,
        chunk.header.direction is Out,
        chunk.edge_deletes.len() == 0,
        chunk.edge_inserts == chunk_edges(store.edges.entries@, range),
        chunk.edge_weights == chunk_weights(store.edges.entries@, range),
    ensures
        ({
            let state = layered::with_segment(layered::blank_state(), chunk).out_edges;
            &&& state.contains_key(key) <==> store.edges@.contains_key(key)
            &&& state.contains_key(key) ==> state[key] == DurableEdgeState::Present(
                store.edges@[key],
            )
        }),
{
    let entries = store.edges.entries@;
    let row = says::row_of(key);
    says::lemma_segment_says(chunk, key);
    let keep = |entry: (EdgeKey, Option<u32>)| starts_in(entry, range);
    let kept = entries.filter(keep);
    assert(chunk.edge_inserts.contains(row) <==> store.edges@.contains_key(key)) by {
        if chunk.edge_inserts.contains(row) {
            let i = choose|i: int|
                0 <= i < chunk.edge_inserts.len() && chunk.edge_inserts[i] == row;
            layered::lemma_filter_member(entries, keep, i);
            let j = choose|j: int| 0 <= j < entries.len() && entries[j] == kept[i];
            assert(entries[j].0 == key);
            ordered_map::lemma_entry(entries, j);
        }
        if store.edges@.contains_key(key) {
            let j = choose|j: int| ordered_map::entry_at(entries, key, j);
            assert(ordered_map::entry_at(entries, key, j));
            assert(keep(entries[j]));
            entries.lemma_filter_contains(keep, j);
            let i = choose|i: int| 0 <= i < kept.len() && kept[i] == entries[j];
            assert(chunk.edge_inserts[i] == row);
        }
    }
    if store.edges@.contains_key(key) {
        let j = choose|j: int| ordered_map::entry_at(entries, key, j);
        assert(ordered_map::entry_at(entries, key, j));
        ordered_map::lemma_entry(entries, j);
        let heavy = |entry: (EdgeKey, Option<u32>)| starts_in(entry, range) && entry.1 is Some;
        let weighed = entries.filter(heavy);
        assert forall|weight: SegmentEdgeWeight|
            layered::weighs(weight, row) && #[trigger] chunk.edge_weights.contains(
                weight,
            ) implies store.edges@[key] == Some(weight.weight) by {
            let i = choose|i: int|
                0 <= i < chunk.edge_weights.len() && chunk.edge_weights[i] == weight;
            entries.lemma_filter_pred(heavy, i);
            layered::lemma_filter_member(entries, heavy, i);
            let m = choose|m: int| 0 <= m < entries.len() && entries[m] == weighed[i];
            assert(entries[m].0 == key);
            ordered_map::lemma_entry(entries, m);
        }
        if store.edges@[key] is Some {
            assert(heavy(entries[j]));
            entries.lemma_filter_contains(heavy, j);
            let i = choose|i: int| 0 <= i < weighed.len() && weighed[i] == entries[j];
            let weight = weight_of(entries[j]);
            assert(chunk.edge_weights[i] == weight);
            assert(chunk.edge_weights.contains(weight));
            assert(layered::weighs(weight, row));
        }
        says::lemma_weight_in(chunk.edge_weights, row, store.edges@[key]);
    }
}

} // verus!
