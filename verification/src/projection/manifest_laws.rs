//! Which manifests are current, published and kept.
use vstd::prelude::*;

use crate::projection::chunk;
use crate::projection::gc::{self, ManifestFileView};
use crate::projection::generation_laws;
use crate::projection::layered::{self, SourceRange};
use crate::projection::manifest::{self, ChunkRefView, ManifestView};
use crate::projection::recovery;
use crate::projection::status;
use crate::safety::GraphErrorView;

verus! {

// ---------------------------------------------------------------------------
// Active files
// ---------------------------------------------------------------------------

/// Whether a reference names a file below the artifact directory: it is relative, and no
/// component of it is `..`.
pub open spec fn names_inside(reference: Seq<char>) -> bool {
    &&& reference.len() > 0 ==> reference[0] != '/'
    &&& forall|at: int| !manifest::parent_at(reference, at)
}

/// Whether a referenced segment is there.
pub open spec fn segment_is_there(held: ManifestView, present: Seq<bool>, i: int) -> bool {
    names_inside(held.segments[i].path) && present[1 + i]
}

/// Whether a referenced base chunk is there.
pub open spec fn chunk_is_there(held: ManifestView, present: Seq<bool>, i: int) -> bool {
    names_inside(held.base_chunks[i].path) && present[1 + held.segments.len() + i]
}

/// Whether the base artifact and every segment are there.
pub open spec fn base_and_segments_are_there(held: ManifestView, present: Seq<bool>) -> bool {
    &&& names_inside(held.base_artifact_path) && present[0]
    &&& forall|i: int| 0 <= i < held.segments.len() ==> #[trigger] segment_is_there(held, present, i)
}

/// Whether all files that a generation reads are there.
pub open spec fn all_files_are_there(held: ManifestView, present: Seq<bool>) -> bool {
    &&& base_and_segments_are_there(held, present)
    &&& forall|i: int| 0 <= i < held.base_chunks.len() ==> #[trigger] chunk_is_there(held, present, i)
}

proof fn lemma_reference(root: Seq<char>, reference: Seq<char>, label: Seq<char>, present: bool)
    ensures
        manifest::reference_error(root, reference, label, present) is None <==> names_inside(
            reference,
        ) && present,
{
    if manifest::has_parent(reference) {
        let at = choose|at: int| manifest::parent_at(reference, at);
        assert(manifest::parent_at(reference, at));
    }
}

proof fn lemma_segments_there(root: Seq<char>, held: ManifestView, present: Seq<bool>, from: int)
    requires
        0 <= from,
    ensures
        manifest::active_segments_error(root, held.segments, present, from) is None <==> forall|
            i: int,
        |
            from <= i < held.segments.len() ==> #[trigger] segment_is_there(held, present, i),
    decreases held.segments.len() - from,
{
    if from < held.segments.len() {
        lemma_reference(root, held.segments[from].path, "segment"@, present[from + 1]);
        lemma_segments_there(root, held, present, from + 1);
        assert(segment_is_there(held, present, from) <==> manifest::reference_error(
            root,
            held.segments[from].path,
            "segment"@,
            present[from + 1],
        ) is None);
    }
}

proof fn lemma_chunks_there(root: Seq<char>, held: ManifestView, present: Seq<bool>, from: int)
    requires
        0 <= from,
    ensures
        manifest::active_chunks_error(
            root,
            held.base_chunks,
            present,
            1 + held.segments.len() as int,
            from,
        ) is None <==> forall|i: int|
            from <= i < held.base_chunks.len() ==> #[trigger] chunk_is_there(held, present, i),
    decreases held.base_chunks.len() - from,
{
    if from < held.base_chunks.len() {
        let there = present[1 + held.segments.len() + from];
        lemma_reference(root, held.base_chunks[from].path, "base chunk"@, there);
        lemma_chunks_there(root, held, present, from + 1);
        assert(chunk_is_there(held, present, from) <==> manifest::reference_error(
            root,
            held.base_chunks[from].path,
            "base chunk"@,
            there,
        ) is None);
    }
}

proof fn lemma_active(root: Seq<char>, held: ManifestView, present: Seq<bool>)
    ensures
        manifest::active_error(root, held, present) is None <==> all_files_are_there(held, present),
{
    lemma_reference(root, held.base_artifact_path, "base artifact"@, present[0]);
    lemma_segments_there(root, held, present, 0);
    lemma_chunks_there(root, held, present, 0);
}

/// The latest manifest is current, as it is, exactly where it holds the generation of its
/// file and every file that it reads is there.
pub proof fn lemma_current_manifest_has_its_files(
    root: Seq<char>,
    generation_id: u64,
    held: ManifestView,
    present: Seq<bool>,
)
    ensures
        ({
            let current = manifest::current_manifest(root, generation_id, held, present);
            &&& current is Ok <==> held.generation_id == generation_id && all_files_are_there(
                held,
                present,
            )
            &&& current matches Ok(given) ==> given == held
        }),
{
    lemma_active(root, held, present);
}

/// Recovery takes the latest manifest, as it is, exactly where it holds the generation of
/// its file and its base artifact and segments are there; base chunks may be missing.
pub proof fn lemma_recovery_may_lack_chunks(
    root: Seq<char>,
    generation_id: u64,
    held: ManifestView,
    present: Seq<bool>,
)
    ensures
        ({
            let taken = recovery::recovery_manifest(root, generation_id, held, present);
            &&& taken is Ok <==> held.generation_id == generation_id
                && base_and_segments_are_there(held, present)
            &&& taken matches Ok(given) ==> given == held
        }),
{
    let bare = recovery::without_chunks(held);
    lemma_active(root, bare, present);
    assert forall|i: int| #[trigger]
        segment_is_there(bare, present, i) == #[trigger] segment_is_there(held, present, i) by {}
    if base_and_segments_are_there(held, present) {
        assert forall|i: int| 0 <= i < bare.segments.len() implies #[trigger] segment_is_there(
            bare,
            present,
            i,
        ) by {
            assert(segment_is_there(held, present, i));
        }
    }
    if base_and_segments_are_there(bare, present) {
        assert forall|i: int| 0 <= i < held.segments.len() implies #[trigger] segment_is_there(
            held,
            present,
            i,
        ) by {
            assert(segment_is_there(bare, present, i));
        }
    }
}

/// A manifest is published exactly where it is complete, every file that it reads is
/// there and its generation has not been published before.
pub proof fn lemma_generations_are_published_once(
    root: Seq<char>,
    held: ManifestView,
    present: Seq<bool>,
    published: bool,
)
    ensures
        manifest::publish_error(root, held, present, published) is None <==> {
            &&& manifest::manifest_error(held) is None
            &&& all_files_are_there(held, present)
            &&& !published
        },
{
    lemma_active(root, held, present);
}

/// A generation of the base artifact alone is complete where its generation, its artifact
/// and its watermark are; it is current where the artifact is there, follows no other
/// generation and reads nothing else.
pub proof fn lemma_base_generation_reads_the_artifact(
    root: Seq<char>,
    generation_id: u64,
    path: Seq<char>,
    checksum: Seq<char>,
    version: u32,
    watermark: i64,
    created_at_unix_micros: i64,
    present: Seq<bool>,
)
    ensures
        ({
            let base = manifest::base_manifest(
                generation_id,
                path,
                checksum,
                version,
                watermark,
                created_at_unix_micros,
            );
            &&& manifest::manifest_error(base) is None <==> generation_id > 0
                && !manifest::is_blank(path) && !manifest::is_blank(checksum) && watermark >= 0
            &&& manifest::current_manifest(root, generation_id, base, present) is Ok
                <==> names_inside(path) && present[0]
            &&& base.validation_status == "valid"@ && base.previous_generation_id is None
            &&& base.segments.len() == 0 && base.base_chunks.len() == 0
                && base.obsolete_files.len() == 0
            &&& base.base_artifact_path == path && base.base_artifact_checksum == checksum
            &&& base.base_artifact_version == version && base.sync_watermark == watermark
            &&& base.created_at_unix_micros == created_at_unix_micros
        }),
{
    let base = manifest::base_manifest(
        generation_id,
        path,
        checksum,
        version,
        watermark,
        created_at_unix_micros,
    );
    generation_laws::lemma_accepted_manifests_are_complete(base);
    lemma_active(root, base, present);
}

// ---------------------------------------------------------------------------
// Valid manifests
// ---------------------------------------------------------------------------

/// Whether file `i` holds a manifest that is marked valid and has the generation of the
/// file's name.
pub open spec fn counts(files: Seq<ManifestFileView>, i: int) -> bool {
    &&& 0 <= i < files.len()
    &&& files[i].manifest matches Some(held) && held.validation_status == "valid"@
        && manifest::parsed_file_name(files[i].name) == Some(held.generation_id)
}

proof fn lemma_filter_has<T>(items: Seq<T>, kept: spec_fn(T) -> bool, item: T)
    ensures
        items.filter(kept).contains(item) <==> items.contains(item) && kept(item),
{
    if items.filter(kept).contains(item) {
        let i = choose|i: int| 0 <= i < items.filter(kept).len() && items.filter(kept)[i] == item;
        items.lemma_filter_contains_rev(kept, item);
        items.lemma_filter_pred(kept, i);
    }
    if items.contains(item) && kept(item) {
        let i = choose|i: int| 0 <= i < items.len() && items[i] == item;
        items.lemma_filter_contains(kept, i);
    }
}

/// The manifests that garbage collection goes by are exactly the valid ones, the earlier
/// generation first.
pub proof fn lemma_valid_manifests_by_generation(files: Seq<ManifestFileView>)
    ensures
        ({
            let valid = gc::valid_manifests(files);
            &&& forall|held: ManifestView| #[trigger]
                valid.contains(held) <==> exists|i: int|
                    #![trigger counts(files, i)]
                    counts(files, i) && files[i].manifest == Some(held)
            &&& forall|i: int, j: int|
                0 <= i < j < valid.len() ==> (#[trigger] valid[i]).generation_id <= (
                #[trigger] valid[j]).generation_id
        }),
    decreases files.len(),
{
    let valid = gc::valid_manifests(files);
    if files.len() > 0 {
        let init = files.drop_last();
        let last = files.len() - 1;
        let earlier = gc::valid_manifests(init);
        lemma_valid_manifests_by_generation(init);
        assert forall|i: int| 0 <= i < last implies #[trigger] counts(init, i) == counts(
            files,
            i,
        ) by {
            assert(init[i] == files[i]);
        }
        assert(counts(files, last) <==> files[last].manifest is Some && gc::is_valid(
            files[last].name,
            files[last].manifest->Some_0,
        ));
        if counts(files, last) {
            let added = files[last].manifest->Some_0;
            lemma_placed(earlier, added);
            assert(valid == gc::placed(earlier, added));
        }
        assert forall|held: ManifestView| #[trigger] valid.contains(held) implies exists|i: int|
            #![trigger counts(files, i)]
            counts(files, i) && files[i].manifest == Some(held) by {
            if earlier.contains(held) {
                let i = choose|i: int|
                    #![trigger counts(init, i)]
                    counts(init, i) && init[i].manifest == Some(held);
                assert(counts(files, i) && files[i].manifest == Some(held));
            } else {
                assert(counts(files, last) && files[last].manifest == Some(held));
            }
        }
        assert forall|i: int, held: ManifestView|
            counts(files, i) && files[i].manifest == Some(held) implies #[trigger] valid.contains(
            held,
        ) && #[trigger] counts(files, i) by {
            if i < last {
                assert(counts(init, i) && init[i].manifest == Some(held));
                assert(earlier.contains(held));
            }
        }
    }
}

proof fn lemma_placed(list: Seq<ManifestView>, added: ManifestView)
    requires
        forall|i: int, j: int|
            0 <= i < j < list.len() ==> (#[trigger] list[i]).generation_id <= (
            #[trigger] list[j]).generation_id,
    ensures
        ({
            let next = gc::placed(list, added);
            &&& forall|held: ManifestView| #[trigger]
                next.contains(held) <==> list.contains(held) || held == added
            &&& forall|i: int, j: int|
                0 <= i < j < next.len() ==> (#[trigger] next[i]).generation_id <= (
                #[trigger] next[j]).generation_id
        }),
{
    let low = |other: ManifestView| other.generation_id <= added.generation_id;
    let high = |other: ManifestView| other.generation_id > added.generation_id;
    let before = list.filter(low);
    let after = list.filter(high);
    let next = gc::placed(list, added);
    assert(next =~= before.push(added) + after);
    lemma_filter_ordered(list, low);
    lemma_filter_ordered(list, high);
    assert forall|i: int| 0 <= i < before.len() implies (#[trigger] before[i]).generation_id
        <= added.generation_id by {
        list.lemma_filter_pred(low, i);
    }
    assert forall|i: int| 0 <= i < after.len() implies (#[trigger] after[i]).generation_id
        > added.generation_id by {
        list.lemma_filter_pred(high, i);
    }
    assert forall|held: ManifestView| #[trigger] next.contains(held) <==> list.contains(held)
        || held == added by {
        lemma_filter_has(list, low, held);
        lemma_filter_has(list, high, held);
        if next.contains(held) {
            let i = choose|i: int| 0 <= i < next.len() && next[i] == held;
            if i < before.len() {
                assert(before[i] == held);
            } else if i > before.len() {
                assert(after[i - before.len() - 1] == held);
            }
        }
        if held == added {
            assert(next[before.len() as int] == held);
        } else if list.contains(held) {
            if low(held) {
                let i = choose|i: int| 0 <= i < before.len() && before[i] == held;
                assert(next[i] == held);
            } else {
                let i = choose|i: int| 0 <= i < after.len() && after[i] == held;
                assert(next[before.len() + 1 + i] == held);
            }
        }
    }
}

proof fn lemma_filter_ordered(list: Seq<ManifestView>, kept: spec_fn(ManifestView) -> bool)
    requires
        forall|i: int, j: int|
            0 <= i < j < list.len() ==> (#[trigger] list[i]).generation_id <= (
            #[trigger] list[j]).generation_id,
    ensures
        forall|i: int, j: int|
            0 <= i < j < list.filter(kept).len() ==> (#[trigger] list.filter(kept)[i]).generation_id
                <= (#[trigger] list.filter(kept)[j]).generation_id,
    decreases list.len(),
{
    reveal(Seq::filter);
    if list.len() > 0 {
        let init = list.drop_last();
        lemma_filter_ordered(init, kept);
        let inner = init.filter(kept);
        assert forall|i: int| 0 <= i < inner.len() implies (#[trigger] inner[i]).generation_id
            <= list.last().generation_id by {
            init.lemma_filter_contains_rev(kept, inner[i]);
            let k = choose|k: int| 0 <= k < init.len() && init[k] == inner[i];
            assert(list[k] == inner[i]);
        }
    }
}

// ---------------------------------------------------------------------------
// Repair
// ---------------------------------------------------------------------------

/// Whether chunk `i` does not load, and has a range.
pub open spec fn is_bad(
    chunks: Seq<ChunkRefView>,
    files: Seq<Result<Seq<u8>, Seq<char>>>,
    i: int,
    range: SourceRange,
) -> bool {
    &&& layered::loaded_chunk(chunks[i], files[i]) is Err
    &&& chunks[i].source_start == range.start && chunks[i].source_end == range.end
}

/// A repair rewrites exactly the ranges of the chunks that do not load, and a chunk whose
/// file cannot be read is one of them.
pub proof fn lemma_repair_takes_bad_chunks(
    chunks: Seq<ChunkRefView>,
    files: Seq<Result<Seq<u8>, Seq<char>>>,
    count: int,
    range: SourceRange,
)
    requires
        0 <= count <= chunks.len(),
    ensures
        chunk::corrupt_ranges(chunks, files, count).contains(range) <==> exists|i: int|
            0 <= i < count && #[trigger] is_bad(chunks, files, i, range),
        forall|i: int|
            0 <= i < count && (#[trigger] files[i]) is Err ==> chunk::corrupt_ranges(
                chunks,
                files,
                count,
            ).contains(SourceRange { start: chunks[i].source_start, end: chunks[i].source_end }),
    decreases count,
{
    lemma_bad_chunks(chunks, files, count, range);
    assert forall|i: int| 0 <= i < count && (#[trigger] files[i]) is Err implies chunk::corrupt_ranges(
        chunks,
        files,
        count,
    ).contains(SourceRange { start: chunks[i].source_start, end: chunks[i].source_end }) by {
        let own = SourceRange { start: chunks[i].source_start, end: chunks[i].source_end };
        lemma_bad_chunks(chunks, files, count, own);
        assert(is_bad(chunks, files, i, own));
    }
}

proof fn lemma_bad_chunks(
    chunks: Seq<ChunkRefView>,
    files: Seq<Result<Seq<u8>, Seq<char>>>,
    count: int,
    range: SourceRange,
)
    requires
        0 <= count <= chunks.len(),
    ensures
        chunk::corrupt_ranges(chunks, files, count).contains(range) <==> exists|i: int|
            0 <= i < count && #[trigger] is_bad(chunks, files, i, range),
    decreases count,
{
    if count > 0 {
        lemma_bad_chunks(chunks, files, count - 1, range);
        let before = chunk::corrupt_ranges(chunks, files, count - 1);
        let now = chunk::corrupt_ranges(chunks, files, count);
        let own = chunk::chunk_range(chunks[count - 1]);
        if layered::loaded_chunk(chunks[count - 1], files[count - 1]) is Err {
            assert(now == before.push(own));
            if before.contains(range) {
                let k = choose|k: int| 0 <= k < before.len() && before[k] == range;
                assert(now[k] == range);
            }
            if own == range {
                assert(now[before.len() as int] == range);
                assert(is_bad(chunks, files, count - 1, range));
            }
            if now.contains(range) && own != range {
                let k = choose|k: int| 0 <= k < now.len() && now[k] == range;
                assert(before[k] == range);
            }
            if is_bad(chunks, files, count - 1, range) {
                assert(own == range);
            }
        }
    }
}

// ---------------------------------------------------------------------------
// Metadata status
// ---------------------------------------------------------------------------

/// The status by metadata alone recommends repair exactly where the manifest cannot be
/// loaded or is not marked valid, and reads no segment.
pub proof fn lemma_metadata_status_recommends_repair(
    root: Seq<char>,
    loaded: Result<Option<ManifestView>, GraphErrorView>,
    max_sync_log_id: i64,
    active_generation_count: i32,
    compaction_threshold: usize,
    last_gc_unix_micros: Option<i64>,
    segment_lengths: Seq<Option<u64>>,
    chunk_lengths: Seq<Option<u64>>,
)
    ensures
        status::metadata_status(
            root,
            loaded,
            max_sync_log_id,
            active_generation_count,
            compaction_threshold,
            last_gc_unix_micros,
            segment_lengths,
            chunk_lengths,
        ) matches Ok(told) ==> {
            &&& told.repair_recommended <==> match loaded {
                Err(_) => true,
                Ok(None) => false,
                Ok(Some(held)) => held.validation_status != "valid"@,
            }
            &&& told.mutation_rows == 0
            &&& told.active_generation_count == active_generation_count
            &&& loaded matches Ok(Some(held)) ==> told.last_gc_unix_micros == last_gc_unix_micros
            &&& loaded is Err || loaded->Ok_0 is None ==> {
                &&& max_sync_log_id > 0 ==> told.pending_durable_rows == max_sync_log_id
                &&& max_sync_log_id <= 0 ==> told.pending_durable_rows == 0
            }
        },
{
}

} // verus!
