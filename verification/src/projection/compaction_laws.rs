//! A generation reads after compaction what it read before, from its files.
use vstd::prelude::*;

use crate::edge_store::EdgeStore;
use crate::projection::chunk;
use crate::projection::compact::{
    self, CompactedSegment, CompactionBudgets, CompactionPlan, DirtyChunks, LoadedView,
};
use crate::projection::layered::{self, LayeredNeighbors, SourceRange};
use crate::projection::manifest::{ChunkRefView, ManifestView, SegmentRefView};
use crate::projection::preservation::{self, left, taken, takes_in};
use crate::projection::readers;
use crate::projection::replay;
use crate::projection::segment::{self, DeltaSegmentView};
use crate::safety::GraphErrorView;
use crate::types::TraversalDirection;

verus! {

/// What reading a file gives: its bytes, or the text of the error.
pub type Content = Result<Seq<u8>, Seq<char>>;

/// What reading the files of segments gives.
pub open spec fn segment_contents(
    refs: Seq<SegmentRefView>,
    disk: spec_fn(Seq<char>) -> Content,
) -> Seq<Content> {
    refs.map_values(|one: SegmentRefView| disk(one.path))
}

/// What reading the files of base chunks gives.
pub open spec fn chunk_contents(
    refs: Seq<ChunkRefView>,
    disk: spec_fn(Seq<char>) -> Content,
) -> Seq<Content> {
    refs.map_values(|one: ChunkRefView| disk(one.path))
}

/// Whether references load as these segments, one for one.
spec fn segments_load(
    refs: Seq<SegmentRefView>,
    files: Seq<Content>,
    held: Seq<DeltaSegmentView>,
) -> bool {
    &&& held.len() == refs.len()
    &&& forall|i: int|
        0 <= i < refs.len() ==> layered::loaded_segment(refs[i], files[i]) == Ok::<
            _,
            GraphErrorView,
        >(#[trigger] held[i])
}

/// Whether references load as these base chunks, one for one.
spec fn chunks_load(
    refs: Seq<ChunkRefView>,
    files: Seq<Content>,
    held: Seq<DeltaSegmentView>,
) -> bool {
    &&& held.len() == refs.len()
    &&& forall|i: int|
        0 <= i < refs.len() ==> layered::loaded_chunk(refs[i], files[i]) == Ok::<
            _,
            GraphErrorView,
        >(#[trigger] held[i])
}

proof fn lemma_segments_load(
    refs: Seq<SegmentRefView>,
    files: Seq<Content>,
    from: int,
    done: Seq<DeltaSegmentView>,
)
    requires
        0 <= from <= refs.len(),
        done.len() == from,
        layered::loaded_segments(refs, files, from, done) is Ok,
    ensures
        ({
            let held = layered::loaded_segments(refs, files, from, done)->Ok_0;
            &&& held.len() == refs.len()
            &&& forall|i: int| 0 <= i < from ==> #[trigger] held[i] == done[i]
            &&& forall|i: int|
                from <= i < refs.len() ==> layered::loaded_segment(refs[i], files[i]) == Ok::<
                    _,
                    GraphErrorView,
                >(#[trigger] held[i])
        }),
    decreases refs.len() - from,
{
    if from < refs.len() {
        let next = layered::loaded_segment(refs[from], files[from])->Ok_0;
        lemma_segments_load(refs, files, from + 1, done.push(next));
        let held = layered::loaded_segments(refs, files, from, done)->Ok_0;
        assert forall|i: int| 0 <= i < from implies #[trigger] held[i] == done[i] by {
            assert(held[i] == done.push(next)[i]);
        }
        assert(held[from] == done.push(next)[from]);
    }
}

proof fn lemma_load_segments(
    refs: Seq<SegmentRefView>,
    files: Seq<Content>,
    from: int,
    held: Seq<DeltaSegmentView>,
)
    requires
        0 <= from <= refs.len(),
        segments_load(refs, files, held),
    ensures
        layered::loaded_segments(refs, files, from, held.take(from)) == Ok::<_, GraphErrorView>(
            held,
        ),
    decreases refs.len() - from,
{
    if from < refs.len() {
        lemma_load_segments(refs, files, from + 1, held);
        assert(layered::loaded_segment(refs[from], files[from]) == Ok::<_, GraphErrorView>(
            held[from],
        ));
        assert(held.take(from).push(held[from]) =~= held.take(from + 1));
    } else {
        assert(held.take(from) =~= held);
    }
}

proof fn lemma_chunks_load(
    refs: Seq<ChunkRefView>,
    files: Seq<Content>,
    from: int,
    done: Seq<DeltaSegmentView>,
)
    requires
        0 <= from <= refs.len(),
        done.len() == from,
        layered::loaded_chunks(refs, files, from, done) is Ok,
    ensures
        ({
            let held = layered::loaded_chunks(refs, files, from, done)->Ok_0;
            &&& held.len() == refs.len()
            &&& forall|i: int| 0 <= i < from ==> #[trigger] held[i] == done[i]
            &&& forall|i: int|
                from <= i < refs.len() ==> layered::loaded_chunk(refs[i], files[i]) == Ok::<
                    _,
                    GraphErrorView,
                >(#[trigger] held[i])
        }),
    decreases refs.len() - from,
{
    if from < refs.len() {
        let next = layered::loaded_chunk(refs[from], files[from])->Ok_0;
        lemma_chunks_load(refs, files, from + 1, done.push(next));
        let held = layered::loaded_chunks(refs, files, from, done)->Ok_0;
        assert forall|i: int| 0 <= i < from implies #[trigger] held[i] == done[i] by {
            assert(held[i] == done.push(next)[i]);
        }
        assert(held[from] == done.push(next)[from]);
    }
}

proof fn lemma_load_chunks(
    refs: Seq<ChunkRefView>,
    files: Seq<Content>,
    from: int,
    held: Seq<DeltaSegmentView>,
)
    requires
        0 <= from <= refs.len(),
        chunks_load(refs, files, held),
    ensures
        layered::loaded_chunks(refs, files, from, held.take(from)) == Ok::<_, GraphErrorView>(held),
    decreases refs.len() - from,
{
    if from < refs.len() {
        lemma_load_chunks(refs, files, from + 1, held);
        assert(layered::loaded_chunk(refs[from], files[from]) == Ok::<_, GraphErrorView>(
            held[from],
        ));
        assert(held.take(from).push(held[from]) =~= held.take(from + 1));
    } else {
        assert(held.take(from) =~= held);
    }
}

/// Two sequences of which the same places are kept stay parallel.
proof fn lemma_filter_parallel<A, B>(
    a: Seq<A>,
    b: Seq<B>,
    keep_a: spec_fn(A) -> bool,
    keep_b: spec_fn(B) -> bool,
)
    requires
        a.len() == b.len(),
        forall|i: int| 0 <= i < a.len() ==> keep_a(#[trigger] a[i]) == keep_b(b[i]),
    ensures
        a.filter(keep_a).len() == b.filter(keep_b).len(),
        forall|k: int|
            0 <= k < a.filter(keep_a).len() ==> exists|i: int|
                0 <= i < a.len() && a[i] == #[trigger] a.filter(keep_a)[k] && b[i] == b.filter(
                    keep_b,
                )[k],
    decreases a.len(),
{
    reveal(Seq::filter);
    if a.len() > 0 {
        let last = a.len() - 1;
        let init_a = a.drop_last();
        let init_b = b.drop_last();
        assert forall|i: int| 0 <= i < init_a.len() implies keep_a(#[trigger] init_a[i]) == keep_b(
            init_b[i],
        ) by {
            assert(init_a[i] == a[i]);
        }
        lemma_filter_parallel(init_a, init_b, keep_a, keep_b);
        assert(keep_a(a[last]) == keep_b(b[last]));
        assert forall|k: int| 0 <= k < a.filter(keep_a).len() implies exists|i: int|
            0 <= i < a.len() && a[i] == #[trigger] a.filter(keep_a)[k] && b[i] == b.filter(
                keep_b,
            )[k] by {
            if k < init_a.filter(keep_a).len() {
                let i = choose|i: int|
                    0 <= i < init_a.len() && init_a[i] == init_a.filter(keep_a)[k] && init_b[i]
                        == init_b.filter(keep_b)[k];
                assert(a[i] == init_a[i] && b[i] == init_b[i]);
            } else {
                assert(a[last] == a.filter(keep_a)[k]);
            }
        }
    }
}

/// Whether all segments have files of their own.
pub open spec fn paths_differ(refs: Seq<SegmentRefView>) -> bool {
    forall|i: int, j: int|
        0 <= i < j < refs.len() ==> (#[trigger] refs[i]).path != (#[trigger] refs[j]).path
}

/// Whether references name the levels of their segments.
pub open spec fn levels_named(refs: Seq<SegmentRefView>, held: Seq<DeltaSegmentView>) -> bool {
    forall|i: int| 0 <= i < refs.len() ==> (#[trigger] refs[i]).level == held[i].header.level
}

/// The edge segments that compaction loads are those that it takes in, each with its
/// reference.
proof fn lemma_edge_segments(
    refs: Seq<SegmentRefView>,
    files: Seq<Content>,
    held: Seq<DeltaSegmentView>,
    from: int,
    done: Seq<LoadedView>,
)
    requires
        0 <= from <= refs.len(),
        segments_load(refs, files, held),
        levels_named(refs, held),
        takes_in(held.take(from), done),
        forall|k: int|
            0 <= k < done.len() ==> exists|i: int|
                0 <= i < from && #[trigger] refs[i] == (#[trigger] done[k]).reference && taken(
                    held[i],
                ),
        forall|i: int|
            0 <= i < from && taken(held[i]) ==> exists|k: int|
                0 <= k < done.len() && (#[trigger] done[k]).reference == #[trigger] refs[i],
    ensures
        compact::edge_segments_of(refs, files, from, done) is Ok,
        ({
            let loaded = compact::edge_segments_of(refs, files, from, done)->Ok_0;
            &&& takes_in(held, loaded)
            &&& forall|k: int|
                0 <= k < loaded.len() ==> exists|i: int|
                    0 <= i < refs.len() && #[trigger] refs[i] == (#[trigger] loaded[k]).reference
                        && taken(held[i])
            &&& forall|i: int|
                0 <= i < refs.len() && taken(held[i]) ==> exists|k: int|
                    0 <= k < loaded.len() && (#[trigger] loaded[k]).reference == #[trigger] refs[i]
        }),
    decreases refs.len() - from,
{
    if from < refs.len() {
        assert(layered::loaded_segment(refs[from], files[from]) == Ok::<_, GraphErrorView>(
            held[from],
        ));
        assert(refs[from].level == held[from].header.level);
        let one = LoadedView { reference: refs[from], segment: held[from] };
        let next = if taken(held[from]) {
            done.push(one)
        } else {
            done
        };
        assert(takes_in(held.take(from + 1), next)) by {
            reveal(Seq::filter);
            assert(held.take(from + 1).drop_last() =~= held.take(from));
            let before = done.map_values(|one: LoadedView| one.segment);
            let after = next.map_values(|one: LoadedView| one.segment);
            if taken(held[from]) {
                assert(after =~= before.push(held[from]));
            }
        }
        assert forall|k: int| 0 <= k < next.len() implies exists|i: int|
            0 <= i < from + 1 && #[trigger] refs[i] == (#[trigger] next[k]).reference && taken(
                held[i],
            ) by {
            if k < done.len() {
                assert(next[k] == done[k]);
                let i = choose|i: int|
                    0 <= i < from && #[trigger] refs[i] == done[k].reference && taken(held[i]);
                assert(refs[i] == next[k].reference);
            } else {
                assert(refs[from] == next[k].reference);
            }
        }
        assert forall|i: int| 0 <= i < from + 1 && taken(held[i]) implies exists|k: int|
            0 <= k < next.len() && (#[trigger] next[k]).reference == #[trigger] refs[i] by {
            if i < from {
                let k = choose|k: int|
                    0 <= k < done.len() && (#[trigger] done[k]).reference == refs[i];
                assert(next[k] == done[k]);
            } else {
                assert(next[done.len() as int].reference == refs[i]);
            }
        }
        lemma_edge_segments(refs, files, held, from + 1, next);
    } else {
        assert(held.take(from) =~= held);
    }
}

/// The references that compaction leaves are those of the segments that it leaves.
pub proof fn lemma_retained_parallel(
    refs: Seq<SegmentRefView>,
    disk: spec_fn(Seq<char>) -> Content,
    held: Seq<DeltaSegmentView>,
    loaded: Seq<LoadedView>,
)
    requires
        layered::loaded_segments(refs, segment_contents(refs, disk), 0, Seq::empty()) == Ok::<
            _,
            GraphErrorView,
        >(held),
        levels_named(refs, held),
        paths_differ(refs),
        compact::edge_segments_of(refs, segment_contents(refs, disk), 0, Seq::empty()) == Ok::<
            _,
            GraphErrorView,
        >(loaded),
    ensures
        takes_in(held, loaded),
        compact::retained(refs, loaded).len() == left(held).len(),
        forall|k: int|
            0 <= k < left(held).len() ==> exists|i: int|
                0 <= i < refs.len() && #[trigger] refs[i] == compact::retained(refs, loaded)[k]
                    && held[i] == #[trigger] left(held)[k],
{
    let files = segment_contents(refs, disk);
    lemma_segments_load(refs, files, 0, Seq::empty());
    assert(takes_in(held.take(0), Seq::<LoadedView>::empty())) by {
        reveal(Seq::filter);
        assert(Seq::<LoadedView>::empty().map_values(|one: LoadedView| one.segment)
            =~= held.take(0).filter(|one: DeltaSegmentView| taken(one)));
    }
    lemma_edge_segments(refs, files, held, 0, Seq::empty());
    let keep = |one: SegmentRefView| !compact::is_compacted(loaded, one.path);
    let stays = |one: DeltaSegmentView| !taken(one);
    assert forall|i: int| 0 <= i < refs.len() implies keep(#[trigger] refs[i]) == stays(held[i]) by {
        if taken(held[i]) {
            let k = choose|k: int|
                0 <= k < loaded.len() && (#[trigger] loaded[k]).reference == refs[i];
            assert(loaded[k].reference.path == refs[i].path);
        } else if compact::is_compacted(loaded, refs[i].path) {
            let k = choose|k: int|
                0 <= k < loaded.len() && (#[trigger] loaded[k]).reference.path == refs[i].path;
            let j = choose|j: int|
                0 <= j < refs.len() && #[trigger] refs[j] == loaded[k].reference && taken(held[j]);
            if j < i {
                assert(refs[j].path != refs[i].path);
            } else if i < j {
                assert(refs[i].path != refs[j].path);
            }
        }
    }
    lemma_filter_parallel(refs, held, keep, stays);
    assert forall|k: int| 0 <= k < left(held).len() implies exists|i: int|
        0 <= i < refs.len() && #[trigger] refs[i] == compact::retained(refs, loaded)[k] && held[i]
            == #[trigger] left(held)[k] by {
        let i = choose|i: int|
            0 <= i < refs.len() && refs[i] == refs.filter(keep)[k] && held[i] == held.filter(
                stays,
            )[k];
        assert(refs[i] == compact::retained(refs, loaded)[k]);
    }
}

/// The references that compaction leaves load as the segments that it leaves.
proof fn lemma_retained_load(
    refs: Seq<SegmentRefView>,
    disk: spec_fn(Seq<char>) -> Content,
    held: Seq<DeltaSegmentView>,
    loaded: Seq<LoadedView>,
)
    requires
        layered::loaded_segments(refs, segment_contents(refs, disk), 0, Seq::empty()) == Ok::<
            _,
            GraphErrorView,
        >(held),
        levels_named(refs, held),
        paths_differ(refs),
        compact::edge_segments_of(refs, segment_contents(refs, disk), 0, Seq::empty()) == Ok::<
            _,
            GraphErrorView,
        >(loaded),
    ensures
        takes_in(held, loaded),
        segments_load(
            compact::retained(refs, loaded),
            segment_contents(compact::retained(refs, loaded), disk),
            left(held),
        ),
{
    let files = segment_contents(refs, disk);
    lemma_segments_load(refs, files, 0, Seq::empty());
    lemma_retained_parallel(refs, disk, held, loaded);
    let rest = compact::retained(refs, loaded);
    let contents = segment_contents(rest, disk);
    assert forall|k: int| 0 <= k < rest.len() implies layered::loaded_segment(rest[k], contents[k])
        == Ok::<_, GraphErrorView>(#[trigger] left(held)[k]) by {
        let i = choose|i: int|
            0 <= i < refs.len() && #[trigger] refs[i] == rest[k] && held[i] == left(held)[k];
        assert(layered::loaded_segment(refs[i], files[i]) == Ok::<_, GraphErrorView>(held[i]));
    }
}

/// Whether the rows of incoming segments start at nodes: below the greatest index.
pub open spec fn sources_are_nodes(held: Seq<DeltaSegmentView>) -> bool {
    forall|i: int|
        0 <= i < held.len() && (#[trigger] held[i]).header.direction is In ==> {
            &&& forall|k: int|
                0 <= k < held[i].edge_inserts.len() ==> (#[trigger] held[i].edge_inserts[k]).target
                    < u32::MAX
            &&& forall|k: int|
                0 <= k < held[i].edge_deletes.len() ==> (#[trigger] held[i].edge_deletes[k]).target
                    < u32::MAX
        }
}

proof fn lemma_loaded_valid(
    refs: Seq<SegmentRefView>,
    files: Seq<Content>,
    held: Seq<DeltaSegmentView>,
)
    requires
        segments_load(refs, files, held),
        sources_are_nodes(held),
    ensures
        forall|i: int|
            0 <= i < held.len() ==> preservation::valid_segment(#[trigger] held[i]),
{
    assert forall|i: int| 0 <= i < held.len() implies preservation::valid_segment(
        #[trigger] held[i],
    ) by {
        assert(layered::loaded_segment(refs[i], files[i]) == Ok::<_, GraphErrorView>(held[i]));
        segment::lemma_parsed_valid(files[i]->Ok_0);
    }
}

proof fn lemma_loaded_chunks_valid(
    refs: Seq<ChunkRefView>,
    files: Seq<Content>,
    held: Seq<DeltaSegmentView>,
)
    requires
        chunks_load(refs, files, held),
    ensures
        forall|i: int| 0 <= i < held.len() ==> preservation::valid_chunk(#[trigger] held[i]),
        preservation::chunks_named(held, refs),
{
    assert forall|i: int| 0 <= i < held.len() implies preservation::valid_chunk(#[trigger] held[i])
        && preservation::chunk_span(held[i]) == chunk::chunk_range(refs[i]) by {
        assert(layered::loaded_chunk(refs[i], files[i]) == Ok::<_, GraphErrorView>(held[i]));
        preservation::lemma_loaded_chunk_valid(refs[i], files[i]);
    }
}

/// The generation that references the segments that stay and the written segment
/// loads as the outcome of compaction into a segment. Segments have files of their own
/// and their references name their levels, as publications write them.
pub proof fn lemma_compacted_generation_loads(
    previous: ManifestView,
    disk: spec_fn(Seq<char>) -> Content,
    base: EdgeStore,
    budgets: CompactionBudgets,
    plan: CompactedSegment,
    loaded: Seq<LoadedView>,
    chunks: Seq<DeltaSegmentView>,
    segments: Seq<DeltaSegmentView>,
    reference: SegmentRefView,
    bytes: Seq<u8>,
    before: LayeredNeighbors,
    after: LayeredNeighbors,
)
    requires
        previous.segments.len() < usize::MAX,
        previous.base_chunks.len() <= usize::MAX,
        paths_differ(previous.segments),
        levels_named(previous.segments, segments),
        sources_are_nodes(segments),
        preservation::apart(segments),
        layered::loaded_chunks(
            previous.base_chunks,
            chunk_contents(previous.base_chunks, disk),
            0,
            Seq::empty(),
        ) == Ok::<_, GraphErrorView>(chunks),
        layered::loaded_segments(
            previous.segments,
            segment_contents(previous.segments, disk),
            0,
            Seq::empty(),
        ) == Ok::<_, GraphErrorView>(segments),
        compact::edge_segments_of(
            previous.segments,
            segment_contents(previous.segments, disk),
            0,
            Seq::empty(),
        ) == Ok::<_, GraphErrorView>(loaded),
        compact::is_plan(
            CompactionPlan::Segment(plan),
            previous,
            loaded,
            before,
            base,
            budgets,
        ),
        layered::loaded_segment(reference, Ok(bytes)) == Ok::<_, GraphErrorView>(
            segment::sealed(plan.segment@, bytes),
        ),
        preservation::plain_source(before),
        preservation::plain_source(after),
        before.layers(&base, None, chunks, segments, None),
        layered::loaded_segments(
            compact::retained(previous.segments, loaded).push(reference),
            segment_contents(compact::retained(previous.segments, loaded), disk).push(Ok(bytes)),
            0,
            Seq::empty(),
        ) matches Ok(held) ==> after.layers(&base, None, chunks, held, None),
    ensures
        preservation::is_compaction(
            before,
            after,
            plan,
            segment::sealed(plan.segment@, bytes),
            previous,
            loaded,
            base,
            budgets,
            chunks,
            segments,
        ),
        layered::loaded_segments(
            compact::retained(previous.segments, loaded).push(reference),
            segment_contents(compact::retained(previous.segments, loaded), disk).push(Ok(bytes)),
            0,
            Seq::empty(),
        ) == Ok::<_, GraphErrorView>(left(segments).push(segment::sealed(plan.segment@, bytes))),
{
    let refs = previous.segments;
    let files = segment_contents(refs, disk);
    lemma_segments_load(refs, files, 0, Seq::empty());
    lemma_chunks_load(
        previous.base_chunks,
        chunk_contents(previous.base_chunks, disk),
        0,
        Seq::empty(),
    );
    lemma_loaded_valid(refs, files, segments);
    lemma_loaded_chunks_valid(
        previous.base_chunks,
        chunk_contents(previous.base_chunks, disk),
        chunks,
    );
    lemma_retained_load(refs, disk, segments, loaded);
    let rest = compact::retained(refs, loaded);
    let contents = segment_contents(rest, disk);
    let written = segment::sealed(plan.segment@, bytes);
    let held = left(segments).push(written);
    assert(segments_load(rest.push(reference), contents.push(Ok(bytes)), held)) by {
        let more = rest.push(reference);
        let all = contents.push(Ok(bytes));
        assert forall|i: int| 0 <= i < more.len() implies layered::loaded_segment(more[i], all[i])
            == Ok::<_, GraphErrorView>(#[trigger] held[i]) by {
            if i < rest.len() {
                assert(held[i] == left(segments)[i]);
            }
        }
    }
    lemma_load_segments(rest.push(reference), contents.push(Ok(bytes)), 0, held);
    assert(held.take(0) =~= Seq::<DeltaSegmentView>::empty());
    assert(replay::written_as(plan.segment@, written));
}

/// Compaction into a segment preserves what a generation reads from its files: the
/// generation that references the segments that stay and the written segment reads
/// what the generation before it read, in both directions unless of two opposite
/// edges that read differently the other one shows. Segments have files of their own
/// and their references name their levels, as publications write them.
pub proof fn lemma_compacted_generation_reads_alike(
    previous: ManifestView,
    disk: spec_fn(Seq<char>) -> Content,
    base: EdgeStore,
    budgets: CompactionBudgets,
    plan: CompactedSegment,
    loaded: Seq<LoadedView>,
    chunks: Seq<DeltaSegmentView>,
    segments: Seq<DeltaSegmentView>,
    reference: SegmentRefView,
    bytes: Seq<u8>,
    before: LayeredNeighbors,
    after: LayeredNeighbors,
    direction: TraversalDirection,
    node: u32,
)
    requires
        previous.segments.len() < usize::MAX,
        previous.base_chunks.len() <= usize::MAX,
        paths_differ(previous.segments),
        levels_named(previous.segments, segments),
        sources_are_nodes(segments),
        preservation::apart(segments),
        layered::loaded_chunks(
            previous.base_chunks,
            chunk_contents(previous.base_chunks, disk),
            0,
            Seq::empty(),
        ) == Ok::<_, GraphErrorView>(chunks),
        layered::loaded_segments(
            previous.segments,
            segment_contents(previous.segments, disk),
            0,
            Seq::empty(),
        ) == Ok::<_, GraphErrorView>(segments),
        compact::edge_segments_of(
            previous.segments,
            segment_contents(previous.segments, disk),
            0,
            Seq::empty(),
        ) == Ok::<_, GraphErrorView>(loaded),
        compact::is_plan(
            CompactionPlan::Segment(plan),
            previous,
            loaded,
            before,
            base,
            budgets,
        ),
        layered::loaded_segment(reference, Ok(bytes)) == Ok::<_, GraphErrorView>(
            segment::sealed(plan.segment@, bytes),
        ),
        preservation::plain_source(before),
        preservation::plain_source(after),
        before.layers(&base, None, chunks, segments, None),
        layered::loaded_segments(
            compact::retained(previous.segments, loaded).push(reference),
            segment_contents(compact::retained(previous.segments, loaded), disk).push(Ok(bytes)),
            0,
            Seq::empty(),
        ) matches Ok(held) ==> after.layers(&base, None, chunks, held, None),
        direction is Any ==> preservation::same_edges_show(before, after, node),
    ensures
        after.rows(direction, node) == before.rows(direction, node),
{
    lemma_compacted_generation_loads(
        previous,
        disk,
        base,
        budgets,
        plan,
        loaded,
        chunks,
        segments,
        reference,
        bytes,
        before,
        after,
    );
    preservation::lemma_compaction_preserves_reads(
        before,
        after,
        plan,
        segment::sealed(plan.segment@, bytes),
        previous,
        loaded,
        base,
        budgets,
        chunks,
        segments,
        direction,
        node,
    );
}

/// What `lemma_compacted_generation_reads_alike` says holds of every reader: one that
/// is limited to a tenant, reads incoming edges from a reverse base, or has committed
/// overlays and a transaction on top of the generation.
pub proof fn lemma_readers_of_compacted_generation_read_alike(
    previous: ManifestView,
    disk: spec_fn(Seq<char>) -> Content,
    base: EdgeStore,
    budgets: CompactionBudgets,
    plan: CompactedSegment,
    loaded: Seq<LoadedView>,
    chunks: Seq<DeltaSegmentView>,
    segments: Seq<DeltaSegmentView>,
    reference: SegmentRefView,
    bytes: Seq<u8>,
    before: LayeredNeighbors,
    after: LayeredNeighbors,
    direction: TraversalDirection,
    node: u32,
    seen_before: LayeredNeighbors,
    seen_after: LayeredNeighbors,
)
    requires
        previous.segments.len() < usize::MAX,
        previous.base_chunks.len() <= usize::MAX,
        paths_differ(previous.segments),
        levels_named(previous.segments, segments),
        sources_are_nodes(segments),
        preservation::apart(segments),
        layered::loaded_chunks(
            previous.base_chunks,
            chunk_contents(previous.base_chunks, disk),
            0,
            Seq::empty(),
        ) == Ok::<_, GraphErrorView>(chunks),
        layered::loaded_segments(
            previous.segments,
            segment_contents(previous.segments, disk),
            0,
            Seq::empty(),
        ) == Ok::<_, GraphErrorView>(segments),
        compact::edge_segments_of(
            previous.segments,
            segment_contents(previous.segments, disk),
            0,
            Seq::empty(),
        ) == Ok::<_, GraphErrorView>(loaded),
        compact::is_plan(
            CompactionPlan::Segment(plan),
            previous,
            loaded,
            before,
            base,
            budgets,
        ),
        layered::loaded_segment(reference, Ok(bytes)) == Ok::<_, GraphErrorView>(
            segment::sealed(plan.segment@, bytes),
        ),
        preservation::plain_source(before),
        preservation::plain_source(after),
        before.layers(&base, None, chunks, segments, None),
        layered::loaded_segments(
            compact::retained(previous.segments, loaded).push(reference),
            segment_contents(compact::retained(previous.segments, loaded), disk).push(Ok(bytes)),
            0,
            Seq::empty(),
        ) matches Ok(held) ==> after.layers(&base, None, chunks, held, None),
        direction is Any ==> preservation::same_edges_show(before, after, node),
        readers::same_reader(seen_before, seen_after),
        readers::reads_generation(seen_before, base, chunks, segments),
        layered::loaded_segments(
            compact::retained(previous.segments, loaded).push(reference),
            segment_contents(compact::retained(previous.segments, loaded), disk).push(Ok(bytes)),
            0,
            Seq::empty(),
        ) matches Ok(held) ==> readers::reads_generation(seen_after, base, chunks, held),
    ensures
        seen_after.rows(direction, node) == seen_before.rows(direction, node),
{
    lemma_compacted_generation_loads(
        previous,
        disk,
        base,
        budgets,
        plan,
        loaded,
        chunks,
        segments,
        reference,
        bytes,
        before,
        after,
    );
    readers::lemma_compaction_preserves_reads_of_readers(
        before,
        after,
        plan,
        segment::sealed(plan.segment@, bytes),
        previous,
        loaded,
        base,
        budgets,
        chunks,
        segments,
        direction,
        node,
        seen_before,
        seen_after,
    );
}

/// Chunks as they were written.
pub open spec fn sealed_chunks(
    plan: DirtyChunks,
    sync_watermark: i64,
    images: Seq<Seq<u8>>,
) -> Seq<DeltaSegmentView> {
    Seq::new(
        images.len(),
        |i: int| segment::sealed(preservation::written_chunks(plan, sync_watermark)[i], images[i]),
    )
}

/// The generation that references the segments and chunks that stay and the written
/// chunks loads as the outcome of compaction into base chunks. Segments have files of
/// their own and their references name their levels, and base chunks have ranges of
/// their own, as publications write them.
pub proof fn lemma_rewritten_generation_loads(
    previous: ManifestView,
    disk: spec_fn(Seq<char>) -> Content,
    base: EdgeStore,
    budgets: CompactionBudgets,
    plan: DirtyChunks,
    loaded: Seq<LoadedView>,
    chunks: Seq<DeltaSegmentView>,
    segments: Seq<DeltaSegmentView>,
    refs: Seq<ChunkRefView>,
    contents: Seq<Content>,
    images: Seq<Seq<u8>>,
    before: LayeredNeighbors,
    after: LayeredNeighbors,
)
    requires
        base.wf(),
        previous.segments.len() <= usize::MAX,
        previous.base_chunks.len() + plan.ranges@.len() <= usize::MAX,
        previous.sync_watermark >= 0,
        paths_differ(previous.segments),
        levels_named(previous.segments, segments),
        sources_are_nodes(segments),
        preservation::apart(segments),
        preservation::chunks_apart(chunks),
        layered::loaded_chunks(
            previous.base_chunks,
            chunk_contents(previous.base_chunks, disk),
            0,
            Seq::empty(),
        ) == Ok::<_, GraphErrorView>(chunks),
        layered::loaded_segments(
            previous.segments,
            segment_contents(previous.segments, disk),
            0,
            Seq::empty(),
        ) == Ok::<_, GraphErrorView>(segments),
        compact::edge_segments_of(
            previous.segments,
            segment_contents(previous.segments, disk),
            0,
            Seq::empty(),
        ) == Ok::<_, GraphErrorView>(loaded),
        compact::is_plan(CompactionPlan::Chunks(plan), previous, loaded, before, base, budgets),
        refs.len() == plan.ranges@.len(),
        contents.len() == refs.len(),
        images.len() == refs.len(),
        forall|i: int|
            0 <= i < refs.len() ==> layered::loaded_chunk(#[trigger] refs[i], contents[i])
                == Ok::<_, GraphErrorView>(
                segment::sealed(
                    preservation::written_chunks(plan, previous.sync_watermark)[i],
                    images[i],
                ),
            ),
        preservation::plain_source(before),
        preservation::plain_source(after),
        before.layers(&base, None, chunks, segments, None),
        (
            layered::loaded_chunks(
                chunk::kept_chunks(previous.base_chunks, plan.ranges@) + refs,
                chunk_contents(chunk::kept_chunks(previous.base_chunks, plan.ranges@), disk)
                    + contents,
                0,
                Seq::empty(),
            ),
            layered::loaded_segments(
                compact::retained(previous.segments, loaded),
                segment_contents(compact::retained(previous.segments, loaded), disk),
                0,
                Seq::empty(),
            ),
        ) matches (Ok(held_chunks), Ok(held)) ==> after.layers(
            &base,
            None,
            held_chunks,
            held,
            None,
        ),
    ensures
        preservation::is_rewrite(
            before,
            after,
            plan,
            sealed_chunks(plan, previous.sync_watermark, images),
            previous,
            loaded,
            base,
            budgets,
            chunks,
            segments,
        ),
        layered::loaded_chunks(
            chunk::kept_chunks(previous.base_chunks, plan.ranges@) + refs,
            chunk_contents(chunk::kept_chunks(previous.base_chunks, plan.ranges@), disk)
                + contents,
            0,
            Seq::empty(),
        ) == Ok::<_, GraphErrorView>(
            preservation::unchanged_chunks(chunks, plan.ranges@) + sealed_chunks(
                plan,
                previous.sync_watermark,
                images,
            ),
        ),
        layered::loaded_segments(
            compact::retained(previous.segments, loaded),
            segment_contents(compact::retained(previous.segments, loaded), disk),
            0,
            Seq::empty(),
        ) == Ok::<_, GraphErrorView>(left(segments)),
{
    let files = segment_contents(previous.segments, disk);
    let named = previous.base_chunks;
    let ranges = plan.ranges@;
    lemma_segments_load(previous.segments, files, 0, Seq::empty());
    lemma_chunks_load(named, chunk_contents(named, disk), 0, Seq::empty());
    lemma_loaded_valid(previous.segments, files, segments);
    lemma_loaded_chunks_valid(named, chunk_contents(named, disk), chunks);
    lemma_retained_load(previous.segments, disk, segments, loaded);
    let rest = compact::retained(previous.segments, loaded);
    lemma_load_segments(rest, segment_contents(rest, disk), 0, left(segments));
    assert(left(segments).take(0) =~= Seq::<DeltaSegmentView>::empty());
    let written = sealed_chunks(plan, previous.sync_watermark, images);
    lemma_kept_chunks_load(named, disk, chunks, ranges);
    let kept = chunk::kept_chunks(named, ranges);
    let stay = preservation::unchanged_chunks(chunks, ranges);
    let all_refs = kept + refs;
    let all_files = chunk_contents(kept, disk) + contents;
    let all = stay + written;
    assert forall|i: int| 0 <= i < all_refs.len() implies layered::loaded_chunk(
        all_refs[i],
        all_files[i],
    ) == Ok::<_, GraphErrorView>(#[trigger] all[i]) by {
        if i < kept.len() {
            assert(all[i] == stay[i]);
        } else {
            let j = i - kept.len();
            assert(all_refs[i] == refs[j]);
            assert(layered::loaded_chunk(refs[j], contents[j]) == Ok::<_, GraphErrorView>(
                written[j],
            ));
        }
    }
    lemma_load_chunks(all_refs, all_files, 0, all);
    assert(all.take(0) =~= Seq::<DeltaSegmentView>::empty());
}

/// Compaction into base chunks preserves what a generation reads from its files: the
/// generation that references the segments and chunks that stay and the written
/// chunks reads what the generation before it read, in both directions unless of two
/// opposite edges that read differently the other one shows. Segments have files of
/// their own and their references name their levels, and base chunks have ranges of
/// their own, as publications write them.
pub proof fn lemma_rewritten_generation_reads_alike(
    previous: ManifestView,
    disk: spec_fn(Seq<char>) -> Content,
    base: EdgeStore,
    budgets: CompactionBudgets,
    plan: DirtyChunks,
    loaded: Seq<LoadedView>,
    chunks: Seq<DeltaSegmentView>,
    segments: Seq<DeltaSegmentView>,
    refs: Seq<ChunkRefView>,
    contents: Seq<Content>,
    images: Seq<Seq<u8>>,
    before: LayeredNeighbors,
    after: LayeredNeighbors,
    direction: TraversalDirection,
    node: u32,
)
    requires
        base.wf(),
        previous.segments.len() <= usize::MAX,
        previous.base_chunks.len() + plan.ranges@.len() <= usize::MAX,
        previous.sync_watermark >= 0,
        paths_differ(previous.segments),
        levels_named(previous.segments, segments),
        sources_are_nodes(segments),
        preservation::apart(segments),
        preservation::chunks_apart(chunks),
        layered::loaded_chunks(
            previous.base_chunks,
            chunk_contents(previous.base_chunks, disk),
            0,
            Seq::empty(),
        ) == Ok::<_, GraphErrorView>(chunks),
        layered::loaded_segments(
            previous.segments,
            segment_contents(previous.segments, disk),
            0,
            Seq::empty(),
        ) == Ok::<_, GraphErrorView>(segments),
        compact::edge_segments_of(
            previous.segments,
            segment_contents(previous.segments, disk),
            0,
            Seq::empty(),
        ) == Ok::<_, GraphErrorView>(loaded),
        compact::is_plan(CompactionPlan::Chunks(plan), previous, loaded, before, base, budgets),
        refs.len() == plan.ranges@.len(),
        contents.len() == refs.len(),
        images.len() == refs.len(),
        forall|i: int|
            0 <= i < refs.len() ==> layered::loaded_chunk(#[trigger] refs[i], contents[i])
                == Ok::<_, GraphErrorView>(
                segment::sealed(
                    preservation::written_chunks(plan, previous.sync_watermark)[i],
                    images[i],
                ),
            ),
        preservation::plain_source(before),
        preservation::plain_source(after),
        before.layers(&base, None, chunks, segments, None),
        (
            layered::loaded_chunks(
                chunk::kept_chunks(previous.base_chunks, plan.ranges@) + refs,
                chunk_contents(chunk::kept_chunks(previous.base_chunks, plan.ranges@), disk)
                    + contents,
                0,
                Seq::empty(),
            ),
            layered::loaded_segments(
                compact::retained(previous.segments, loaded),
                segment_contents(compact::retained(previous.segments, loaded), disk),
                0,
                Seq::empty(),
            ),
        ) matches (Ok(held_chunks), Ok(held)) ==> after.layers(
            &base,
            None,
            held_chunks,
            held,
            None,
        ),
        direction is Any ==> preservation::same_edges_show(before, after, node),
    ensures
        after.rows(direction, node) == before.rows(direction, node),
{
    lemma_rewritten_generation_loads(
        previous,
        disk,
        base,
        budgets,
        plan,
        loaded,
        chunks,
        segments,
        refs,
        contents,
        images,
        before,
        after,
    );
    preservation::lemma_chunk_rewrite_preserves_reads(
        before,
        after,
        plan,
        sealed_chunks(plan, previous.sync_watermark, images),
        previous,
        loaded,
        base,
        budgets,
        chunks,
        segments,
        direction,
        node,
    );
}

/// What `lemma_rewritten_generation_reads_alike` says holds of every reader: one that
/// is limited to a tenant, reads incoming edges from a reverse base, or has committed
/// overlays and a transaction on top of the generation.
pub proof fn lemma_readers_of_rewritten_generation_read_alike(
    previous: ManifestView,
    disk: spec_fn(Seq<char>) -> Content,
    base: EdgeStore,
    budgets: CompactionBudgets,
    plan: DirtyChunks,
    loaded: Seq<LoadedView>,
    chunks: Seq<DeltaSegmentView>,
    segments: Seq<DeltaSegmentView>,
    refs: Seq<ChunkRefView>,
    contents: Seq<Content>,
    images: Seq<Seq<u8>>,
    before: LayeredNeighbors,
    after: LayeredNeighbors,
    direction: TraversalDirection,
    node: u32,
    seen_before: LayeredNeighbors,
    seen_after: LayeredNeighbors,
)
    requires
        base.wf(),
        previous.segments.len() <= usize::MAX,
        previous.base_chunks.len() + plan.ranges@.len() <= usize::MAX,
        previous.sync_watermark >= 0,
        paths_differ(previous.segments),
        levels_named(previous.segments, segments),
        sources_are_nodes(segments),
        preservation::apart(segments),
        preservation::chunks_apart(chunks),
        layered::loaded_chunks(
            previous.base_chunks,
            chunk_contents(previous.base_chunks, disk),
            0,
            Seq::empty(),
        ) == Ok::<_, GraphErrorView>(chunks),
        layered::loaded_segments(
            previous.segments,
            segment_contents(previous.segments, disk),
            0,
            Seq::empty(),
        ) == Ok::<_, GraphErrorView>(segments),
        compact::edge_segments_of(
            previous.segments,
            segment_contents(previous.segments, disk),
            0,
            Seq::empty(),
        ) == Ok::<_, GraphErrorView>(loaded),
        compact::is_plan(CompactionPlan::Chunks(plan), previous, loaded, before, base, budgets),
        refs.len() == plan.ranges@.len(),
        contents.len() == refs.len(),
        images.len() == refs.len(),
        forall|i: int|
            0 <= i < refs.len() ==> layered::loaded_chunk(#[trigger] refs[i], contents[i])
                == Ok::<_, GraphErrorView>(
                segment::sealed(
                    preservation::written_chunks(plan, previous.sync_watermark)[i],
                    images[i],
                ),
            ),
        preservation::plain_source(before),
        preservation::plain_source(after),
        before.layers(&base, None, chunks, segments, None),
        (
            layered::loaded_chunks(
                chunk::kept_chunks(previous.base_chunks, plan.ranges@) + refs,
                chunk_contents(chunk::kept_chunks(previous.base_chunks, plan.ranges@), disk)
                    + contents,
                0,
                Seq::empty(),
            ),
            layered::loaded_segments(
                compact::retained(previous.segments, loaded),
                segment_contents(compact::retained(previous.segments, loaded), disk),
                0,
                Seq::empty(),
            ),
        ) matches (Ok(held_chunks), Ok(held)) ==> after.layers(
            &base,
            None,
            held_chunks,
            held,
            None,
        ),
        direction is Any ==> preservation::same_edges_show(before, after, node),
        readers::same_reader(seen_before, seen_after),
        readers::reads_generation(seen_before, base, chunks, segments),
        (
            layered::loaded_chunks(
                chunk::kept_chunks(previous.base_chunks, plan.ranges@) + refs,
                chunk_contents(chunk::kept_chunks(previous.base_chunks, plan.ranges@), disk)
                    + contents,
                0,
                Seq::empty(),
            ),
            layered::loaded_segments(
                compact::retained(previous.segments, loaded),
                segment_contents(compact::retained(previous.segments, loaded), disk),
                0,
                Seq::empty(),
            ),
        ) matches (Ok(held_chunks), Ok(held)) ==> readers::reads_generation(
            seen_after,
            base,
            held_chunks,
            held,
        ),
    ensures
        seen_after.rows(direction, node) == seen_before.rows(direction, node),
{
    lemma_rewritten_generation_loads(
        previous,
        disk,
        base,
        budgets,
        plan,
        loaded,
        chunks,
        segments,
        refs,
        contents,
        images,
        before,
        after,
    );
    readers::lemma_chunk_rewrite_preserves_reads_of_readers(
        before,
        after,
        plan,
        sealed_chunks(plan, previous.sync_watermark, images),
        previous,
        loaded,
        base,
        budgets,
        chunks,
        segments,
        direction,
        node,
        seen_before,
        seen_after,
    );
}

/// The references of the chunks that a rewrite leaves load as these chunks.
proof fn lemma_kept_chunks_load(
    refs: Seq<ChunkRefView>,
    disk: spec_fn(Seq<char>) -> Content,
    held: Seq<DeltaSegmentView>,
    ranges: Seq<SourceRange>,
)
    requires
        chunks_load(refs, chunk_contents(refs, disk), held),
        preservation::chunks_named(held, refs),
    ensures
        chunks_load(
            chunk::kept_chunks(refs, ranges),
            chunk_contents(chunk::kept_chunks(refs, ranges), disk),
            preservation::unchanged_chunks(held, ranges),
        ),
{
    let keep = |one: ChunkRefView| !chunk::is_rewritten(one, ranges);
    let stays = |one: DeltaSegmentView| !preservation::chunk_rewritten(one, ranges);
    assert forall|i: int| 0 <= i < refs.len() implies keep(#[trigger] refs[i]) == stays(held[i]) by {
        assert(preservation::chunk_span(held[i]) == chunk::chunk_range(refs[i]));
        let one = refs[i];
        let chunk = held[i];
        if chunk::is_rewritten(one, ranges) {
            let r = choose|r: int|
                0 <= r < ranges.len() && (#[trigger] ranges[r]).start < one.source_end
                    && one.source_start < ranges[r].end;
            assert(ranges[r].start < chunk.header.source_end && chunk.header.source_start
                < ranges[r].end);
        }
        if preservation::chunk_rewritten(chunk, ranges) {
            let r = choose|r: int|
                0 <= r < ranges.len() && (#[trigger] ranges[r]).start < chunk.header.source_end
                    && chunk.header.source_start < ranges[r].end;
            assert(ranges[r].start < one.source_end && one.source_start < ranges[r].end);
        }
    }
    lemma_filter_parallel(refs, held, keep, stays);
    let kept = chunk::kept_chunks(refs, ranges);
    let contents = chunk_contents(kept, disk);
    let stay = preservation::unchanged_chunks(held, ranges);
    assert forall|k: int| 0 <= k < kept.len() implies layered::loaded_chunk(kept[k], contents[k])
        == Ok::<_, GraphErrorView>(#[trigger] stay[k]) by {
        let i = choose|i: int|
            0 <= i < refs.len() && refs[i] == refs.filter(keep)[k] && held[i] == held.filter(
                stays,
            )[k];
        assert(layered::loaded_chunk(refs[i], chunk_contents(refs, disk)[i]) == Ok::<
            _,
            GraphErrorView,
        >(held[i]));
    }
}

} // verus!
