//! What publications and garbage collection leave in an artifact directory.
//!
//! A directory stands here for the names of its files, or for their lengths by path.
use vstd::prelude::*;

use crate::projection::gc::{self, CandidateOutcome, GcPlan, ProjectionGcConfig};
use crate::projection::manifest::{self, file_name, parsed_file_name, ManifestView};

verus! {

// ---------------------------------------------------------------------------
// Publications
// ---------------------------------------------------------------------------

/// Whether file names hold the manifest of a generation.
pub open spec fn has_generation(names: Seq<Seq<char>>, generation_id: u64) -> bool {
    exists|i: int|
        0 <= i < names.len() && parsed_file_name(#[trigger] names[i]) == Some(generation_id)
}

/// The latest generation of file names.
pub open spec fn latest_generation(names: Seq<Seq<char>>) -> Option<u64> {
    match manifest::latest(names, 0, None) {
        Some((generation_id, _)) => Some(generation_id),
        None => None,
    }
}

proof fn lemma_latest_found(
    names: Seq<Seq<char>>,
    from: int,
    found: Option<(u64, usize)>,
)
    requires
        0 <= from <= names.len() <= usize::MAX,
        found matches Some((generation_id, at)) ==> at < from && parsed_file_name(names[at as int])
            == Some(generation_id),
        found is None ==> forall|i: int|
            0 <= i < from ==> parsed_file_name(#[trigger] names[i]) is None,
    ensures
        match manifest::latest(names, from, found) {
            Some((generation_id, at)) => at < names.len() && parsed_file_name(names[at as int])
                == Some(generation_id),
            None => forall|i: int|
                0 <= i < names.len() ==> parsed_file_name(#[trigger] names[i]) is None,
        },
    decreases names.len() - from,
{
    if from < names.len() {
        let next = match parsed_file_name(names[from]) {
            Some(generation_id) => match found {
                Some((current, _)) => if generation_id > current {
                    Some((generation_id, from as usize))
                } else {
                    found
                },
                None => Some((generation_id, from as usize)),
            },
            None => found,
        };
        lemma_latest_found(names, from + 1, next);
    }
}

/// The latest manifest is that of the greatest generation, in whatever order the
/// files are listed; files whose names are no manifest names have no influence.
pub proof fn lemma_latest_is_greatest(names: Seq<Seq<char>>)
    requires
        names.len() <= usize::MAX,
    ensures
        match manifest::latest(names, 0, None) {
            Some((generation_id, at)) => {
                &&& at < names.len()
                &&& parsed_file_name(names[at as int]) == Some(generation_id)
                &&& forall|id: u64| #[trigger] has_generation(names, id) ==> id <= generation_id
            },
            None => forall|id: u64| !#[trigger] has_generation(names, id),
        },
{
    lemma_latest_found(names, 0, None);
    assert forall|id: u64| #[trigger] has_generation(names, id) implies latest_generation(
        names,
    ) matches Some(newest) && id <= newest by {
        let i = choose|i: int|
            0 <= i < names.len() && parsed_file_name(#[trigger] names[i]) == Some(id);
        manifest::lemma_latest_wins(names, i);
    }
}

/// File names after a publication: a refused one writes nothing, any other one adds
/// the manifest file of its generation.
pub open spec fn names_after(
    names: Seq<Seq<char>>,
    root: Seq<char>,
    published: ManifestView,
    present: Seq<bool>,
) -> Seq<Seq<char>> {
    if manifest::publish_error(
        root,
        published,
        present,
        names.contains(file_name(published.generation_id)),
    ) is Some {
        names
    } else {
        names.push(file_name(published.generation_id))
    }
}

/// A refused publication leaves the latest generation as it is; an accepted one is
/// of a generation that had no manifest file, keeps all files, and becomes the latest
/// where no later generation is there.
pub proof fn lemma_publication(
    names: Seq<Seq<char>>,
    root: Seq<char>,
    published: ManifestView,
    present: Seq<bool>,
)
    requires
        names.len() < usize::MAX,
    ensures
        ({
            let id = published.generation_id;
            let after = names_after(names, root, published, present);
            if manifest::publish_error(root, published, present, names.contains(file_name(id)))
                is Some {
                after == names
            } else {
                &&& !names.contains(file_name(id))
                &&& forall|i: int| 0 <= i < names.len() ==> #[trigger] after[i] == names[i]
                &&& latest_generation(after) == (match latest_generation(names) {
                    Some(newest) => if newest > id {
                        Some(newest)
                    } else {
                        Some(id)
                    },
                    None => Some(id),
                })
            }
        }),
{
    let id = published.generation_id;
    let after = names_after(names, root, published, present);
    manifest::lemma_file_name_parses(id);
    lemma_latest_is_greatest(names);
    lemma_latest_is_greatest(after);
    if after.len() > names.len() {
        assert(after[names.len() as int] == file_name(id));
        assert(has_generation(after, id));
        assert forall|other: u64| #[trigger] has_generation(names, other) implies has_generation(
            after,
            other,
        ) by {
            let i = choose|i: int|
                0 <= i < names.len() && parsed_file_name(#[trigger] names[i]) == Some(other);
            assert(after[i] == names[i]);
        }
        assert forall|other: u64| #[trigger] has_generation(after, other) implies other == id
            || has_generation(names, other) by {
            let i = choose|i: int|
                0 <= i < after.len() && parsed_file_name(#[trigger] after[i]) == Some(other);
            if i < names.len() {
                assert(after[i] == names[i]);
            }
        }
        if latest_generation(names) is Some {
            assert(has_generation(names, latest_generation(names)->0));
        }
        assert(has_generation(after, latest_generation(after)->0));
    }
}

/// A generation that has a manifest file is not published again.
pub proof fn lemma_published_generation_is_refused(
    root: Seq<char>,
    published: ManifestView,
    present: Seq<bool>,
)
    ensures
        manifest::publish_error(root, published, present, true) is Some,
{
}

proof fn lemma_missing_segment(
    root: Seq<char>,
    refs: Seq<manifest::SegmentRefView>,
    present: Seq<bool>,
    from: int,
    at: int,
)
    requires
        0 <= from <= at < refs.len(),
        !present[at + 1],
    ensures
        manifest::active_segments_error(root, refs, present, from) is Some,
    decreases at - from,
{
    if from < at {
        lemma_missing_segment(root, refs, present, from + 1, at);
    }
}

proof fn lemma_missing_chunk(
    root: Seq<char>,
    refs: Seq<manifest::ChunkRefView>,
    present: Seq<bool>,
    offset: int,
    from: int,
    at: int,
)
    requires
        0 <= from <= at < refs.len(),
        !present[offset + at],
    ensures
        manifest::active_chunks_error(root, refs, present, offset, from) is Some,
    decreases at - from,
{
    if from < at {
        lemma_missing_chunk(root, refs, present, offset, from + 1, at);
    }
}

/// A manifest is not published while one of the files that it references is missing.
pub proof fn lemma_missing_file_is_refused(
    root: Seq<char>,
    published: ManifestView,
    present: Seq<bool>,
    is_published: bool,
    at: int,
)
    requires
        0 <= at < manifest::active_count(published),
        !present[at],
    ensures
        manifest::publish_error(root, published, present, is_published) is Some,
{
    let segments = published.segments.len() as int;
    if 1 <= at <= segments {
        lemma_missing_segment(root, published.segments, present, 0, at - 1);
    } else if at > segments {
        lemma_missing_chunk(
            root,
            published.base_chunks,
            present,
            1 + segments,
            0,
            at - 1 - segments,
        );
    }
}

// ---------------------------------------------------------------------------
// Garbage collection
// ---------------------------------------------------------------------------

/// What becomes of the candidates of a pass over regular files with these lengths.
pub open spec fn pass_outcomes(plan: GcPlan, files: Map<Seq<char>, u64>) -> Seq<CandidateOutcome> {
    Seq::new(
        plan.candidates@.len(),
        |i: int|
            if plan.protected@[i] {
                CandidateOutcome::Protected
            } else if files.contains_key(plan.candidates@[i]@) {
                CandidateOutcome::Deleted(files[plan.candidates@[i]@])
            } else {
                CandidateOutcome::Missing
            },
    )
}

/// Whether a pass deletes a file.
pub open spec fn deletes(plan: GcPlan, path: Seq<char>) -> bool {
    exists|i: int|
        0 <= i < plan.candidates@.len() && !plan.protected@[i] && (#[trigger] plan.candidates@[i])@
            == path
}

/// The files that a pass leaves.
pub open spec fn files_after(plan: GcPlan, files: Map<Seq<char>, u64>) -> Map<Seq<char>, u64> {
    files.remove_keys(Set::new(|path: Seq<char>| deletes(plan, path)))
}

proof fn lemma_nothing_deleted(outcomes: Seq<CandidateOutcome>, count: int)
    requires
        0 <= count <= outcomes.len(),
        forall|i: int|
            0 <= i < outcomes.len() ==> !((#[trigger] outcomes[i]) is Deleted),
    ensures
        gc::deleted_count(outcomes, count) == 0,
        gc::deleted_bytes(outcomes, count) == 0,
    decreases count,
{
    if count > 0 {
        lemma_nothing_deleted(outcomes, count - 1);
        assert(!(outcomes[count - 1] is Deleted));
    }
}

/// A second pass over the same generations deletes nothing.
pub proof fn lemma_second_pass_deletes_nothing(
    first: GcPlan,
    second: GcPlan,
    root: Seq<char>,
    manifests: Seq<ManifestView>,
    config: ProjectionGcConfig,
    active: Set<u64>,
    files: Map<Seq<char>, u64>,
)
    requires
        gc::is_gc_plan(first, root, manifests, config, active),
        gc::is_gc_plan(second, root, manifests, config, active),
    ensures
        ({
            let outcomes = pass_outcomes(second, files_after(first, files));
            &&& gc::deleted_count(outcomes, outcomes.len() as int) == 0
            &&& gc::deleted_bytes(outcomes, outcomes.len() as int) == 0
        }),
{
    let left = files_after(first, files);
    let outcomes = pass_outcomes(second, left);
    let paths = manifest::texts(first.candidates@);
    assert(paths == manifest::texts(second.candidates@));
    assert forall|i: int| 0 <= i < outcomes.len() implies !((#[trigger] outcomes[i]) is Deleted) by {
        let path = second.candidates@[i]@;
        assert(paths[i] == first.candidates@[i]@);
        assert(manifest::texts(second.candidates@)[i] == path);
        assert(first.candidates@[i]@ == path);
        assert(first.protected@[i] == second.protected@[i]);
        if !second.protected@[i] {
            assert(deletes(first, path));
            assert(!left.contains_key(path));
        }
    }
    lemma_nothing_deleted(outcomes, outcomes.len() as int);
}

/// A pass deletes every candidate that is not protected, and no other file.
pub proof fn lemma_pass_deletes_unprotected_candidates(
    plan: GcPlan,
    files: Map<Seq<char>, u64>,
    path: Seq<char>,
)
    ensures
        files_after(plan, files).contains_key(path) <==> files.contains_key(path) && !deletes(
            plan,
            path,
        ),
        files_after(plan, files).contains_key(path) ==> files_after(plan, files)[path]
            == files[path],
{
}

} // verus!
