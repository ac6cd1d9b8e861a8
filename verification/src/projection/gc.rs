//! Generation-aware durable projection garbage collection.
//!
//! GC deletes only files that a published manifest has declared obsolete and
//! that are no longer referenced by retained or active manifest generations.
use vstd::prelude::*;

use crate::paths::{self, key_precedes, path_key, same_key, PathKey};
use crate::projection::manifest::{
    self, parse_manifest_file_name, resolve_manifest_reference, ChunkRefView, FileRefView,
    ManifestView, ProjectionManifest, SegmentRefView, VALIDATION_STATUS_VALID,
};
use crate::safety::{GraphError, GraphErrorView, GraphResult};
use crate::text::{self, concat2, concat3, concat6, decimal_text, same_text};

verus! {

/// Policy for one projection GC pass.
#[derive(Debug, Clone, Copy, PartialEq, Eq, Structural)]
pub struct ProjectionGcConfig {
    /// Minimum number of highest valid manifest generations to retain.
    pub retained_generation_floor: usize,
}

/// Summary of one generation-aware projection GC pass.
#[derive(Debug, Clone, PartialEq, Eq)]
pub struct ProjectionGcSummary {
    pub valid_generations_scanned: usize,
    pub retained_generations: Vec<u64>,
    pub active_generations: Vec<u64>,
    pub obsolete_candidates: usize,
    pub protected_candidates: usize,
    pub deleted_files: usize,
    pub deleted_bytes: u64,
}

/// What manifests say.
pub open spec fn manifest_views(manifests: Seq<ProjectionManifest>) -> Seq<ManifestView> {
    manifests.map_values(|manifest: ProjectionManifest| manifest@)
}

/// The error of a file operation that failed.
pub fn gc_io(operation: &str, path: &str, err: &str) -> (error: GraphError)
    ensures
        error@ == GraphErrorView::Internal(
            "projection GC "@ + operation@ + " failed for "@ + path@ + ": "@ + err@,
        ),
{
    GraphError::Internal(concat6("projection GC ", operation, " failed for ", path, ": ", err))
}

// ---------------------------------------------------------------------------
// Valid manifests
// ---------------------------------------------------------------------------

/// Whether a manifest file counts: it decodes, holds the generation of its name
/// and is marked valid.
pub open spec fn is_valid(name: Seq<char>, manifest: ManifestView) -> bool {
    &&& manifest::parsed_file_name(name) == Some(manifest.generation_id)
    &&& manifest.validation_status == VALIDATION_STATUS_VALID@
}

/// The list with a manifest put behind those of no later generation.
pub open spec fn placed(list: Seq<ManifestView>, manifest: ManifestView) -> Seq<ManifestView> {
    list.filter(
        |other: ManifestView| other.generation_id <= manifest.generation_id,
    ).push(manifest) + list.filter(
        |other: ManifestView| other.generation_id > manifest.generation_id,
    )
}

/// A file of the artifact directory, with what decoding it gave.
pub struct ManifestFile {
    /// File name.
    pub name: String,
    /// The manifest, where the file decodes to one.
    pub manifest: Option<ProjectionManifest>,
}

/// A file of the artifact directory, with what decoding it gave.
pub struct ManifestFileView {
    pub name: Seq<char>,
    pub manifest: Option<ManifestView>,
}

impl View for ManifestFile {
    type V = ManifestFileView;

    open spec fn view(&self) -> ManifestFileView {
        ManifestFileView {
            name: self.name@,
            manifest: match self.manifest {
                Some(manifest) => Some(manifest@),
                None => None,
            },
        }
    }
}

/// What files hold.
pub open spec fn file_views(files: Seq<ManifestFile>) -> Seq<ManifestFileView> {
    files.map_values(|file: ManifestFile| file@)
}

/// The valid manifests among files, by generation.
pub open spec fn valid_manifests(files: Seq<ManifestFileView>) -> Seq<ManifestView>
    decreases files.len(),
{
    if files.len() == 0 {
        Seq::empty()
    } else {
        let earlier = valid_manifests(files.drop_last());
        match files.last().manifest {
            Some(manifest) => if is_valid(files.last().name, manifest) {
                placed(earlier, manifest)
            } else {
                earlier
            },
            None => earlier,
        }
    }
}

/// Whether manifests are in the order of their generations.
pub open spec fn by_generation(manifests: Seq<ManifestView>) -> bool {
    forall|i: int, j: int|
        0 <= i < j < manifests.len() ==> (#[trigger] manifests[i]).generation_id <= (
        #[trigger] manifests[j]).generation_id
}

proof fn lemma_split_sorted(list: Seq<ManifestView>, generation_id: u64, at: int)
    requires
        0 <= at <= list.len(),
        forall|i: int| 0 <= i < at ==> (#[trigger] list[i]).generation_id <= generation_id,
        forall|i: int| at <= i < list.len() ==> (#[trigger] list[i]).generation_id > generation_id,
    ensures
        list.filter(|other: ManifestView| other.generation_id <= generation_id) == list.take(at),
        list.filter(|other: ManifestView| other.generation_id > generation_id) == list.skip(at),
{
    let low = |other: ManifestView| other.generation_id <= generation_id;
    let high = |other: ManifestView| other.generation_id > generation_id;
    assert forall|i: int| 0 <= i < list.len() implies (low(#[trigger] list[i]) <==> 0 <= i
        < at) by {}
    assert forall|i: int| 0 <= i < list.len() implies (high(#[trigger] list[i]) <==> at <= i
        < list.len()) by {}
    crate::edge_store::lemma_filter_run(list, low, 0, at);
    crate::edge_store::lemma_filter_run(list, high, at, list.len() as int);
    assert(list.subrange(0, at) =~= list.take(at));
    assert(list.subrange(at, list.len() as int) =~= list.skip(at));
}

/// The valid manifests among files, by generation.
pub fn load_valid_manifests(files: &Vec<ManifestFile>) -> (manifests: Vec<ProjectionManifest>)
    ensures
        manifest_views(manifests@) == valid_manifests(file_views(files@)),
        by_generation(manifest_views(manifests@)),
{
    let ghost all = file_views(files@);
    let mut manifests: Vec<ProjectionManifest> = Vec::new();
    assert(manifest_views(manifests@) =~= Seq::<ManifestView>::empty());
    for i in 0..files.len()
        invariant
            all == file_views(files@),
            manifest_views(manifests@) == valid_manifests(all.take(i as int)),
            by_generation(manifest_views(manifests@)),
    {
        let file: &ManifestFile = &files[i];
        let ghost before = manifest_views(manifests@);
        assert(all.take(i + 1).drop_last() =~= all.take(i as int));
        assert(all.take(i + 1).last() == file@);
        match &file.manifest {
            Some(manifest) => {
                let named: bool = match parse_manifest_file_name(file.name.as_str()) {
                    Some(generation_id) => generation_id == manifest.generation_id,
                    None => false,
                };
                if named && same_text(
                    manifest.validation_status.as_str(),
                    VALIDATION_STATUS_VALID,
                ) {
                    let mut at: usize = manifests.len();
                    while at > 0 && manifests[at - 1].generation_id > manifest.generation_id
                        invariant
                            at <= manifests@.len(),
                            before == manifest_views(manifests@),
                            forall|j: int|
                                at <= j < before.len() ==> (#[trigger] before[j]).generation_id
                                    > manifest.generation_id,
                        decreases at,
                    {
                        assert(before[at - 1] == manifests@[at - 1]@);
                        at = at - 1;
                    }
                    proof {
                        if at > 0 {
                            assert(before[at - 1] == manifests@[at - 1]@);
                        }
                        lemma_split_sorted(before, manifest.generation_id, at as int);
                    }
                    let copy: ProjectionManifest = manifest.duplicate();
                    manifests.insert(at, copy);
                    proof {
                        let after = manifest_views(manifests@);
                        assert(after =~= before.insert(at as int, copy@));
                        assert(after =~= placed(before, copy@));
                        assert forall|a: int, b: int| 0 <= a < b < after.len() implies (
                        #[trigger] after[a]).generation_id <= (#[trigger] after[b]).generation_id by {
                            let x = if a < at { a } else { a - 1 };
                            let y = if b < at { b } else { b - 1 };
                            if a != at && b != at {
                                assert(before[x].generation_id <= before[y].generation_id);
                            }
                        }
                    }
                }
            },
            None => {},
        }
    }
    assert(all.take(all.len() as int) =~= all);
    manifests
}

// ---------------------------------------------------------------------------
// Generations
// ---------------------------------------------------------------------------

/// Whether numbers go up.
pub open spec fn ascending(ids: Seq<u64>) -> bool {
    forall|i: int, j: int| 0 <= i < j < ids.len() ==> #[trigger] ids[i] < #[trigger] ids[j]
}

/// Put a number into an ascending list, unless it is there.
fn insert_id(ids: &mut Vec<u64>, id: u64)
    requires
        ascending(old(ids)@),
    ensures
        ascending(final(ids)@),
        final(ids)@.to_set() == old(ids)@.to_set().insert(id),
{
    let ghost before = ids@;
    let mut at: usize = ids.len();
    while at > 0 && ids[at - 1] > id
        invariant
            at <= ids@.len(),
            ids@ == before,
            forall|j: int| at <= j < before.len() ==> #[trigger] before[j] > id,
        decreases at,
    {
        at = at - 1;
    }
    if at > 0 && ids[at - 1] == id {
        proof {
            assert(before[at - 1] == id);
            assert(ids@.to_set() =~= before.to_set().insert(id));
        }
        return;
    }
    ids.insert(at, id);
    proof {
        let after = ids@;
        assert forall|a: int, b: int| 0 <= a < b < after.len() implies #[trigger] after[a]
            < #[trigger] after[b] by {
            let x = if a < at { a } else { a - 1 };
            let y = if b < at { b } else { b - 1 };
            if a != at {
                assert(after[a] == before[x]);
            }
            if b != at {
                assert(after[b] == before[y]);
            }
            if a != at && b != at {
                assert(before[x] < before[y]);
            } else if b == at {
                if x < at - 1 {
                    assert(before[x] < before[at - 1]);
                }
            }
        }
        assert forall|other: u64| #[trigger] after.to_set().contains(other)
            <==> before.to_set().insert(id).contains(other) by {
            if after.contains(other) {
                let i = choose|i: int| 0 <= i < after.len() && after[i] == other;
                if i != at {
                    let x = if i < at { i } else { i - 1 };
                    assert(before[x] == other);
                }
            }
            if before.contains(other) {
                let x = choose|x: int| 0 <= x < before.len() && before[x] == other;
                let i = if x < at { x } else { x + 1 };
                assert(after[i] == other);
            }
            assert(after[at as int] == id);
        }
        assert(after.to_set() =~= before.to_set().insert(id));
    }
}

/// How many generations are retained.
pub open spec fn retained_count(manifests: nat, config: ProjectionGcConfig) -> nat {
    let floor: nat = if config.retained_generation_floor > 1 {
        config.retained_generation_floor as nat
    } else {
        1
    };
    if floor < manifests {
        floor
    } else {
        manifests
    }
}

/// The generations that are retained: the latest ones.
pub open spec fn retained_ids(manifests: Seq<ManifestView>, config: ProjectionGcConfig) -> Set<u64> {
    ids_from(manifests, manifests.len() - retained_count(manifests.len(), config))
}

/// The generations of manifests from `from` on.
pub open spec fn ids_from(manifests: Seq<ManifestView>, from: int) -> Set<u64> {
    Set::new(
        |id: u64|
            exists|i: int|
                from <= i < manifests.len() && 0 <= i && (#[trigger] manifests[i]).generation_id
                    == id,
    )
}

/// The generations that are retained.
pub fn retained_generation_ids(manifests: &Vec<ProjectionManifest>, config: ProjectionGcConfig) -> (ids:
    Vec<u64>)
    ensures
        ascending(ids@),
        ids@.to_set() == retained_ids(manifest_views(manifests@), config),
{
    let ghost all = manifest_views(manifests@);
    let floor: usize = if config.retained_generation_floor > 1 {
        config.retained_generation_floor
    } else {
        1
    };
    let retained: usize = if floor < manifests.len() {
        floor
    } else {
        manifests.len()
    };
    let start: usize = manifests.len() - retained;
    let mut ids: Vec<u64> = Vec::new();
    let mut at: usize = manifests.len();
    assert(ids@.to_set() =~= ids_from(all, at as int));
    while at > start
        invariant
            all == manifest_views(manifests@),
            start <= at <= manifests@.len(),
            ascending(ids@),
            ids@.to_set() == ids_from(all, at as int),
        decreases at,
    {
        at = at - 1;
        let ghost before = ids@.to_set();
        assert(all[at as int] == manifests@[at as int]@);
        insert_id(&mut ids, manifests[at].generation_id);
        proof {
            assert forall|id: u64| #[trigger] ids@.to_set().contains(id) <==> ids_from(
                all,
                at as int,
            ).contains(id) by {
                if ids_from(all, at as int).contains(id) {
                    let i = choose|i: int|
                        at <= i < all.len() && 0 <= i && (#[trigger] all[i]).generation_id == id;
                    if i > at {
                        assert(ids_from(all, at + 1).contains(id));
                    }
                }
                if ids_from(all, at + 1).contains(id) {
                    let i = choose|i: int|
                        at + 1 <= i < all.len() && 0 <= i && (#[trigger] all[i]).generation_id
                            == id;
                    assert(ids_from(all, at as int).contains(id));
                }
            }
            assert(ids@.to_set() =~= ids_from(all, at as int));
        }
    }
    ids
}

fn contains_id(ids: &Vec<u64>, id: u64) -> (found: bool)
    ensures
        found == ids@.contains(id),
{
    for i in 0..ids.len()
        invariant
            forall|j: int| 0 <= j < i ==> #[trigger] ids@[j] != id,
    {
        if ids[i] == id {
            return true;
        }
    }
    false
}

/// Numbers as a list in brackets, from `from` on.
pub open spec fn listed_from(ids: Seq<u64>, from: int) -> Seq<char>
    decreases ids.len() - from,
{
    if from >= ids.len() {
        Seq::empty()
    } else if from + 1 == ids.len() {
        text::decimal(ids[from] as nat)
    } else {
        text::decimal(ids[from] as nat) + ", "@ + listed_from(ids, from + 1)
    }
}

/// Numbers as a list in brackets.
pub open spec fn list_text(ids: Seq<u64>) -> Seq<char> {
    "["@ + listed_from(ids, 0) + "]"@
}

fn id_list_text(ids: &Vec<u64>) -> (listed: String)
    ensures
        listed@ == list_text(ids@),
{
    let mut at: usize = ids.len();
    let mut listed: String = String::new();
    assert(listed@ =~= listed_from(ids@, at as int));
    while at > 0
        invariant
            at <= ids@.len(),
            listed@ == listed_from(ids@, at as int),
        decreases at,
    {
        at = at - 1;
        let number: String = decimal_text(ids[at]);
        if at + 1 == ids.len() {
            listed = number;
        } else {
            listed = concat3(number.as_str(), ", ", listed.as_str());
        }
    }
    concat3("[", listed.as_str(), "]")
}

// ---------------------------------------------------------------------------
// Protected files
// ---------------------------------------------------------------------------

/// The references of a manifest to active files: the base artifact, the
/// segments and the base chunks.
pub open spec fn active_references(manifest: ManifestView) -> Seq<Seq<char>> {
    seq![manifest.base_artifact_path] + manifest.segments.map_values(
        |segment: SegmentRefView| segment.path,
    ) + manifest.base_chunks.map_values(|chunk: ChunkRefView| chunk.path)
}

/// The references of all protected manifests, in order.
pub open spec fn protected_references(
    manifests: Seq<ManifestView>,
    protected: Set<u64>,
) -> Seq<Seq<char>>
    decreases manifests.len(),
{
    if manifests.len() == 0 {
        Seq::empty()
    } else {
        let earlier = protected_references(manifests.drop_last(), protected);
        if protected.contains(manifests.last().generation_id) {
            earlier + active_references(manifests.last())
        } else {
            earlier
        }
    }
}

/// The references to obsolete files of all manifests, in order.
pub open spec fn obsolete_references(manifests: Seq<ManifestView>) -> Seq<Seq<char>>
    decreases manifests.len(),
{
    if manifests.len() == 0 {
        Seq::empty()
    } else {
        obsolete_references(manifests.drop_last())
            + manifests.last().obsolete_files.map_values(|file: FileRefView| file.path)
    }
}

/// The first error of references from `from` on.
pub open spec fn resolve_error(
    root: Seq<char>,
    references: Seq<Seq<char>>,
    from: int,
) -> Option<GraphErrorView>
    decreases references.len() - from,
{
    if from >= references.len() {
        None
    } else {
        match manifest::resolved(root, references[from]) {
            Err(error) => Some(error),
            Ok(_) => resolve_error(root, references, from + 1),
        }
    }
}

/// Whether a path is in a list.
pub open spec fn lists_path(listed: Seq<Seq<char>>, path: Seq<char>) -> bool {
    exists|i: int| 0 <= i < listed.len() && paths::same_path(#[trigger] listed[i], path)
}

/// The place of a path in a list in path order: behind the paths that stand before
/// it.
pub open spec fn path_place(listed: Seq<Seq<char>>, path: Seq<char>) -> int
    decreases listed.len(),
{
    if listed.len() == 0 {
        0
    } else if paths::path_before(listed.last(), path) {
        listed.len() as int
    } else {
        path_place(listed.drop_last(), path)
    }
}

/// A list in path order with a path, unless it has the path.
pub open spec fn with_path(listed: Seq<Seq<char>>, path: Seq<char>) -> Seq<Seq<char>> {
    if lists_path(listed, path) {
        listed
    } else {
        listed.insert(path_place(listed, path), path)
    }
}

/// The paths of references in path order, without those that repeat an earlier one.
pub open spec fn ordered_paths(root: Seq<char>, references: Seq<Seq<char>>) -> Seq<Seq<char>>
    decreases references.len(),
{
    if references.len() == 0 {
        Seq::empty()
    } else {
        with_path(
            ordered_paths(root, references.drop_last()),
            manifest::joined(root, references.last()),
        )
    }
}

proof fn lemma_path_place(listed: Seq<Seq<char>>, path: Seq<char>)
    requires
        paths::in_path_order(listed),
        !lists_path(listed, path),
    ensures
        0 <= path_place(listed, path) <= listed.len(),
        forall|i: int|
            0 <= i < path_place(listed, path) ==> paths::path_before(#[trigger] listed[i], path),
        forall|i: int|
            path_place(listed, path) <= i < listed.len() ==> paths::path_before(
                path,
                #[trigger] listed[i],
            ),
    decreases listed.len(),
{
    if listed.len() > 0 {
        let last = listed.len() - 1;
        if paths::path_before(listed[last], path) {
            assert forall|i: int| 0 <= i < listed.len() implies paths::path_before(
                #[trigger] listed[i],
                path,
            ) by {
                if i < last {
                    paths::lemma_paths_transitive(listed[i], listed[last], path);
                }
            }
        } else {
            let init = listed.drop_last();
            if lists_path(init, path) {
                let i = choose|i: int|
                    0 <= i < init.len() && paths::same_path(#[trigger] init[i], path);
                assert(paths::same_path(listed[i], path));
            }
            lemma_path_place(init, path);
            paths::lemma_paths_compare(listed[last], path);
            assert(!paths::same_path(listed[last], path));
            assert forall|i: int| 0 <= i < path_place(listed, path) implies paths::path_before(
                #[trigger] listed[i],
                path,
            ) by {
                assert(listed[i] == init[i]);
            }
            assert forall|i: int|
                path_place(listed, path) <= i < listed.len() implies paths::path_before(
                path,
                #[trigger] listed[i],
            ) by {
                if i < last {
                    assert(listed[i] == init[i]);
                }
            }
        }
    }
}

proof fn lemma_with_path(listed: Seq<Seq<char>>, path: Seq<char>)
    requires
        paths::in_path_order(listed),
    ensures
        paths::in_path_order(with_path(listed, path)),
        lists_path(with_path(listed, path), path),
        forall|other: Seq<char>| #[trigger]
            lists_path(listed, other) ==> lists_path(with_path(listed, path), other),
        forall|i: int|
            0 <= i < with_path(listed, path).len() ==> (#[trigger] with_path(listed, path)[i])
                == path || listed.contains(with_path(listed, path)[i]),
{
    let more = with_path(listed, path);
    if !lists_path(listed, path) {
        let at = path_place(listed, path);
        lemma_path_place(listed, path);
        assert forall|i: int, j: int| 0 <= i < j < more.len() implies paths::path_before(
            #[trigger] more[i],
            #[trigger] more[j],
        ) by {
            let a = if i < at {
                i
            } else {
                i - 1
            };
            let b = if j < at {
                j
            } else {
                j - 1
            };
            if i == at {
                assert(more[j] == listed[b]);
            } else if j == at {
                assert(more[i] == listed[a]);
            } else {
                assert(more[i] == listed[a] && more[j] == listed[b]);
            }
        }
        assert(more[at] == path);
        assert(paths::same_path(more[at], path));
        assert forall|other: Seq<char>| #[trigger] lists_path(listed, other) implies lists_path(
            more,
            other,
        ) by {
            let i = choose|i: int|
                0 <= i < listed.len() && paths::same_path(#[trigger] listed[i], other);
            let m = if i < at {
                i
            } else {
                i + 1
            };
            assert(more[m] == listed[i]);
            assert(paths::same_path(more[m], other));
        }
        assert forall|i: int| 0 <= i < more.len() implies (#[trigger] more[i]) == path
            || listed.contains(more[i]) by {
            if i < at {
                assert(more[i] == listed[i]);
            } else if i > at {
                assert(more[i] == listed[i - 1]);
            }
        }
    }
}

/// The paths of references stand in path order.
pub proof fn lemma_ordered_paths(root: Seq<char>, references: Seq<Seq<char>>)
    ensures
        paths::in_path_order(ordered_paths(root, references)),
    decreases references.len(),
{
    if references.len() > 0 {
        lemma_ordered_paths(root, references.drop_last());
        lemma_with_path(
            ordered_paths(root, references.drop_last()),
            manifest::joined(root, references.last()),
        );
    }
}

proof fn lemma_resolve_error_concat(
    root: Seq<char>,
    a: Seq<Seq<char>>,
    b: Seq<Seq<char>>,
    from: int,
)
    requires
        0 <= from <= a.len(),
    ensures
        resolve_error(root, a + b, from) == (match resolve_error(root, a, from) {
            Some(error) => Some(error),
            None => resolve_error(root, b, 0),
        }),
    decreases a.len() - from,
{
    if from < a.len() {
        assert((a + b)[from] == a[from]);
        lemma_resolve_error_concat(root, a, b, from + 1);
    } else {
        lemma_resolve_error_shift(root, a, b, 0);
    }
}

proof fn lemma_resolve_error_shift(
    root: Seq<char>,
    a: Seq<Seq<char>>,
    b: Seq<Seq<char>>,
    from: int,
)
    requires
        0 <= from <= b.len(),
    ensures
        resolve_error(root, a + b, a.len() + from) == resolve_error(root, b, from),
    decreases b.len() - from,
{
    if from < b.len() {
        assert((a + b)[a.len() + from] == b[from]);
        lemma_resolve_error_shift(root, a, b, from + 1);
    }
}

fn has_path(keys: &Vec<PathKey>, key: &PathKey, Ghost(listed): Ghost<Seq<Seq<char>>>, Ghost(
    path,
): Ghost<Seq<char>>) -> (found: bool)
    requires
        keys@.len() == listed.len(),
        forall|i: int| 0 <= i < listed.len() ==> (#[trigger] keys@[i])@ == paths::components(
            listed[i],
        ),
        key@ == paths::components(path),
    ensures
        found == lists_path(listed, path),
{
    for i in 0..keys.len()
        invariant
            keys@.len() == listed.len(),
            forall|j: int| 0 <= j < listed.len() ==> (#[trigger] keys@[j])@ == paths::components(
                listed[j],
            ),
            key@ == paths::components(path),
            forall|j: int| 0 <= j < i ==> !paths::same_path(#[trigger] listed[j], path),
    {
        if same_key(&keys[i], key) {
            assert(keys@[i as int]@ == paths::components(listed[i as int]));
            return true;
        }
        assert(keys@[i as int]@ == paths::components(listed[i as int]));
    }
    false
}

/// Paths with their components, in path order.
pub struct PathList {
    pub paths: Vec<String>,
    pub keys: Vec<PathKey>,
}

impl PathList {
    pub open spec fn wf(&self) -> bool {
        &&& self.keys@.len() == self.paths@.len()
        &&& forall|i: int|
            0 <= i < self.paths@.len() ==> (#[trigger] self.keys@[i])@ == paths::components(
                self.paths@[i]@,
            )
    }

    /// The paths.
    pub open spec fn listed(&self) -> Seq<Seq<char>> {
        manifest::texts(self.paths@)
    }

    fn new() -> (list: PathList)
        ensures
            list.wf(),
            list.listed() == Seq::<Seq<char>>::empty(),
    {
        let list: PathList = PathList { paths: Vec::new(), keys: Vec::new() };
        assert(list.listed() =~= Seq::<Seq<char>>::empty());
        list
    }

    /// Whether the list has a path.
    pub fn has(&self, path: &str) -> (found: bool)
        requires
            self.wf(),
        ensures
            found == lists_path(self.listed(), path@),
    {
        let key: PathKey = path_key(path);
        assert forall|i: int| 0 <= i < self.listed().len() implies (#[trigger] self.keys@[i])@
            == paths::components(self.listed()[i]) by {}
        has_path(&self.keys, &key, Ghost(self.listed()), Ghost(path@))
    }

    /// The place of a path.
    fn place(&self, key: &PathKey, Ghost(path): Ghost<Seq<char>>) -> (at: usize)
        requires
            self.wf(),
            key@ == paths::components(path),
        ensures
            at == path_place(self.listed(), path),
            at <= self.paths@.len(),
    {
        let ghost listed = self.listed();
        let mut at: usize = self.paths.len();
        assert(listed.take(at as int) =~= listed);
        while at > 0
            invariant
                self.wf(),
                key@ == paths::components(path),
                listed == self.listed(),
                at <= self.paths@.len(),
                path_place(listed, path) == path_place(listed.take(at as int), path),
            decreases at,
        {
            let ghost fewer = listed.take(at as int);
            assert(fewer.last() == self.paths@[at - 1]@);
            assert(self.keys@[at - 1]@ == paths::components(self.paths@[at - 1]@));
            assert(fewer.drop_last() =~= listed.take(at - 1));
            if key_precedes(&self.keys[at - 1], key) {
                return at;
            }
            at = at - 1;
        }
        at
    }

    /// Add the path of a reference, unless the list has it.
    fn insert(&mut self, root: &str, reference: &str) -> (result: GraphResult<()>)
        requires
            old(self).wf(),
        ensures
            final(self).wf(),
            match manifest::resolved(root@, reference@) {
                Err(error) => result matches Err(given) && given@ == error,
                Ok(path) => result is Ok && final(self).listed() == with_path(
                    old(self).listed(),
                    path,
                ),
            },
    {
        let path: String = match resolve_manifest_reference(root, reference) {
            Ok(path) => path,
            Err(error) => {
                return Err(error);
            },
        };
        if !self.has(path.as_str()) {
            let ghost before = self.listed();
            let ghost keys = self.keys@;
            let key: PathKey = path_key(path.as_str());
            let at: usize = self.place(&key, Ghost(path@));
            self.paths.insert(at, path);
            self.keys.insert(at, key);
            assert(self.listed() =~= before.insert(at as int, path@));
            assert forall|i: int| 0 <= i < self.paths@.len() implies (#[trigger] self.keys@[i])@
                == paths::components(self.paths@[i]@) by {
                if i < at {
                    assert(self.keys@[i] == keys[i]);
                } else if i > at {
                    assert(self.keys@[i] == keys[i - 1]);
                }
            }
        }
        Ok(())
    }
}

/// Whether a list holds the paths of references, or their first error.
spec fn gathers(
    result: GraphResult<PathList>,
    root: Seq<char>,
    references: Seq<Seq<char>>,
) -> bool {
    match resolve_error(root, references, 0) {
        Some(error) => result matches Err(given) && given@ == error,
        None => result matches Ok(list) && list.wf() && list.listed() == ordered_paths(
            root,
            references,
        ),
    }
}

proof fn lemma_gather_next(root: Seq<char>, references: Seq<Seq<char>>, count: int)
    requires
        0 <= count < references.len(),
    ensures
        ordered_paths(root, references.take(count + 1)) == with_path(
            ordered_paths(root, references.take(count)),
            manifest::joined(root, references[count]),
        ),
{
    assert(references.take(count + 1).drop_last() =~= references.take(count));
}

/// Gather the paths of references.
fn gather(root: &str, references: &Vec<String>) -> (result: GraphResult<PathList>)
    ensures
        gathers(result, root@, manifest::texts(references@)),
{
    let ghost all = manifest::texts(references@);
    let mut list: PathList = PathList::new();
    for i in 0..references.len()
        invariant
            all == manifest::texts(references@),
            list.wf(),
            list.listed() == ordered_paths(root@, all.take(i as int)),
            resolve_error(root@, all, 0) == resolve_error(root@, all, i as int),
    {
        assert(all[i as int] == references@[i as int]@);
        proof {
            lemma_gather_next(root@, all, i as int);
        }
        match list.insert(root, references[i].as_str()) {
            Ok(_) => {},
            Err(error) => {
                return Err(error);
            },
        }
    }
    assert(all.take(all.len() as int) =~= all);
    Ok(list)
}

/// Append the references of a manifest to active files.
pub fn insert_manifest_references(manifest: &ProjectionManifest, references: &mut Vec<String>)
    ensures
        manifest::texts(final(references)@) == manifest::texts(old(references)@)
            + active_references(manifest@),
{
    let ghost start = manifest::texts(references@);
    let ghost base = seq![manifest@.base_artifact_path];
    let ghost segments = manifest@.segments.map_values(|segment: SegmentRefView| segment.path);
    let ghost chunks = manifest@.base_chunks.map_values(|chunk: ChunkRefView| chunk.path);
    references.push(manifest.base_artifact_path.clone());
    assert(manifest::texts(references@) =~= start + base);
    for i in 0..manifest.segments.len()
        invariant
            segments == manifest@.segments.map_values(|segment: SegmentRefView| segment.path),
            manifest::texts(references@) == start + base + segments.take(i as int),
    {
        let ghost before = manifest::texts(references@);
        let path: String = manifest.segments[i].path.clone();
        assert(manifest@.segments[i as int] == manifest.segments@[i as int]@);
        references.push(path);
        assert(manifest::texts(references@) =~= before.push(path@));
        assert(manifest::texts(references@) =~= start + base + segments.take(i + 1));
    }
    assert(segments.take(segments.len() as int) =~= segments);
    for i in 0..manifest.base_chunks.len()
        invariant
            chunks == manifest@.base_chunks.map_values(|chunk: ChunkRefView| chunk.path),
            manifest::texts(references@) == start + base + segments + chunks.take(i as int),
    {
        let ghost before = manifest::texts(references@);
        let path: String = manifest.base_chunks[i].path.clone();
        assert(manifest@.base_chunks[i as int] == manifest.base_chunks@[i as int]@);
        references.push(path);
        assert(manifest::texts(references@) =~= before.push(path@));
        assert(manifest::texts(references@) =~= start + base + segments + chunks.take(i + 1));
    }
    assert(chunks.take(chunks.len() as int) =~= chunks);
    assert(manifest::texts(references@) =~= start + active_references(manifest@));
}

/// The references of all protected manifests.
fn collect_protected(manifests: &Vec<ProjectionManifest>, retained: &Vec<u64>, active: &Vec<u64>) -> (references:
    Vec<String>)
    ensures
        manifest::texts(references@) == protected_references(
            manifest_views(manifests@),
            retained@.to_set().union(active@.to_set()),
        ),
{
    let ghost all = manifest_views(manifests@);
    let ghost protected = retained@.to_set().union(active@.to_set());
    let mut references: Vec<String> = Vec::new();
    assert(manifest::texts(references@) =~= Seq::<Seq<char>>::empty());
    for i in 0..manifests.len()
        invariant
            all == manifest_views(manifests@),
            protected == retained@.to_set().union(active@.to_set()),
            manifest::texts(references@) == protected_references(all.take(i as int), protected),
    {
        assert(all.take(i + 1).drop_last() =~= all.take(i as int));
        assert(all[i as int] == manifests@[i as int]@);
        let id: u64 = manifests[i].generation_id;
        if contains_id(retained, id) || contains_id(active, id) {
            insert_manifest_references(&manifests[i], &mut references);
        }
    }
    assert(all.take(all.len() as int) =~= all);
    references
}

/// The paths that protected manifests reference.
pub fn protected_manifest_references(
    root: &str,
    manifests: &Vec<ProjectionManifest>,
    retained: &Vec<u64>,
    active: &Vec<u64>,
) -> (result: GraphResult<PathList>)
    ensures
        match resolve_error(
            root@,
            protected_references(
                manifest_views(manifests@),
                retained@.to_set().union(active@.to_set()),
            ),
            0,
        ) {
            Some(error) => result matches Err(given) && given@ == error,
            None => result matches Ok(list) && list.wf() && list.listed() == ordered_paths(
                root@,
                protected_references(
                    manifest_views(manifests@),
                    retained@.to_set().union(active@.to_set()),
                ),
            ),
        },
{
    gather(root, &collect_protected(manifests, retained, active))
}

fn collect_obsolete(manifests: &Vec<ProjectionManifest>) -> (references: Vec<String>)
    ensures
        manifest::texts(references@) == obsolete_references(manifest_views(manifests@)),
{
    let ghost all = manifest_views(manifests@);
    let mut references: Vec<String> = Vec::new();
    assert(manifest::texts(references@) =~= Seq::<Seq<char>>::empty());
    for i in 0..manifests.len()
        invariant
            all == manifest_views(manifests@),
            manifest::texts(references@) == obsolete_references(all.take(i as int)),
    {
        assert(all.take(i + 1).drop_last() =~= all.take(i as int));
        assert(all[i as int] == manifests@[i as int]@);
        let manifest: &ProjectionManifest = &manifests[i];
        let ghost start = manifest::texts(references@);
        let ghost files = manifest@.obsolete_files.map_values(|file: FileRefView| file.path);
        for j in 0..manifest.obsolete_files.len()
            invariant
                files == manifest@.obsolete_files.map_values(|file: FileRefView| file.path),
                manifest::texts(references@) == start + files.take(j as int),
        {
            let ghost before = manifest::texts(references@);
            let path: String = manifest.obsolete_files[j].path.clone();
            assert(manifest@.obsolete_files[j as int] == manifest.obsolete_files@[j as int]@);
            references.push(path);
            assert(manifest::texts(references@) =~= before.push(path@));
            assert(manifest::texts(references@) =~= start + files.take(j + 1));
        }
        assert(files.take(files.len() as int) =~= files);
    }
    assert(all.take(all.len() as int) =~= all);
    references
}

// ---------------------------------------------------------------------------
// Plan
// ---------------------------------------------------------------------------

/// What one GC pass deletes.
pub struct GcPlan {
    pub valid_generations_scanned: usize,
    pub retained_generations: Vec<u64>,
    pub active_generations: Vec<u64>,
    /// Obsolete files in path order, none twice.
    pub candidates: Vec<String>,
    /// Whether the file at the same place has to stay.
    pub protected: Vec<bool>,
}

/// The generations in use that have no valid manifest.
pub open spec fn missing_ids(active: Seq<u64>, manifests: Seq<ManifestView>) -> Seq<u64> {
    active.filter(|id: u64| !ids_from(manifests, 0).contains(id))
}

/// Whether a plan is that of a GC pass.
pub open spec fn is_gc_plan(
    plan: GcPlan,
    root: Seq<char>,
    manifests: Seq<ManifestView>,
    config: ProjectionGcConfig,
    active: Set<u64>,
) -> bool {
    let kept = retained_ids(manifests, config).union(active);
    let guarded = ordered_paths(root, protected_references(manifests, kept));
    &&& plan.valid_generations_scanned == manifests.len()
    &&& ascending(plan.retained_generations@)
    &&& plan.retained_generations@.to_set() == retained_ids(manifests, config)
    &&& ascending(plan.active_generations@)
    &&& plan.active_generations@.to_set() == active
    &&& manifest::texts(plan.candidates@) == ordered_paths(root, obsolete_references(manifests))
    &&& paths::in_path_order(manifest::texts(plan.candidates@))
    &&& plan.protected@.len() == plan.candidates@.len()
    &&& forall|i: int|
        0 <= i < plan.candidates@.len() ==> #[trigger] plan.protected@[i] == lists_path(
            guarded,
            plan.candidates@[i]@,
        )
}

/// Whether a result is what planning a GC pass gives. A pass is refused while a
/// generation in use has no valid manifest.
pub open spec fn plans_gc(
    result: GraphResult<GcPlan>,
    root: Seq<char>,
    manifests: Seq<ManifestView>,
    config: ProjectionGcConfig,
    active: Set<u64>,
) -> bool {
    let kept = retained_ids(manifests, config).union(active);
    let references = protected_references(manifests, kept);
    if exists|id: u64| #[trigger] active.contains(id) && !ids_from(manifests, 0).contains(id) {
        result matches Err(given) && exists|ids: Seq<u64>| #[trigger]
            ascending(ids) && ids.to_set() == active && given@ == GraphErrorView::Internal(
                "projection GC refused because active generations have no valid manifest: "@
                    + list_text(missing_ids(ids, manifests)),
            )
    } else {
        match resolve_error(root, references, 0) {
            Some(error) => result matches Err(given) && given@ == error,
            None => match resolve_error(root, obsolete_references(manifests), 0) {
                Some(error) => result matches Err(given) && given@ == error,
                None => result matches Ok(plan) && is_gc_plan(
                    plan,
                    root,
                    manifests,
                    config,
                    active,
                ),
            },
        }
    }
}

fn has_generation(manifests: &Vec<ProjectionManifest>, id: u64) -> (found: bool)
    ensures
        found == ids_from(manifest_views(manifests@), 0).contains(id),
{
    let ghost all = manifest_views(manifests@);
    for i in 0..manifests.len()
        invariant
            all == manifest_views(manifests@),
            forall|j: int| 0 <= j < i ==> (#[trigger] all[j]).generation_id != id,
    {
        assert(all[i as int] == manifests@[i as int]@);
        if manifests[i].generation_id == id {
            return true;
        }
    }
    false
}

fn missing_generations(active: &Vec<u64>, manifests: &Vec<ProjectionManifest>) -> (missing: Vec<u64>)
    ensures
        missing@ == missing_ids(active@, manifest_views(manifests@)),
{
    let ghost all = manifest_views(manifests@);
    let mut missing: Vec<u64> = Vec::new();
    proof {
        reveal(Seq::filter);
        assert(missing@ =~= missing_ids(active@.take(0), all));
    }
    for i in 0..active.len()
        invariant
            all == manifest_views(manifests@),
            missing@ == missing_ids(active@.take(i as int), all),
    {
        if !has_generation(manifests, active[i]) {
            missing.push(active[i]);
        }
        proof {
            reveal(Seq::filter);
            assert(active@.take(i + 1).drop_last() =~= active@.take(i as int));
            assert(missing@ =~= missing_ids(active@.take(i + 1), all));
        }
    }
    assert(active@.take(active@.len() as int) =~= active@);
    missing
}

fn sorted_ids(values: &Vec<u64>) -> (ids: Vec<u64>)
    ensures
        ascending(ids@),
        ids@.to_set() == values@.to_set(),
{
    let mut ids: Vec<u64> = Vec::new();
    assert(ids@.to_set() =~= values@.take(0).to_set());
    for i in 0..values.len()
        invariant
            ascending(ids@),
            ids@.to_set() == values@.take(i as int).to_set(),
    {
        insert_id(&mut ids, values[i]);
        proof {
            let fewer = values@.take(i as int);
            let more = values@.take(i + 1);
            assert forall|id: u64| #[trigger] more.to_set().contains(id)
                <==> fewer.to_set().insert(values@[i as int]).contains(id) by {
                if more.contains(id) {
                    let j = choose|j: int| 0 <= j < more.len() && more[j] == id;
                    if j < i {
                        assert(fewer[j] == id);
                    }
                }
                if fewer.contains(id) {
                    let j = choose|j: int| 0 <= j < fewer.len() && fewer[j] == id;
                    assert(more[j] == id);
                }
                assert(more[i as int] == values@[i as int]);
            }
            assert(more.to_set() =~= fewer.to_set().insert(values@[i as int]));
        }
    }
    assert(values@.take(values@.len() as int) =~= values@);
    ids
}

/// What a GC pass deletes, where `active_generation_ids` are the generations in
/// use.
pub fn collect_projection_garbage_with_active_generation_ids(
    root: &str,
    manifests: &Vec<ProjectionManifest>,
    config: ProjectionGcConfig,
    active_generation_ids: &Vec<u64>,
) -> (result: GraphResult<GcPlan>)
    ensures
        plans_gc(
            result,
            root@,
            manifest_views(manifests@),
            config,
            active_generation_ids@.to_set(),
        ),
{
    let ghost all = manifest_views(manifests@);
    let ghost in_use = active_generation_ids@.to_set();
    let retained_generations: Vec<u64> = retained_generation_ids(manifests, config);
    let active_generations: Vec<u64> = sorted_ids(active_generation_ids);
    let missing: Vec<u64> = missing_generations(&active_generations, manifests);
    if missing.len() > 0 {
        proof {
            let keep = |id: u64| !ids_from(all, 0).contains(id);
            active_generations@.lemma_filter_pred(keep, 0);
            crate::projection::layered::lemma_filter_member(active_generations@, keep, 0);
            assert(in_use.contains(missing@[0]));
        }
        return Err(
            GraphError::Internal(
                concat2(
                    "projection GC refused because active generations have no valid manifest: ",
                    id_list_text(&missing).as_str(),
                ),
            ),
        );
    }
    proof {
        assert forall|id: u64| #[trigger] in_use.contains(id) implies ids_from(
            all,
            0,
        ).contains(id) by {
            assert(active_generations@.to_set().contains(id));
            let i = choose|i: int|
                0 <= i < active_generations@.len() && active_generations@[i] == id;
            if !ids_from(all, 0).contains(id) {
                let keep = |id: u64| !ids_from(all, 0).contains(id);
                assert(keep(active_generations@[i]));
                active_generations@.lemma_filter_contains(keep, i);
                assert(missing@.contains(id));
            }
        }
    }
    let protected_paths: PathList = match protected_manifest_references(
        root,
        manifests,
        &retained_generations,
        &active_generations,
    ) {
        Ok(list) => list,
        Err(error) => {
            return Err(error);
        },
    };
    let obsolete: PathList = match gather(root, &collect_obsolete(manifests)) {
        Ok(list) => list,
        Err(error) => {
            return Err(error);
        },
    };
    let candidates: Vec<String> = obsolete.paths;
    proof {
        lemma_ordered_paths(root@, obsolete_references(all));
    }
    let mut protected: Vec<bool> = Vec::new();
    for i in 0..candidates.len()
        invariant
            protected_paths.wf(),
            protected@.len() == i,
            forall|j: int|
                0 <= j < i ==> #[trigger] protected@[j] == lists_path(
                    protected_paths.listed(),
                    candidates@[j]@,
                ),
    {
        protected.push(protected_paths.has(candidates[i].as_str()));
    }
    Ok(
        GcPlan {
            valid_generations_scanned: manifests.len(),
            retained_generations,
            active_generations,
            candidates,
            protected,
        },
    )
}

/// What became of a candidate.
#[derive(Debug, Clone, Copy, PartialEq, Eq, Structural)]
pub enum CandidateOutcome {
    /// The file has to stay.
    Protected,
    /// There was no such file.
    Missing,
    /// It is not a regular file.
    NotFile,
    /// The file was deleted; it had this many bytes.
    Deleted(u64),
}

/// The number of candidates that stay, among the first `count`.
pub open spec fn stay_count(outcomes: Seq<CandidateOutcome>, count: int) -> nat
    decreases count,
{
    if count <= 0 {
        0
    } else {
        stay_count(outcomes, count - 1) + match outcomes[count - 1] {
            CandidateOutcome::Protected | CandidateOutcome::NotFile => 1nat,
            _ => 0nat,
        }
    }
}

/// The number of deleted files, among the first `count` candidates.
pub open spec fn deleted_count(outcomes: Seq<CandidateOutcome>, count: int) -> nat
    decreases count,
{
    if count <= 0 {
        0
    } else {
        deleted_count(outcomes, count - 1) + match outcomes[count - 1] {
            CandidateOutcome::Deleted(_) => 1nat,
            _ => 0nat,
        }
    }
}

/// The bytes of deleted files, among the first `count` candidates.
pub open spec fn deleted_bytes(outcomes: Seq<CandidateOutcome>, count: int) -> nat
    decreases count,
{
    if count <= 0 {
        0
    } else {
        deleted_bytes(outcomes, count - 1) + match outcomes[count - 1] {
            CandidateOutcome::Deleted(bytes) => bytes as nat,
            _ => 0nat,
        }
    }
}

/// The summary of a GC pass, once all candidates were dealt with.
pub fn summarize(plan: GcPlan, outcomes: &Vec<CandidateOutcome>) -> (summary: ProjectionGcSummary)
    requires
        outcomes@.len() == plan.candidates@.len(),
    ensures
        summary.valid_generations_scanned == plan.valid_generations_scanned,
        summary.retained_generations == plan.retained_generations,
        summary.active_generations == plan.active_generations,
        summary.obsolete_candidates == plan.candidates@.len(),
        summary.protected_candidates == stay_count(outcomes@, outcomes@.len() as int),
        summary.deleted_files == deleted_count(outcomes@, outcomes@.len() as int),
        summary.deleted_bytes == (if deleted_bytes(outcomes@, outcomes@.len() as int) > u64::MAX {
            u64::MAX as nat
        } else {
            deleted_bytes(outcomes@, outcomes@.len() as int)
        }),
{
    let mut protected_candidates: usize = 0;
    let mut deleted_files: usize = 0;
    let mut bytes: u64 = 0;
    for i in 0..outcomes.len()
        invariant
            protected_candidates <= i,
            deleted_files <= i,
            protected_candidates == stay_count(outcomes@, i as int),
            deleted_files == deleted_count(outcomes@, i as int),
            bytes == (if deleted_bytes(outcomes@, i as int) > u64::MAX {
                u64::MAX as nat
            } else {
                deleted_bytes(outcomes@, i as int)
            }),
    {
        match outcomes[i] {
            CandidateOutcome::Protected | CandidateOutcome::NotFile => {
                protected_candidates = protected_candidates + 1;
            },
            CandidateOutcome::Missing => {},
            CandidateOutcome::Deleted(size) => {
                deleted_files = deleted_files + 1;
                bytes = bytes.saturating_add(size);
            },
        }
    }
    ProjectionGcSummary {
        valid_generations_scanned: plan.valid_generations_scanned,
        retained_generations: plan.retained_generations,
        active_generations: plan.active_generations,
        obsolete_candidates: plan.candidates.len(),
        protected_candidates,
        deleted_files,
        deleted_bytes: bytes,
    }
}

// ---------------------------------------------------------------------------
// Laws
// ---------------------------------------------------------------------------

proof fn lemma_protected_has(
    manifests: Seq<ManifestView>,
    protected: Set<u64>,
    at: int,
    reference: Seq<char>,
)
    requires
        0 <= at < manifests.len(),
        protected.contains(manifests[at].generation_id),
        active_references(manifests[at]).contains(reference),
    ensures
        protected_references(manifests, protected).contains(reference),
    decreases manifests.len(),
{
    let init = manifests.drop_last();
    let earlier = protected_references(init, protected);
    if at < init.len() {
        lemma_protected_has(init, protected, at, reference);
        let i = choose|i: int| 0 <= i < earlier.len() && earlier[i] == reference;
        assert(protected_references(manifests, protected)[i] == reference);
    } else {
        let last = active_references(manifests.last());
        let i = choose|i: int| 0 <= i < last.len() && last[i] == reference;
        assert(protected_references(manifests, protected)[earlier.len() + i] == reference);
    }
}

/// The path of every reference is listed.
pub proof fn lemma_ordered_has(root: Seq<char>, references: Seq<Seq<char>>, at: int)
    requires
        0 <= at < references.len(),
    ensures
        lists_path(ordered_paths(root, references), manifest::joined(root, references[at])),
    decreases references.len(),
{
    let init = references.drop_last();
    lemma_ordered_paths(root, init);
    lemma_with_path(ordered_paths(root, init), manifest::joined(root, references.last()));
    if at < init.len() {
        lemma_ordered_has(root, init, at);
        assert(init[at] == references[at]);
    }
}

/// A GC pass leaves every file that a retained generation, or one in use, still
/// references.
pub proof fn lemma_gc_spares_referenced_files(
    plan: GcPlan,
    root: Seq<char>,
    manifests: Seq<ManifestView>,
    config: ProjectionGcConfig,
    active: Set<u64>,
    at: int,
    reference: Seq<char>,
    candidate: int,
)
    requires
        is_gc_plan(plan, root, manifests, config, active),
        0 <= at < manifests.len(),
        retained_ids(manifests, config).union(active).contains(manifests[at].generation_id),
        active_references(manifests[at]).contains(reference),
        0 <= candidate < plan.candidates@.len(),
        paths::same_path(manifest::joined(root, reference), plan.candidates@[candidate]@),
    ensures
        plan.protected@[candidate],
{
    let kept = retained_ids(manifests, config).union(active);
    let references = protected_references(manifests, kept);
    lemma_protected_has(manifests, kept, at, reference);
    let i = choose|i: int| 0 <= i < references.len() && references[i] == reference;
    lemma_ordered_has(root, references, i);
    let guarded = ordered_paths(root, references);
    let j = choose|j: int|
        0 <= j < guarded.len() && paths::same_path(
            #[trigger] guarded[j],
            manifest::joined(root, reference),
        );
    assert(paths::same_path(guarded[j], plan.candidates@[candidate]@));
    assert(plan.protected@[candidate] == lists_path(guarded, plan.candidates@[candidate]@));
}

/// The latest valid generation is always retained.
pub proof fn lemma_latest_generation_is_retained(
    manifests: Seq<ManifestView>,
    config: ProjectionGcConfig,
)
    requires
        manifests.len() > 0,
    ensures
        retained_ids(manifests, config).contains(manifests.last().generation_id),
{
    assert(manifests[manifests.len() - 1].generation_id == manifests.last().generation_id);
}

/// What a GC pass deletes was declared obsolete by a valid manifest.
pub proof fn lemma_gc_deletes_only_obsolete_files(
    root: Seq<char>,
    references: Seq<Seq<char>>,
    at: int,
)
    requires
        0 <= at < ordered_paths(root, references).len(),
    ensures
        exists|i: int|
            0 <= i < references.len() && ordered_paths(root, references)[at]
                == #[trigger] manifest::joined(root, references[i]),
    decreases references.len(),
{
    if references.len() > 0 {
        let init = references.drop_last();
        let earlier = ordered_paths(root, init);
        let all = ordered_paths(root, references);
        lemma_ordered_paths(root, init);
        lemma_with_path(earlier, manifest::joined(root, references.last()));
        if all[at] == manifest::joined(root, references.last()) {
            assert(all[at] == manifest::joined(root, references[references.len() - 1]));
        } else {
            assert(earlier.contains(all[at]));
            let m = choose|m: int| 0 <= m < earlier.len() && earlier[m] == all[at];
            lemma_gc_deletes_only_obsolete_files(root, init, m);
            let i = choose|i: int|
                0 <= i < init.len() && earlier[m] == #[trigger] manifest::joined(root, init[i]);
            assert(init[i] == references[i]);
            assert(all[at] == manifest::joined(root, references[i]));
        }
    }
}

} // verus!
