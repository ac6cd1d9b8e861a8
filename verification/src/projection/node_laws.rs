//! What ingestion says of nodes, primary keys, filter values and tenants.
use vstd::prelude::*;

use crate::order::{self, Ranked};
use crate::ordered_map::{self, MapKey};
use crate::projection::ingest::{
    self, FilterDelta, FilterKey, IngestPlanView, KeyDelta, NodeKey, NodeStateDelta,
    ProjectionSyncRow, ResolutionDelta, ResolutionKey, TenantDelta, TenantKey,
};
use crate::projection::ingest_laws;
use crate::projection::layered;
use crate::projection::manifest::ManifestView;
use crate::projection::normalize::MutationBufferLimits;
use crate::projection::segment::{
    self, DeltaSegmentView, SegmentFilterValue, SegmentNodeState, SegmentResolution, SegmentTenant,
};
use crate::safety::GraphErrorView;
use crate::types::TraversalDirection;

verus! {

// ---------------------------------------------------------------------------
// Rows
// ---------------------------------------------------------------------------

/// How many of the first `count` rows are as asked for.
pub open spec fn how_many(
    rows: Seq<ProjectionSyncRow>,
    count: int,
    asked: spec_fn(ProjectionSyncRow) -> bool,
) -> nat
    decreases count,
{
    if count <= 0 {
        0
    } else {
        how_many(rows, count - 1, asked) + (if asked(rows[count - 1]) {
            1nat
        } else {
            0
        })
    }
}

/// The node that a row is about.
pub open spec fn node_named(row: ProjectionSyncRow) -> u32 {
    if let Some(node_idx) = row.node_idx {
        node_idx
    } else {
        row.source
    }
}

/// How many rows insert what they are about.
pub open spec fn upserts(
    rows: Seq<ProjectionSyncRow>,
    about: spec_fn(ProjectionSyncRow) -> bool,
) -> nat {
    how_many(
        rows,
        rows.len() as int,
        |row: ProjectionSyncRow| about(row) && row.operation is UpsertNode,
    )
}

/// How many rows delete what they are about.
pub open spec fn deletions(
    rows: Seq<ProjectionSyncRow>,
    about: spec_fn(ProjectionSyncRow) -> bool,
) -> nat {
    how_many(
        rows,
        rows.len() as int,
        |row: ProjectionSyncRow| about(row) && row.operation is DeleteNode,
    )
}

/// Whether nothing is to be said: no row is about it, or one upsert and one deletion
/// are, which cancel.
pub open spec fn says_nothing(
    rows: Seq<ProjectionSyncRow>,
    about: spec_fn(ProjectionSyncRow) -> bool,
) -> bool {
    ||| upserts(rows, about) == 0 && deletions(rows, about) == 0
    ||| upserts(rows, about) == 1 && deletions(rows, about) == 1
}

/// Whether row `i` has precedence: deletions stand above upserts, and of one kind the
/// later row above the earlier one, and else the greater node index.
pub open spec fn has_precedence(
    rows: Seq<ProjectionSyncRow>,
    about: spec_fn(ProjectionSyncRow) -> bool,
    i: int,
) -> bool {
    &&& 0 <= i < rows.len()
    &&& about(rows[i])
    &&& forall|j: int|
        0 <= j < rows.len() && about(#[trigger] rows[j]) ==> {
            ||| rows[i].operation is DeleteNode && rows[j].operation is UpsertNode
            ||| rows[i].operation == rows[j].operation && (rows[i].sync_id > rows[j].sync_id || (
            rows[i].sync_id == rows[j].sync_id && node_named(rows[i]) >= node_named(rows[j])))
        }
}

/// Whether row `i` has precedence, whatever node it is about.
pub open spec fn stands_above(
    rows: Seq<ProjectionSyncRow>,
    about: spec_fn(ProjectionSyncRow) -> bool,
    i: int,
) -> bool {
    &&& 0 <= i < rows.len()
    &&& about(rows[i])
    &&& forall|j: int|
        0 <= j < rows.len() && about(#[trigger] rows[j]) ==> {
            ||| rows[i].operation is DeleteNode && rows[j].operation is UpsertNode
            ||| rows[i].operation == rows[j].operation && rows[i].sync_id >= rows[j].sync_id
        }
}

pub proof fn lemma_none(
    rows: Seq<ProjectionSyncRow>,
    count: int,
    asked: spec_fn(ProjectionSyncRow) -> bool,
)
    requires
        0 <= count <= rows.len(),
    ensures
        how_many(rows, count, asked) > 0 <==> exists|i: int|
            0 <= i < count && asked(#[trigger] rows[i]),
    decreases count,
{
    if count > 0 {
        lemma_none(rows, count - 1, asked);
        if how_many(rows, count, asked) > 0 {
            if asked(rows[count - 1]) {
            } else {
                let i = choose|i: int| 0 <= i < count - 1 && asked(#[trigger] rows[i]);
                assert(asked(rows[i]));
            }
        }
    }
}

/// The row that has precedence is a deletion where one is.
proof fn lemma_deleted(
    rows: Seq<ProjectionSyncRow>,
    about: spec_fn(ProjectionSyncRow) -> bool,
    i: int,
)
    requires
        stands_above(rows, about, i),
    ensures
        rows[i].operation is DeleteNode <==> deletions(rows, about) > 0,
{
    let n = rows.len() as int;
    let down = |row: ProjectionSyncRow| about(row) && row.operation is DeleteNode;
    lemma_none(rows, n, down);
    if rows[i].operation is DeleteNode {
        assert(down(rows[i]));
    }
    if how_many(rows, n, down) > 0 {
        let j = choose|j: int| 0 <= j < n && down(#[trigger] rows[j]);
        assert(about(rows[j]));
    }
}

// ---------------------------------------------------------------------------
// Groups
// ---------------------------------------------------------------------------

/// What is said of one thing, row by row: `said(n)` is what the first `n` rows say.
spec fn follows_rows<D>(
    rows: Seq<ProjectionSyncRow>,
    said: spec_fn(int) -> Seq<D>,
    about: spec_fn(ProjectionSyncRow) -> bool,
    delta: spec_fn(ProjectionSyncRow) -> D,
) -> bool {
    &&& said(0).len() == 0
    &&& forall|n: int|
        0 <= n < rows.len() ==> said(n + 1) == (if about(#[trigger] rows[n]) {
            said(n).push(delta(rows[n]))
        } else {
            said(n)
        })
}

/// Whether rows insert or delete what they are about, and deletions are said so.
spec fn says_deletions<D: KeyDelta>(
    rows: Seq<ProjectionSyncRow>,
    about: spec_fn(ProjectionSyncRow) -> bool,
    delta: spec_fn(ProjectionSyncRow) -> D,
) -> bool {
    forall|i: int|
        0 <= i < rows.len() && about(#[trigger] rows[i]) ==> (rows[i].operation is UpsertNode
            || rows[i].operation is DeleteNode) && (delta(rows[i]).tombstoned()
            <==> rows[i].operation is DeleteNode)
}

/// Whether row `i` is about the thing and says `left`.
spec fn row_says<D>(
    rows: Seq<ProjectionSyncRow>,
    about: spec_fn(ProjectionSyncRow) -> bool,
    delta: spec_fn(ProjectionSyncRow) -> D,
    i: int,
    left: D,
) -> bool {
    0 <= i < rows.len() && about(rows[i]) && delta(rows[i]) == left
}

proof fn lemma_said_length<D: KeyDelta>(
    rows: Seq<ProjectionSyncRow>,
    said: spec_fn(int) -> Seq<D>,
    about: spec_fn(ProjectionSyncRow) -> bool,
    delta: spec_fn(ProjectionSyncRow) -> D,
    n: int,
)
    requires
        follows_rows(rows, said, about, delta),
        says_deletions(rows, about, delta),
        0 <= n <= rows.len(),
    ensures
        said(n).len() == how_many(
            rows,
            n,
            |row: ProjectionSyncRow| about(row) && row.operation is UpsertNode,
        ) + how_many(rows, n, |row: ProjectionSyncRow| about(row) && row.operation is DeleteNode),
    decreases n,
{
    if n > 0 {
        let m = n - 1;
        lemma_said_length(rows, said, about, delta, m);
        let up = |row: ProjectionSyncRow| about(row) && row.operation is UpsertNode;
        let down = |row: ProjectionSyncRow| about(row) && row.operation is DeleteNode;
        assert(said(m + 1) == (if about(rows[m]) {
            said(m).push(delta(rows[m]))
        } else {
            said(m)
        }));
        assert(how_many(rows, n, up) == how_many(rows, m, up) + (if up(rows[m]) {
            1nat
        } else {
            0
        }));
        assert(how_many(rows, n, down) == how_many(rows, m, down) + (if down(rows[m]) {
            1nat
        } else {
            0
        }));
    }
}

/// What is said comes from a row.
proof fn lemma_comes_from_row<D: KeyDelta>(
    rows: Seq<ProjectionSyncRow>,
    said: spec_fn(int) -> Seq<D>,
    about: spec_fn(ProjectionSyncRow) -> bool,
    delta: spec_fn(ProjectionSyncRow) -> D,
    n: int,
    k: int,
) -> (i: int)
    requires
        follows_rows(rows, said, about, delta),
        0 <= n <= rows.len(),
        0 <= k < said(n).len(),
    ensures
        row_says(rows, about, delta, i, said(n)[k]),
    decreases n,
{
    let m = n - 1;
    assert(said(m + 1) == (if about(rows[m]) {
        said(m).push(delta(rows[m]))
    } else {
        said(m)
    }));
    if k < said(m).len() {
        lemma_comes_from_row(rows, said, about, delta, m, k)
    } else {
        m
    }
}

/// What a row says is among what is said.
proof fn lemma_row_is_said<D: KeyDelta>(
    rows: Seq<ProjectionSyncRow>,
    said: spec_fn(int) -> Seq<D>,
    about: spec_fn(ProjectionSyncRow) -> bool,
    delta: spec_fn(ProjectionSyncRow) -> D,
    n: int,
    i: int,
) -> (k: int)
    requires
        follows_rows(rows, said, about, delta),
        0 <= i < n <= rows.len(),
        about(rows[i]),
    ensures
        0 <= k < said(n).len(),
        said(n)[k] == delta(rows[i]),
    decreases n,
{
    let m = n - 1;
    assert(said(m + 1) == (if about(rows[m]) {
        said(m).push(delta(rows[m]))
    } else {
        said(m)
    }));
    if i < m {
        lemma_row_is_said(rows, said, about, delta, m, i)
    } else {
        said(m).len() as int
    }
}

proof fn lemma_greatest_exists<D: KeyDelta>(group: Seq<D>) -> (best: D)
    requires
        group.len() > 0,
    ensures
        ingest::is_greatest(group, best),
    decreases group.len(),
{
    let last = group.last();
    if group.len() == 1 {
        order::lemma_before_irreflexive(last.rank());
        assert(group[0] == last);
        last
    } else {
        let init = group.drop_last();
        let best = lemma_greatest_exists(init);
        let b = choose|b: int| 0 <= b < init.len() && init[b] == best;
        if order::before(best.rank(), last.rank()) {
            assert forall|i: int| 0 <= i < group.len() implies !order::before(
                last.rank(),
                (#[trigger] group[i]).rank(),
            ) by {
                if i < init.len() {
                    assert(init[i] == group[i]);
                    if order::before(last.rank(), group[i].rank()) {
                        order::lemma_before_transitive(best.rank(), last.rank(), group[i].rank());
                    }
                } else {
                    order::lemma_before_irreflexive(last.rank());
                }
            }
            assert(group[group.len() - 1] == last);
            last
        } else {
            assert forall|i: int| 0 <= i < group.len() implies !order::before(
                best.rank(),
                (#[trigger] group[i]).rank(),
            ) by {
                if i < init.len() {
                    assert(init[i] == group[i]);
                }
            }
            assert(group[b] == best);
            best
        }
    }
}

/// The kinds of what is said are those of the rows.
proof fn lemma_kinds_said<D: KeyDelta>(
    rows: Seq<ProjectionSyncRow>,
    said: spec_fn(int) -> Seq<D>,
    about: spec_fn(ProjectionSyncRow) -> bool,
    delta: spec_fn(ProjectionSyncRow) -> D,
)
    requires
        follows_rows(rows, said, about, delta),
        says_deletions(rows, about, delta),
    ensures
        ingest::any_live(said(rows.len() as int)) <==> upserts(rows, about) > 0,
        ingest::any_tombstone(said(rows.len() as int)) <==> deletions(rows, about) > 0,
{
    let n = rows.len() as int;
    let group = said(n);
    let up = |row: ProjectionSyncRow| about(row) && row.operation is UpsertNode;
    let down = |row: ProjectionSyncRow| about(row) && row.operation is DeleteNode;
    lemma_none(rows, n, up);
    lemma_none(rows, n, down);
    if ingest::any_live(group) {
        let k = choose|k: int| 0 <= k < group.len() && !(#[trigger] group[k]).tombstoned();
        let i = lemma_comes_from_row(rows, said, about, delta, n, k);
        assert(up(rows[i]));
    }
    if how_many(rows, n, up) > 0 {
        let i = choose|i: int| 0 <= i < n && up(#[trigger] rows[i]);
        let k = lemma_row_is_said(rows, said, about, delta, n, i);
        assert(!group[k].tombstoned());
    }
    if ingest::any_tombstone(group) {
        let k = choose|k: int| 0 <= k < group.len() && (#[trigger] group[k]).tombstoned();
        let i = lemma_comes_from_row(rows, said, about, delta, n, k);
        assert(down(rows[i]));
    }
    if how_many(rows, n, down) > 0 {
        let i = choose|i: int| 0 <= i < n && down(#[trigger] rows[i]);
        let k = lemma_row_is_said(rows, said, about, delta, n, i);
        assert(group[k].tombstoned());
    }
}

/// What is left of what rows say of one thing: nothing where they say nothing, else
/// what a row says that no other ranks above.
proof fn lemma_left<D: KeyDelta>(
    rows: Seq<ProjectionSyncRow>,
    said: spec_fn(int) -> Seq<D>,
    about: spec_fn(ProjectionSyncRow) -> bool,
    delta: spec_fn(ProjectionSyncRow) -> D,
) -> (i: int)
    requires
        follows_rows(rows, said, about, delta),
        says_deletions(rows, about, delta),
    ensures
        ingest::selected(said(rows.len() as int)) is None <==> says_nothing(rows, about),
        !says_nothing(rows, about) ==> {
            &&& row_says(
                rows,
                about,
                delta,
                i,
                ingest::selected(said(rows.len() as int))->Some_0,
            )
            &&& forall|j: int|
                0 <= j < rows.len() && about(#[trigger] rows[j]) ==> !order::before(
                    delta(rows[i]).rank(),
                    delta(rows[j]).rank(),
                )
        },
{
    let n = rows.len() as int;
    let group = said(n);
    lemma_kinds_said(rows, said, about, delta);
    lemma_said_length(rows, said, about, delta, n);
    if says_nothing(rows, about) {
        0
    } else {
        let best = lemma_greatest_exists(group);
        assert(ingest::is_greatest(group, best));
        let left = ingest::selected(group)->Some_0;
        assert(ingest::is_greatest(group, left));
        let k = choose|k: int| 0 <= k < group.len() && group[k] == left;
        let i = lemma_comes_from_row(rows, said, about, delta, n, k);
        assert forall|j: int| 0 <= j < rows.len() && about(#[trigger] rows[j]) implies !order::before(
            delta(rows[i]).rank(),
            delta(rows[j]).rank(),
        ) by {
            let m = lemma_row_is_said(rows, said, about, delta, n, j);
            assert(!order::before(left.rank(), group[m].rank()));
        }
        i
    }
}

proof fn lemma_said_step<K, D>(entries: Seq<(K, D)>, entry: (K, D), key: K)
    ensures
        ingest::said_of(entries.push(entry), key) == (if entry.0 == key {
            ingest::said_of(entries, key).push(entry.1)
        } else {
            ingest::said_of(entries, key)
        }),
{
    reveal(Seq::filter);
    assert(entries.push(entry).drop_last() =~= entries);
    assert(ingest::said_of(entries.push(entry), key) =~= (if entry.0 == key {
        ingest::said_of(entries, key).push(entry.1)
    } else {
        ingest::said_of(entries, key)
    }));
}

/// A key has one entry with what is left of what was said of it, or none.
proof fn lemma_one_entry<K: MapKey, D: KeyDelta>(entries: Seq<(K, D)>, key: K) -> (k: int)
    ensures
        ({
            let sorted = ordered_map::sorted_entries(ingest::settled(entries));
            let left = ingest::selected(ingest::said_of(entries, key));
            &&& left is None ==> forall|m: int|
                0 <= m < sorted.len() ==> (#[trigger] sorted[m]).0 != key
            &&& left is Some ==> {
                &&& 0 <= k < sorted.len()
                &&& sorted[k] == (key, left->Some_0)
                &&& forall|m: int|
                    0 <= m < sorted.len() && (#[trigger] sorted[m]).0 == key ==> m == k
            }
        }),
{
    let map = ingest::settled(entries);
    let sorted = ordered_map::sorted_entries(map);
    let left = ingest::selected(ingest::said_of(entries, key));
    ingest_laws::lemma_settled_entries(entries);
    assert(map.contains_key(key) <==> left is Some);
    assert forall|m: int|
        0 <= m < sorted.len() && (#[trigger] sorted[m]).0 == key implies map.contains_key(key) by {
        ordered_map::lemma_entry(sorted, m);
    }
    if left is Some {
        assert(map[key] == left->Some_0);
        let k = choose|k: int| ordered_map::entry_at(sorted, key, k);
        assert(ordered_map::entry_at(sorted, key, k));
        ordered_map::lemma_entry(sorted, k);
        order::lemma_before_irreflexive(key.rank());
        assert forall|m: int| 0 <= m < sorted.len() && (#[trigger] sorted[m]).0 == key implies m
            == k by {
            if m < k {
                assert(order::before(sorted[m].0.rank(), sorted[k].0.rank()));
            } else if k < m {
                assert(order::before(sorted[k].0.rank(), sorted[m].0.rank()));
            }
        }
        k
    } else {
        0
    }
}

// ---------------------------------------------------------------------------
// Primary keys
// ---------------------------------------------------------------------------

/// The rows about a primary key.
pub open spec fn about_key(table_oid: u32, pk_hash: u64) -> spec_fn(ProjectionSyncRow) -> bool {
    |row: ProjectionSyncRow|
        (row.operation is UpsertNode || row.operation is DeleteNode) && row.table_oid == Some(
            table_oid,
        ) && row.pk_hash == Some(pk_hash)
}

/// Whether one of resolutions is for a primary key.
pub open spec fn resolves(
    resolutions: Seq<SegmentResolution>,
    table_oid: u32,
    pk_hash: u64,
    k: int,
) -> bool {
    0 <= k < resolutions.len() && resolutions[k].table_oid == table_oid && resolutions[k].pk_hash
        == pk_hash
}

proof fn lemma_resolution_entries(rows: Seq<ProjectionSyncRow>, n: int)
    requires
        0 <= n < rows.len(),
    ensures
        ingest::resolution_entries(rows.take(n + 1)) == (if (rows[n].operation is UpsertNode
            || rows[n].operation is DeleteNode) && rows[n].table_oid is Some
            && rows[n].pk_hash is Some {
            ingest::resolution_entries(rows.take(n)).push(ingest::resolution_entry(rows[n]))
        } else {
            ingest::resolution_entries(rows.take(n))
        }),
{
    reveal(Seq::filter);
    assert(rows.take(n + 1).drop_last() =~= rows.take(n));
    assert(ingest::resolution_entries(rows.take(n + 1)) =~= (if (rows[n].operation is UpsertNode
        || rows[n].operation is DeleteNode) && rows[n].table_oid is Some && rows[n].pk_hash is Some {
        ingest::resolution_entries(rows.take(n)).push(ingest::resolution_entry(rows[n]))
    } else {
        ingest::resolution_entries(rows.take(n))
    }));
}

proof fn lemma_resolutions_follow_rows(rows: Seq<ProjectionSyncRow>, key: ResolutionKey)
    ensures
        follows_rows(
            rows,
            |m: int| ingest::said_of(ingest::resolution_entries(rows.take(m)), key),
            about_key(key.table_oid, key.pk_hash),
            |row: ProjectionSyncRow| ingest::resolution_entry(row).1,
        ),
{
    reveal(Seq::filter);
    let about = about_key(key.table_oid, key.pk_hash);
    let delta = |row: ProjectionSyncRow| ingest::resolution_entry(row).1;
    let said = |m: int| ingest::said_of(ingest::resolution_entries(rows.take(m)), key);
    assert(rows.take(0) =~= Seq::<ProjectionSyncRow>::empty());
    assert(ingest::resolution_entries(rows.take(0)) =~= Seq::empty());
    assert(said(0) =~= Seq::empty());
    assert forall|m: int| 0 <= m < rows.len() implies said(m + 1) == (if about(#[trigger] rows[m]) {
        said(m).push(delta(rows[m]))
    } else {
        said(m)
    }) by {
        lemma_resolution_entries(rows, m);
        lemma_said_step(
            ingest::resolution_entries(rows.take(m)),
            ingest::resolution_entry(rows[m]),
            key,
        );
    }
}

proof fn lemma_resolution_rank(a: ResolutionDelta, b: ResolutionDelta)
    ensures
        order::before(a.rank(), b.rank()) <==> {
            ||| !a.tombstone && b.tombstone
            ||| a.tombstone == b.tombstone && a.sync_id < b.sync_id
            ||| a.tombstone == b.tombstone && a.sync_id == b.sync_id && a.node_idx < b.node_idx
        },
{
    reveal_with_fuel(order::ranks_before, 5);
}

/// Whether resolution `k` is the only one for a primary key and says what row `i`, which
/// has precedence, comes to.
pub open spec fn resolution_stands(
    resolutions: Seq<SegmentResolution>,
    table_oid: u32,
    pk_hash: u64,
    rows: Seq<ProjectionSyncRow>,
    about: spec_fn(ProjectionSyncRow) -> bool,
    k: int,
    i: int,
) -> bool {
    &&& resolves(resolutions, table_oid, pk_hash, k)
    &&& has_precedence(rows, about, i)
    &&& resolutions[k].node_idx == node_named(rows[i])
    &&& resolutions[k].tombstone <==> rows[i].operation is DeleteNode
    &&& resolutions[k].tombstone <==> deletions(rows, about) > 0
    &&& forall|m: int| #[trigger] resolves(resolutions, table_oid, pk_hash, m) ==> m == k
}

proof fn lemma_resolution_rows(rows: Seq<ProjectionSyncRow>, table_oid: u32, pk_hash: u64) -> (at: (
    int,
    int,
))
    ensures
        says_nothing(rows, about_key(table_oid, pk_hash)) ==> forall|k: int|
            !#[trigger] resolves(ingest::resolution_rows(rows), table_oid, pk_hash, k),
        !says_nothing(rows, about_key(table_oid, pk_hash)) ==> resolution_stands(
            ingest::resolution_rows(rows),
            table_oid,
            pk_hash,
            rows,
            about_key(table_oid, pk_hash),
            at.0,
            at.1,
        ),
{
    let n = rows.len() as int;
    let key = ResolutionKey { table_oid, pk_hash };
    let about = about_key(table_oid, pk_hash);
    let delta = |row: ProjectionSyncRow| ingest::resolution_entry(row).1;
    let said = |m: int| ingest::said_of(ingest::resolution_entries(rows.take(m)), key);
    lemma_resolutions_follow_rows(rows, key);
    let i = lemma_left(rows, said, about, delta);
    assert(rows.take(n) =~= rows);
    let entries = ingest::resolution_entries(rows);
    let k = lemma_one_entry(entries, key);
    let sorted = ordered_map::sorted_entries(ingest::settled(entries));
    let resolutions = ingest::resolution_rows(rows);
    assert forall|m: int| #[trigger] resolves(resolutions, table_oid, pk_hash, m) implies
        sorted[m].0 == key by {}
    if !says_nothing(rows, about) {
        assert forall|j: int| 0 <= j < rows.len() && about(#[trigger] rows[j]) implies {
            ||| rows[i].operation is DeleteNode && rows[j].operation is UpsertNode
            ||| rows[i].operation == rows[j].operation && (rows[i].sync_id > rows[j].sync_id || (
            rows[i].sync_id == rows[j].sync_id && node_named(rows[i]) >= node_named(rows[j])))
        } by {
            lemma_resolution_rank(delta(rows[i]), delta(rows[j]));
        }
        assert(has_precedence(rows, about, i));
        assert(sorted[k].0 == key);
        assert(resolves(resolutions, table_oid, pk_hash, k));
        lemma_deleted(rows, about, i);
    }
    (k, i)
}

// ---------------------------------------------------------------------------
// Node states
// ---------------------------------------------------------------------------

/// The rows about a node.
pub open spec fn about_node(node_idx: u32) -> spec_fn(ProjectionSyncRow) -> bool {
    |row: ProjectionSyncRow|
        (row.operation is UpsertNode || row.operation is DeleteNode)
            && node_named(row) == node_idx
}

/// Whether one of the rows is for a node.
pub open spec fn has_state(states: Seq<SegmentNodeState>, node_idx: u32, k: int) -> bool {
    0 <= k < states.len()
        && states[k].node_idx == node_idx
}

/// Whether row `k` is the only one for a node and says what row `i`, which has
/// precedence, comes to.
pub open spec fn state_stands(
    states: Seq<SegmentNodeState>,
    node_idx: u32,
    rows: Seq<ProjectionSyncRow>,
    about: spec_fn(ProjectionSyncRow) -> bool,
    k: int,
    i: int,
) -> bool {
    &&& has_state(states, node_idx, k)
    &&& stands_above(rows, about, i)
    &&& !states[k].active <==> rows[i].operation is DeleteNode
    &&& !states[k].active <==> deletions(rows, about) > 0
    &&& forall|m: int| #[trigger] has_state(states, node_idx, m) ==> m == k
}

proof fn lemma_node_state_entries(rows: Seq<ProjectionSyncRow>, n: int)
    requires
        0 <= n < rows.len(),
    ensures
        ingest::node_state_entries(rows.take(n + 1)) == (if (rows[n].operation is UpsertNode || rows[n].operation is DeleteNode) {
            ingest::node_state_entries(rows.take(n)).push(ingest::node_state_entry(rows[n]))
        } else {
            ingest::node_state_entries(rows.take(n))
        }),
{
    reveal(Seq::filter);
    assert(rows.take(n + 1).drop_last() =~= rows.take(n));
    assert(ingest::node_state_entries(rows.take(n + 1)) =~= (if (rows[n].operation is UpsertNode || rows[n].operation is DeleteNode) {
        ingest::node_state_entries(rows.take(n)).push(ingest::node_state_entry(rows[n]))
    } else {
        ingest::node_state_entries(rows.take(n))
    }));
}

proof fn lemma_node_state_follows_rows(rows: Seq<ProjectionSyncRow>, key: NodeKey)
    ensures
        follows_rows(
            rows,
            |m: int| ingest::said_of(ingest::node_state_entries(rows.take(m)), key),
            about_node(key.node_idx),
            |row: ProjectionSyncRow| ingest::node_state_entry(row).1,
        ),
{
    reveal(Seq::filter);
    let about = about_node(key.node_idx);
    let delta = |row: ProjectionSyncRow| ingest::node_state_entry(row).1;
    let said = |m: int| ingest::said_of(ingest::node_state_entries(rows.take(m)), key);
    assert(rows.take(0) =~= Seq::<ProjectionSyncRow>::empty());
    assert(ingest::node_state_entries(rows.take(0)) =~= Seq::empty());
    assert(said(0) =~= Seq::empty());
    assert forall|m: int| 0 <= m < rows.len() implies said(m + 1) == (if about(#[trigger] rows[m]) {
        said(m).push(delta(rows[m]))
    } else {
        said(m)
    }) by {
        lemma_node_state_entries(rows, m);
        lemma_said_step(
            ingest::node_state_entries(rows.take(m)),
            ingest::node_state_entry(rows[m]),
            key,
        );
    }
}

proof fn lemma_node_state_rank(a: NodeStateDelta, b: NodeStateDelta)
    ensures
        order::before(a.rank(), b.rank()) <==> {
            ||| !(!a.active) && !b.active
            ||| (!a.active) == (!b.active) && a.sync_id < b.sync_id
        },
{
    reveal_with_fuel(order::ranks_before, 4);
}

proof fn lemma_node_state_rows(rows: Seq<ProjectionSyncRow>, node_idx: u32) -> (at: (int, int))
    ensures
        says_nothing(rows, about_node(node_idx)) ==> forall|k: int|
            !#[trigger] has_state(ingest::node_state_rows(rows), node_idx, k),
        !says_nothing(rows, about_node(node_idx)) ==> state_stands(
            ingest::node_state_rows(rows),
            node_idx,
            rows,
            about_node(node_idx),
            at.0,
            at.1,
        ),
{
    let n = rows.len() as int;
    let key = NodeKey { node_idx };
    let about = about_node(node_idx);
    let delta = |row: ProjectionSyncRow| ingest::node_state_entry(row).1;
    let said = |m: int| ingest::said_of(ingest::node_state_entries(rows.take(m)), key);
    lemma_node_state_follows_rows(rows, key);
    let i = lemma_left(rows, said, about, delta);
    assert(rows.take(n) =~= rows);
    let entries = ingest::node_state_entries(rows);
    let k = lemma_one_entry(entries, key);
    let sorted = ordered_map::sorted_entries(ingest::settled(entries));
    let states = ingest::node_state_rows(rows);
    assert forall|m: int| #[trigger] has_state(states, node_idx, m) implies sorted[m].0
        == key by {}
    if !says_nothing(rows, about) {
        assert forall|j: int| 0 <= j < rows.len() && about(#[trigger] rows[j]) implies {
            ||| rows[i].operation is DeleteNode && rows[j].operation is UpsertNode
            ||| rows[i].operation == rows[j].operation && rows[i].sync_id >= rows[j].sync_id
        } by {
            lemma_node_state_rank(delta(rows[i]), delta(rows[j]));
        }
        assert(stands_above(rows, about, i));
        assert(sorted[k].0 == key);
        assert(has_state(states, node_idx, k));
        lemma_deleted(rows, about, i);
    }
    (k, i)
}

// ---------------------------------------------------------------------------
// Filter values
// ---------------------------------------------------------------------------

/// The rows about a filter value of a node.
pub open spec fn about_filter(node_idx: u32, column_id: u32, value: u32) -> spec_fn(ProjectionSyncRow) -> bool {
    |row: ProjectionSyncRow|
        (row.operation is UpsertNode || row.operation is DeleteNode)
            && node_named(row) == node_idx
            && row.filter_column_id == Some(column_id)
            && row.filter_value == Some(value)
}

/// Whether one of the rows is for a filter value of a node.
pub open spec fn has_filter(filters: Seq<SegmentFilterValue>, node_idx: u32, column_id: u32, value: u32, k: int) -> bool {
    0 <= k < filters.len()
        && filters[k].node_idx == node_idx
        && filters[k].column_id == column_id
        && filters[k].value == value
}

/// Whether row `k` is the only one for a filter value of a node and says what row `i`, which has
/// precedence, comes to.
pub open spec fn filter_stands(
    filters: Seq<SegmentFilterValue>,
    node_idx: u32, column_id: u32, value: u32,
    rows: Seq<ProjectionSyncRow>,
    about: spec_fn(ProjectionSyncRow) -> bool,
    k: int,
    i: int,
) -> bool {
    &&& has_filter(filters, node_idx, column_id, value, k)
    &&& stands_above(rows, about, i)
    &&& filters[k].tombstone <==> rows[i].operation is DeleteNode
    &&& filters[k].tombstone <==> deletions(rows, about) > 0
    &&& forall|m: int| #[trigger] has_filter(filters, node_idx, column_id, value, m) ==> m == k
}

proof fn lemma_filter_entries(rows: Seq<ProjectionSyncRow>, n: int)
    requires
        0 <= n < rows.len(),
    ensures
        ingest::filter_entries(rows.take(n + 1)) == (if (rows[n].operation is UpsertNode || rows[n].operation is DeleteNode)
            && rows[n].filter_column_id is Some
            && rows[n].filter_value is Some {
            ingest::filter_entries(rows.take(n)).push(ingest::filter_entry(rows[n]))
        } else {
            ingest::filter_entries(rows.take(n))
        }),
{
    reveal(Seq::filter);
    assert(rows.take(n + 1).drop_last() =~= rows.take(n));
    assert(ingest::filter_entries(rows.take(n + 1)) =~= (if (rows[n].operation is UpsertNode || rows[n].operation is DeleteNode)
            && rows[n].filter_column_id is Some
            && rows[n].filter_value is Some {
        ingest::filter_entries(rows.take(n)).push(ingest::filter_entry(rows[n]))
    } else {
        ingest::filter_entries(rows.take(n))
    }));
}

proof fn lemma_filter_follows_rows(rows: Seq<ProjectionSyncRow>, key: FilterKey)
    ensures
        follows_rows(
            rows,
            |m: int| ingest::said_of(ingest::filter_entries(rows.take(m)), key),
            about_filter(key.node_idx, key.column_id, key.value),
            |row: ProjectionSyncRow| ingest::filter_entry(row).1,
        ),
{
    reveal(Seq::filter);
    let about = about_filter(key.node_idx, key.column_id, key.value);
    let delta = |row: ProjectionSyncRow| ingest::filter_entry(row).1;
    let said = |m: int| ingest::said_of(ingest::filter_entries(rows.take(m)), key);
    assert(rows.take(0) =~= Seq::<ProjectionSyncRow>::empty());
    assert(ingest::filter_entries(rows.take(0)) =~= Seq::empty());
    assert(said(0) =~= Seq::empty());
    assert forall|m: int| 0 <= m < rows.len() implies said(m + 1) == (if about(#[trigger] rows[m]) {
        said(m).push(delta(rows[m]))
    } else {
        said(m)
    }) by {
        lemma_filter_entries(rows, m);
        lemma_said_step(
            ingest::filter_entries(rows.take(m)),
            ingest::filter_entry(rows[m]),
            key,
        );
    }
}

proof fn lemma_filter_rank(a: FilterDelta, b: FilterDelta)
    ensures
        order::before(a.rank(), b.rank()) <==> {
            ||| !(a.tombstone) && b.tombstone
            ||| (a.tombstone) == (b.tombstone) && a.sync_id < b.sync_id
        },
{
    reveal_with_fuel(order::ranks_before, 4);
}

proof fn lemma_filter_rows(rows: Seq<ProjectionSyncRow>, node_idx: u32, column_id: u32, value: u32) -> (at: (int, int))
    ensures
        says_nothing(rows, about_filter(node_idx, column_id, value)) ==> forall|k: int|
            !#[trigger] has_filter(ingest::filter_rows(rows), node_idx, column_id, value, k),
        !says_nothing(rows, about_filter(node_idx, column_id, value)) ==> filter_stands(
            ingest::filter_rows(rows),
            node_idx, column_id, value,
            rows,
            about_filter(node_idx, column_id, value),
            at.0,
            at.1,
        ),
{
    let n = rows.len() as int;
    let key = FilterKey { node_idx, column_id, value };
    let about = about_filter(node_idx, column_id, value);
    let delta = |row: ProjectionSyncRow| ingest::filter_entry(row).1;
    let said = |m: int| ingest::said_of(ingest::filter_entries(rows.take(m)), key);
    lemma_filter_follows_rows(rows, key);
    let i = lemma_left(rows, said, about, delta);
    assert(rows.take(n) =~= rows);
    let entries = ingest::filter_entries(rows);
    let k = lemma_one_entry(entries, key);
    let sorted = ordered_map::sorted_entries(ingest::settled(entries));
    let filters = ingest::filter_rows(rows);
    assert forall|m: int| #[trigger] has_filter(filters, node_idx, column_id, value, m) implies sorted[m].0
        == key by {}
    if !says_nothing(rows, about) {
        assert forall|j: int| 0 <= j < rows.len() && about(#[trigger] rows[j]) implies {
            ||| rows[i].operation is DeleteNode && rows[j].operation is UpsertNode
            ||| rows[i].operation == rows[j].operation && rows[i].sync_id >= rows[j].sync_id
        } by {
            lemma_filter_rank(delta(rows[i]), delta(rows[j]));
        }
        assert(stands_above(rows, about, i));
        assert(sorted[k].0 == key);
        assert(has_filter(filters, node_idx, column_id, value, k));
        lemma_deleted(rows, about, i);
    }
    (k, i)
}

// ---------------------------------------------------------------------------
// Tenants
// ---------------------------------------------------------------------------

/// The rows about a node's tenant.
pub open spec fn about_tenant(node_idx: u32, tenant_hash: u64) -> spec_fn(ProjectionSyncRow) -> bool {
    |row: ProjectionSyncRow|
        (row.operation is UpsertNode || row.operation is DeleteNode)
            && node_named(row) == node_idx
            && row.tenant_hash == Some(tenant_hash)
}

/// Whether one of the rows is for a node's tenant.
pub open spec fn has_tenant(tenants: Seq<SegmentTenant>, node_idx: u32, tenant_hash: u64, k: int) -> bool {
    0 <= k < tenants.len()
        && tenants[k].node_idx == node_idx
        && tenants[k].tenant_hash == tenant_hash
}

/// Whether row `k` is the only one for a node's tenant and says what row `i`, which has
/// precedence, comes to.
pub open spec fn tenant_stands(
    tenants: Seq<SegmentTenant>,
    node_idx: u32, tenant_hash: u64,
    rows: Seq<ProjectionSyncRow>,
    about: spec_fn(ProjectionSyncRow) -> bool,
    k: int,
    i: int,
) -> bool {
    &&& has_tenant(tenants, node_idx, tenant_hash, k)
    &&& stands_above(rows, about, i)
    &&& tenants[k].tombstone <==> rows[i].operation is DeleteNode
    &&& tenants[k].tombstone <==> deletions(rows, about) > 0
    &&& forall|m: int| #[trigger] has_tenant(tenants, node_idx, tenant_hash, m) ==> m == k
}

proof fn lemma_tenant_entries(rows: Seq<ProjectionSyncRow>, n: int)
    requires
        0 <= n < rows.len(),
    ensures
        ingest::tenant_entries(rows.take(n + 1)) == (if (rows[n].operation is UpsertNode || rows[n].operation is DeleteNode)
            && rows[n].tenant_hash is Some {
            ingest::tenant_entries(rows.take(n)).push(ingest::tenant_entry(rows[n]))
        } else {
            ingest::tenant_entries(rows.take(n))
        }),
{
    reveal(Seq::filter);
    assert(rows.take(n + 1).drop_last() =~= rows.take(n));
    assert(ingest::tenant_entries(rows.take(n + 1)) =~= (if (rows[n].operation is UpsertNode || rows[n].operation is DeleteNode)
            && rows[n].tenant_hash is Some {
        ingest::tenant_entries(rows.take(n)).push(ingest::tenant_entry(rows[n]))
    } else {
        ingest::tenant_entries(rows.take(n))
    }));
}

proof fn lemma_tenant_follows_rows(rows: Seq<ProjectionSyncRow>, key: TenantKey)
    ensures
        follows_rows(
            rows,
            |m: int| ingest::said_of(ingest::tenant_entries(rows.take(m)), key),
            about_tenant(key.node_idx, key.tenant_hash),
            |row: ProjectionSyncRow| ingest::tenant_entry(row).1,
        ),
{
    reveal(Seq::filter);
    let about = about_tenant(key.node_idx, key.tenant_hash);
    let delta = |row: ProjectionSyncRow| ingest::tenant_entry(row).1;
    let said = |m: int| ingest::said_of(ingest::tenant_entries(rows.take(m)), key);
    assert(rows.take(0) =~= Seq::<ProjectionSyncRow>::empty());
    assert(ingest::tenant_entries(rows.take(0)) =~= Seq::empty());
    assert(said(0) =~= Seq::empty());
    assert forall|m: int| 0 <= m < rows.len() implies said(m + 1) == (if about(#[trigger] rows[m]) {
        said(m).push(delta(rows[m]))
    } else {
        said(m)
    }) by {
        lemma_tenant_entries(rows, m);
        lemma_said_step(
            ingest::tenant_entries(rows.take(m)),
            ingest::tenant_entry(rows[m]),
            key,
        );
    }
}

proof fn lemma_tenant_rank(a: TenantDelta, b: TenantDelta)
    ensures
        order::before(a.rank(), b.rank()) <==> {
            ||| !(a.tombstone) && b.tombstone
            ||| (a.tombstone) == (b.tombstone) && a.sync_id < b.sync_id
        },
{
    reveal_with_fuel(order::ranks_before, 4);
}

proof fn lemma_tenant_rows(rows: Seq<ProjectionSyncRow>, node_idx: u32, tenant_hash: u64) -> (at: (int, int))
    ensures
        says_nothing(rows, about_tenant(node_idx, tenant_hash)) ==> forall|k: int|
            !#[trigger] has_tenant(ingest::tenant_rows(rows), node_idx, tenant_hash, k),
        !says_nothing(rows, about_tenant(node_idx, tenant_hash)) ==> tenant_stands(
            ingest::tenant_rows(rows),
            node_idx, tenant_hash,
            rows,
            about_tenant(node_idx, tenant_hash),
            at.0,
            at.1,
        ),
{
    let n = rows.len() as int;
    let key = TenantKey { node_idx, tenant_hash };
    let about = about_tenant(node_idx, tenant_hash);
    let delta = |row: ProjectionSyncRow| ingest::tenant_entry(row).1;
    let said = |m: int| ingest::said_of(ingest::tenant_entries(rows.take(m)), key);
    lemma_tenant_follows_rows(rows, key);
    let i = lemma_left(rows, said, about, delta);
    assert(rows.take(n) =~= rows);
    let entries = ingest::tenant_entries(rows);
    let k = lemma_one_entry(entries, key);
    let sorted = ordered_map::sorted_entries(ingest::settled(entries));
    let tenants = ingest::tenant_rows(rows);
    assert forall|m: int| #[trigger] has_tenant(tenants, node_idx, tenant_hash, m) implies sorted[m].0
        == key by {}
    if !says_nothing(rows, about) {
        assert forall|j: int| 0 <= j < rows.len() && about(#[trigger] rows[j]) implies {
            ||| rows[i].operation is DeleteNode && rows[j].operation is UpsertNode
            ||| rows[i].operation == rows[j].operation && rows[i].sync_id >= rows[j].sync_id
        } by {
            lemma_tenant_rank(delta(rows[i]), delta(rows[j]));
        }
        assert(stands_above(rows, about, i));
        assert(sorted[k].0 == key);
        assert(has_tenant(tenants, node_idx, tenant_hash, k));
        lemma_deleted(rows, about, i);
    }
    (k, i)
}

// ---------------------------------------------------------------------------
// Ingestion
// ---------------------------------------------------------------------------

/// The committed rows above a watermark that are about a thing.
pub open spec fn newly(
    since: i64,
    about: spec_fn(ProjectionSyncRow) -> bool,
) -> spec_fn(ProjectionSyncRow) -> bool {
    |row: ProjectionSyncRow|
        row.committed && row.sync_id > since && row.sync_id <= i64::MAX && about(row)
}

/// The watermark up to which rows were ingested before.
pub open spec fn reached(previous: Option<ManifestView>) -> i64 {
    if let Some(manifest) = previous {
        manifest.sync_watermark
    } else {
        0
    }
}

/// One section of segments, in their order.
pub open spec fn gathered<R>(
    segments: Seq<DeltaSegmentView>,
    section: spec_fn(DeltaSegmentView) -> Seq<R>,
) -> Seq<R>
    decreases segments.len(),
{
    if segments.len() == 0 {
        Seq::empty()
    } else {
        gathered(segments.drop_last(), section) + section(segments.last())
    }
}

pub proof fn lemma_counts_of_due(
    rows: Seq<ProjectionSyncRow>,
    since: i64,
    asked: spec_fn(ProjectionSyncRow) -> bool,
    among: spec_fn(ProjectionSyncRow) -> bool,
    n: int,
)
    requires
        0 <= n <= rows.len(),
        forall|row: ProjectionSyncRow| #[trigger]
            among(row) <==> ingest::is_due(row, since) && asked(row),
    ensures
        ({
            let due = ingest::due_rows(rows.take(n), since);
            how_many(due, due.len() as int, asked) == how_many(rows, n, among)
        }),
    decreases n,
{
    reveal(Seq::filter);
    if n > 0 {
        lemma_counts_of_due(rows, since, asked, among, n - 1);
        assert(rows.take(n).drop_last() =~= rows.take(n - 1));
        let before = ingest::due_rows(rows.take(n - 1), since);
        let due = ingest::due_rows(rows.take(n), since);
        if ingest::is_due(rows[n - 1], since) {
            assert(due == before.push(rows[n - 1]));
            lemma_same_counts(before, due, before.len() as int, asked);
        } else {
            assert(due == before);
        }
        assert(among(rows[n - 1]) <==> ingest::is_due(rows[n - 1], since) && asked(rows[n - 1]));
    }
}

proof fn lemma_same_counts(
    a: Seq<ProjectionSyncRow>,
    b: Seq<ProjectionSyncRow>,
    n: int,
    asked: spec_fn(ProjectionSyncRow) -> bool,
)
    requires
        0 <= n <= a.len(),
        n <= b.len(),
        forall|i: int| 0 <= i < n ==> a[i] == b[i],
    ensures
        how_many(a, n, asked) == how_many(b, n, asked),
    decreases n,
{
    if n > 0 {
        lemma_same_counts(a, b, n - 1, asked);
    }
}

/// The rows that are due say of a thing what the committed rows above the watermark say.
proof fn lemma_due_says(
    rows: Seq<ProjectionSyncRow>,
    since: i64,
    about: spec_fn(ProjectionSyncRow) -> bool,
)
    ensures
        ({
            let due = ingest::due_rows(rows, since);
            &&& upserts(due, about) == upserts(rows, newly(since, about))
            &&& deletions(due, about) == deletions(rows, newly(since, about))
        }),
{
    let fresh = newly(since, about);
    assert(rows.take(rows.len() as int) =~= rows);
    lemma_counts_of_due(
        rows,
        since,
        |row: ProjectionSyncRow| about(row) && row.operation is UpsertNode,
        |row: ProjectionSyncRow| fresh(row) && row.operation is UpsertNode,
        rows.len() as int,
    );
    lemma_counts_of_due(
        rows,
        since,
        |row: ProjectionSyncRow| about(row) && row.operation is DeleteNode,
        |row: ProjectionSyncRow| fresh(row) && row.operation is DeleteNode,
        rows.len() as int,
    );
}

/// A row that is due stands among the rows, and has there the place that it has among
/// those that are due.
proof fn lemma_place(
    rows: Seq<ProjectionSyncRow>,
    since: i64,
    about: spec_fn(ProjectionSyncRow) -> bool,
    i: int,
) -> (place: int)
    requires
        stands_above(ingest::due_rows(rows, since), about, i),
    ensures
        stands_above(rows, newly(since, about), place),
        rows[place] == ingest::due_rows(rows, since)[i],
        has_precedence(ingest::due_rows(rows, since), about, i) ==> has_precedence(
            rows,
            newly(since, about),
            place,
        ),
{
    let keep = |row: ProjectionSyncRow| ingest::is_due(row, since);
    let due = ingest::due_rows(rows, since);
    let fresh = newly(since, about);
    layered::lemma_filter_member(rows, keep, i);
    rows.lemma_filter_pred(keep, i);
    let place = choose|place: int| 0 <= place < rows.len() && rows[place] == due[i];
    assert(fresh(rows[place]));
    assert forall|j: int| 0 <= j < rows.len() && fresh(#[trigger] rows[j]) implies due.contains(
        rows[j],
    ) by {
        rows.lemma_filter_contains(keep, j);
    }
    assert forall|j: int| 0 <= j < rows.len() && fresh(#[trigger] rows[j]) implies {
        ||| rows[place].operation is DeleteNode && rows[j].operation is UpsertNode
        ||| rows[place].operation == rows[j].operation && rows[place].sync_id >= rows[j].sync_id
    } by {
        assert(due.contains(rows[j]));
        let m = choose|m: int| 0 <= m < due.len() && due[m] == rows[j];
        assert(about(due[m]));
    }
    if has_precedence(due, about, i) {
        assert forall|j: int| 0 <= j < rows.len() && fresh(#[trigger] rows[j]) implies {
            ||| rows[place].operation is DeleteNode && rows[j].operation is UpsertNode
            ||| rows[place].operation == rows[j].operation && (rows[place].sync_id
                > rows[j].sync_id || (rows[place].sync_id == rows[j].sync_id && node_named(
                rows[place],
            ) >= node_named(rows[j])))
        } by {
            assert(due.contains(rows[j]));
            let m = choose|m: int| 0 <= m < due.len() && due[m] == rows[j];
            assert(about(due[m]));
        }
    }
    place
}

/// What an ingestion publishes of one section is what its node segment holds.
proof fn lemma_gathered<R>(
    previous: Option<ManifestView>,
    rows: Seq<ProjectionSyncRow>,
    limits: MutationBufferLimits,
    plan: IngestPlanView,
    section: spec_fn(DeltaSegmentView) -> Seq<R>,
    held: Seq<R>,
)
    requires
        ingest::ingest_plan(previous, rows, limits) == Ok::<_, GraphErrorView>(Some(plan)),
        forall|segment: DeltaSegmentView|
            segment.node_states.len() == 0 && segment.resolutions.len() == 0
                && segment.filters.len() == 0 && segment.tenants.len() == 0 ==> (
            #[trigger] section(segment)).len() == 0,
        ({
            let due = ingest::due_rows(rows, reached(previous));
            &&& held.len() > 0 ==> ingest::node_state_rows(due).len() > 0
                || ingest::resolution_rows(due).len() > 0 || ingest::filter_rows(due).len() > 0
                || ingest::tenant_rows(due).len() > 0
            &&& forall|segment: DeltaSegmentView|
                segment.node_states == ingest::node_state_rows(due) && segment.resolutions
                    == ingest::resolution_rows(due) && segment.filters == ingest::filter_rows(due)
                    && segment.tenants == ingest::tenant_rows(due) ==> #[trigger] section(segment)
                    == held
        }),
    ensures
        gathered(plan.segments, section) == held,
{
    reveal_with_fuel(gathered, 6);
    let due = ingest::due_rows(rows, reached(previous));
    let watermark = ingest::greatest_sync_id(due) as i64;
    let outgoing = ingest::edge_segment(due, limits, TraversalDirection::Out)->Ok_0;
    let incoming = ingest::edge_segment(due, limits, TraversalDirection::In)->Ok_0;
    let both = ingest::edge_segment(due, limits, TraversalDirection::Any)->Ok_0;
    let one = ingest::appended(Seq::empty(), outgoing);
    let two = ingest::appended(one, incoming);
    let three = ingest::appended(two, both);
    lemma_one_more(Seq::empty(), outgoing, section);
    lemma_one_more(one, incoming, section);
    lemma_one_more(two, both, section);
    let nodes = ingest::node_segment_of(due, limits, watermark)->Ok_0;
    assert(plan.segments == ingest::appended(three, nodes));
    lemma_one_more(three, nodes, section);
    assert(gathered(plan.segments, section) =~= held);
}

pub proof fn lemma_one_more<R>(
    done: Seq<DeltaSegmentView>,
    next: Option<DeltaSegmentView>,
    section: spec_fn(DeltaSegmentView) -> Seq<R>,
)
    ensures
        gathered(ingest::appended(done, next), section) == (match next {
            Some(segment) => gathered(done, section) + section(segment),
            None => gathered(done, section),
        }),
{
    if let Some(segment) = next {
        assert(done.push(segment).drop_last() =~= done);
    }
}

/// Of every primary key an ingestion publishes what the newly committed rows about it come to:
/// nothing where there are none or one upsert and one deletion cancel, else one resolution,
/// which is a tombstone exactly where the row that has precedence is a deletion, for the
/// node of the row that has precedence.
pub proof fn lemma_resolutions_say_what_was_committed(
    previous: Option<ManifestView>,
    rows: Seq<ProjectionSyncRow>,
    limits: MutationBufferLimits,
    plan: IngestPlanView,
    table_oid: u32,
    pk_hash: u64,
)
    requires
        ingest::ingest_plan(previous, rows, limits) == Ok::<_, GraphErrorView>(Some(plan)),
    ensures
        ({
            let about = newly(reached(previous), about_key(table_oid, pk_hash));
            let resolutions = gathered(
                plan.segments,
                |segment: DeltaSegmentView| segment.resolutions,
            );
            &&& says_nothing(rows, about) ==> forall|k: int|
                !#[trigger] resolves(resolutions, table_oid, pk_hash, k)
            &&& !says_nothing(rows, about) ==> exists|k: int, i: int| #[trigger]
                resolution_stands(resolutions, table_oid, pk_hash, rows, about, k, i)
        }),
{
    let since = reached(previous);
    let due = ingest::due_rows(rows, since);
    let about = about_key(table_oid, pk_hash);
    let section = |segment: DeltaSegmentView| segment.resolutions;
    let held = ingest::resolution_rows(due);
    lemma_gathered(previous, rows, limits, plan, section, held);
    lemma_due_says(rows, since, about);
    let (k, i) = lemma_resolution_rows(due, table_oid, pk_hash);
    if !says_nothing(rows, newly(since, about)) {
        let place = lemma_place(rows, since, about, i);
        assert(resolution_stands(held, table_oid, pk_hash, rows, newly(since, about), k, place));
    }
}

/// Of every node an ingestion publishes what the newly committed rows about it come to:
/// nothing where there are none or one upsert and one deletion cancel, else one node state,
/// which is inactive exactly where the row that has precedence is a deletion.
pub proof fn lemma_node_states_say_what_was_committed(
    previous: Option<ManifestView>,
    rows: Seq<ProjectionSyncRow>,
    limits: MutationBufferLimits,
    plan: IngestPlanView,
    node_idx: u32,
)
    requires
        ingest::ingest_plan(previous, rows, limits) == Ok::<_, GraphErrorView>(Some(plan)),
    ensures
        ({
            let about = newly(reached(previous), about_node(node_idx));
            let node_states = gathered(
                plan.segments,
                |segment: DeltaSegmentView| segment.node_states,
            );
            &&& says_nothing(rows, about) ==> forall|k: int|
                !#[trigger] has_state(node_states, node_idx, k)
            &&& !says_nothing(rows, about) ==> exists|k: int, i: int| #[trigger]
                state_stands(node_states, node_idx, rows, about, k, i)
        }),
{
    let since = reached(previous);
    let due = ingest::due_rows(rows, since);
    let about = about_node(node_idx);
    let section = |segment: DeltaSegmentView| segment.node_states;
    let held = ingest::node_state_rows(due);
    lemma_gathered(previous, rows, limits, plan, section, held);
    lemma_due_says(rows, since, about);
    let (k, i) = lemma_node_state_rows(due, node_idx);
    if !says_nothing(rows, newly(since, about)) {
        let place = lemma_place(rows, since, about, i);
        assert(state_stands(held, node_idx, rows, newly(since, about), k, place));
    }
}

/// Of every filter value of a node an ingestion publishes what the newly committed rows about it come to:
/// nothing where there are none or one upsert and one deletion cancel, else one filter row,
/// which is a tombstone exactly where the row that has precedence is a deletion.
pub proof fn lemma_filters_say_what_was_committed(
    previous: Option<ManifestView>,
    rows: Seq<ProjectionSyncRow>,
    limits: MutationBufferLimits,
    plan: IngestPlanView,
    node_idx: u32,
    column_id: u32,
    value: u32,
)
    requires
        ingest::ingest_plan(previous, rows, limits) == Ok::<_, GraphErrorView>(Some(plan)),
    ensures
        ({
            let about = newly(reached(previous), about_filter(node_idx, column_id, value));
            let filters = gathered(
                plan.segments,
                |segment: DeltaSegmentView| segment.filters,
            );
            &&& says_nothing(rows, about) ==> forall|k: int|
                !#[trigger] has_filter(filters, node_idx, column_id, value, k)
            &&& !says_nothing(rows, about) ==> exists|k: int, i: int| #[trigger]
                filter_stands(filters, node_idx, column_id, value, rows, about, k, i)
        }),
{
    let since = reached(previous);
    let due = ingest::due_rows(rows, since);
    let about = about_filter(node_idx, column_id, value);
    let section = |segment: DeltaSegmentView| segment.filters;
    let held = ingest::filter_rows(due);
    lemma_gathered(previous, rows, limits, plan, section, held);
    lemma_due_says(rows, since, about);
    let (k, i) = lemma_filter_rows(due, node_idx, column_id, value);
    if !says_nothing(rows, newly(since, about)) {
        let place = lemma_place(rows, since, about, i);
        assert(filter_stands(held, node_idx, column_id, value, rows, newly(since, about), k, place));
    }
}

/// Of every tenant of a node an ingestion publishes what the newly committed rows about it come to:
/// nothing where there are none or one upsert and one deletion cancel, else one tenant row,
/// which is a tombstone exactly where the row that has precedence is a deletion.
pub proof fn lemma_tenants_say_what_was_committed(
    previous: Option<ManifestView>,
    rows: Seq<ProjectionSyncRow>,
    limits: MutationBufferLimits,
    plan: IngestPlanView,
    node_idx: u32,
    tenant_hash: u64,
)
    requires
        ingest::ingest_plan(previous, rows, limits) == Ok::<_, GraphErrorView>(Some(plan)),
    ensures
        ({
            let about = newly(reached(previous), about_tenant(node_idx, tenant_hash));
            let tenants = gathered(
                plan.segments,
                |segment: DeltaSegmentView| segment.tenants,
            );
            &&& says_nothing(rows, about) ==> forall|k: int|
                !#[trigger] has_tenant(tenants, node_idx, tenant_hash, k)
            &&& !says_nothing(rows, about) ==> exists|k: int, i: int| #[trigger]
                tenant_stands(tenants, node_idx, tenant_hash, rows, about, k, i)
        }),
{
    let since = reached(previous);
    let due = ingest::due_rows(rows, since);
    let about = about_tenant(node_idx, tenant_hash);
    let section = |segment: DeltaSegmentView| segment.tenants;
    let held = ingest::tenant_rows(due);
    lemma_gathered(previous, rows, limits, plan, section, held);
    lemma_due_says(rows, since, about);
    let (k, i) = lemma_tenant_rows(due, node_idx, tenant_hash);
    if !says_nothing(rows, newly(since, about)) {
        let place = lemma_place(rows, since, about, i);
        assert(tenant_stands(held, node_idx, tenant_hash, rows, newly(since, about), k, place));
    }
}

} // verus!
