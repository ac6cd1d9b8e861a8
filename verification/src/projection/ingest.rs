//! Durable projection ingestion from committed sync-log rows.
//!
//! The ingester is the write-side boundary between committed PostgreSQL sync
//! rows and immutable L0 projection segments. It decides what is published;
//! files are written by its caller.
use vstd::prelude::*;

use crate::checksum::{self, checksum_text};
use crate::edge_store;
use crate::order::{self, Ranked};
use crate::ordered_map::{self, MapKey, OrderedMap};
use crate::projection::layered;
use crate::projection::manifest::{
    self, ManifestSegmentRef, ManifestView, ProjectionManifest, ProjectionManifestStore,
    SegmentRefView,
};
use crate::projection::normalize::{
    self, normalize_committed_mutations, CommittedMutation, MutationBufferLimits,
    MutationOperation, NormalizedMutation, NormalizedMutationBatch,
};
use crate::projection::segment::{
    self, DeltaSegment, DeltaSegmentView, SegmentFilterValue, SegmentKind, SegmentNodeState,
    SegmentResolution, SegmentTenant,
};
use crate::safety::{self, GraphError, GraphErrorView, GraphResult};
use crate::text::{self, concat5, fixed_digits_text, owned};
use crate::types::TraversalDirection;

verus! {

/// Exclusive end of the source range of ingested segments.
pub const DEFAULT_SOURCE_RANGE_END: u32 = 0xffff_ffff;

/// One committed row ready to publish into durable projection segments.
#[derive(Debug, Clone, Copy, PartialEq, Eq)]
pub struct ProjectionSyncRow {
    /// Sync-log identifier.
    pub sync_id: u64,
    /// Projection generation that will own this row.
    pub generation_id: u64,
    /// Whether the row is committed.
    pub committed: bool,
    /// Operation kind.
    pub operation: MutationOperation,
    /// Traversal direction for edge rows.
    pub direction: TraversalDirection,
    /// Source node index.
    pub source: u32,
    /// Target node index.
    pub target: u32,
    /// Edge type identifier.
    pub type_id: u8,
    /// Whether this edge row is a synthetic reverse of the schema edge.
    pub schema_reversed: bool,
    /// Optional edge weight.
    pub weight: Option<u32>,
    /// Source table of a node row.
    pub table_oid: Option<u32>,
    /// Primary key hash of a node row.
    pub pk_hash: Option<u64>,
    /// Node index of a node row.
    pub node_idx: Option<u32>,
    /// Filter column of a node row.
    pub filter_column_id: Option<u32>,
    /// Filter value of a node row.
    pub filter_value: Option<u32>,
    /// Tenant of a node row.
    pub tenant_hash: Option<u64>,
}

/// The row as normalization takes it.
pub open spec fn mutation_of(row: ProjectionSyncRow) -> CommittedMutation {
    CommittedMutation {
        sync_id: row.sync_id,
        generation_id: row.generation_id,
        direction: row.direction,
        source: row.source,
        target: row.target,
        type_id: row.type_id,
        schema_reversed: row.schema_reversed,
        weight: row.weight,
        operation: row.operation,
    }
}

impl ProjectionSyncRow {
    /// The row as normalization takes it.
    pub fn to_committed_mutation(&self) -> (mutation: CommittedMutation)
        ensures
            mutation == mutation_of(*self),
    {
        CommittedMutation {
            sync_id: self.sync_id,
            generation_id: self.generation_id,
            direction: self.direction,
            source: self.source,
            target: self.target,
            type_id: self.type_id,
            schema_reversed: self.schema_reversed,
            weight: self.weight,
            operation: self.operation,
        }
    }
}

/// Check that a batch fits the ingestion buffer.
pub fn validate_ingestion_limits(row_count: usize, limits: MutationBufferLimits) -> (result:
    GraphResult<()>)
    ensures
        safety::refusal(result) == normalize::limits_error(row_count as nat, limits),
{
    normalize::validate_limits(row_count, limits)
}

// ---------------------------------------------------------------------------
// Edge segments
// ---------------------------------------------------------------------------

/// The normal form of rows.
pub open spec fn normal_form(rows: Seq<CommittedMutation>) -> Seq<NormalizedMutation> {
    choose|result: Seq<NormalizedMutation>|
        normalize::is_normalization(rows.to_multiset(), result)
}

/// The edge rows of one direction, as normalization takes them.
pub open spec fn edge_rows(rows: Seq<ProjectionSyncRow>, direction: TraversalDirection) -> Seq<
    CommittedMutation,
> {
    rows.filter(
        |row: ProjectionSyncRow|
            normalize::on_edge(row.operation) && row.direction == direction,
    ).map_values(|row: ProjectionSyncRow| mutation_of(row))
}

/// The edge segment of one direction, where anything is left for it.
pub open spec fn edge_segment(
    rows: Seq<ProjectionSyncRow>,
    limits: MutationBufferLimits,
    direction: TraversalDirection,
) -> Result<Option<DeltaSegmentView>, GraphErrorView> {
    let edges = edge_rows(rows, direction);
    if edges.len() == 0 {
        Ok(None)
    } else if normalize::limits_error(edges.len(), limits) is Some {
        Err(normalize::limits_error(edges.len(), limits)->0)
    } else if normal_form(edges).len() == 0 {
        Ok(None)
    } else {
        match segment::segment_of_rows(
            normal_form(edges),
            0,
            direction,
            0,
            DEFAULT_SOURCE_RANGE_END,
        ) {
            Ok(segment) => Ok(Some(segment)),
            Err(error) => Err(error),
        }
    }
}

/// The list with one more segment, where there is one.
pub open spec fn appended(
    done: Seq<DeltaSegmentView>,
    next: Option<DeltaSegmentView>,
) -> Seq<DeltaSegmentView> {
    match next {
        Some(segment) => done.push(segment),
        None => done,
    }
}

/// The edge segments of all directions, in the order out, in, any, or the first
/// error.
pub open spec fn edge_segment_list(
    rows: Seq<ProjectionSyncRow>,
    limits: MutationBufferLimits,
) -> Result<Seq<DeltaSegmentView>, GraphErrorView> {
    match edge_segment(rows, limits, TraversalDirection::Out) {
        Err(error) => Err(error),
        Ok(outgoing) => match edge_segment(rows, limits, TraversalDirection::In) {
            Err(error) => Err(error),
            Ok(incoming) => match edge_segment(rows, limits, TraversalDirection::Any) {
                Err(error) => Err(error),
                Ok(both) => Ok(
                    appended(appended(appended(Seq::empty(), outgoing), incoming), both),
                ),
            },
        },
    }
}

fn collect_edge_rows(rows: &[ProjectionSyncRow], direction: TraversalDirection) -> (found: Vec<
    CommittedMutation,
>)
    ensures
        found@ == edge_rows(rows@, direction),
{
    let mut found: Vec<CommittedMutation> = Vec::new();
    proof {
        reveal(Seq::filter);
        assert(found@ =~= edge_rows(rows@.take(0), direction));
    }
    for i in 0..rows.len()
        invariant
            found@ == edge_rows(rows@.take(i as int), direction),
    {
        let row: ProjectionSyncRow = rows[i];
        if row.operation.is_edge() && row.direction == direction {
            found.push(row.to_committed_mutation());
        }
        proof {
            reveal(Seq::filter);
            assert(rows@.take(i + 1).drop_last() =~= rows@.take(i as int));
            assert(found@ =~= edge_rows(rows@.take(i + 1), direction));
        }
    }
    assert(rows@.take(rows@.len() as int) =~= rows@);
    found
}

fn direction_segment(
    rows: &[ProjectionSyncRow],
    limits: MutationBufferLimits,
    direction: TraversalDirection,
) -> (result: GraphResult<Option<DeltaSegment>>)
    ensures
        match result {
            Ok(Some(found)) => edge_segment(rows@, limits, direction) == Ok::<
                _,
                GraphErrorView,
            >(Some(found@)),
            Ok(None) => edge_segment(rows@, limits, direction) == Ok::<_, GraphErrorView>(
                None::<DeltaSegmentView>,
            ),
            Err(error) => edge_segment(rows@, limits, direction) == Err::<
                Option<DeltaSegmentView>,
                _,
            >(error@),
        },
{
    let edges: Vec<CommittedMutation> = collect_edge_rows(rows, direction);
    if edges.len() == 0 {
        return Ok(None);
    }
    let batch: NormalizedMutationBatch = normalize_committed_mutations(edges.as_slice(), limits)?;
    proof {
        let result = normal_form(edges@);
        assert(normalize::is_normalization(edges@.to_multiset(), result));
        normalize::lemma_normalization_deterministic(edges@, edges@, batch.rows@, result);
    }
    if batch.rows.len() == 0 {
        return Ok(None);
    }
    let segment: DeltaSegment = DeltaSegment::from_normalized_edges(
        &batch,
        0,
        direction,
        0,
        DEFAULT_SOURCE_RANGE_END,
    )?;
    Ok(Some(segment))
}

fn append_segment(segments: &mut Vec<DeltaSegment>, next: Option<DeltaSegment>)
    ensures
        layered::views(final(segments)@) == appended(
            layered::views(old(segments)@),
            match next {
                Some(segment) => Some(segment@),
                None => None,
            },
        ),
{
    let ghost before = layered::views(segments@);
    match next {
        Some(segment) => {
            segments.push(segment);
            assert(layered::views(segments@) =~= before.push(segment@));
        },
        None => {},
    }
}

// ---------------------------------------------------------------------------
// Node deltas
// ---------------------------------------------------------------------------

/// One thing that rows say of a key: that it is there, or that it is gone.
pub trait KeyDelta: MapKey {
    /// Whether the key is gone.
    spec fn tombstoned(&self) -> bool;

    /// Whether the key is gone.
    fn is_tombstone(&self) -> (found: bool)
        ensures
            found == self.tombstoned(),
    ;
}

/// What entries say of one key, in order.
pub open spec fn said_of<K, D>(entries: Seq<(K, D)>, key: K) -> Seq<D> {
    entries.filter(|entry: (K, D)| entry.0 == key).map_values(|entry: (K, D)| entry.1)
}

/// Whether one of the deltas says that the key is there.
pub open spec fn any_live<D: KeyDelta>(group: Seq<D>) -> bool {
    exists|i: int| 0 <= i < group.len() && !(#[trigger] group[i]).tombstoned()
}

/// Whether one of the deltas says that the key is gone.
pub open spec fn any_tombstone<D: KeyDelta>(group: Seq<D>) -> bool {
    exists|i: int| 0 <= i < group.len() && (#[trigger] group[i]).tombstoned()
}

/// Whether the deltas are one of each kind, which cancel.
pub open spec fn cancels<D: KeyDelta>(group: Seq<D>) -> bool {
    group.len() == 2 && any_live(group) && any_tombstone(group)
}

/// Whether no delta of the group ranks above `delta`.
pub open spec fn is_greatest<D: KeyDelta>(group: Seq<D>, delta: D) -> bool {
    &&& group.contains(delta)
    &&& forall|i: int|
        0 <= i < group.len() ==> !order::before(delta.rank(), (#[trigger] group[i]).rank())
}

/// What is left of the deltas of one key: nothing of a pair that cancels, else
/// the delta that ranks highest.
pub open spec fn selected<D: KeyDelta>(group: Seq<D>) -> Option<D> {
    if group.len() == 0 || cancels(group) {
        None
    } else {
        Some(choose|delta: D| is_greatest(group, delta))
    }
}

/// What is left of all keys.
pub open spec fn settled<K, D: KeyDelta>(entries: Seq<(K, D)>) -> Map<K, D> {
    Map::new(
        |key: K| selected(said_of(entries, key)) is Some,
        |key: K| selected(said_of(entries, key))->Some_0,
    )
}

/// Summary of the deltas of one key.
#[derive(Debug, Clone, Copy)]
pub struct GroupSummary<D> {
    pub count: usize,
    pub live: bool,
    pub tombstone: bool,
    pub greatest: D,
}

/// Whether a summary is that of a group.
pub open spec fn summarizes<D: KeyDelta>(summary: GroupSummary<D>, group: Seq<D>) -> bool {
    &&& summary.count == group.len()
    &&& summary.live == any_live(group)
    &&& summary.tombstone == any_tombstone(group)
    &&& is_greatest(group, summary.greatest)
}

proof fn lemma_said_of_push<K, D>(entries: Seq<(K, D)>, count: int, key: K)
    requires
        0 <= count < entries.len(),
    ensures
        said_of(entries.take(count + 1), key) == (if entries[count].0 == key {
            said_of(entries.take(count), key).push(entries[count].1)
        } else {
            said_of(entries.take(count), key)
        }),
        said_of(entries.take(count), key).len() <= count,
{
    reveal(Seq::filter);
    let fewer = entries.take(count);
    let more = entries.take(count + 1);
    let keep = |entry: (K, D)| entry.0 == key;
    assert(more.drop_last() =~= fewer);
    fewer.lemma_filter_len(keep);
    if entries[count].0 == key {
        assert(said_of(more, key) =~= said_of(fewer, key).push(entries[count].1));
    } else {
        assert(said_of(more, key) =~= said_of(fewer, key));
    }
}

proof fn lemma_summary_first<D: KeyDelta>(delta: D)
    ensures
        summarizes(
            GroupSummary {
                count: 1,
                live: !delta.tombstoned(),
                tombstone: delta.tombstoned(),
                greatest: delta,
            },
            Seq::empty().push(delta),
        ),
{
    let group = Seq::<D>::empty().push(delta);
    assert(group[0] == delta);
    order::lemma_before_irreflexive(delta.rank());
    assert(any_live(group) == !delta.tombstoned());
    assert(any_tombstone(group) == delta.tombstoned());
}

proof fn lemma_summary_next<D: KeyDelta>(
    summary: GroupSummary<D>,
    group: Seq<D>,
    delta: D,
    greatest: D,
)
    requires
        summarizes(summary, group),
        summary.count < usize::MAX,
        greatest == (if order::before(summary.greatest.rank(), delta.rank()) {
            delta
        } else {
            summary.greatest
        }),
    ensures
        summarizes(
            GroupSummary {
                count: (summary.count + 1) as usize,
                live: summary.live || !delta.tombstoned(),
                tombstone: summary.tombstone || delta.tombstoned(),
                greatest,
            },
            group.push(delta),
        ),
{
    let after = group.push(delta);
    let last = group.len() as int;
    assert(after[last] == delta);
    assert forall|i: int| 0 <= i < group.len() implies after[i] == group[i] by {}
    if any_live(group) {
        let i = choose|i: int| 0 <= i < group.len() && !(#[trigger] group[i]).tombstoned();
        assert(!after[i].tombstoned());
    }
    if any_tombstone(group) {
        let i = choose|i: int| 0 <= i < group.len() && (#[trigger] group[i]).tombstoned();
        assert(after[i].tombstoned());
    }
    if any_live(after) && delta.tombstoned() {
        let i = choose|i: int| 0 <= i < after.len() && !(#[trigger] after[i]).tombstoned();
        assert(!group[i].tombstoned());
    }
    if any_tombstone(after) && !delta.tombstoned() {
        let i = choose|i: int| 0 <= i < after.len() && (#[trigger] after[i]).tombstoned();
        assert(group[i].tombstoned());
    }
    let old_greatest = summary.greatest;
    let at = choose|i: int| 0 <= i < group.len() && group[i] == old_greatest;
    assert(after[at] == old_greatest);
    order::lemma_before_irreflexive(delta.rank());
    assert forall|i: int| 0 <= i < after.len() implies !order::before(
        greatest.rank(),
        (#[trigger] after[i]).rank(),
    ) by {
        if i < last {
            assert(!order::before(old_greatest.rank(), group[i].rank()));
            if order::before(greatest.rank(), group[i].rank()) {
                order::lemma_before_transitive(
                    old_greatest.rank(),
                    delta.rank(),
                    group[i].rank(),
                );
            }
        }
    }
}

proof fn lemma_selected<D: KeyDelta>(summary: GroupSummary<D>, group: Seq<D>)
    requires
        summarizes(summary, group),
    ensures
        selected(group) == (if summary.count == 2 && summary.live && summary.tombstone {
            None
        } else {
            Some(summary.greatest)
        }),
{
    let i = choose|i: int| 0 <= i < group.len() && group[i] == summary.greatest;
    assert(group.len() > 0);
    if !cancels(group) {
        let chosen = choose|delta: D| is_greatest(group, delta);
        assert(is_greatest(group, summary.greatest));
        assert(is_greatest(group, chosen));
        let j = choose|j: int| 0 <= j < group.len() && group[j] == chosen;
        assert(!order::before(chosen.rank(), group[i].rank()));
        assert(!order::before(summary.greatest.rank(), group[j].rank()));
        order::lemma_before_total(chosen.rank(), summary.greatest.rank());
        D::rank_unique(chosen, summary.greatest);
    }
}

/// Whether summaries are those of entries.
spec fn tracks<K: MapKey, D: KeyDelta>(
    summaries: Map<K, GroupSummary<D>>,
    entries: Seq<(K, D)>,
) -> bool {
    forall|key: K| #![trigger summaries.contains_key(key)]
        if summaries.contains_key(key) {
            summarizes(summaries[key], said_of(entries, key))
        } else {
            said_of(entries, key).len() == 0
        }
}

/// What is left of all keys, in key order.
fn settle<K: MapKey, D: KeyDelta>(entries: &Vec<(K, D)>) -> (left: OrderedMap<K, D>)
    ensures
        left.wf(),
        left@ == settled(entries@),
{
    let ghost all = entries@;
    let mut summaries: OrderedMap<K, GroupSummary<D>> = OrderedMap::new();
    proof {
        reveal(Seq::filter);
        assert forall|key: K| #![auto] said_of(all.take(0), key).len() == 0 by {}
    }
    for i in 0..entries.len()
        invariant
            all == entries@,
            entries.len() == all.len(),
            summaries.wf(),
            tracks(summaries@, all.take(i as int)),
    {
        let (key, delta): (K, D) = entries[i];
        let ghost before = summaries@;
        proof {
            lemma_said_of_push(all, i as int, key);
        }
        let next: GroupSummary<D> = match summaries.get(&key) {
            Some(summary) => {
                let newer: bool = summary.greatest.precedes(&delta);
                let gone: bool = delta.is_tombstone();
                let greatest: D = if newer {
                    delta
                } else {
                    summary.greatest
                };
                proof {
                    lemma_summary_next(summary, said_of(all.take(i as int), key), delta, greatest);
                }
                GroupSummary {
                    count: summary.count + 1,
                    live: summary.live || !gone,
                    tombstone: summary.tombstone || gone,
                    greatest,
                }
            },
            None => {
                let gone: bool = delta.is_tombstone();
                proof {
                    lemma_summary_first(delta);
                    assert(said_of(all.take(i as int), key) =~= Seq::<D>::empty());
                }
                GroupSummary { count: 1, live: !gone, tombstone: gone, greatest: delta }
            },
        };
        summaries.insert(key, next);
        proof {
            assert forall|other: K| #![trigger summaries@.contains_key(other)]
                if summaries@.contains_key(other) {
                    summarizes(summaries@[other], said_of(all.take(i + 1), other))
                } else {
                    said_of(all.take(i + 1), other).len() == 0
                } by {
                lemma_said_of_push(all, i as int, other);
                assert(before.contains_key(other) || !before.contains_key(other));
            }
        }
    }
    assert(all.take(all.len() as int) =~= all);
    settle_summaries(&summaries, Ghost(all))
}

fn settle_summaries<K: MapKey, D: KeyDelta>(
    summaries: &OrderedMap<K, GroupSummary<D>>,
    Ghost(all): Ghost<Seq<(K, D)>>,
) -> (left: OrderedMap<K, D>)
    requires
        summaries.wf(),
        tracks(summaries@, all),
    ensures
        left.wf(),
        left@ == settled(all),
{
    let ghost held = summaries.entries@;
    let mut left: OrderedMap<K, D> = OrderedMap::new();
    proof {
        ordered_map::lemma_no_entries(held.take(0));
    }
    for i in 0..summaries.entries.len()
        invariant
            held == summaries.entries@,
            summaries.wf(),
            ordered_map::keys_sorted(held),
            tracks(summaries@, all),
            left.wf(),
            forall|key: K| #![trigger left@.contains_key(key)]
                left@.contains_key(key) <==> ordered_map::map_of(held.take(i as int)).contains_key(
                    key,
                ) && selected(said_of(all, key)) is Some,
            forall|key: K| #![trigger left@.contains_key(key)]
                left@.contains_key(key) ==> left@[key] == selected(said_of(all, key))->Some_0,
    {
        let (key, summary): (K, GroupSummary<D>) = summaries.entries[i];
        proof {
            ordered_map::lemma_take_next(held, i as int);
            ordered_map::lemma_entry(held, i as int);
            assert(summaries@.contains_key(key));
            lemma_selected(summary, said_of(all, key));
        }
        if !(summary.count == 2 && summary.live && summary.tombstone) {
            left.insert(key, summary.greatest);
        }
    }
    proof {
        assert(held.take(held.len() as int) =~= held);
        assert forall|key: K| #[trigger] left@.contains_key(key) <==> settled(all).contains_key(
            key,
        ) by {
            assert(summaries@.contains_key(key) || !summaries@.contains_key(key));
        }
        assert(left@ =~= settled(all));
    }
    left
}


/// Node that rows speak of.
#[derive(Debug, Clone, Copy, PartialEq, Eq, Structural)]
pub struct NodeKey {
    pub node_idx: u32,
}

impl Ranked for NodeKey {
    open spec fn rank(&self) -> Seq<int> {
        seq![self.node_idx as int]
    }

    fn precedes(&self, other: &NodeKey) -> (found: bool) {
        proof {
            reveal_with_fuel(order::ranks_before, 2);
        }
        self.node_idx < other.node_idx
    }
}

impl MapKey for NodeKey {
    proof fn rank_unique(a: NodeKey, b: NodeKey) {
        let x = a.rank();
        let y = b.rank();
        assert(x[0] == y[0]);
    }
}

/// Primary key that rows speak of.
#[derive(Debug, Clone, Copy, PartialEq, Eq, Structural)]
pub struct ResolutionKey {
    pub table_oid: u32,
    pub pk_hash: u64,
}

impl Ranked for ResolutionKey {
    open spec fn rank(&self) -> Seq<int> {
        seq![self.table_oid as int, self.pk_hash as int]
    }

    fn precedes(&self, other: &ResolutionKey) -> (found: bool) {
        proof {
            reveal_with_fuel(order::ranks_before, 3);
        }
        if self.table_oid != other.table_oid {
            self.table_oid < other.table_oid
        } else {
            self.pk_hash < other.pk_hash
        }
    }
}

impl MapKey for ResolutionKey {
    proof fn rank_unique(a: ResolutionKey, b: ResolutionKey) {
        let x = a.rank();
        let y = b.rank();
        assert(x[0] == y[0] && x[1] == y[1]);
    }
}

/// Filter value that rows speak of.
#[derive(Debug, Clone, Copy, PartialEq, Eq, Structural)]
pub struct FilterKey {
    pub node_idx: u32,
    pub column_id: u32,
    pub value: u32,
}

impl Ranked for FilterKey {
    open spec fn rank(&self) -> Seq<int> {
        seq![self.node_idx as int, self.column_id as int, self.value as int]
    }

    fn precedes(&self, other: &FilterKey) -> (found: bool) {
        proof {
            reveal_with_fuel(order::ranks_before, 4);
        }
        if self.node_idx != other.node_idx {
            self.node_idx < other.node_idx
        } else if self.column_id != other.column_id {
            self.column_id < other.column_id
        } else {
            self.value < other.value
        }
    }
}

impl MapKey for FilterKey {
    proof fn rank_unique(a: FilterKey, b: FilterKey) {
        let x = a.rank();
        let y = b.rank();
        assert(x[0] == y[0] && x[1] == y[1] && x[2] == y[2]);
    }
}

/// Tenant membership that rows speak of.
#[derive(Debug, Clone, Copy, PartialEq, Eq, Structural)]
pub struct TenantKey {
    pub node_idx: u32,
    pub tenant_hash: u64,
}

impl Ranked for TenantKey {
    open spec fn rank(&self) -> Seq<int> {
        seq![self.node_idx as int, self.tenant_hash as int]
    }

    fn precedes(&self, other: &TenantKey) -> (found: bool) {
        proof {
            reveal_with_fuel(order::ranks_before, 3);
        }
        if self.node_idx != other.node_idx {
            self.node_idx < other.node_idx
        } else {
            self.tenant_hash < other.tenant_hash
        }
    }
}

impl MapKey for TenantKey {
    proof fn rank_unique(a: TenantKey, b: TenantKey) {
        let x = a.rank();
        let y = b.rank();
        assert(x[0] == y[0] && x[1] == y[1]);
    }
}

/// What a row says of a node.
#[derive(Debug, Clone, Copy, PartialEq, Eq, Structural)]
pub struct NodeStateDelta {
    /// Sync-log row that said it.
    pub sync_id: u64,
    /// Whether the node is active.
    pub active: bool,
}

impl Ranked for NodeStateDelta {
    open spec fn rank(&self) -> Seq<int> {
        seq![edge_store::flag_rank(!self.active), self.sync_id as int]
    }

    fn precedes(&self, other: &NodeStateDelta) -> (found: bool) {
        proof {
            reveal_with_fuel(order::ranks_before, 3);
        }
        if self.active != other.active {
            self.active && !other.active
        } else {
            self.sync_id < other.sync_id
        }
    }
}

impl MapKey for NodeStateDelta {
    proof fn rank_unique(a: NodeStateDelta, b: NodeStateDelta) {
        let x = a.rank();
        let y = b.rank();
        assert(x[0] == y[0] && x[1] == y[1]);
    }
}

impl KeyDelta for NodeStateDelta {
    open spec fn tombstoned(&self) -> bool {
        !self.active
    }

    fn is_tombstone(&self) -> (found: bool) {
        !self.active
    }
}

/// What a row says of a primary key.
#[derive(Debug, Clone, Copy, PartialEq, Eq, Structural)]
pub struct ResolutionDelta {
    /// Sync-log row that said it.
    pub sync_id: u64,
    /// Node index.
    pub node_idx: u32,
    /// Whether the key is gone.
    pub tombstone: bool,
}

impl Ranked for ResolutionDelta {
    open spec fn rank(&self) -> Seq<int> {
        seq![edge_store::flag_rank(self.tombstone), self.sync_id as int, self.node_idx as int]
    }

    fn precedes(&self, other: &ResolutionDelta) -> (found: bool) {
        proof {
            reveal_with_fuel(order::ranks_before, 4);
        }
        if self.tombstone != other.tombstone {
            !self.tombstone && other.tombstone
        } else if self.sync_id != other.sync_id {
            self.sync_id < other.sync_id
        } else {
            self.node_idx < other.node_idx
        }
    }
}

impl MapKey for ResolutionDelta {
    proof fn rank_unique(a: ResolutionDelta, b: ResolutionDelta) {
        let x = a.rank();
        let y = b.rank();
        assert(x[0] == y[0] && x[1] == y[1] && x[2] == y[2]);
    }
}

impl KeyDelta for ResolutionDelta {
    open spec fn tombstoned(&self) -> bool {
        self.tombstone
    }

    fn is_tombstone(&self) -> (found: bool) {
        self.tombstone
    }
}

/// What a row says of a filter value.
#[derive(Debug, Clone, Copy, PartialEq, Eq, Structural)]
pub struct FilterDelta {
    /// Sync-log row that said it.
    pub sync_id: u64,
    /// Whether the key is gone.
    pub tombstone: bool,
}

impl Ranked for FilterDelta {
    open spec fn rank(&self) -> Seq<int> {
        seq![edge_store::flag_rank(self.tombstone), self.sync_id as int]
    }

    fn precedes(&self, other: &FilterDelta) -> (found: bool) {
        proof {
            reveal_with_fuel(order::ranks_before, 3);
        }
        if self.tombstone != other.tombstone {
            !self.tombstone && other.tombstone
        } else {
            self.sync_id < other.sync_id
        }
    }
}

impl MapKey for FilterDelta {
    proof fn rank_unique(a: FilterDelta, b: FilterDelta) {
        let x = a.rank();
        let y = b.rank();
        assert(x[0] == y[0] && x[1] == y[1]);
    }
}

impl KeyDelta for FilterDelta {
    open spec fn tombstoned(&self) -> bool {
        self.tombstone
    }

    fn is_tombstone(&self) -> (found: bool) {
        self.tombstone
    }
}

/// What a row says of a tenant membership.
#[derive(Debug, Clone, Copy, PartialEq, Eq, Structural)]
pub struct TenantDelta {
    /// Sync-log row that said it.
    pub sync_id: u64,
    /// Whether the key is gone.
    pub tombstone: bool,
}

impl Ranked for TenantDelta {
    open spec fn rank(&self) -> Seq<int> {
        seq![edge_store::flag_rank(self.tombstone), self.sync_id as int]
    }

    fn precedes(&self, other: &TenantDelta) -> (found: bool) {
        proof {
            reveal_with_fuel(order::ranks_before, 3);
        }
        if self.tombstone != other.tombstone {
            !self.tombstone && other.tombstone
        } else {
            self.sync_id < other.sync_id
        }
    }
}

impl MapKey for TenantDelta {
    proof fn rank_unique(a: TenantDelta, b: TenantDelta) {
        let x = a.rank();
        let y = b.rank();
        assert(x[0] == y[0] && x[1] == y[1]);
    }
}

impl KeyDelta for TenantDelta {
    open spec fn tombstoned(&self) -> bool {
        self.tombstone
    }

    fn is_tombstone(&self) -> (found: bool) {
        self.tombstone
    }
}

/// Whether one delta of each kind is all there is.
pub fn cancels_tombstone_pair<D: KeyDelta>(group: &Vec<D>) -> (found: bool)
    ensures
        found == cancels(group@),
{
    if group.len() != 2 {
        return false;
    }
    let first: bool = group[0].is_tombstone();
    let second: bool = group[1].is_tombstone();
    proof {
        assert(group@[0].tombstoned() == first && group@[1].tombstoned() == second);
        if any_live(group@) {
            let i = choose|i: int| 0 <= i < group@.len() && !(#[trigger] group@[i]).tombstoned();
            assert(i == 0 || i == 1);
        }
        if any_tombstone(group@) {
            let i = choose|i: int| 0 <= i < group@.len() && (#[trigger] group@[i]).tombstoned();
            assert(i == 0 || i == 1);
        }
    }
    first != second
}

fn select_delta<D: KeyDelta>(group: &Vec<D>) -> (left: Option<D>)
    ensures
        left == selected(group@),
{
    if group.len() == 0 || cancels_tombstone_pair(group) {
        return None;
    }
    let ghost all = group@;
    let mut greatest: D = group[0];
    proof {
        order::lemma_before_irreflexive(all[0].rank());
        assert(all.take(1)[0] == all[0]);
        assert(is_greatest(all.take(1), greatest));
    }
    for i in 1..group.len()
        invariant
            all == group@,
            is_greatest(all.take(i as int), greatest),
    {
        let delta: D = group[i];
        let ghost summary = GroupSummary {
            count: i,
            live: any_live(all.take(i as int)),
            tombstone: any_tombstone(all.take(i as int)),
            greatest,
        };
        let newer: bool = greatest.precedes(&delta);
        if newer {
            greatest = delta;
        }
        proof {
            assert(i < group.len());
            lemma_summary_next(summary, all.take(i as int), delta, greatest);
            assert(all.take(i + 1) =~= all.take(i as int).push(delta));
        }
    }
    proof {
        assert(all.take(all.len() as int) =~= all);
        lemma_selected(
            GroupSummary {
                count: group.len(),
                live: any_live(all),
                tombstone: any_tombstone(all),
                greatest,
            },
            all,
        );
    }
    Some(greatest)
}

/// What is left of the deltas of one node.
pub fn select_node_state(group: &Vec<NodeStateDelta>) -> (left: Option<NodeStateDelta>)
    ensures
        left == selected(group@),
{
    select_delta(group)
}

/// What is left of the deltas of one primary key.
pub fn select_resolution(group: &Vec<ResolutionDelta>) -> (left: Option<ResolutionDelta>)
    ensures
        left == selected(group@),
{
    select_delta(group)
}

/// What is left of the deltas of one filter value.
pub fn select_filter(group: &Vec<FilterDelta>) -> (left: Option<FilterDelta>)
    ensures
        left == selected(group@),
{
    select_delta(group)
}

/// What is left of the deltas of one tenant membership.
pub fn select_tenant(group: &Vec<TenantDelta>) -> (left: Option<TenantDelta>)
    ensures
        left == selected(group@),
{
    select_delta(group)
}

/// The node of a node row.
pub open spec fn row_node(row: ProjectionSyncRow) -> u32 {
    match row.node_idx {
        Some(node_idx) => node_idx,
        None => row.source,
    }
}

fn node_of(row: &ProjectionSyncRow) -> (node_idx: u32)
    ensures
        node_idx == row_node(*row),
{
    match row.node_idx {
        Some(node_idx) => node_idx,
        None => row.source,
    }
}

/// Rows about nodes.
pub open spec fn node_rows(rows: Seq<ProjectionSyncRow>) -> Seq<ProjectionSyncRow> {
    rows.filter(|row: ProjectionSyncRow| !normalize::on_edge(row.operation))
}

/// What rows say of nodes.
pub open spec fn node_state_entries(rows: Seq<ProjectionSyncRow>) -> Seq<(NodeKey, NodeStateDelta)> {
    rows.filter(
        |row: ProjectionSyncRow| !normalize::on_edge(row.operation),
    ).map_values(|row: ProjectionSyncRow| node_state_entry(row))
}

/// What a row says of nodes.
pub open spec fn node_state_entry(row: ProjectionSyncRow) -> (NodeKey, NodeStateDelta) {
    (
        NodeKey { node_idx: row_node(row) },
        NodeStateDelta { sync_id: row.sync_id, active: normalize::inserts(row.operation) },
    )
}

/// The segment rows of nodes: what is left of each, in key order.
pub open spec fn node_state_rows(rows: Seq<ProjectionSyncRow>) -> Seq<SegmentNodeState> {
    ordered_map::sorted_entries(settled(node_state_entries(rows))).map_values(
        |entry: (NodeKey, NodeStateDelta)|
            SegmentNodeState { node_idx: entry.0.node_idx, active: entry.1.active },
    )
}

fn collect_node_state_rows(rows: &[ProjectionSyncRow]) -> (found: Vec<SegmentNodeState>)
    ensures
        found@ == node_state_rows(rows@),
{
    let mut entries: Vec<(NodeKey, NodeStateDelta)> = Vec::new();
    proof {
        reveal(Seq::filter);
        assert(entries@ =~= node_state_entries(rows@.take(0)));
    }
    for i in 0..rows.len()
        invariant
            entries@ == node_state_entries(rows@.take(i as int)),
    {
        let row: ProjectionSyncRow = rows[i];
        if !row.operation.is_edge() {
            let node_idx: u32 = node_of(&row);
            entries.push(
                (
                    NodeKey { node_idx },
                    NodeStateDelta { sync_id: row.sync_id, active: row.operation.is_insert() },
                ),
            );
        }
        proof {
            reveal(Seq::filter);
            assert(rows@.take(i + 1).drop_last() =~= rows@.take(i as int));
            assert(entries@ =~= node_state_entries(rows@.take(i + 1)));
        }
    }
    assert(rows@.take(rows@.len() as int) =~= rows@);
    let left: OrderedMap<NodeKey, NodeStateDelta> = settle(&entries);
    proof {
        ordered_map::lemma_sorted_entries(left.entries@);
    }
    let mut found: Vec<SegmentNodeState> = Vec::new();
    for i in 0..left.entries.len()
        invariant
            left.entries@ == ordered_map::sorted_entries(settled(node_state_entries(rows@))),
            found@ == node_state_rows(rows@).take(i as int),
    {
        let (key, delta): (NodeKey, NodeStateDelta) = left.entries[i];
        found.push(SegmentNodeState { node_idx: key.node_idx, active: delta.active });
        assert(found@ =~= node_state_rows(rows@).take(i + 1));
    }
    assert(found@ =~= node_state_rows(rows@));
    found
}

/// What rows say of primary keys.
pub open spec fn resolution_entries(rows: Seq<ProjectionSyncRow>) -> Seq<(ResolutionKey, ResolutionDelta)> {
    rows.filter(
        |row: ProjectionSyncRow|
            !normalize::on_edge(row.operation) && row.table_oid is Some && row.pk_hash is Some,
    ).map_values(|row: ProjectionSyncRow| resolution_entry(row))
}

/// What a row says of primary keys.
pub open spec fn resolution_entry(row: ProjectionSyncRow) -> (ResolutionKey, ResolutionDelta) {
    (
        ResolutionKey { table_oid: row.table_oid->Some_0, pk_hash: row.pk_hash->Some_0 },
        ResolutionDelta {
            sync_id: row.sync_id,
            node_idx: row_node(row),
            tombstone: normalize::deletes(row.operation),
        },
    )
}

/// The segment rows of primary keys: what is left of each, in key order.
pub open spec fn resolution_rows(rows: Seq<ProjectionSyncRow>) -> Seq<SegmentResolution> {
    ordered_map::sorted_entries(settled(resolution_entries(rows))).map_values(
        |entry: (ResolutionKey, ResolutionDelta)|
            SegmentResolution {
                table_oid: entry.0.table_oid,
                pk_hash: entry.0.pk_hash,
                node_idx: entry.1.node_idx,
                tombstone: entry.1.tombstone,
            },
    )
}

fn collect_resolution_rows(rows: &[ProjectionSyncRow]) -> (found: Vec<SegmentResolution>)
    ensures
        found@ == resolution_rows(rows@),
{
    let mut entries: Vec<(ResolutionKey, ResolutionDelta)> = Vec::new();
    proof {
        reveal(Seq::filter);
        assert(entries@ =~= resolution_entries(rows@.take(0)));
    }
    for i in 0..rows.len()
        invariant
            entries@ == resolution_entries(rows@.take(i as int)),
    {
        let row: ProjectionSyncRow = rows[i];
        if !row.operation.is_edge() {
            match (row.table_oid, row.pk_hash) {
                (Some(table_oid), Some(pk_hash)) => {
                    let node_idx: u32 = node_of(&row);
                    entries.push(
                        (
                            ResolutionKey { table_oid, pk_hash },
                            ResolutionDelta {
                sync_id: row.sync_id,
                node_idx,
                tombstone: row.operation.is_delete(),
            },
                        ),
                    );
                },
                _ => {},
            }
        }
        proof {
            reveal(Seq::filter);
            assert(rows@.take(i + 1).drop_last() =~= rows@.take(i as int));
            assert(entries@ =~= resolution_entries(rows@.take(i + 1)));
        }
    }
    assert(rows@.take(rows@.len() as int) =~= rows@);
    let left: OrderedMap<ResolutionKey, ResolutionDelta> = settle(&entries);
    proof {
        ordered_map::lemma_sorted_entries(left.entries@);
    }
    let mut found: Vec<SegmentResolution> = Vec::new();
    for i in 0..left.entries.len()
        invariant
            left.entries@ == ordered_map::sorted_entries(settled(resolution_entries(rows@))),
            found@ == resolution_rows(rows@).take(i as int),
    {
        let (key, delta): (ResolutionKey, ResolutionDelta) = left.entries[i];
        found.push(SegmentResolution {
            table_oid: key.table_oid,
            pk_hash: key.pk_hash,
            node_idx: delta.node_idx,
            tombstone: delta.tombstone,
        });
        assert(found@ =~= resolution_rows(rows@).take(i + 1));
    }
    assert(found@ =~= resolution_rows(rows@));
    found
}

/// What rows say of filter values.
pub open spec fn filter_entries(rows: Seq<ProjectionSyncRow>) -> Seq<(FilterKey, FilterDelta)> {
    rows.filter(
        |row: ProjectionSyncRow|
            !normalize::on_edge(row.operation) && row.filter_column_id is Some
                && row.filter_value is Some,
    ).map_values(|row: ProjectionSyncRow| filter_entry(row))
}

/// What a row says of filter values.
pub open spec fn filter_entry(row: ProjectionSyncRow) -> (FilterKey, FilterDelta) {
    (
        FilterKey {
            node_idx: row_node(row),
            column_id: row.filter_column_id->Some_0,
            value: row.filter_value->Some_0,
        },
        FilterDelta { sync_id: row.sync_id, tombstone: normalize::deletes(row.operation) },
    )
}

/// The segment rows of filter values: what is left of each, in key order.
pub open spec fn filter_rows(rows: Seq<ProjectionSyncRow>) -> Seq<SegmentFilterValue> {
    ordered_map::sorted_entries(settled(filter_entries(rows))).map_values(
        |entry: (FilterKey, FilterDelta)|
            SegmentFilterValue {
                node_idx: entry.0.node_idx,
                column_id: entry.0.column_id,
                value: entry.0.value,
                tombstone: entry.1.tombstone,
            },
    )
}

fn collect_filter_rows(rows: &[ProjectionSyncRow]) -> (found: Vec<SegmentFilterValue>)
    ensures
        found@ == filter_rows(rows@),
{
    let mut entries: Vec<(FilterKey, FilterDelta)> = Vec::new();
    proof {
        reveal(Seq::filter);
        assert(entries@ =~= filter_entries(rows@.take(0)));
    }
    for i in 0..rows.len()
        invariant
            entries@ == filter_entries(rows@.take(i as int)),
    {
        let row: ProjectionSyncRow = rows[i];
        if !row.operation.is_edge() {
            match (row.filter_column_id, row.filter_value) {
                (Some(column_id), Some(value)) => {
                    let node_idx: u32 = node_of(&row);
                    entries.push(
                        (
                            FilterKey { node_idx, column_id, value },
                            FilterDelta { sync_id: row.sync_id, tombstone: row.operation.is_delete() },
                        ),
                    );
                },
                _ => {},
            }
        }
        proof {
            reveal(Seq::filter);
            assert(rows@.take(i + 1).drop_last() =~= rows@.take(i as int));
            assert(entries@ =~= filter_entries(rows@.take(i + 1)));
        }
    }
    assert(rows@.take(rows@.len() as int) =~= rows@);
    let left: OrderedMap<FilterKey, FilterDelta> = settle(&entries);
    proof {
        ordered_map::lemma_sorted_entries(left.entries@);
    }
    let mut found: Vec<SegmentFilterValue> = Vec::new();
    for i in 0..left.entries.len()
        invariant
            left.entries@ == ordered_map::sorted_entries(settled(filter_entries(rows@))),
            found@ == filter_rows(rows@).take(i as int),
    {
        let (key, delta): (FilterKey, FilterDelta) = left.entries[i];
        found.push(SegmentFilterValue {
            node_idx: key.node_idx,
            column_id: key.column_id,
            value: key.value,
            tombstone: delta.tombstone,
        });
        assert(found@ =~= filter_rows(rows@).take(i + 1));
    }
    assert(found@ =~= filter_rows(rows@));
    found
}

/// What rows say of tenant memberships.
pub open spec fn tenant_entries(rows: Seq<ProjectionSyncRow>) -> Seq<(TenantKey, TenantDelta)> {
    rows.filter(
        |row: ProjectionSyncRow| !normalize::on_edge(row.operation) && row.tenant_hash is Some,
    ).map_values(|row: ProjectionSyncRow| tenant_entry(row))
}

/// What a row says of tenant memberships.
pub open spec fn tenant_entry(row: ProjectionSyncRow) -> (TenantKey, TenantDelta) {
    (
        TenantKey { node_idx: row_node(row), tenant_hash: row.tenant_hash->Some_0 },
        TenantDelta { sync_id: row.sync_id, tombstone: normalize::deletes(row.operation) },
    )
}

/// The segment rows of tenant memberships: what is left of each, in key order.
pub open spec fn tenant_rows(rows: Seq<ProjectionSyncRow>) -> Seq<SegmentTenant> {
    ordered_map::sorted_entries(settled(tenant_entries(rows))).map_values(
        |entry: (TenantKey, TenantDelta)|
            SegmentTenant {
                node_idx: entry.0.node_idx,
                tenant_hash: entry.0.tenant_hash,
                tombstone: entry.1.tombstone,
            },
    )
}

fn collect_tenant_rows(rows: &[ProjectionSyncRow]) -> (found: Vec<SegmentTenant>)
    ensures
        found@ == tenant_rows(rows@),
{
    let mut entries: Vec<(TenantKey, TenantDelta)> = Vec::new();
    proof {
        reveal(Seq::filter);
        assert(entries@ =~= tenant_entries(rows@.take(0)));
    }
    for i in 0..rows.len()
        invariant
            entries@ == tenant_entries(rows@.take(i as int)),
    {
        let row: ProjectionSyncRow = rows[i];
        if !row.operation.is_edge() {
            match row.tenant_hash {
                Some(tenant_hash) => {
                    let node_idx: u32 = node_of(&row);
                    entries.push(
                        (
                            TenantKey { node_idx, tenant_hash },
                            TenantDelta { sync_id: row.sync_id, tombstone: row.operation.is_delete() },
                        ),
                    );
                },
                _ => {},
            }
        }
        proof {
            reveal(Seq::filter);
            assert(rows@.take(i + 1).drop_last() =~= rows@.take(i as int));
            assert(entries@ =~= tenant_entries(rows@.take(i + 1)));
        }
    }
    assert(rows@.take(rows@.len() as int) =~= rows@);
    let left: OrderedMap<TenantKey, TenantDelta> = settle(&entries);
    proof {
        ordered_map::lemma_sorted_entries(left.entries@);
    }
    let mut found: Vec<SegmentTenant> = Vec::new();
    for i in 0..left.entries.len()
        invariant
            left.entries@ == ordered_map::sorted_entries(settled(tenant_entries(rows@))),
            found@ == tenant_rows(rows@).take(i as int),
    {
        let (key, delta): (TenantKey, TenantDelta) = left.entries[i];
        found.push(SegmentTenant {
            node_idx: key.node_idx,
            tenant_hash: key.tenant_hash,
            tombstone: delta.tombstone,
        });
        assert(found@ =~= tenant_rows(rows@).take(i + 1));
    }
    assert(found@ =~= tenant_rows(rows@));
    found
}

/// The node segment of rows, where anything is left for it.
pub open spec fn node_segment_of(
    rows: Seq<ProjectionSyncRow>,
    limits: MutationBufferLimits,
    sync_watermark: i64,
) -> Result<Option<DeltaSegmentView>, GraphErrorView> {
    if normalize::limits_error(node_rows(rows).len(), limits) is Some {
        Err(normalize::limits_error(node_rows(rows).len(), limits)->0)
    } else {
        match segment::empty_segment(
            SegmentKind::Node,
            0,
            TraversalDirection::Any,
            0,
            DEFAULT_SOURCE_RANGE_END,
            sync_watermark,
        ) {
            Err(error) => Err(error),
            Ok(blank) => if node_state_rows(rows).len() == 0 && resolution_rows(rows).len() == 0
                && filter_rows(rows).len() == 0 && tenant_rows(rows).len() == 0 {
                Ok(None)
            } else {
                Ok(
                    Some(
                        DeltaSegmentView {
                            node_states: node_state_rows(rows),
                            resolutions: resolution_rows(rows),
                            filters: filter_rows(rows),
                            tenants: tenant_rows(rows),
                            ..blank
                        },
                    ),
                )
            },
        }
    }
}

fn count_node_rows(rows: &[ProjectionSyncRow]) -> (count: usize)
    ensures
        count == node_rows(rows@).len(),
{
    let mut count: usize = 0;
    proof {
        reveal(Seq::filter);
    }
    for i in 0..rows.len()
        invariant
            count <= i,
            count == node_rows(rows@.take(i as int)).len(),
    {
        proof {
            reveal(Seq::filter);
            assert(rows@.take(i + 1).drop_last() =~= rows@.take(i as int));
        }
        if !rows[i].operation.is_edge() {
            count = count + 1;
        }
    }
    assert(rows@.take(rows@.len() as int) =~= rows@);
    count
}

/// An optional segment, or an error, by its view.
pub open spec fn segment_outcome(result: GraphResult<Option<DeltaSegment>>) -> Result<
    Option<DeltaSegmentView>,
    GraphErrorView,
> {
    match result {
        Ok(Some(segment)) => Ok(Some(segment@)),
        Ok(None) => Ok(None),
        Err(error) => Err(error@),
    }
}

/// The node segment of rows, where anything is left for it.
pub fn node_segment(
    rows: &[ProjectionSyncRow],
    limits: MutationBufferLimits,
    sync_watermark: i64,
) -> (result: GraphResult<Option<DeltaSegment>>)
    ensures
        segment_outcome(result) == node_segment_of(rows@, limits, sync_watermark),
{
    match validate_ingestion_limits(count_node_rows(rows), limits) {
        Ok(_) => {},
        Err(error) => {
            return Err(error);
        },
    }
    let mut segment: DeltaSegment = match DeltaSegment::new(
        SegmentKind::Node,
        0,
        TraversalDirection::Any,
        0,
        DEFAULT_SOURCE_RANGE_END,
        sync_watermark,
    ) {
        Ok(segment) => segment,
        Err(error) => {
            return Err(error);
        },
    };
    segment.node_states = collect_node_state_rows(rows);
    segment.resolutions = collect_resolution_rows(rows);
    segment.filters = collect_filter_rows(rows);
    segment.tenants = collect_tenant_rows(rows);
    if segment.node_states.len() == 0 && segment.resolutions.len() == 0 && segment.filters.len()
        == 0 && segment.tenants.len() == 0 {
        Ok(None)
    } else {
        Ok(Some(segment))
    }
}


// ---------------------------------------------------------------------------
// Publication lock
// ---------------------------------------------------------------------------

/// Artifact roots on which a publication is active.
#[derive(Debug, Clone, PartialEq, Eq)]
pub struct ActiveIngestRoots {
    pub roots: Vec<String>,
}

impl ActiveIngestRoots {
    pub open spec fn wf(&self) -> bool {
        manifest::texts(self.roots@).no_duplicates()
    }

    /// Roots that are held.
    pub open spec fn held(&self) -> Set<Seq<char>> {
        manifest::texts(self.roots@).to_set()
    }

    /// No root is held.
    pub fn new() -> (active: ActiveIngestRoots)
        ensures
            active.wf(),
            active.held() == Set::<Seq<char>>::empty(),
    {
        let active: ActiveIngestRoots = ActiveIngestRoots { roots: Vec::new() };
        assert(active.held() =~= Set::<Seq<char>>::empty());
        active
    }

    fn position(&self, root: &str) -> (at: Option<usize>)
        ensures
            match at {
                Some(i) => i < self.roots@.len() && self.roots@[i as int]@ == root@,
                None => !self.held().contains(root@),
            },
    {
        let ghost names = manifest::texts(self.roots@);
        for i in 0..self.roots.len()
            invariant
                names == manifest::texts(self.roots@),
                forall|j: int| 0 <= j < i ==> #[trigger] names[j] != root@,
        {
            assert(names[i as int] == self.roots@[i as int]@);
            if text::same_text(self.roots[i].as_str(), root) {
                return Some(i);
            }
        }
        None
    }

    /// Hold a root, unless a publication on it is active.
    pub fn try_enter(&mut self, root: &str) -> (result: GraphResult<()>)
        requires
            old(self).wf(),
        ensures
            final(self).wf(),
            match result {
                Ok(_) => !old(self).held().contains(root@) && final(self).held() == old(
                    self,
                ).held().insert(root@),
                Err(error) => error@ == GraphErrorView::BuildLocked && old(self).held().contains(
                    root@,
                ) && *final(self) == *old(self),
            },
    {
        let ghost before = manifest::texts(self.roots@);
        match self.position(root) {
            Some(i) => {
                assert(before[i as int] == root@);
                Err(GraphError::BuildLocked)
            },
            None => {
                self.roots.push(owned(root));
                proof {
                    let after = manifest::texts(self.roots@);
                    assert(after =~= before.push(root@));
                    assert forall|i: int, j: int|
                        0 <= i < after.len() && 0 <= j < after.len() && i != j implies after[i]
                        != after[j] by {
                        if i < before.len() {
                            assert(before.to_set().contains(before[i]));
                        }
                        if j < before.len() {
                            assert(before.to_set().contains(before[j]));
                        }
                    }
                    assert forall|name: Seq<char>| #[trigger] after.to_set().contains(name)
                        <==> before.to_set().insert(root@).contains(name) by {
                        if after.contains(name) {
                            let i = choose|i: int| 0 <= i < after.len() && after[i] == name;
                            if i < before.len() {
                                assert(before[i] == name);
                            }
                        }
                        if before.contains(name) {
                            let i = choose|i: int| 0 <= i < before.len() && before[i] == name;
                            assert(after[i] == name);
                        }
                        assert(after[before.len() as int] == root@);
                    }
                    assert(after.to_set() =~= before.to_set().insert(root@));
                }
                Ok(())
            },
        }
    }

    /// Let go of a root.
    pub fn leave(&mut self, root: &str)
        requires
            old(self).wf(),
        ensures
            final(self).wf(),
            final(self).held() == old(self).held().remove(root@),
    {
        let ghost before = manifest::texts(self.roots@);
        match self.position(root) {
            Some(i) => {
                let _ = self.roots.remove(i);
                proof {
                    let after = manifest::texts(self.roots@);
                    assert(before[i as int] == root@);
                    assert(after =~= before.remove(i as int));
                    assert forall|a: int, b: int|
                        0 <= a < after.len() && 0 <= b < after.len() && a != b implies after[a]
                        != after[b] by {
                        let x = if a < i { a } else { a + 1 };
                        let y = if b < i { b } else { b + 1 };
                        assert(after[a] == before[x] && after[b] == before[y]);
                    }
                    assert forall|name: Seq<char>| #[trigger] after.to_set().contains(name)
                        <==> before.to_set().remove(root@).contains(name) by {
                        if after.contains(name) {
                            let a = choose|a: int| 0 <= a < after.len() && after[a] == name;
                            let x = if a < i { a } else { a + 1 };
                            assert(before[x] == name);
                        }
                        if before.contains(name) && name != root@ {
                            let x = choose|x: int| 0 <= x < before.len() && before[x] == name;
                            let a = if x < i { x } else { x - 1 };
                            assert(after[a] == name);
                        }
                    }
                    assert(after.to_set() =~= before.to_set().remove(root@));
                }
            },
            None => {
                assert(self.held() =~= old(self).held().remove(root@));
            },
        }
    }
}

// ---------------------------------------------------------------------------
// Ingestion
// ---------------------------------------------------------------------------

/// Testable durable projection ingester.
#[derive(Debug, Clone, PartialEq, Eq)]
pub struct ProjectionIngester {
    pub store: ProjectionManifestStore,
    pub base_artifact_path: String,
    pub base_artifact_checksum: String,
    pub base_artifact_version: u32,
}

/// Result of one projection ingestion publication.
#[derive(Debug, Clone, PartialEq, Eq)]
pub struct ProjectionIngestResult {
    pub manifest: Option<ProjectionManifest>,
    pub rows_ingested: usize,
    pub segments_published: usize,
}

/// What one ingestion publishes.
#[derive(Debug, Clone, PartialEq, Eq)]
pub struct IngestPlan {
    /// Generation to publish.
    pub generation_id: u64,
    /// Highest sync-log row that the generation represents.
    pub sync_watermark: i64,
    /// Number of rows that are ingested.
    pub rows_ingested: usize,
    /// Segments to write, in order.
    pub segments: Vec<DeltaSegment>,
}

/// What one ingestion publishes.
#[verifier::ext_equal]
pub struct IngestPlanView {
    pub generation_id: u64,
    pub sync_watermark: i64,
    pub rows_ingested: nat,
    pub segments: Seq<DeltaSegmentView>,
}

impl View for IngestPlan {
    type V = IngestPlanView;

    open spec fn view(&self) -> IngestPlanView {
        IngestPlanView {
            generation_id: self.generation_id,
            sync_watermark: self.sync_watermark,
            rows_ingested: self.rows_ingested as nat,
            segments: layered::views(self.segments@),
        }
    }
}

/// The watermark of the current generation.
pub open spec fn watermark_of(previous: Option<ManifestView>) -> i64 {
    match previous {
        Some(manifest) => manifest.sync_watermark,
        None => 0,
    }
}

/// Whether a row is committed and newer than a watermark.
pub open spec fn is_due(row: ProjectionSyncRow, watermark: i64) -> bool {
    row.committed && watermark < row.sync_id <= i64::MAX
}

/// The committed rows above a watermark.
pub open spec fn due_rows(rows: Seq<ProjectionSyncRow>, watermark: i64) -> Seq<ProjectionSyncRow> {
    rows.filter(|row: ProjectionSyncRow| is_due(row, watermark))
}

/// The greatest generation that rows name, or `least`.
pub open spec fn greatest_generation(rows: Seq<ProjectionSyncRow>, least: u64) -> u64
    decreases rows.len(),
{
    if rows.len() == 0 {
        least
    } else {
        let earlier = greatest_generation(rows.drop_last(), least);
        if rows.last().generation_id > earlier {
            rows.last().generation_id
        } else {
            earlier
        }
    }
}

/// The greatest sync-log row among rows, or zero.
pub open spec fn greatest_sync_id(rows: Seq<ProjectionSyncRow>) -> u64
    decreases rows.len(),
{
    if rows.len() == 0 {
        0
    } else {
        let earlier = greatest_sync_id(rows.drop_last());
        if rows.last().sync_id > earlier {
            rows.last().sync_id
        } else {
            earlier
        }
    }
}

/// The generation after the current one, or the first that rows name.
pub open spec fn next_generation(
    previous: Option<ManifestView>,
    rows: Seq<ProjectionSyncRow>,
) -> Result<u64, GraphErrorView> {
    match previous {
        Some(manifest) => manifest::following(manifest.generation_id),
        None => Ok(greatest_generation(rows, 1)),
    }
}

/// What ingesting rows over the current generation publishes: nothing where no
/// row is due.
pub open spec fn ingest_plan(
    previous: Option<ManifestView>,
    rows: Seq<ProjectionSyncRow>,
    limits: MutationBufferLimits,
) -> Result<Option<IngestPlanView>, GraphErrorView> {
    let due = due_rows(rows, watermark_of(previous));
    let sync_watermark = greatest_sync_id(due) as i64;
    if due.len() == 0 {
        Ok(None)
    } else if normalize::limits_error(due.len(), limits) is Some {
        Err(normalize::limits_error(due.len(), limits)->0)
    } else {
        match next_generation(previous, due) {
            Err(error) => Err(error),
            Ok(generation_id) => match edge_segment_list(due, limits) {
                Err(error) => Err(error),
                Ok(edges) => match node_segment_of(due, limits, sync_watermark) {
                    Err(error) => Err(error),
                    Ok(nodes) => Ok(
                        Some(
                            IngestPlanView {
                                generation_id,
                                sync_watermark,
                                rows_ingested: due.len(),
                                segments: appended(edges, nodes),
                            },
                        ),
                    ),
                },
            },
        }
    }
}

/// The generation after the current one, or the first that rows name.
pub fn next_generation_id(previous: Option<&ProjectionManifest>, rows: &[ProjectionSyncRow]) -> (result:
    GraphResult<u64>)
    ensures
        match result {
            Ok(id) => next_generation(view_of(previous), rows@) == Ok::<_, GraphErrorView>(id),
            Err(error) => next_generation(view_of(previous), rows@) == Err::<u64, _>(error@),
        },
{
    match previous {
        Some(manifest) => manifest::following_generation_id(manifest.generation_id),
        None => {
            let mut greatest: u64 = 1;
            for i in 0..rows.len()
                invariant
                    greatest == greatest_generation(rows@.take(i as int), 1),
            {
                assert(rows@.take(i + 1).drop_last() =~= rows@.take(i as int));
                if rows[i].generation_id > greatest {
                    greatest = rows[i].generation_id;
                }
            }
            assert(rows@.take(rows@.len() as int) =~= rows@);
            Ok(greatest)
        },
    }
}

/// The current generation, by its view.
pub open spec fn view_of(previous: Option<&ProjectionManifest>) -> Option<ManifestView> {
    match previous {
        Some(manifest) => Some(manifest@),
        None => None,
    }
}

fn latest_sync_id(rows: &[ProjectionSyncRow]) -> (latest: u64)
    ensures
        latest == greatest_sync_id(rows@),
{
    let mut latest: u64 = 0;
    for i in 0..rows.len()
        invariant
            latest == greatest_sync_id(rows@.take(i as int)),
    {
        assert(rows@.take(i + 1).drop_last() =~= rows@.take(i as int));
        if rows[i].sync_id > latest {
            latest = rows[i].sync_id;
        }
    }
    assert(rows@.take(rows@.len() as int) =~= rows@);
    latest
}

fn collect_due_rows(rows: &[ProjectionSyncRow], watermark: i64) -> (due: Vec<ProjectionSyncRow>)
    ensures
        due@ == due_rows(rows@, watermark),
{
    let mut due: Vec<ProjectionSyncRow> = Vec::new();
    proof {
        reveal(Seq::filter);
        assert(due@ =~= due_rows(rows@.take(0), watermark));
    }
    for i in 0..rows.len()
        invariant
            due@ == due_rows(rows@.take(i as int), watermark),
    {
        let row: ProjectionSyncRow = rows[i];
        if row.committed && row.sync_id <= 9_223_372_036_854_775_807 && (row.sync_id as i64)
            > watermark {
            due.push(row);
        }
        proof {
            reveal(Seq::filter);
            assert(rows@.take(i + 1).drop_last() =~= rows@.take(i as int));
            assert(due@ =~= due_rows(rows@.take(i + 1), watermark));
        }
    }
    assert(rows@.take(rows@.len() as int) =~= rows@);
    due
}

/// The name of a segment file.
pub open spec fn segment_name(generation_id: u64, segment_id: u32) -> Seq<char> {
    "projection-generation-"@ + text::fixed_digits(generation_id as nat, 10, 20) + "-segment-"@
        + padded(segment_id as nat, 8) + ".pggraph-delta"@
}

/// Decimal notation with at least `width` digits.
pub open spec fn padded(n: nat, width: nat) -> Seq<char> {
    if text::decimal(n).len() < width {
        text::fixed_digits(n, 10, width)
    } else {
        text::decimal(n)
    }
}

/// Decimal notation with at least eight digits.
pub fn padded_text(n: u32) -> (number: String)
    ensures
        number@ == padded(n as nat, 8),
{
    if n < 10_000_000 {
        proof {
            lemma_short_decimal(n as nat, 7);
        }
        fixed_digits_text(n as u64, 10, 8)
    } else {
        proof {
            lemma_long_decimal(n as nat, 7);
        }
        text::decimal_text(n as u64)
    }
}

/// The name of a segment file.
pub fn segment_file_name(generation_id: u64, segment_id: u32) -> (name: String)
    ensures
        name@ == segment_name(generation_id, segment_id),
{
    concat5(
        "projection-generation-",
        fixed_digits_text(generation_id, 10, 20).as_str(),
        "-segment-",
        padded_text(segment_id).as_str(),
        ".pggraph-delta",
    )
}

proof fn lemma_short_decimal(n: nat, width: nat)
    requires
        width > 0,
        n < vstd::arithmetic::power::pow(10, width) || (width == 7 && n < 10_000_000),
    ensures
        text::decimal(n).len() <= width,
    decreases width,
{
    reveal(vstd::arithmetic::power::pow);
    if width == 7 {
        reveal_with_fuel(vstd::arithmetic::power::pow, 8);
        assert(vstd::arithmetic::power::pow(10, 7) == 10_000_000);
    }
    if width == 1 {
        vstd::arithmetic::power::lemma_pow1(10);
    } else {
        let fewer = (width - 1) as nat;
        vstd::arithmetic::power::lemma_pow1(10);
        vstd::arithmetic::power::lemma_pow_adds(10, fewer, 1);
        if n >= 10 {
            lemma_short_decimal(n / 10, fewer);
        }
    }
}

proof fn lemma_long_decimal(n: nat, width: nat)
    requires
        n >= vstd::arithmetic::power::pow(10, width) || (width == 7 && n >= 10_000_000),
    ensures
        text::decimal(n).len() > width,
    decreases width,
{
    reveal(vstd::arithmetic::power::pow);
    if width == 7 {
        reveal_with_fuel(vstd::arithmetic::power::pow, 8);
        assert(vstd::arithmetic::power::pow(10, 7) == 10_000_000);
    }
    if width == 0 {
        assert(text::decimal(n).len() > 0);
    } else {
        let fewer = (width - 1) as nat;
        vstd::arithmetic::power::lemma_pow1(10);
        vstd::arithmetic::power::lemma_pow_adds(10, fewer, 1);
        vstd::arithmetic::power::lemma_pow_positive(10, fewer);
        lemma_long_decimal(n / 10, fewer);
    }
}

/// The manifest reference of a segment file.
pub open spec fn segment_ref_of(
    name: Seq<char>,
    bytes: Seq<u8>,
    segment: DeltaSegmentView,
) -> SegmentRefView {
    SegmentRefView {
        path: name,
        checksum: checksum::checksum_label(checksum::crc32_of(bytes)),
        level: segment.header.level,
        source_start: segment.header.source_start,
        source_end: segment.header.source_end,
        sync_watermark: segment.header.sync_watermark,
    }
}

/// The manifest reference of a segment file that holds `bytes`.
pub fn segment_ref(name: &str, bytes: &[u8], segment: &DeltaSegment) -> (reference:
    ManifestSegmentRef)
    ensures
        reference@ == segment_ref_of(name@, bytes@, segment@),
{
    ManifestSegmentRef {
        path: owned(name),
        checksum: checksum_text(bytes),
        level: segment.header.level,
        source_start: segment.header.source_start,
        source_end: segment.header.source_end,
        sync_watermark: segment.header.sync_watermark,
    }
}

/// The manifest that an ingestion publishes.
pub open spec fn ingestion_manifest(
    base: ManifestView,
    previous: Option<ManifestView>,
    segments: Seq<SegmentRefView>,
) -> ManifestView {
    let inherited = match previous {
        Some(manifest) => ManifestView {
            previous_generation_id: Some(manifest.generation_id),
            last_compaction_unix_micros: manifest.last_compaction_unix_micros,
            last_repair_unix_micros: manifest.last_repair_unix_micros,
            ..base
        },
        None => base,
    };
    ManifestView {
        last_ingestion_unix_micros: Some(base.created_at_unix_micros),
        segments,
        ..inherited
    }
}

impl ProjectionIngester {
    /// Ingester for the base artifact under `root`.
    pub fn new(
        root: &str,
        base_artifact_path: &str,
        base_artifact_checksum: &str,
        base_artifact_version: u32,
    ) -> (ingester: ProjectionIngester)
        ensures
            ingester.store.root@ == root@,
            ingester.base_artifact_path@ == base_artifact_path@,
            ingester.base_artifact_checksum@ == base_artifact_checksum@,
            ingester.base_artifact_version == base_artifact_version,
    {
        ProjectionIngester {
            store: ProjectionManifestStore::new(root),
            base_artifact_path: owned(base_artifact_path),
            base_artifact_checksum: owned(base_artifact_checksum),
            base_artifact_version,
        }
    }

    /// The edge segments of rows, one for each direction that has any.
    pub fn edge_segments(&self, rows: &[ProjectionSyncRow], limits: MutationBufferLimits) -> (result:
        GraphResult<Vec<DeltaSegment>>)
        ensures
            layered::views_of(result) == edge_segment_list(rows@, limits),
    {
        let mut segments: Vec<DeltaSegment> = Vec::new();
        assert(layered::views(segments@) =~= Seq::<DeltaSegmentView>::empty());
        let outgoing: Option<DeltaSegment> = direction_segment(
            rows,
            limits,
            TraversalDirection::Out,
        )?;
        let incoming: Option<DeltaSegment> = direction_segment(
            rows,
            limits,
            TraversalDirection::In,
        )?;
        let both: Option<DeltaSegment> = direction_segment(rows, limits, TraversalDirection::Any)?;
        append_segment(&mut segments, outgoing);
        append_segment(&mut segments, incoming);
        append_segment(&mut segments, both);
        Ok(segments)
    }

    /// What ingesting rows over the current generation publishes.
    pub fn ingest_committed_rows_locked(
        &self,
        previous: Option<&ProjectionManifest>,
        rows: &[ProjectionSyncRow],
        limits: MutationBufferLimits,
    ) -> (result: GraphResult<Option<IngestPlan>>)
        ensures
            match result {
                Ok(Some(plan)) => ingest_plan(view_of(previous), rows@, limits) == Ok::<
                    _,
                    GraphErrorView,
                >(Some(plan@)),
                Ok(None) => ingest_plan(view_of(previous), rows@, limits) == Ok::<
                    _,
                    GraphErrorView,
                >(None::<IngestPlanView>),
                Err(error) => ingest_plan(view_of(previous), rows@, limits) == Err::<
                    Option<IngestPlanView>,
                    _,
                >(error@),
            },
    {
        let previous_watermark: i64 = match previous {
            Some(manifest) => manifest.sync_watermark,
            None => 0,
        };
        let due: Vec<ProjectionSyncRow> = collect_due_rows(rows, previous_watermark);
        if due.len() == 0 {
            return Ok(None);
        }
        match validate_ingestion_limits(due.len(), limits) {
            Ok(_) => {},
            Err(error) => {
                return Err(error);
            },
        }
        let generation_id: u64 = next_generation_id(previous, due.as_slice())?;
        let sync_watermark: i64 = latest_sync_id(due.as_slice()) as i64;
        let mut segments: Vec<DeltaSegment> = self.edge_segments(due.as_slice(), limits)?;
        let nodes: Option<DeltaSegment> = node_segment(due.as_slice(), limits, sync_watermark)?;
        append_segment(&mut segments, nodes);
        Ok(Some(IngestPlan { generation_id, sync_watermark, rows_ingested: due.len(), segments }))
    }

    /// Check that a segment that was written reads back as it should.
    pub fn write_segment(&self, segment: &DeltaSegment, decoded: &DeltaSegment) -> (result:
        GraphResult<()>)
        ensures
            safety::refusal(result) == (if decoded@.header.sync_watermark
                != segment@.header.sync_watermark {
                Some(
                    GraphErrorView::CorruptFile {
                        reason: "projection ingest segment failed validation reload"@,
                    },
                )
            } else {
                None
            }),
    {
        if decoded.header.sync_watermark != segment.header.sync_watermark {
            return Err(
                GraphError::CorruptFile {
                    reason: owned("projection ingest segment failed validation reload"),
                },
            );
        }
        Ok(())
    }

    /// A manifest of this base artifact.
    pub open spec fn base_of(
        &self,
        generation_id: u64,
        sync_watermark: i64,
        now_unix_micros: i64,
    ) -> ManifestView {
        manifest::base_manifest(
            generation_id,
            self.base_artifact_path@,
            self.base_artifact_checksum@,
            self.base_artifact_version,
            sync_watermark,
            now_unix_micros,
        )
    }

    /// The manifest that an ingestion publishes once its segments are written.
    pub fn ingestion_manifest(
        &self,
        previous: Option<&ProjectionManifest>,
        generation_id: u64,
        sync_watermark: i64,
        segments: Vec<ManifestSegmentRef>,
        now_unix_micros: i64,
    ) -> (manifest: ProjectionManifest)
        ensures
            manifest@ == ingestion_manifest(
                self.base_of(generation_id, sync_watermark, now_unix_micros),
                view_of(previous),
                manifest::segment_refs(segments@),
            ),
    {
        let mut manifest: ProjectionManifest = ProjectionManifest::base_only(
            generation_id,
            self.base_artifact_path.as_str(),
            self.base_artifact_checksum.as_str(),
            self.base_artifact_version,
            sync_watermark,
            now_unix_micros,
        );
        match previous {
            Some(previous) => {
                manifest.inherit_operation_timestamps(previous);
                manifest.previous_generation_id = Some(previous.generation_id);
            },
            None => {},
        }
        manifest.mark_ingestion();
        manifest.segments = segments;
        manifest
    }

    /// What an ingestion reports once its manifest is published.
    pub fn published(&self, manifest: ProjectionManifest, rows_ingested: usize) -> (result:
        ProjectionIngestResult)
        ensures
            result.manifest == Some(manifest),
            result.rows_ingested == rows_ingested,
            result.segments_published == manifest@.segments.len(),
    {
        ProjectionIngestResult {
            rows_ingested,
            segments_published: manifest.segments.len(),
            manifest: Some(manifest),
        }
    }

    /// The generation without segments that only advances the sync watermark,
    /// where the watermark is new.
    pub fn publish_empty_watermark(
        &self,
        previous: Option<&ProjectionManifest>,
        sync_watermark: i64,
        now_unix_micros: i64,
    ) -> (result: GraphResult<ProjectionIngestResult>)
        ensures
            match result {
                Ok(given) => {
                    &&& given.rows_ingested == 0
                    &&& given.segments_published == 0
                    &&& given.manifest is None <==> sync_watermark <= watermark_of(
                        view_of(previous),
                    )
                    &&& given.manifest matches Some(manifest) ==> {
                        &&& next_generation(view_of(previous), Seq::empty()) == Ok::<
                            _,
                            GraphErrorView,
                        >(manifest@.generation_id)
                        &&& manifest@ == ingestion_manifest(
                            self.base_of(
                                manifest@.generation_id,
                                sync_watermark,
                                now_unix_micros,
                            ),
                            view_of(previous),
                            Seq::empty(),
                        )
                    }
                },
                Err(error) => sync_watermark > watermark_of(view_of(previous)) && next_generation(
                    view_of(previous),
                    Seq::empty(),
                ) == Err::<u64, _>(error@),
            },
    {
        let previous_watermark: i64 = match previous {
            Some(manifest) => manifest.sync_watermark,
            None => 0,
        };
        if sync_watermark <= previous_watermark {
            return Ok(
                ProjectionIngestResult { manifest: None, rows_ingested: 0, segments_published: 0 },
            );
        }
        let none: &[ProjectionSyncRow] = &[];
        assert(none@ =~= Seq::<ProjectionSyncRow>::empty());
        let generation_id: u64 = next_generation_id(previous, none)?;
        let segments: Vec<ManifestSegmentRef> = Vec::new();
        assert(manifest::segment_refs(segments@) =~= Seq::<SegmentRefView>::empty());
        let manifest: ProjectionManifest = self.ingestion_manifest(
            previous,
            generation_id,
            sync_watermark,
            segments,
            now_unix_micros,
        );
        Ok(
            ProjectionIngestResult {
                manifest: Some(manifest),
                rows_ingested: 0,
                segments_published: 0,
            },
        )
    }
}

/// A timestamp in microseconds as manifests hold it.
pub fn now_unix_micros(micros: u128) -> (result: GraphResult<i64>)
    ensures
        match result {
            Ok(now) => now == micros,
            Err(error) => micros > i64::MAX && error@ == GraphErrorView::Internal(
                "current timestamp exceeds i64 micros"@,
            ),
        },
{
    if micros > 9_223_372_036_854_775_807 {
        Err(GraphError::Internal(owned("current timestamp exceeds i64 micros")))
    } else {
        Ok(micros as i64)
    }
}

// ---------------------------------------------------------------------------
// Laws
// ---------------------------------------------------------------------------

proof fn lemma_greatest_is_due(rows: Seq<ProjectionSyncRow>, watermark: i64)
    requires
        rows.len() > 0,
        forall|i: int| 0 <= i < rows.len() ==> is_due(#[trigger] rows[i], watermark),
    ensures
        watermark < greatest_sync_id(rows) <= i64::MAX,
    decreases rows.len(),
{
    let init = rows.drop_last();
    assert(is_due(rows[rows.len() - 1], watermark));
    if init.len() > 0 {
        assert forall|i: int| 0 <= i < init.len() implies is_due(#[trigger] init[i], watermark) by {
            assert(init[i] == rows[i]);
        }
        lemma_greatest_is_due(init, watermark);
    }
}

proof fn lemma_due_rows_due(rows: Seq<ProjectionSyncRow>, watermark: i64)
    ensures
        forall|i: int|
            0 <= i < due_rows(rows, watermark).len() ==> is_due(
                #[trigger] due_rows(rows, watermark)[i],
                watermark,
            ),
{
    let keep = |row: ProjectionSyncRow| is_due(row, watermark);
    assert forall|i: int| 0 <= i < due_rows(rows, watermark).len() implies is_due(
        #[trigger] due_rows(rows, watermark)[i],
        watermark,
    ) by {
        rows.lemma_filter_pred(keep, i);
    }
}

/// What is published is a later generation with a higher watermark.
pub proof fn lemma_ingestion_advances(
    previous: Option<ManifestView>,
    rows: Seq<ProjectionSyncRow>,
    limits: MutationBufferLimits,
)
    ensures
        ingest_plan(previous, rows, limits) matches Ok(Some(plan)) ==> {
            &&& plan.sync_watermark > watermark_of(previous)
            &&& previous matches Some(manifest) ==> plan.generation_id == manifest.generation_id
                + 1
            &&& plan.generation_id > 0
        },
{
    let watermark = watermark_of(previous);
    let due = due_rows(rows, watermark);
    if due.len() > 0 {
        lemma_due_rows_due(rows, watermark);
        lemma_greatest_is_due(due, watermark);
        lemma_generation_positive(due, 1);
    }
}

proof fn lemma_generation_positive(rows: Seq<ProjectionSyncRow>, least: u64)
    ensures
        greatest_generation(rows, least) >= least,
    decreases rows.len(),
{
    if rows.len() > 0 {
        lemma_generation_positive(rows.drop_last(), least);
    }
}

/// Rows that are not committed change nothing of what is published.
pub proof fn lemma_uncommitted_rows_are_not_published(
    previous: Option<ManifestView>,
    rows: Seq<ProjectionSyncRow>,
    limits: MutationBufferLimits,
)
    ensures
        ingest_plan(previous, rows, limits) == ingest_plan(
            previous,
            rows.filter(|row: ProjectionSyncRow| row.committed),
            limits,
        ),
{
    lemma_due_of_committed(rows, watermark_of(previous));
}

proof fn lemma_due_of_committed(rows: Seq<ProjectionSyncRow>, watermark: i64)
    ensures
        due_rows(rows.filter(|row: ProjectionSyncRow| row.committed), watermark) == due_rows(
            rows,
            watermark,
        ),
    decreases rows.len(),
{
    let committed = |row: ProjectionSyncRow| row.committed;
    reveal(Seq::filter);
    if rows.len() > 0 {
        let init = rows.drop_last();
        lemma_due_of_committed(init, watermark);
        let kept = rows.filter(committed);
        if committed(rows.last()) {
            assert(kept.drop_last() =~= init.filter(committed));
        }
    }
}

/// Rows that the current watermark covers publish nothing: rows that were
/// ingested once are not ingested again.
pub proof fn lemma_covered_rows_publish_nothing(
    previous: ManifestView,
    rows: Seq<ProjectionSyncRow>,
    limits: MutationBufferLimits,
)
    requires
        forall|i: int|
            0 <= i < rows.len() ==> (#[trigger] rows[i]).sync_id <= previous.sync_watermark,
    ensures
        ingest_plan(Some(previous), rows, limits) == Ok::<_, GraphErrorView>(
            None::<IngestPlanView>,
        ),
{
    let watermark = previous.sync_watermark;
    let keep = |row: ProjectionSyncRow| is_due(row, watermark);
    assert forall|i: int| 0 <= i < rows.len() implies (keep(#[trigger] rows[i]) <==> 0 <= i
        < 0) by {}
    edge_store::lemma_filter_run(rows, keep, 0, 0);
    assert(rows.subrange(0, 0).len() == 0);
}

} // verus!
