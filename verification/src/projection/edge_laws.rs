//! What ingestion says of edges.
use vstd::multiset::Multiset;
use vstd::prelude::*;

use crate::order;
use crate::projection::ingest::{self, IngestPlanView, ProjectionSyncRow};
use crate::projection::ingest_laws;
use crate::projection::layered;
use crate::projection::manifest::ManifestView;
use crate::projection::node_laws;
use crate::projection::normalize::{
    self, CommittedMutation, MutationBufferLimits, MutationKey, NormalizedMutation,
};
use crate::projection::segment::{self, DeltaSegmentView, SegmentEdge, SegmentEdgeWeight};
use crate::safety::GraphErrorView;
use crate::types::TraversalDirection;

verus! {

/// The rows of a generation about an edge, as seen in one direction.
pub open spec fn about_edge(
    generation_id: u64,
    direction: TraversalDirection,
    edge: SegmentEdge,
) -> spec_fn(ProjectionSyncRow) -> bool {
    |row: ProjectionSyncRow|
        (row.operation is InsertEdge || row.operation is DeleteEdge) && row.generation_id
            == generation_id && row.direction == direction && row.source == edge.source
            && row.target == edge.target && row.type_id == edge.type_id && row.schema_reversed
            == edge.schema_reversed
}

/// How many rows insert the edge they are about.
pub open spec fn insertions(
    rows: Seq<ProjectionSyncRow>,
    about: spec_fn(ProjectionSyncRow) -> bool,
) -> nat {
    node_laws::how_many(
        rows,
        rows.len() as int,
        |row: ProjectionSyncRow| about(row) && row.operation is InsertEdge,
    )
}

/// How many rows delete the edge they are about.
pub open spec fn removals(
    rows: Seq<ProjectionSyncRow>,
    about: spec_fn(ProjectionSyncRow) -> bool,
) -> nat {
    node_laws::how_many(
        rows,
        rows.len() as int,
        |row: ProjectionSyncRow| about(row) && row.operation is DeleteEdge,
    )
}

/// Whether a weight is at least another; none is the least.
pub open spec fn weighs_at_least(a: Option<u32>, b: Option<u32>) -> bool {
    match (a, b) {
        (_, None) => true,
        (None, Some(_)) => false,
        (Some(x), Some(y)) => x >= y,
    }
}

/// Whether row `i` is what is left of the rows about an edge: they are not one insert
/// and one delete, which cancel; a delete stands above inserts, and of one kind the
/// later row above the earlier one, and else the heavier.
pub open spec fn is_left(
    rows: Seq<ProjectionSyncRow>,
    about: spec_fn(ProjectionSyncRow) -> bool,
    i: int,
) -> bool {
    &&& 0 <= i < rows.len()
    &&& about(rows[i])
    &&& !(insertions(rows, about) == 1 && removals(rows, about) == 1)
    &&& forall|j: int|
        0 <= j < rows.len() && about(#[trigger] rows[j]) ==> {
            ||| rows[i].operation is DeleteEdge && rows[j].operation is InsertEdge
            ||| rows[i].operation == rows[j].operation && (rows[i].sync_id > rows[j].sync_id || (
            rows[i].sync_id == rows[j].sync_id && weighs_at_least(rows[i].weight, rows[j].weight)))
        }
}

/// Whether row `i` is left of the newly committed rows of a generation about an edge.
pub open spec fn is_published(
    rows: Seq<ProjectionSyncRow>,
    since: i64,
    generation_id: u64,
    direction: TraversalDirection,
    edge: SegmentEdge,
    i: int,
) -> bool {
    is_left(rows, node_laws::newly(since, about_edge(generation_id, direction, edge)), i)
}

/// The entity of an edge in a generation, as seen in one direction.
spec fn entity_of(generation_id: u64, direction: TraversalDirection, edge: SegmentEdge) -> MutationKey {
    MutationKey {
        generation_id,
        edge: true,
        direction,
        source: edge.source,
        target: edge.target,
        type_id: edge.type_id,
        schema_reversed: edge.schema_reversed,
    }
}

/// The rows of an entity among the first `n` rows.
spec fn group_at(
    rows: Seq<ProjectionSyncRow>,
    direction: TraversalDirection,
    key: MutationKey,
    n: int,
) -> Multiset<CommittedMutation> {
    normalize::group_of(ingest::edge_rows(rows.take(n), direction).to_multiset(), key)
}

proof fn lemma_group_step(
    rows: Seq<ProjectionSyncRow>,
    generation_id: u64,
    direction: TraversalDirection,
    edge: SegmentEdge,
    n: int,
)
    requires
        0 <= n < rows.len(),
    ensures
        ({
            let key = entity_of(generation_id, direction, edge);
            let about = about_edge(generation_id, direction, edge);
            group_at(rows, direction, key, n + 1) == (if about(rows[n]) {
                group_at(rows, direction, key, n).insert(ingest::mutation_of(rows[n]))
            } else {
                group_at(rows, direction, key, n)
            })
        }),
{
    reveal(Seq::filter);
    let key = entity_of(generation_id, direction, edge);
    let about = about_edge(generation_id, direction, edge);
    let earlier = ingest::edge_rows(rows.take(n), direction);
    let edges = ingest::edge_rows(rows.take(n + 1), direction);
    assert(rows.take(n + 1).drop_last() =~= rows.take(n));
    let row = ingest::mutation_of(rows[n]);
    if normalize::on_edge(rows[n].operation) && rows[n].direction == direction {
        assert(edges =~= earlier.push(row));
        earlier.to_multiset_ensures();
        assert(edges.to_multiset() == earlier.to_multiset().insert(row));
    } else {
        assert(edges =~= earlier);
    }
    assert(group_at(rows, direction, key, n + 1) =~= (if about(rows[n]) {
        group_at(rows, direction, key, n).insert(row)
    } else {
        group_at(rows, direction, key, n)
    }));
}

proof fn lemma_group_length(
    rows: Seq<ProjectionSyncRow>,
    generation_id: u64,
    direction: TraversalDirection,
    edge: SegmentEdge,
    n: int,
)
    requires
        0 <= n <= rows.len(),
    ensures
        ({
            let key = entity_of(generation_id, direction, edge);
            let about = about_edge(generation_id, direction, edge);
            group_at(rows, direction, key, n).len() == node_laws::how_many(
                rows,
                n,
                |row: ProjectionSyncRow| about(row) && row.operation is InsertEdge,
            ) + node_laws::how_many(
                rows,
                n,
                |row: ProjectionSyncRow| about(row) && row.operation is DeleteEdge,
            )
        }),
    decreases n,
{
    let key = entity_of(generation_id, direction, edge);
    let about = about_edge(generation_id, direction, edge);
    let up = |row: ProjectionSyncRow| about(row) && row.operation is InsertEdge;
    let down = |row: ProjectionSyncRow| about(row) && row.operation is DeleteEdge;
    if n == 0 {
        reveal(Seq::filter);
        assert(ingest::edge_rows(rows.take(0), direction) =~= Seq::empty());
        Seq::<CommittedMutation>::empty().to_multiset_ensures();
        assert(group_at(rows, direction, key, 0) =~= Multiset::empty());
    } else {
        lemma_group_length(rows, generation_id, direction, edge, n - 1);
        lemma_group_step(rows, generation_id, direction, edge, n - 1);
        assert(node_laws::how_many(rows, n, up) == node_laws::how_many(rows, n - 1, up) + (if up(
            rows[n - 1],
        ) {
            1nat
        } else {
            0
        }));
        assert(node_laws::how_many(rows, n, down) == node_laws::how_many(rows, n - 1, down) + (
        if down(rows[n - 1]) {
            1nat
        } else {
            0
        }));
    }
}

proof fn lemma_group_has(
    rows: Seq<ProjectionSyncRow>,
    generation_id: u64,
    direction: TraversalDirection,
    edge: SegmentEdge,
    n: int,
    i: int,
)
    requires
        0 <= i < n <= rows.len(),
        about_edge(generation_id, direction, edge)(rows[i]),
    ensures
        group_at(rows, direction, entity_of(generation_id, direction, edge), n).contains(
            ingest::mutation_of(rows[i]),
        ),
    decreases n,
{
    lemma_group_step(rows, generation_id, direction, edge, n - 1);
    if i < n - 1 {
        lemma_group_has(rows, generation_id, direction, edge, n - 1, i);
    }
}

proof fn lemma_group_from(
    rows: Seq<ProjectionSyncRow>,
    generation_id: u64,
    direction: TraversalDirection,
    edge: SegmentEdge,
    n: int,
    row: CommittedMutation,
) -> (i: int)
    requires
        0 <= n <= rows.len(),
        group_at(rows, direction, entity_of(generation_id, direction, edge), n).contains(row),
    ensures
        0 <= i < n,
        about_edge(generation_id, direction, edge)(rows[i]),
        ingest::mutation_of(rows[i]) == row,
    decreases n,
{
    let key = entity_of(generation_id, direction, edge);
    if n == 0 {
        reveal(Seq::filter);
        assert(ingest::edge_rows(rows.take(0), direction) =~= Seq::empty());
        Seq::<CommittedMutation>::empty().to_multiset_ensures();
        assert(group_at(rows, direction, key, 0) =~= Multiset::empty());
        0
    } else {
        lemma_group_step(rows, generation_id, direction, edge, n - 1);
        if about_edge(generation_id, direction, edge)(rows[n - 1]) && ingest::mutation_of(
            rows[n - 1],
        ) == row {
            n - 1
        } else {
            lemma_group_from(rows, generation_id, direction, edge, n - 1, row)
        }
    }
}

proof fn lemma_precedence(a: CommittedMutation, b: CommittedMutation)
    requires
        normalize::on_edge(a.operation),
        normalize::on_edge(b.operation),
    ensures
        !order::before(normalize::precedence_rank(a), normalize::precedence_rank(b)) <==> {
            ||| a.operation is DeleteEdge && b.operation is InsertEdge
            ||| a.operation == b.operation && (a.sync_id > b.sync_id || (a.sync_id == b.sync_id
                && weighs_at_least(a.weight, b.weight)))
        },
{
    reveal_with_fuel(order::ranks_before, 6);
}

/// What is left of the rows of an edge is the row that stands above the others.
proof fn lemma_resolved(
    rows: Seq<ProjectionSyncRow>,
    generation_id: u64,
    direction: TraversalDirection,
    edge: SegmentEdge,
) -> (i: int)
    ensures
        ({
            let key = entity_of(generation_id, direction, edge);
            let about = about_edge(generation_id, direction, edge);
            let left = normalize::resolved(
                normalize::group_of(ingest::edge_rows(rows, direction).to_multiset(), key),
            );
            &&& left is Some ==> is_left(rows, about, i) && left == Some(
                normalize::normalized(ingest::mutation_of(rows[i])),
            )
            &&& forall|j: int| #[trigger]
                is_left(rows, about, j) ==> left == Some(
                    normalize::normalized(ingest::mutation_of(rows[j])),
                )
        }),
{
    let n = rows.len() as int;
    let key = entity_of(generation_id, direction, edge);
    let about = about_edge(generation_id, direction, edge);
    assert(rows.take(n) =~= rows);
    let group = group_at(rows, direction, key, n);
    let up = |row: ProjectionSyncRow| about(row) && row.operation is InsertEdge;
    let down = |row: ProjectionSyncRow| about(row) && row.operation is DeleteEdge;
    lemma_group_length(rows, generation_id, direction, edge, n);
    node_laws::lemma_none(rows, n, up);
    node_laws::lemma_none(rows, n, down);
    lemma_neutral(rows, generation_id, direction, edge);
    assert forall|j: int| #[trigger] is_left(rows, about, j) implies group.len() > 0
        && normalize::is_top(group, ingest::mutation_of(rows[j])) by {
        lemma_group_has(rows, generation_id, direction, edge, n, j);
        if rows[j].operation is InsertEdge {
            assert(up(rows[j]));
        } else {
            assert(down(rows[j]));
        }
        assert forall|other: CommittedMutation| #[trigger] group.contains(other) implies
            !order::before(
            normalize::precedence_rank(ingest::mutation_of(rows[j])),
            normalize::precedence_rank(other),
        ) by {
            let m = lemma_group_from(rows, generation_id, direction, edge, n, other);
            lemma_precedence(ingest::mutation_of(rows[j]), other);
        }
    }
    let left = normalize::resolved(group);
    if group.len() > 0 && !normalize::is_neutral_pair(group) {
        normalize::lemma_top_exists(group);
        let top = choose|row: CommittedMutation| normalize::is_top(group, row);
        assert(normalize::is_top(group, top));
        let i = lemma_group_from(rows, generation_id, direction, edge, n, top);
        assert forall|j: int| 0 <= j < rows.len() && about(#[trigger] rows[j]) implies {
            ||| rows[i].operation is DeleteEdge && rows[j].operation is InsertEdge
            ||| rows[i].operation == rows[j].operation && (rows[i].sync_id > rows[j].sync_id || (
            rows[i].sync_id == rows[j].sync_id && weighs_at_least(rows[i].weight, rows[j].weight)))
        } by {
            lemma_group_has(rows, generation_id, direction, edge, n, j);
            lemma_precedence(top, ingest::mutation_of(rows[j]));
        }
        assert forall|j: int| #[trigger] is_left(rows, about, j) implies left == Some(
            normalize::normalized(ingest::mutation_of(rows[j])),
        ) by {
            normalize::lemma_top_unique(group, top, ingest::mutation_of(rows[j]));
        }
        i
    } else {
        0
    }
}

proof fn lemma_neutral(
    rows: Seq<ProjectionSyncRow>,
    generation_id: u64,
    direction: TraversalDirection,
    edge: SegmentEdge,
)
    ensures
        ({
            let key = entity_of(generation_id, direction, edge);
            let about = about_edge(generation_id, direction, edge);
            normalize::is_neutral_pair(group_at(rows, direction, key, rows.len() as int)) <==> (
            insertions(rows, about) == 1 && removals(rows, about) == 1)
        }),
{
    let n = rows.len() as int;
    let key = entity_of(generation_id, direction, edge);
    let about = about_edge(generation_id, direction, edge);
    let group = group_at(rows, direction, key, n);
    let up = |row: ProjectionSyncRow| about(row) && row.operation is InsertEdge;
    let down = |row: ProjectionSyncRow| about(row) && row.operation is DeleteEdge;
    lemma_group_length(rows, generation_id, direction, edge, n);
    node_laws::lemma_none(rows, n, up);
    node_laws::lemma_none(rows, n, down);
    if normalize::is_neutral_pair(group) {
        let inserted = choose|row: CommittedMutation| #[trigger]
            group.contains(row) && normalize::inserts(row.operation);
        let i = lemma_group_from(rows, generation_id, direction, edge, n, inserted);
        assert(up(rows[i]));
        let deleted = choose|row: CommittedMutation| #[trigger]
            group.contains(row) && normalize::deletes(row.operation);
        let j = lemma_group_from(rows, generation_id, direction, edge, n, deleted);
        assert(down(rows[j]));
    }
    if insertions(rows, about) == 1 && removals(rows, about) == 1 {
        let i = choose|i: int| 0 <= i < n && up(#[trigger] rows[i]);
        lemma_group_has(rows, generation_id, direction, edge, n, i);
        let j = choose|j: int| 0 <= j < n && down(#[trigger] rows[j]);
        lemma_group_has(rows, generation_id, direction, edge, n, j);
    }
}

/// What is left of the rows that are due is what is left of the newly committed rows.
proof fn lemma_left_of_due(
    rows: Seq<ProjectionSyncRow>,
    since: i64,
    about: spec_fn(ProjectionSyncRow) -> bool,
    i: int,
) -> (place: int)
    requires
        is_left(ingest::due_rows(rows, since), about, i),
    ensures
        is_left(rows, node_laws::newly(since, about), place),
        rows[place] == ingest::due_rows(rows, since)[i],
{
    let keep = |row: ProjectionSyncRow| ingest::is_due(row, since);
    let due = ingest::due_rows(rows, since);
    let fresh = node_laws::newly(since, about);
    lemma_counts(rows, since, about);
    layered::lemma_filter_member(rows, keep, i);
    rows.lemma_filter_pred(keep, i);
    let place = choose|place: int| 0 <= place < rows.len() && rows[place] == due[i];
    assert(fresh(rows[place]));
    assert forall|j: int| 0 <= j < rows.len() && fresh(#[trigger] rows[j]) implies {
        ||| rows[place].operation is DeleteEdge && rows[j].operation is InsertEdge
        ||| rows[place].operation == rows[j].operation && (rows[place].sync_id > rows[j].sync_id
            || (rows[place].sync_id == rows[j].sync_id && weighs_at_least(
            rows[place].weight,
            rows[j].weight,
        )))
    } by {
        rows.lemma_filter_contains(keep, j);
        let m = choose|m: int| 0 <= m < due.len() && due[m] == rows[j];
        assert(about(due[m]));
    }
    place
}

proof fn lemma_due_of_left(
    rows: Seq<ProjectionSyncRow>,
    since: i64,
    about: spec_fn(ProjectionSyncRow) -> bool,
    place: int,
) -> (i: int)
    requires
        is_left(rows, node_laws::newly(since, about), place),
    ensures
        is_left(ingest::due_rows(rows, since), about, i),
        rows[place] == ingest::due_rows(rows, since)[i],
{
    let keep = |row: ProjectionSyncRow| ingest::is_due(row, since);
    let due = ingest::due_rows(rows, since);
    let fresh = node_laws::newly(since, about);
    lemma_counts(rows, since, about);
    assert(fresh(rows[place]));
    rows.lemma_filter_contains(keep, place);
    let i = choose|i: int| 0 <= i < due.len() && due[i] == rows[place];
    assert forall|j: int| 0 <= j < due.len() && about(#[trigger] due[j]) implies {
        ||| due[i].operation is DeleteEdge && due[j].operation is InsertEdge
        ||| due[i].operation == due[j].operation && (due[i].sync_id > due[j].sync_id || (
        due[i].sync_id == due[j].sync_id && weighs_at_least(due[i].weight, due[j].weight)))
    } by {
        layered::lemma_filter_member(rows, keep, j);
        rows.lemma_filter_pred(keep, j);
        let m = choose|m: int| 0 <= m < rows.len() && rows[m] == due[j];
        assert(fresh(rows[m]));
    }
    i
}

proof fn lemma_counts(
    rows: Seq<ProjectionSyncRow>,
    since: i64,
    about: spec_fn(ProjectionSyncRow) -> bool,
)
    ensures
        ({
            let due = ingest::due_rows(rows, since);
            &&& insertions(due, about) == insertions(rows, node_laws::newly(since, about))
            &&& removals(due, about) == removals(rows, node_laws::newly(since, about))
        }),
{
    let fresh = node_laws::newly(since, about);
    assert(rows.take(rows.len() as int) =~= rows);
    node_laws::lemma_counts_of_due(
        rows,
        since,
        |row: ProjectionSyncRow| about(row) && row.operation is InsertEdge,
        |row: ProjectionSyncRow| fresh(row) && row.operation is InsertEdge,
        rows.len() as int,
    );
    node_laws::lemma_counts_of_due(
        rows,
        since,
        |row: ProjectionSyncRow| about(row) && row.operation is DeleteEdge,
        |row: ProjectionSyncRow| fresh(row) && row.operation is DeleteEdge,
        rows.len() as int,
    );
}

/// The normal form of the rows of one direction holds what is left of each edge.
proof fn lemma_normal_form(
    rows: Seq<ProjectionSyncRow>,
    since: i64,
    direction: TraversalDirection,
    generation_id: u64,
    edge: SegmentEdge,
    i: int,
)
    requires
        is_published(rows, since, generation_id, direction, edge, i),
    ensures
        ({
            let due = ingest::due_rows(rows, since);
            ingest::normal_form(ingest::edge_rows(due, direction)).contains(
                normalize::normalized(ingest::mutation_of(rows[i])),
            )
        }),
{
    let due = ingest::due_rows(rows, since);
    let edges = ingest::edge_rows(due, direction);
    let about = about_edge(generation_id, direction, edge);
    normalize::lemma_normalization_exists(edges);
    let at = lemma_due_of_left(rows, since, about, i);
    lemma_resolved(due, generation_id, direction, edge);
    let row = normalize::normalized(ingest::mutation_of(rows[i]));
    assert(about(rows[i]));
    assert(normalize::normalized_key(row) == entity_of(generation_id, direction, edge));
}

proof fn lemma_from_normal_form(
    rows: Seq<ProjectionSyncRow>,
    since: i64,
    direction: TraversalDirection,
    row: NormalizedMutation,
) -> (i: int)
    requires
        ingest::normal_form(
            ingest::edge_rows(ingest::due_rows(rows, since), direction),
        ).contains(row),
    ensures
        is_published(rows, since, row.generation_id, direction, segment::edge_of(row), i),
        row == normalize::normalized(ingest::mutation_of(rows[i])),
{
    broadcast use vstd::seq_lib::group_to_multiset_ensures;

    let due = ingest::due_rows(rows, since);
    let edges = ingest::edge_rows(due, direction);
    normalize::lemma_normalization_exists(edges);
    let key = normalize::normalized_key(row);
    assert(normalize::resolved(normalize::group_of(edges.to_multiset(), key)) == Some(row));
    normalize::lemma_resolved_key(edges.to_multiset(), key);
    let top = choose|top: CommittedMutation| #[trigger]
        edges.to_multiset().contains(top) && row == normalize::normalized(top);
    assert(edges.contains(top));
    let j = choose|j: int| 0 <= j < edges.len() && edges[j] == top;
    let keep = |row: ProjectionSyncRow|
        normalize::on_edge(row.operation) && row.direction == direction;
    due.lemma_filter_pred(keep, j);
    assert(key == entity_of(row.generation_id, direction, segment::edge_of(row)));
    let at = lemma_resolved(due, row.generation_id, direction, segment::edge_of(row));
    lemma_left_of_due(
        rows,
        since,
        about_edge(row.generation_id, direction, segment::edge_of(row)),
        at,
    )
}

/// One section of the segments of one direction.
pub open spec fn toward<R>(
    direction: TraversalDirection,
    section: spec_fn(DeltaSegmentView) -> Seq<R>,
) -> spec_fn(DeltaSegmentView) -> Seq<R> {
    |segment: DeltaSegmentView|
        if segment.header.direction == direction {
            section(segment)
        } else {
            Seq::empty()
        }
}

/// What an ingestion publishes of one edge section is what the rows of its direction
/// come to.
proof fn lemma_gathered_edges<R>(
    previous: Option<ManifestView>,
    rows: Seq<ProjectionSyncRow>,
    limits: MutationBufferLimits,
    plan: IngestPlanView,
    direction: TraversalDirection,
    section: spec_fn(DeltaSegmentView) -> Seq<R>,
    held: spec_fn(Seq<NormalizedMutation>) -> Seq<R>,
)
    requires
        ingest::ingest_plan(previous, rows, limits) == Ok::<_, GraphErrorView>(Some(plan)),
        forall|segment: DeltaSegmentView|
            segment.edge_inserts.len() == 0 && segment.edge_deletes.len() == 0
                && segment.edge_weights.len() == 0 ==> (#[trigger] section(segment)).len() == 0,
        held(Seq::empty()).len() == 0,
        forall|segment: DeltaSegmentView, left: Seq<NormalizedMutation>|
            segment.edge_inserts == segment::edges_of(left, false) && segment.edge_deletes
                == segment::edges_of(left, true) && segment.edge_weights == segment::weights_of(
                left,
            ) ==> #[trigger] section(segment) == #[trigger] held(left),
    ensures
        node_laws::gathered(plan.segments, toward(direction, section)) == held(
            ingest::normal_form(
                ingest::edge_rows(
                    ingest::due_rows(rows, node_laws::reached(previous)),
                    direction,
                ),
            ),
        ),
{
    let due = ingest::due_rows(rows, node_laws::reached(previous));
    let given = toward(direction, section);
    let watermark = ingest::greatest_sync_id(due) as i64;
    let outgoing = ingest::edge_segment(due, limits, TraversalDirection::Out)->Ok_0;
    let incoming = ingest::edge_segment(due, limits, TraversalDirection::In)->Ok_0;
    let both = ingest::edge_segment(due, limits, TraversalDirection::Any)->Ok_0;
    lemma_section(due, limits, TraversalDirection::Out, direction, section, held);
    lemma_section(due, limits, TraversalDirection::In, direction, section, held);
    lemma_section(due, limits, TraversalDirection::Any, direction, section, held);
    let one = ingest::appended(Seq::empty(), outgoing);
    let two = ingest::appended(one, incoming);
    let three = ingest::appended(two, both);
    node_laws::lemma_one_more(Seq::empty(), outgoing, given);
    node_laws::lemma_one_more(one, incoming, given);
    node_laws::lemma_one_more(two, both, given);
    let nodes = ingest::node_segment_of(due, limits, watermark)->Ok_0;
    assert(plan.segments == ingest::appended(three, nodes));
    node_laws::lemma_one_more(three, nodes, given);
    assert(node_laws::gathered(Seq::<DeltaSegmentView>::empty(), given) == Seq::<R>::empty());
    if let Some(nodes) = nodes {
        assert(section(nodes).len() == 0);
        assert(given(nodes) =~= Seq::empty());
    }
    assert(node_laws::gathered(plan.segments, given) =~= held(
        ingest::normal_form(ingest::edge_rows(due, direction)),
    ));
}

proof fn lemma_section<R>(
    due: Seq<ProjectionSyncRow>,
    limits: MutationBufferLimits,
    of: TraversalDirection,
    direction: TraversalDirection,
    section: spec_fn(DeltaSegmentView) -> Seq<R>,
    held: spec_fn(Seq<NormalizedMutation>) -> Seq<R>,
)
    requires
        ingest::edge_segment(due, limits, of) is Ok,
        held(Seq::empty()).len() == 0,
        forall|segment: DeltaSegmentView, left: Seq<NormalizedMutation>|
            segment.edge_inserts == segment::edges_of(left, false) && segment.edge_deletes
                == segment::edges_of(left, true) && segment.edge_weights == segment::weights_of(
                left,
            ) ==> #[trigger] section(segment) == #[trigger] held(left),
    ensures
        match ingest::edge_segment(due, limits, of)->Ok_0 {
            Some(segment) => toward(direction, section)(segment) == (if of == direction {
                held(ingest::normal_form(ingest::edge_rows(due, of)))
            } else {
                Seq::empty()
            }),
            None => held(ingest::normal_form(ingest::edge_rows(due, of))) == Seq::<R>::empty(),
        },
{
    let edges = ingest::edge_rows(due, of);
    let left = ingest::normal_form(edges);
    if edges.len() == 0 {
        broadcast use vstd::seq_lib::group_to_multiset_ensures;

        normalize::lemma_normalization_exists(edges);
        if left.len() > 0 {
            let row = left[0];
            assert(left.contains(row));
            let key = normalize::normalized_key(row);
            normalize::lemma_resolved_key(edges.to_multiset(), key);
            let top = choose|top: CommittedMutation| #[trigger]
                edges.to_multiset().contains(top) && row == normalize::normalized(top);
            assert(edges.contains(top));
        }
    }
    if left.len() == 0 {
        assert(left =~= Seq::empty());
        assert(held(left) =~= Seq::empty());
    }
    if let Some(segment) = ingest::edge_segment(due, limits, of)->Ok_0 {
        assert(section(segment) == held(left));
    }
}

/// An ingestion publishes in each direction the edges that are left of the newly
/// committed rows: those whose row that stands above the others is an insert, with its
/// weight, and as deleted those for which it is a delete.
pub proof fn lemma_edges_say_what_was_committed(
    previous: Option<ManifestView>,
    rows: Seq<ProjectionSyncRow>,
    limits: MutationBufferLimits,
    plan: IngestPlanView,
    direction: TraversalDirection,
    edge: SegmentEdge,
    weight: u32,
)
    requires
        ingest::ingest_plan(previous, rows, limits) == Ok::<_, GraphErrorView>(Some(plan)),
    ensures
        ({
            let since = node_laws::reached(previous);
            let inserted = node_laws::gathered(
                plan.segments,
                toward(direction, |segment: DeltaSegmentView| segment.edge_inserts),
            );
            let deleted = node_laws::gathered(
                plan.segments,
                toward(direction, |segment: DeltaSegmentView| segment.edge_deletes),
            );
            let weights = node_laws::gathered(
                plan.segments,
                toward(direction, |segment: DeltaSegmentView| segment.edge_weights),
            );
            let weighted = SegmentEdgeWeight {
                source: edge.source,
                target: edge.target,
                type_id: edge.type_id,
                schema_reversed: edge.schema_reversed,
                weight,
            };
            &&& inserted.contains(edge) <==> exists|generation_id: u64, i: int| #[trigger]
                is_published(rows, since, generation_id, direction, edge, i)
                    && rows[i].operation is InsertEdge
            &&& deleted.contains(edge) <==> exists|generation_id: u64, i: int| #[trigger]
                is_published(rows, since, generation_id, direction, edge, i)
                    && rows[i].operation is DeleteEdge
            &&& weights.contains(weighted) <==> exists|generation_id: u64, i: int| #[trigger]
                is_published(rows, since, generation_id, direction, edge, i)
                    && rows[i].operation is InsertEdge && rows[i].weight == Some(weight)
        }),
{
    let since = node_laws::reached(previous);
    let due = ingest::due_rows(rows, since);
    let left = ingest::normal_form(ingest::edge_rows(due, direction));
    let weighted = SegmentEdgeWeight {
        source: edge.source,
        target: edge.target,
        type_id: edge.type_id,
        schema_reversed: edge.schema_reversed,
        weight,
    };
    lemma_no_rows();
    lemma_gathered_edges(
        previous,
        rows,
        limits,
        plan,
        direction,
        |segment: DeltaSegmentView| segment.edge_inserts,
        |left: Seq<NormalizedMutation>| segment::edges_of(left, false),
    );
    lemma_gathered_edges(
        previous,
        rows,
        limits,
        plan,
        direction,
        |segment: DeltaSegmentView| segment.edge_deletes,
        |left: Seq<NormalizedMutation>| segment::edges_of(left, true),
    );
    lemma_gathered_edges(
        previous,
        rows,
        limits,
        plan,
        direction,
        |segment: DeltaSegmentView| segment.edge_weights,
        |left: Seq<NormalizedMutation>| segment::weights_of(left),
    );
    ingest_laws::lemma_edges_of(left, false, edge);
    ingest_laws::lemma_edges_of(left, true, edge);
    ingest_laws::lemma_weights_of(left, weighted);
    assert forall|row: NormalizedMutation| #[trigger] left.contains(row) && segment::edge_of(row)
        == edge implies exists|i: int| #[trigger]
        is_published(rows, since, row.generation_id, direction, edge, i) && row
            == normalize::normalized(ingest::mutation_of(rows[i])) by {
        let i = lemma_from_normal_form(rows, since, direction, row);
        assert(is_published(rows, since, row.generation_id, direction, edge, i));
    }
    assert forall|generation_id: u64, i: int| #[trigger]
        is_published(rows, since, generation_id, direction, edge, i) implies left.contains(
        normalize::normalized(ingest::mutation_of(rows[i])),
    ) && segment::edge_of(normalize::normalized(ingest::mutation_of(rows[i]))) == edge && (
    rows[i].operation is InsertEdge || rows[i].operation is DeleteEdge) by {
        lemma_normal_form(rows, since, direction, generation_id, edge, i);
    }
}

proof fn lemma_no_rows()
    ensures
        segment::edges_of(Seq::empty(), false).len() == 0,
        segment::edges_of(Seq::empty(), true).len() == 0,
        segment::weights_of(Seq::empty()).len() == 0,
{
    reveal(Seq::filter);
}

} // verus!
