//! Result rows and their collection under a row cap.
use vstd::prelude::*;

use crate::query::engine::{self, edge_type_label, Engine};
use crate::query::expand::{GqlRelationshipStep, GqlTarget, PathState, PathView, TargetView};
use crate::query::steps::EdgeOrientation;
use crate::safety::{self, GraphError, GraphErrorView, GraphResult};
use crate::text::{self, concat3, decimal_text, owned};
use crate::views;

verus! {

// ---------------------------------------------------------------------------
// Rows
// ---------------------------------------------------------------------------

/// Where a node comes from.
#[derive(Debug, Clone, PartialEq, Eq)]
pub struct GqlNodeCoordinate {
    /// Backing source table OID.
    pub table_oid: u32,
    /// Source row primary-key text.
    pub node_id: String,
}

/// What a coordinate holds.
#[verifier::ext_equal]
pub struct CoordinateView {
    pub table_oid: u32,
    pub node_id: Seq<char>,
}

impl View for GqlNodeCoordinate {
    type V = CoordinateView;

    open spec fn view(&self) -> CoordinateView {
        CoordinateView { table_oid: self.table_oid, node_id: self.node_id@ }
    }
}

impl GqlNodeCoordinate {
    /// A copy of the coordinate.
    pub fn duplicate(&self) -> (copy: GqlNodeCoordinate)
        ensures
            copy@ == self@,
    {
        GqlNodeCoordinate { table_oid: self.table_oid, node_id: self.node_id.clone() }
    }
}

/// One relationship of a path.
#[derive(Debug, Clone, PartialEq, Eq)]
pub struct GqlPathRelationship {
    /// Matched relationship type label.
    pub rel_type: String,
    /// Relationship start coordinate in the registered edge direction.
    pub start: GqlNodeCoordinate,
    /// Relationship end coordinate in the registered edge direction.
    pub end: GqlNodeCoordinate,
}

/// What a relationship of a path holds.
#[verifier::ext_equal]
pub struct PathRelationshipView {
    pub rel_type: Seq<char>,
    pub start: CoordinateView,
    pub end: CoordinateView,
}

impl View for GqlPathRelationship {
    type V = PathRelationshipView;

    open spec fn view(&self) -> PathRelationshipView {
        PathRelationshipView { rel_type: self.rel_type@, start: self.start@, end: self.end@ }
    }
}

/// One result row.
#[derive(Debug, Clone, PartialEq, Eq)]
pub struct GqlRow {
    /// Source coordinate.
    pub source: GqlNodeCoordinate,
    /// Target coordinate, absent for null-extended optional matches.
    pub target: Option<GqlNodeCoordinate>,
    /// Relationship start coordinate in the registered edge direction.
    pub rel_start: Option<GqlNodeCoordinate>,
    /// Relationship end coordinate in the registered edge direction.
    pub rel_end: Option<GqlNodeCoordinate>,
    /// Path nodes in query traversal order.
    pub path_nodes: Vec<GqlNodeCoordinate>,
    /// Path relationships in query traversal order.
    pub path_relationships: Vec<GqlPathRelationship>,
}

/// What a row holds.
#[verifier::ext_equal]
pub struct RowView {
    pub source: CoordinateView,
    pub target: Option<CoordinateView>,
    pub rel_start: Option<CoordinateView>,
    pub rel_end: Option<CoordinateView>,
    pub path_nodes: Seq<CoordinateView>,
    pub path_relationships: Seq<PathRelationshipView>,
}

impl View for GqlRow {
    type V = RowView;

    open spec fn view(&self) -> RowView {
        RowView {
            source: self.source@,
            target: views::some_view(self.target),
            rel_start: views::some_view(self.rel_start),
            rel_end: views::some_view(self.rel_end),
            path_nodes: views::views(self.path_nodes@),
            path_relationships: views::views(self.path_relationships@),
        }
    }
}

/// One node-only result row.
#[derive(Debug, Clone, PartialEq, Eq)]
pub struct GqlNodeRow {
    /// Node coordinate.
    pub node: GqlNodeCoordinate,
}

impl View for GqlNodeRow {
    type V = CoordinateView;

    open spec fn view(&self) -> CoordinateView {
        self.node@
    }
}

// ---------------------------------------------------------------------------
// Projection of matches
// ---------------------------------------------------------------------------

/// The coordinate of a node.
pub open spec fn coordinate_of(engine: Engine, node_idx: u32) -> CoordinateView {
    CoordinateView {
        table_oid: engine.nodes@[node_idx as int].table_oid,
        node_id: engine.nodes@[node_idx as int].primary_key@,
    }
}

/// The coordinate of a node.
pub fn coordinate(engine: &Engine, node_idx: u32) -> (found: GqlNodeCoordinate)
    requires
        node_idx < engine.nodes@.len(),
    ensures
        found@ == coordinate_of(*engine, node_idx),
{
    let at: usize = node_idx as usize;
    GqlNodeCoordinate {
        table_oid: engine.nodes[at].table_oid,
        node_id: engine.nodes[at].primary_key.clone(),
    }
}

/// The coordinates of nodes.
pub open spec fn coordinates_of(engine: Engine, nodes: Seq<u32>) -> Seq<CoordinateView> {
    nodes.map_values(|node_idx: u32| coordinate_of(engine, node_idx))
}

/// Whether all nodes exist.
pub open spec fn nodes_exist(engine: Engine, nodes: Seq<u32>) -> bool {
    forall|i: int| 0 <= i < nodes.len() ==> #[trigger] nodes[i] < engine.nodes@.len()
}

/// Whether the ends of all steps exist.
pub open spec fn ends_exist(engine: Engine, steps: Seq<GqlRelationshipStep>) -> bool {
    forall|i: int|
        0 <= i < steps.len() ==> (#[trigger] steps[i]).from_idx < engine.nodes@.len()
            && steps[i].to_idx < engine.nodes@.len()
}

/// Whether the nodes of a path exist.
pub open spec fn path_exists(engine: Engine, path: PathView) -> bool {
    nodes_exist(engine, path.nodes) && ends_exist(engine, path.relationships)
}

fn coordinates(engine: &Engine, nodes: &Vec<u32>) -> (found: Vec<GqlNodeCoordinate>)
    requires
        nodes_exist(*engine, nodes@),
    ensures
        views::views(found@) == coordinates_of(*engine, nodes@),
{
    let mut found: Vec<GqlNodeCoordinate> = Vec::new();
    assert(views::views(found@) =~= coordinates_of(*engine, nodes@.take(0)));
    for i in 0..nodes.len()
        invariant
            nodes_exist(*engine, nodes@),
            views::views(found@) == coordinates_of(*engine, nodes@.take(i as int)),
    {
        let ghost earlier = found@;
        let node: GqlNodeCoordinate = coordinate(engine, nodes[i]);
        found.push(node);
        proof {
            views::lemma_push(earlier, node);
            assert(coordinates_of(*engine, nodes@.take(i + 1)) =~= coordinates_of(
                *engine,
                nodes@.take(i as int),
            ).push(node@));
        }
    }
    assert(nodes@.take(nodes@.len() as int) =~= nodes@);
    found
}

/// The start and end of a step in the registered edge direction.
pub open spec fn step_ends(from_idx: u32, to_idx: u32, orientation: EdgeOrientation) -> (u32, u32) {
    match orientation {
        EdgeOrientation::Forward => (from_idx, to_idx),
        EdgeOrientation::Reverse => (to_idx, from_idx),
    }
}

/// The start and end of a step in the registered edge direction.
pub fn ends_of(from_idx: u32, to_idx: u32, orientation: EdgeOrientation) -> (ends: (u32, u32))
    ensures
        ends == step_ends(from_idx, to_idx, orientation),
{
    match orientation {
        EdgeOrientation::Forward => (from_idx, to_idx),
        EdgeOrientation::Reverse => (to_idx, from_idx),
    }
}

/// The relationship of a step.
pub open spec fn relationship_of(engine: Engine, step: GqlRelationshipStep) -> Result<
    PathRelationshipView,
    GraphErrorView,
> {
    let ends = step_ends(step.from_idx, step.to_idx, step.orientation);
    match engine::type_label(engine.edge_type_registry@, step.type_id) {
        Ok(rel_type) => Ok(
            PathRelationshipView {
                rel_type,
                start: coordinate_of(engine, ends.0),
                end: coordinate_of(engine, ends.1),
            },
        ),
        Err(error) => Err(error),
    }
}

/// The relationships of the steps from `from` on, after those done.
pub open spec fn relationships_from(
    engine: Engine,
    steps: Seq<GqlRelationshipStep>,
    from: int,
    done: Seq<PathRelationshipView>,
) -> Result<Seq<PathRelationshipView>, GraphErrorView>
    decreases steps.len() - from,
{
    if from >= steps.len() {
        Ok(done)
    } else {
        match relationship_of(engine, steps[from]) {
            Ok(relationship) => relationships_from(engine, steps, from + 1, done.push(relationship)),
            Err(error) => Err(error),
        }
    }
}

fn path_relationship(engine: &Engine, step: &GqlRelationshipStep) -> (result: GraphResult<
    GqlPathRelationship,
>)
    requires
        step.from_idx < engine.nodes@.len(),
        step.to_idx < engine.nodes@.len(),
    ensures
        safety::outcome(result) == relationship_of(*engine, *step),
{
    let ends: (u32, u32) = ends_of(step.from_idx, step.to_idx, step.orientation);
    let rel_type: String = edge_type_label(engine, step.type_id)?;
    Ok(
        GqlPathRelationship {
            rel_type,
            start: coordinate(engine, ends.0),
            end: coordinate(engine, ends.1),
        },
    )
}

fn path_relationships(engine: &Engine, steps: &Vec<GqlRelationshipStep>) -> (result: GraphResult<
    Vec<GqlPathRelationship>,
>)
    requires
        ends_exist(*engine, steps@),
    ensures
        match relationships_from(*engine, steps@, 0, Seq::empty()) {
            Ok(found) => result matches Ok(given) && views::views(given@) == found,
            Err(error) => result matches Err(given) && given@ == error,
        },
{
    let mut found: Vec<GqlPathRelationship> = Vec::new();
    assert(views::views(found@) =~= Seq::empty());
    for i in 0..steps.len()
        invariant
            ends_exist(*engine, steps@),
            relationships_from(*engine, steps@, i as int, views::views(found@))
                == relationships_from(*engine, steps@, 0, Seq::empty()),
    {
        let ghost earlier = found@;
        let relationship: GqlPathRelationship = path_relationship(engine, &steps[i])?;
        found.push(relationship);
        proof {
            views::lemma_push(earlier, relationship);
        }
    }
    Ok(found)
}

/// The row of a match.
pub open spec fn row_of(engine: Engine, source_idx: u32, target: TargetView) -> Result<
    RowView,
    GraphErrorView,
> {
    let ends = step_ends(source_idx, target.step.node_idx, target.step.orientation);
    match relationships_from(engine, target.path.relationships, 0, Seq::empty()) {
        Ok(path_relationships) => Ok(
            RowView {
                source: coordinate_of(engine, source_idx),
                target: Some(coordinate_of(engine, target.step.node_idx)),
                rel_start: Some(coordinate_of(engine, ends.0)),
                rel_end: Some(coordinate_of(engine, ends.1)),
                path_nodes: coordinates_of(engine, target.path.nodes),
                path_relationships,
            },
        ),
        Err(error) => Err(error),
    }
}

/// The row of a match.
pub fn project_row(engine: &Engine, source_idx: u32, target: &GqlTarget) -> (result: GraphResult<
    GqlRow,
>)
    requires
        source_idx < engine.nodes@.len(),
        target.step.node_idx < engine.nodes@.len(),
        path_exists(*engine, target.path@),
    ensures
        safety::outcome(result) == row_of(*engine, source_idx, target@),
{
    let target_idx: u32 = target.step.node_idx;
    let ends: (u32, u32) = ends_of(source_idx, target_idx, target.step.orientation);
    let relationships: Vec<GqlPathRelationship> = path_relationships(
        engine,
        &target.path.path_relationships,
    )?;
    Ok(
        GqlRow {
            source: coordinate(engine, source_idx),
            target: Some(coordinate(engine, target_idx)),
            rel_start: Some(coordinate(engine, ends.0)),
            rel_end: Some(coordinate(engine, ends.1)),
            path_nodes: coordinates(engine, &target.path.path_nodes),
            path_relationships: relationships,
        },
    )
}

/// The row of a source without a match.
pub open spec fn optional_row_of(engine: Engine, source_idx: u32) -> RowView {
    RowView {
        source: coordinate_of(engine, source_idx),
        target: None,
        rel_start: None,
        rel_end: None,
        path_nodes: Seq::empty(),
        path_relationships: Seq::empty(),
    }
}

/// The row of a source without a match.
pub fn project_optional_row(engine: &Engine, source_idx: u32) -> (row: GqlRow)
    requires
        source_idx < engine.nodes@.len(),
    ensures
        row@ == optional_row_of(*engine, source_idx),
{
    let row: GqlRow = GqlRow {
        source: coordinate(engine, source_idx),
        target: None,
        rel_start: None,
        rel_end: None,
        path_nodes: Vec::new(),
        path_relationships: Vec::new(),
    };
    assert(row@ =~= optional_row_of(*engine, source_idx));
    row
}

/// The row of a wildcard path.
pub open spec fn wildcard_row_of(engine: Engine, path: PathView) -> Result<RowView, GraphErrorView> {
    if path.nodes.len() == 0 {
        Err(
            GraphErrorView::GqlExecution { reason: "wildcard path state has no source node"@ },
        )
    } else {
        match relationships_from(engine, path.relationships, 0, Seq::empty()) {
            Ok(path_relationships) => Ok(
                RowView {
                    source: coordinate_of(engine, path.nodes[0]),
                    target: Some(coordinate_of(engine, path.nodes.last())),
                    rel_start: if path_relationships.len() > 0 {
                        Some(path_relationships[0].start)
                    } else {
                        None
                    },
                    rel_end: if path_relationships.len() > 0 {
                        Some(path_relationships[0].end)
                    } else {
                        None
                    },
                    path_nodes: coordinates_of(engine, path.nodes),
                    path_relationships,
                },
            ),
            Err(error) => Err(error),
        }
    }
}

/// The row of a wildcard path.
pub fn project_wildcard_path_state(engine: &Engine, state: &PathState) -> (result: GraphResult<
    GqlRow,
>)
    requires
        path_exists(*engine, state@),
    ensures
        safety::outcome(result) == wildcard_row_of(*engine, state@),
{
    let count: usize = state.path_nodes.len();
    if count == 0 {
        return Err(
            GraphError::GqlExecution { reason: owned("wildcard path state has no source node") },
        );
    }
    let relationships: Vec<GqlPathRelationship> = path_relationships(
        engine,
        &state.path_relationships,
    )?;
    let rel_start: Option<GqlNodeCoordinate> = if relationships.len() > 0 {
        Some(relationships[0].start.duplicate())
    } else {
        None
    };
    let rel_end: Option<GqlNodeCoordinate> = if relationships.len() > 0 {
        Some(relationships[0].end.duplicate())
    } else {
        None
    };
    Ok(
        GqlRow {
            source: coordinate(engine, state.path_nodes[0]),
            target: Some(coordinate(engine, state.path_nodes[count - 1])),
            rel_start,
            rel_end,
            path_nodes: coordinates(engine, &state.path_nodes),
            path_relationships: relationships,
        },
    )
}

/// What a partial join holds.
#[verifier::ext_equal]
pub struct JoinView {
    pub node_slots: Seq<Option<u32>>,
    pub relationships: Seq<GqlRelationshipStep>,
}

/// A partial join: a node for each slot that is bound.
#[derive(Debug, Clone, PartialEq, Eq)]
pub struct JoinState {
    pub node_slots: Vec<Option<u32>>,
    pub relationships: Vec<GqlRelationshipStep>,
}

impl View for JoinState {
    type V = JoinView;

    open spec fn view(&self) -> JoinView {
        JoinView { node_slots: self.node_slots@, relationships: self.relationships@ }
    }
}

/// Whether the bound nodes of a join exist.
pub open spec fn join_exists(engine: Engine, state: JoinView) -> bool {
    &&& forall|i: int|
        0 <= i < state.node_slots.len() ==> ((#[trigger] state.node_slots[i]) matches Some(node_idx)
            ==> node_idx < engine.nodes@.len())
    &&& ends_exist(engine, state.relationships)
}

/// The nodes of slots.
pub open spec fn slot_nodes(slots: Seq<Option<u32>>) -> Seq<u32> {
    slots.map_values(|slot: Option<u32>| slot->0)
}

/// The row of a join.
pub open spec fn join_row_of(engine: Engine, state: JoinView) -> Result<RowView, GraphErrorView> {
    if exists|i: int| 0 <= i < state.node_slots.len() && (#[trigger] state.node_slots[i]) is None {
        Err(
            GraphErrorView::GqlExecution {
                reason: "multi-pattern join produced an unbound node slot"@,
            },
        )
    } else if state.node_slots.len() == 0 {
        Err(
            GraphErrorView::GqlExecution {
                reason: "multi-pattern join produced no node slots"@,
            },
        )
    } else {
        let nodes = slot_nodes(state.node_slots);
        match relationships_from(engine, state.relationships, 0, Seq::empty()) {
            Ok(path_relationships) => Ok(
                RowView {
                    source: coordinate_of(engine, nodes[0]),
                    target: Some(coordinate_of(engine, nodes.last())),
                    rel_start: None,
                    rel_end: None,
                    path_nodes: coordinates_of(engine, nodes),
                    path_relationships,
                },
            ),
            Err(error) => Err(error),
        }
    }
}

/// The row of a join.
pub fn project_join_state(engine: &Engine, state: &JoinState) -> (result: GraphResult<GqlRow>)
    requires
        join_exists(*engine, state@),
    ensures
        safety::outcome(result) == join_row_of(*engine, state@),
{
    let slots: &Vec<Option<u32>> = &state.node_slots;
    let mut nodes: Vec<u32> = Vec::new();
    for i in 0..slots.len()
        invariant
            slots@ == state@.node_slots,
            join_exists(*engine, state@),
            nodes@.len() == i,
            nodes_exist(*engine, nodes@),
            forall|j: int| 0 <= j < i ==> #[trigger] slots@[j] == Some(nodes@[j]),
    {
        match slots[i] {
            Some(node_idx) => {
                nodes.push(node_idx);
            },
            None => {
                assert(state@.node_slots[i as int] is None);
                return Err(
                    GraphError::GqlExecution {
                        reason: owned("multi-pattern join produced an unbound node slot"),
                    },
                );
            },
        }
    }
    proof {
        assert(nodes@ =~= slot_nodes(slots@));
    }
    if nodes.len() == 0 {
        return Err(
            GraphError::GqlExecution {
                reason: owned("multi-pattern join produced no node slots"),
            },
        );
    }
    let relationships: Vec<GqlPathRelationship> = path_relationships(engine, &state.relationships)?;
    Ok(
        GqlRow {
            source: coordinate(engine, nodes[0]),
            target: Some(coordinate(engine, nodes[nodes.len() - 1])),
            rel_start: None,
            rel_end: None,
            path_nodes: coordinates(engine, &nodes),
            path_relationships: relationships,
        },
    )
}

// ---------------------------------------------------------------------------
// Collection
// ---------------------------------------------------------------------------

/// How matches become rows.
#[verifier::reject_recursive_types(M)]
pub struct Collector<M, K, R> {
    /// The most rows to collect.
    pub cap: nat,
    /// Whether a match beyond the cap is an error.
    pub cap_is_error: bool,
    /// What tells a match from the others, where only the first of each is kept.
    pub key: spec_fn(M) -> Option<K>,
    /// The row of a match.
    pub project: spec_fn(M) -> Result<R, GraphErrorView>,
}

/// The error of a match beyond the cap.
pub open spec fn cap_exceeded(cap: nat) -> GraphErrorView {
    GraphErrorView::GqlExecution {
        reason: "GQL result row cap exceeded ("@ + text::decimal(cap) + ")"@,
    }
}

impl<M, K, R> Collector<M, K, R> {
    /// The rows and keys after the matches from `from` on.
    pub open spec fn after(self, matches: Seq<M>, from: int, rows: Seq<R>, seen: Set<K>) -> Result<
        (Seq<R>, Set<K>),
        GraphErrorView,
    >
        decreases matches.len() - from,
    {
        if from >= matches.len() || (rows.len() >= self.cap && !self.cap_is_error) {
            Ok((rows, seen))
        } else {
            let key = (self.key)(matches[from]);
            if key is Some && seen.contains(key->0) {
                self.after(matches, from + 1, rows, seen)
            } else if rows.len() >= self.cap {
                Err(cap_exceeded(self.cap))
            } else {
                let now_seen = if key is Some {
                    seen.insert(key->0)
                } else {
                    seen
                };
                match (self.project)(matches[from]) {
                    Ok(row) => self.after(matches, from + 1, rows.push(row), now_seen),
                    Err(error) => Err(error),
                }
            }
        }
    }

    /// The rows of matches.
    pub open spec fn rows(self, matches: Seq<M>) -> Result<Seq<R>, GraphErrorView> {
        match self.after(matches, 0, Seq::empty(), Set::empty()) {
            Ok((rows, _)) => Ok(rows),
            Err(error) => Err(error),
        }
    }
}

/// Collecting two runs of matches is collecting the first and going on with the
/// second.
pub proof fn lemma_collect_both<M, K, R>(
    collector: Collector<M, K, R>,
    first: Seq<M>,
    second: Seq<M>,
    from: int,
    rows: Seq<R>,
    seen: Set<K>,
)
    requires
        0 <= from <= first.len(),
    ensures
        collector.after(first + second, from, rows, seen) == (match collector.after(
            first,
            from,
            rows,
            seen,
        ) {
            Ok((more, now_seen)) => collector.after(second, 0, more, now_seen),
            Err(error) => Err(error),
        }),
    decreases first.len() - from,
{
    let both = first + second;
    if from >= first.len() {
        lemma_collect_skips(collector, first, second, 0, rows, seen);
    } else if !(rows.len() >= collector.cap && !collector.cap_is_error) {
        assert(both[from] == first[from]);
        let key = (collector.key)(first[from]);
        if key is Some && seen.contains(key->0) {
            lemma_collect_both(collector, first, second, from + 1, rows, seen);
        } else if rows.len() < collector.cap {
            let now_seen = if key is Some {
                seen.insert(key->0)
            } else {
                seen
            };
            if let Ok(row) = (collector.project)(first[from]) {
                lemma_collect_both(collector, first, second, from + 1, rows.push(row), now_seen);
            }
        }
    }
}

proof fn lemma_collect_skips<M, K, R>(
    collector: Collector<M, K, R>,
    first: Seq<M>,
    second: Seq<M>,
    from: int,
    rows: Seq<R>,
    seen: Set<K>,
)
    requires
        0 <= from <= second.len(),
    ensures
        collector.after(first + second, first.len() + from, rows, seen) == collector.after(
            second,
            from,
            rows,
            seen,
        ),
    decreases second.len() - from,
{
    let both = first + second;
    let at = first.len() + from;
    if from < second.len() && !(rows.len() >= collector.cap && !collector.cap_is_error) {
        assert(both[at] == second[from]);
        let key = (collector.key)(second[from]);
        if key is Some && seen.contains(key->0) {
            lemma_collect_skips(collector, first, second, from + 1, rows, seen);
        } else if rows.len() < collector.cap {
            let now_seen = if key is Some {
                seen.insert(key->0)
            } else {
                seen
            };
            if let Ok(row) = (collector.project)(second[from]) {
                lemma_collect_skips(collector, first, second, from + 1, rows.push(row), now_seen);
            }
        }
    }
}

proof fn lemma_after_within_cap<M, K, R>(
    collector: Collector<M, K, R>,
    matches: Seq<M>,
    from: int,
    rows: Seq<R>,
    seen: Set<K>,
)
    requires
        0 <= from,
        rows.len() <= collector.cap,
        collector.after(matches, from, rows, seen) is Ok,
    ensures
        collector.after(matches, from, rows, seen)->Ok_0.0.len() <= collector.cap,
    decreases matches.len() - from,
{
    if from < matches.len() && !(rows.len() >= collector.cap && !collector.cap_is_error) {
        let key = (collector.key)(matches[from]);
        if key is Some && seen.contains(key->0) {
            lemma_after_within_cap(collector, matches, from + 1, rows, seen);
        } else if rows.len() < collector.cap {
            let now_seen = if key is Some {
                seen.insert(key->0)
            } else {
                seen
            };
            if let Ok(row) = (collector.project)(matches[from]) {
                lemma_after_within_cap(collector, matches, from + 1, rows.push(row), now_seen);
            }
        }
    }
}

/// A result never has more rows than the cap.
pub proof fn lemma_rows_within_cap<M, K, R>(collector: Collector<M, K, R>, matches: Seq<M>)
    requires
        collector.rows(matches) is Ok,
    ensures
        collector.rows(matches)->Ok_0.len() <= collector.cap,
{
    lemma_after_within_cap(collector, matches, 0, Seq::empty(), Set::empty());
}

proof fn lemma_after_are_projections<M, K, R>(
    collector: Collector<M, K, R>,
    matches: Seq<M>,
    from: int,
    rows: Seq<R>,
    seen: Set<K>,
)
    requires
        0 <= from,
        collector.after(matches, from, rows, seen) is Ok,
        forall|i: int| 0 <= i < rows.len() ==> is_row_of(collector, matches, #[trigger] rows[i]),
    ensures
        forall|i: int|
            0 <= i < collector.after(matches, from, rows, seen)->Ok_0.0.len() ==> is_row_of(
                collector,
                matches,
                #[trigger] collector.after(matches, from, rows, seen)->Ok_0.0[i],
            ),
    decreases matches.len() - from,
{
    if from < matches.len() && !(rows.len() >= collector.cap && !collector.cap_is_error) {
        let key = (collector.key)(matches[from]);
        if key is Some && seen.contains(key->0) {
            lemma_after_are_projections(collector, matches, from + 1, rows, seen);
        } else if rows.len() < collector.cap {
            let now_seen = if key is Some {
                seen.insert(key->0)
            } else {
                seen
            };
            if let Ok(row) = (collector.project)(matches[from]) {
                let more = rows.push(row);
                assert(matches.contains(matches[from]));
                assert(is_row_of(collector, matches, row));
                assert forall|i: int| 0 <= i < more.len() implies is_row_of(
                    collector,
                    matches,
                    #[trigger] more[i],
                ) by {
                    if i < rows.len() {
                        assert(more[i] == rows[i]);
                    }
                }
                lemma_after_are_projections(collector, matches, from + 1, more, now_seen);
            }
        }
    }
}

/// Whether a row is that of one of the matches.
pub open spec fn is_row_of<M, K, R>(collector: Collector<M, K, R>, matches: Seq<M>, row: R) -> bool {
    exists|m: M| #[trigger] matches.contains(m) && (collector.project)(m) == Ok::<R, GraphErrorView>(row)
}

/// Every row of a result is that of a match.
pub proof fn lemma_rows_come_from_matches<M, K, R>(collector: Collector<M, K, R>, matches: Seq<M>)
    requires
        collector.rows(matches) is Ok,
    ensures
        forall|i: int|
            0 <= i < collector.rows(matches)->Ok_0.len() ==> is_row_of(
                collector,
                matches,
                #[trigger] collector.rows(matches)->Ok_0[i],
            ),
{
    lemma_after_are_projections(collector, matches, 0, Seq::empty(), Set::empty());
}

/// The result of going on with matches after rows.
pub open spec fn goes_on<M, K, R>(
    collector: Collector<M, K, R>,
    matches: Seq<M>,
    rows: Seq<R>,
    seen: Set<K>,
) -> Result<Seq<R>, GraphErrorView> {
    match collector.after(matches, 0, rows, seen) {
        Ok((all, _)) => Ok(all),
        Err(error) => Err(error),
    }
}

/// Where no match has a key, no key is seen.
pub proof fn lemma_no_keys<M, R>(
    collector: Collector<M, (), R>,
    matches: Seq<M>,
    from: int,
    rows: Seq<R>,
)
    requires
        0 <= from,
        forall|m: M| (#[trigger] (collector.key)(m)) is None,
    ensures
        collector.after(matches, from, rows, Set::empty()) matches Ok(done) ==> done.1
            == Set::<()>::empty(),
    decreases matches.len() - from,
{
    if from < matches.len() && rows.len() < collector.cap {
        if let Ok(row) = (collector.project)(matches[from]) {
            lemma_no_keys(collector, matches, from + 1, rows.push(row));
        }
    }
}

/// The error of a match beyond the cap.
pub fn cap_error(cap: usize) -> (error: GraphError)
    ensures
        error@ == cap_exceeded(cap as nat),
{
    GraphError::GqlExecution {
        reason: concat3("GQL result row cap exceeded (", decimal_text(cap as u64).as_str(), ")"),
    }
}

} // verus!
