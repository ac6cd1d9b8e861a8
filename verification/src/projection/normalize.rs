//! Deterministic committed-mutation normalization for durable segments.
//!
//! Normalization is the boundary between committed sync-log rows and immutable
//! segment contents. It sorts rows into a stable order, cancels net-neutral
//! insert/delete pairs, preserves delete precedence for conflicting rows, and
//! enforces bounded ingestion buffers before segment writers see data.
use std::cmp::Ordering;
use vstd::multiset::Multiset;
use vstd::prelude::*;

use crate::order::{self, sort_ranked, Ranked};
use crate::safety::{self, GraphError, GraphErrorView, GraphResult};
use crate::text::owned;
use crate::types::TraversalDirection;

verus! {

/// Estimated bytes of one normalized row.
pub const NORMALIZED_ROW_BYTES: usize = 41;

/// Committed mutation operation kind.
#[derive(Debug, Clone, Copy, PartialEq, Eq, Structural)]
pub enum MutationOperation {
    /// Insert or reactivate an edge.
    InsertEdge,
    /// Delete an edge.
    DeleteEdge,
    /// Insert or reactivate a node.
    UpsertNode,
    /// Delete or tombstone a node.
    DeleteNode,
}

/// Whether the operation adds an edge or a node.
pub open spec fn inserts(operation: MutationOperation) -> bool {
    operation is InsertEdge || operation is UpsertNode
}

/// Whether the operation removes an edge or a node.
pub open spec fn deletes(operation: MutationOperation) -> bool {
    operation is DeleteEdge || operation is DeleteNode
}

/// Whether the operation is about an edge.
pub open spec fn on_edge(operation: MutationOperation) -> bool {
    operation is InsertEdge || operation is DeleteEdge
}

impl MutationOperation {
    pub fn is_insert(self) -> (found: bool)
        ensures
            found == inserts(self),
    {
        matches!(self, MutationOperation::InsertEdge | MutationOperation::UpsertNode)
    }

    pub fn is_delete(self) -> (found: bool)
        ensures
            found == deletes(self),
    {
        matches!(self, MutationOperation::DeleteEdge | MutationOperation::DeleteNode)
    }

    pub fn is_edge(self) -> (found: bool)
        ensures
            found == on_edge(self),
    {
        matches!(self, MutationOperation::InsertEdge | MutationOperation::DeleteEdge)
    }

    /// The place of the operation among operations.
    pub fn order_key(self) -> (key: u8)
        ensures
            key == operation_rank(self),
    {
        match self {
            MutationOperation::InsertEdge => 0,
            MutationOperation::DeleteEdge => 1,
            MutationOperation::UpsertNode => 2,
            MutationOperation::DeleteNode => 3,
        }
    }
}

/// Raw committed mutation row ready for normalization.
#[derive(Debug, Clone, Copy, PartialEq, Eq)]
pub struct CommittedMutation {
    /// Sync-log identifier.
    pub sync_id: u64,
    /// Projection generation that will own this mutation.
    pub generation_id: u64,
    /// Traversal direction for edge deltas.
    pub direction: TraversalDirection,
    /// Source node index.
    pub source: u32,
    /// Target node index.
    pub target: u32,
    /// Edge type identifier.
    pub type_id: u8,
    /// Whether this edge row is a synthetic reverse of the schema edge.
    pub schema_reversed: bool,
    /// Optional edge weight.
    pub weight: Option<u32>,
    /// Operation kind.
    pub operation: MutationOperation,
}

/// Normalized mutation consumed by durable segment writers.
#[derive(Debug, Clone, Copy, PartialEq, Eq)]
pub struct NormalizedMutation {
    /// Projection generation that owns this mutation.
    pub generation_id: u64,
    /// Latest sync-log row represented by this normalized mutation.
    pub sync_id: u64,
    /// Traversal direction for edge deltas.
    pub direction: TraversalDirection,
    /// Source node index.
    pub source: u32,
    /// Target node index.
    pub target: u32,
    /// Edge type identifier.
    pub type_id: u8,
    /// Whether this edge row is a synthetic reverse of the schema edge.
    pub schema_reversed: bool,
    /// Optional edge weight.
    pub weight: Option<u32>,
    /// Operation represented by this normalized row.
    pub operation: MutationOperation,
    /// Whether this mutation is a tombstone.
    pub tombstone: bool,
}

/// Normalized mutation batch plus ingestion-buffer accounting.
#[derive(Debug, Clone, PartialEq, Eq)]
pub struct NormalizedMutationBatch {
    /// Normalized rows in deterministic order.
    pub rows: Vec<NormalizedMutation>,
    /// Estimated bytes used by the normalized rows.
    pub estimated_bytes: usize,
}

/// Bounded ingestion buffer for committed projection mutations.
#[derive(Debug, Clone, Copy, PartialEq, Eq, Structural)]
pub struct MutationBufferLimits {
    /// Maximum rows allowed in the normalization buffer.
    pub max_rows: usize,
    /// Maximum estimated bytes allowed in the normalization buffer.
    pub max_bytes: usize,
}

impl MutationBufferLimits {
    /// Construct row/byte limits.
    pub fn new(max_rows: usize, max_bytes: usize) -> (limits: MutationBufferLimits)
        ensures
            limits == (MutationBufferLimits { max_rows, max_bytes }),
    {
        MutationBufferLimits { max_rows, max_bytes }
    }
}

// ---------------------------------------------------------------------------
// Ranks
// ---------------------------------------------------------------------------

pub open spec fn operation_rank(operation: MutationOperation) -> int {
    match operation {
        MutationOperation::InsertEdge => 0,
        MutationOperation::DeleteEdge => 1,
        MutationOperation::UpsertNode => 2,
        MutationOperation::DeleteNode => 3,
    }
}

pub open spec fn direction_rank(direction: TraversalDirection) -> int {
    match direction {
        TraversalDirection::Any => 0,
        TraversalDirection::Out => 1,
        TraversalDirection::In => 2,
    }
}

pub open spec fn flag_rank(flag: bool) -> int {
    if flag { 1 } else { 0 }
}

/// An absent weight ranks below every weight.
pub open spec fn weight_rank(weight: Option<u32>) -> int {
    match weight {
        None => -1,
        Some(weight) => weight as int,
    }
}

pub fn direction_sort_key(direction: TraversalDirection) -> (key: u8)
    ensures
        key == direction_rank(direction),
{
    match direction {
        TraversalDirection::Any => 0,
        TraversalDirection::Out => 1,
        TraversalDirection::In => 2,
    }
}

/// What makes two mutations concern the same entity.
pub struct MutationKey {
    pub generation_id: u64,
    pub edge: bool,
    pub direction: TraversalDirection,
    pub source: u32,
    pub target: u32,
    pub type_id: u8,
    pub schema_reversed: bool,
}

/// The entity that a committed row concerns.
pub open spec fn key_of(row: CommittedMutation) -> MutationKey {
    MutationKey {
        generation_id: row.generation_id,
        edge: on_edge(row.operation),
        direction: row.direction,
        source: row.source,
        target: row.target,
        type_id: row.type_id,
        schema_reversed: row.schema_reversed,
    }
}

/// The entity that a normalized row concerns.
pub open spec fn normalized_key(row: NormalizedMutation) -> MutationKey {
    MutationKey {
        generation_id: row.generation_id,
        edge: on_edge(row.operation),
        direction: row.direction,
        source: row.source,
        target: row.target,
        type_id: row.type_id,
        schema_reversed: row.schema_reversed,
    }
}

/// The order in which entities are visited.
pub open spec fn key_rank(key: MutationKey) -> Seq<int> {
    seq![
        key.generation_id as int,
        flag_rank(!key.edge),
        direction_rank(key.direction),
        key.source as int,
        key.target as int,
        key.type_id as int,
        flag_rank(key.schema_reversed),
    ]
}

/// The precedence among rows of one entity: deletes first, then the latest row.
pub open spec fn precedence_rank(row: CommittedMutation) -> Seq<int> {
    seq![
        flag_rank(deletes(row.operation)),
        row.sync_id as int,
        operation_rank(row.operation),
        weight_rank(row.weight),
    ]
}

/// The order of normalized rows.
pub open spec fn normalized_rank(row: NormalizedMutation) -> Seq<int> {
    seq![
        row.generation_id as int,
        row.sync_id as int,
        row.source as int,
        direction_rank(row.direction),
        row.type_id as int,
        flag_rank(row.schema_reversed),
        row.target as int,
        operation_rank(row.operation),
        flag_rank(row.tombstone),
    ]
}

/// Keys with equal ranks are equal.
proof fn lemma_key_rank_injective(a: MutationKey, b: MutationKey)
    requires
        key_rank(a) == key_rank(b),
    ensures
        a == b,
{
    let x = key_rank(a);
    let y = key_rank(b);
    assert(x[0] == y[0] && x[1] == y[1] && x[2] == y[2] && x[3] == y[3] && x[4] == y[4] && x[5]
        == y[5] && x[6] == y[6]);
}

impl Ranked for CommittedMutation {
    open spec fn rank(&self) -> Seq<int> {
        key_rank(key_of(*self))
    }

    fn precedes(&self, other: &CommittedMutation) -> (found: bool) {
        proof {
            reveal_with_fuel(order::ranks_before, 8);
        }
        let left_edge: bool = self.operation.is_edge();
        let right_edge: bool = other.operation.is_edge();
        let left_direction: u8 = direction_sort_key(self.direction);
        let right_direction: u8 = direction_sort_key(other.direction);
        if self.generation_id != other.generation_id {
            self.generation_id < other.generation_id
        } else if left_edge != right_edge {
            left_edge
        } else if left_direction != right_direction {
            left_direction < right_direction
        } else if self.source != other.source {
            self.source < other.source
        } else if self.target != other.target {
            self.target < other.target
        } else if self.type_id != other.type_id {
            self.type_id < other.type_id
        } else {
            !self.schema_reversed && other.schema_reversed
        }
    }
}

pub fn compare_precedence(left: &CommittedMutation, right: &CommittedMutation) -> (result: Ordering)
    ensures
        (result is Less) == order::before(precedence_rank(*left), precedence_rank(*right)),
        (result is Greater) == order::before(precedence_rank(*right), precedence_rank(*left)),
{
    proof {
        reveal_with_fuel(order::ranks_before, 5);
    }
    let left_delete: bool = left.operation.is_delete();
    let right_delete: bool = right.operation.is_delete();
    let left_operation: u8 = left.operation.order_key();
    let right_operation: u8 = right.operation.order_key();
    if left_delete != right_delete {
        if right_delete {
            Ordering::Less
        } else {
            Ordering::Greater
        }
    } else if left.sync_id != right.sync_id {
        if left.sync_id < right.sync_id {
            Ordering::Less
        } else {
            Ordering::Greater
        }
    } else if left_operation != right_operation {
        if left_operation < right_operation {
            Ordering::Less
        } else {
            Ordering::Greater
        }
    } else {
        match (left.weight, right.weight) {
            (None, None) => Ordering::Equal,
            (None, Some(_)) => Ordering::Less,
            (Some(_), None) => Ordering::Greater,
            (Some(l), Some(r)) => if l < r {
                Ordering::Less
            } else if r < l {
                Ordering::Greater
            } else {
                Ordering::Equal
            },
        }
    }
}

pub fn compare_normalized_mutations(
    left: &NormalizedMutation,
    right: &NormalizedMutation,
) -> (result: Ordering)
    ensures
        (result is Less) == order::before(normalized_rank(*left), normalized_rank(*right)),
        (result is Greater) == order::before(normalized_rank(*right), normalized_rank(*left)),
{
    if normalized_before(left, right) {
        proof {
            order::lemma_before_asymmetric(normalized_rank(*left), normalized_rank(*right));
        }
        Ordering::Less
    } else if normalized_before(right, left) {
        Ordering::Greater
    } else {
        Ordering::Equal
    }
}

fn normalized_before(left: &NormalizedMutation, right: &NormalizedMutation) -> (found: bool)
    ensures
        found == order::before(normalized_rank(*left), normalized_rank(*right)),
{
    proof {
        reveal_with_fuel(order::ranks_before, 10);
    }
    let left_direction: u8 = direction_sort_key(left.direction);
    let right_direction: u8 = direction_sort_key(right.direction);
    let left_operation: u8 = left.operation.order_key();
    let right_operation: u8 = right.operation.order_key();
    if left.generation_id != right.generation_id {
        left.generation_id < right.generation_id
    } else if left.sync_id != right.sync_id {
        left.sync_id < right.sync_id
    } else if left.source != right.source {
        left.source < right.source
    } else if left_direction != right_direction {
        left_direction < right_direction
    } else if left.type_id != right.type_id {
        left.type_id < right.type_id
    } else if left.schema_reversed != right.schema_reversed {
        right.schema_reversed
    } else if left.target != right.target {
        left.target < right.target
    } else if left_operation != right_operation {
        left_operation < right_operation
    } else {
        !left.tombstone && right.tombstone
    }
}

impl Ranked for NormalizedMutation {
    open spec fn rank(&self) -> Seq<int> {
        normalized_rank(*self)
    }

    fn precedes(&self, other: &NormalizedMutation) -> (found: bool) {
        matches!(compare_normalized_mutations(self, other), Ordering::Less)
    }
}

// ---------------------------------------------------------------------------
// Limits
// ---------------------------------------------------------------------------

/// The error of a batch that does not fit the ingestion buffer.
pub open spec fn limits_error(row_count: nat, limits: MutationBufferLimits) -> Option<
    GraphErrorView,
> {
    if row_count > limits.max_rows {
        Some(
            GraphErrorView::OverlayLimit {
                kind: "projection_ingest_rows"@,
                requested: row_count as usize,
                limit: limits.max_rows,
            },
        )
    } else if row_count * NORMALIZED_ROW_BYTES > usize::MAX {
        Some(GraphErrorView::Internal("projection ingest byte estimate overflowed"@))
    } else if row_count * NORMALIZED_ROW_BYTES > limits.max_bytes {
        Some(
            GraphErrorView::OverlayLimit {
                kind: "projection_ingest_bytes"@,
                requested: (row_count * NORMALIZED_ROW_BYTES) as usize,
                limit: limits.max_bytes,
            },
        )
    } else {
        None
    }
}

pub fn validate_limits(row_count: usize, limits: MutationBufferLimits) -> (result: GraphResult<()>)
    ensures
        safety::refusal(result) == limits_error(row_count as nat, limits),
{
    if row_count > limits.max_rows {
        return Err(
            GraphError::OverlayLimit {
                kind: owned("projection_ingest_rows"),
                requested: row_count,
                limit: limits.max_rows,
            },
        );
    }
    let requested_bytes: usize = match row_count.checked_mul(NORMALIZED_ROW_BYTES) {
        Some(bytes) => bytes,
        None => {
            return Err(
                GraphError::Internal(owned("projection ingest byte estimate overflowed")),
            );
        },
    };
    if requested_bytes > limits.max_bytes {
        return Err(
            GraphError::OverlayLimit {
                kind: owned("projection_ingest_bytes"),
                requested: requested_bytes,
                limit: limits.max_bytes,
            },
        );
    }
    Ok(())
}

// ---------------------------------------------------------------------------
// Groups
// ---------------------------------------------------------------------------

/// The normalized form of a committed row.
pub open spec fn normalized(row: CommittedMutation) -> NormalizedMutation {
    NormalizedMutation {
        generation_id: row.generation_id,
        sync_id: row.sync_id,
        direction: row.direction,
        source: row.source,
        target: row.target,
        type_id: row.type_id,
        schema_reversed: row.schema_reversed,
        weight: row.weight,
        operation: row.operation,
        tombstone: deletes(row.operation),
    }
}

/// Whether the rows are one insert and one delete, which cancel.
pub open spec fn is_neutral_pair(group: Multiset<CommittedMutation>) -> bool {
    &&& group.len() == 2
    &&& exists|row: CommittedMutation| #[trigger] group.contains(row) && inserts(row.operation)
    &&& exists|row: CommittedMutation| #[trigger] group.contains(row) && deletes(row.operation)
}

/// Whether no row of the group has precedence over `row`.
pub open spec fn is_top(group: Multiset<CommittedMutation>, row: CommittedMutation) -> bool {
    &&& group.contains(row)
    &&& forall|other: CommittedMutation| #[trigger]
        group.contains(other) ==> !order::before(precedence_rank(row), precedence_rank(other))
}

/// What is left of the rows of one entity: nothing of a neutral pair, else the
/// row that has precedence.
pub open spec fn resolved(group: Multiset<CommittedMutation>) -> Option<NormalizedMutation> {
    if group.len() == 0 || is_neutral_pair(group) {
        None
    } else {
        Some(normalized(choose|row: CommittedMutation| is_top(group, row)))
    }
}

/// The rows that concern one entity.
pub open spec fn group_of(
    rows: Multiset<CommittedMutation>,
    key: MutationKey,
) -> Multiset<CommittedMutation> {
    rows.filter(|row: CommittedMutation| key_of(row) == key)
}

/// Whether `result` is the normal form of `rows`: one row for each entity whose
/// rows do not cancel, in order.
pub open spec fn is_normalization(
    rows: Multiset<CommittedMutation>,
    result: Seq<NormalizedMutation>,
) -> bool {
    &&& order::strictly_sorted(result)
    &&& forall|row: NormalizedMutation|
        result.contains(row) <==> resolved(group_of(rows, #[trigger] normalized_key(row))) == Some(
            row,
        )
}

/// Normalization does not depend on the order in which rows arrive.
pub proof fn lemma_normalization_deterministic(
    first: Seq<CommittedMutation>,
    second: Seq<CommittedMutation>,
    first_result: Seq<NormalizedMutation>,
    second_result: Seq<NormalizedMutation>,
)
    requires
        first.to_multiset() == second.to_multiset(),
        is_normalization(first.to_multiset(), first_result),
        is_normalization(second.to_multiset(), second_result),
    ensures
        first_result == second_result,
{
    assert forall|row: NormalizedMutation| #![auto]
        first_result.contains(row) <==> second_result.contains(row) by {
        let key = normalized_key(row);
    }
    order::lemma_strictly_sorted_unique(first_result, second_result);
}

/// Rows of one entity with equal precedence are equal.
proof fn lemma_precedence_injective(a: CommittedMutation, b: CommittedMutation)
    requires
        key_of(a) == key_of(b),
        precedence_rank(a) == precedence_rank(b),
    ensures
        a == b,
{
    let x = precedence_rank(a);
    let y = precedence_rank(b);
    assert(x[0] == y[0] && x[1] == y[1] && x[2] == y[2] && x[3] == y[3]);
    assert(a.weight == b.weight) by {
        match (a.weight, b.weight) {
            (None, None) => {},
            (Some(l), Some(r)) => {
                assert(l == r);
            },
            (None, Some(r)) => {},
            (Some(l), None) => {},
        }
    }
    assert(a.operation == b.operation);
}

/// The row with precedence in a group of one entity is unique.
pub proof fn lemma_top_unique(
    group: Multiset<CommittedMutation>,
    a: CommittedMutation,
    b: CommittedMutation,
)
    requires
        is_top(group, a),
        is_top(group, b),
        key_of(a) == key_of(b),
    ensures
        a == b,
{
    order::lemma_before_total(precedence_rank(a), precedence_rank(b));
    lemma_precedence_injective(a, b);
}

pub fn cancels_pair(group: &[CommittedMutation]) -> (found: bool)
    ensures
        found == is_neutral_pair(group@.to_multiset()),
{
    broadcast use vstd::seq_lib::group_to_multiset_ensures;

    if group.len() != 2 {
        return false;
    }
    let first: CommittedMutation = group[0];
    let second: CommittedMutation = group[1];
    let has_insert: bool = first.operation.is_insert() || second.operation.is_insert();
    let has_delete: bool = first.operation.is_delete() || second.operation.is_delete();
    proof {
        let bag = group@.to_multiset();
        assert(bag.contains(first)) by {
            assert(group@.contains(group@[0]));
        }
        assert(bag.contains(second)) by {
            assert(group@.contains(group@[1]));
        }
        assert forall|row: CommittedMutation| #[trigger] bag.contains(row) implies row == first
            || row == second by {
            assert(group@.contains(row));
        }
    }
    has_insert && has_delete
}

/// Whether `candidate` replaces the row chosen so far: unless that row has
/// precedence, the later of the two is kept.
fn takes_over(candidate: &CommittedMutation, chosen: &CommittedMutation) -> (found: bool)
    ensures
        found == !order::before(precedence_rank(*candidate), precedence_rank(*chosen)),
{
    !matches!(compare_precedence(candidate, chosen), Ordering::Less)
}

pub fn normalize_group(group: &[CommittedMutation]) -> (result: Option<NormalizedMutation>)
    requires
        forall|i: int, j: int|
            0 <= i < group@.len() && 0 <= j < group@.len() ==> key_of(#[trigger] group@[i])
                == key_of(#[trigger] group@[j]),
    ensures
        result == resolved(group@.to_multiset()),
{
    broadcast use vstd::seq_lib::group_to_multiset_ensures;

    if group.len() == 0 || cancels_pair(group) {
        return None;
    }
    let mut selected: CommittedMutation = group[0];
    proof {
        order::lemma_before_irreflexive(precedence_rank(selected));
    }
    for i in 1..group.len()
        invariant
            exists|k: int| 0 <= k < i && #[trigger] group@[k] == selected,
            forall|k: int|
                0 <= k < i ==> !order::before(
                    precedence_rank(selected),
                    precedence_rank(#[trigger] group@[k]),
                ),
    {
        let row: CommittedMutation = group[i];
        if takes_over(&row, &selected) {
            proof {
                order::lemma_before_irreflexive(precedence_rank(row));
                assert forall|k: int| 0 <= k < i + 1 implies !order::before(
                    precedence_rank(row),
                    precedence_rank(#[trigger] group@[k]),
                ) by {
                    if k < i && order::before(precedence_rank(row), precedence_rank(group@[k])) {
                        order::lemma_before_total(
                            precedence_rank(selected),
                            precedence_rank(row),
                        );
                        if order::before(precedence_rank(selected), precedence_rank(row)) {
                            order::lemma_before_transitive(
                                precedence_rank(selected),
                                precedence_rank(row),
                                precedence_rank(group@[k]),
                            );
                        }
                    }
                }
            }
            selected = row;
            assert(group@[i as int] == selected);
        } else {
            proof {
                order::lemma_before_asymmetric(precedence_rank(row), precedence_rank(selected));
            }
        }
    }
    proof {
        let bag = group@.to_multiset();
        let k = choose|k: int| 0 <= k < group@.len() && #[trigger] group@[k] == selected;
        assert(group@.contains(selected));
        assert(is_top(bag, selected)) by {
            assert forall|other: CommittedMutation| #[trigger] bag.contains(other) implies
                !order::before(precedence_rank(selected), precedence_rank(other)) by {
                assert(group@.contains(other));
                let j = choose|j: int| 0 <= j < group@.len() && group@[j] == other;
                assert(group@[j] == other);
            }
        }
        let top = choose|row: CommittedMutation| is_top(bag, row);
        assert(is_top(bag, top));
        assert(group@.contains(top));
        let j = choose|j: int| 0 <= j < group@.len() && group@[j] == top;
        assert(key_of(group@[j]) == key_of(group@[k]));
        lemma_top_unique(bag, selected, top);
    }
    Some(
        NormalizedMutation {
            generation_id: selected.generation_id,
            sync_id: selected.sync_id,
            direction: selected.direction,
            source: selected.source,
            target: selected.target,
            type_id: selected.type_id,
            schema_reversed: selected.schema_reversed,
            weight: selected.weight,
            operation: selected.operation,
            tombstone: selected.operation.is_delete(),
        },
    )
}

/// The run of rows with the key of row `start` is the group of that key.
proof fn lemma_run_is_group(rows: Seq<CommittedMutation>, start: int, end: int)
    requires
        order::sorted(rows),
        0 <= start < end <= rows.len(),
        forall|i: int| start <= i < end ==> key_of(#[trigger] rows[i]) == key_of(rows[start]),
        start > 0 ==> key_of(rows[start - 1]) != key_of(rows[start]),
        end < rows.len() ==> key_of(rows[end]) != key_of(rows[start]),
    ensures
        group_of(rows.to_multiset(), key_of(rows[start])) == rows.subrange(
            start,
            end,
        ).to_multiset(),
        forall|i: int| 0 <= i < start ==> key_of(#[trigger] rows[i]) != key_of(rows[start]),
{
    broadcast use vstd::seq_lib::group_to_multiset_ensures;

    let key = key_of(rows[start]);
    let head = rows.subrange(0, start);
    let run = rows.subrange(start, end);
    let tail = rows.subrange(end, rows.len() as int);
    assert forall|i: int| 0 <= i < start implies key_of(#[trigger] rows[i]) != key by {
        if key_of(rows[i]) == key && i < start - 1 {
            lemma_between(rows, i, start - 1, start);
        }
    }
    assert forall|i: int| end <= i < rows.len() implies key_of(#[trigger] rows[i]) != key by {
        if key_of(rows[i]) == key && i > end {
            lemma_between(rows, start, end, i);
        }
    }
    assert(rows =~= head + run + tail);
    vstd::seq_lib::lemma_multiset_commutative(head + run, tail);
    vstd::seq_lib::lemma_multiset_commutative(head, run);
    assert forall|row: CommittedMutation| #![auto]
        group_of(rows.to_multiset(), key).count(row) == run.to_multiset().count(row) by {
        if key_of(row) == key {
            if head.to_multiset().count(row) > 0 {
                assert(head.contains(row));
                let i = choose|i: int| 0 <= i < head.len() && head[i] == row;
                assert(rows[i] == row);
            }
            if tail.to_multiset().count(row) > 0 {
                assert(tail.contains(row));
                let i = choose|i: int| 0 <= i < tail.len() && tail[i] == row;
                assert(rows[end + i] == row);
            }
        } else {
            if run.to_multiset().count(row) > 0 {
                assert(run.contains(row));
                let i = choose|i: int| 0 <= i < run.len() && run[i] == row;
                assert(rows[start + i] == row);
            }
        }
    }
    assert(group_of(rows.to_multiset(), key) =~= run.to_multiset());
}

/// Between two rows of one key all rows of a sorted sequence have that key.
proof fn lemma_between(rows: Seq<CommittedMutation>, i: int, j: int, k: int)
    requires
        order::sorted(rows),
        0 <= i < j < k < rows.len(),
        key_of(rows[i]) == key_of(rows[k]),
    ensures
        key_of(rows[j]) == key_of(rows[i]),
{
    order::lemma_before_total(rows[i].rank(), rows[j].rank());
    assert(!order::before(rows[j].rank(), rows[i].rank()));
    assert(!order::before(rows[k].rank(), rows[j].rank()));
    lemma_key_rank_injective(key_of(rows[i]), key_of(rows[j]));
}

/// What is left of a group is one of its rows, and concerns the entity of that
/// group.
pub proof fn lemma_resolved_key(rows: Multiset<CommittedMutation>, key: MutationKey)
    ensures
        match resolved(group_of(rows, key)) {
            Some(row) => normalized_key(row) == key && exists|top: CommittedMutation| #[trigger]
                rows.contains(top) && row == normalized(top),
            None => true,
        },
{
    let group = group_of(rows, key);
    if group.len() > 0 {
        lemma_top_exists(group);
        let top = choose|row: CommittedMutation| is_top(group, row);
        assert(is_top(group, top));
        assert(group.contains(top));
        assert(key_of(top) == key);
        assert(rows.contains(top));
    }
}

/// A group that is not empty has a row with precedence.
pub proof fn lemma_top_exists(group: Multiset<CommittedMutation>)
    requires
        group.len() > 0,
    ensures
        exists|row: CommittedMutation| is_top(group, row),
    decreases group.len(),
{
    let first = group.choose();
    assert(group.contains(first));
    let rest = group.remove(first);
    if rest.len() == 0 {
        order::lemma_before_irreflexive(precedence_rank(first));
        assert forall|other: CommittedMutation| #[trigger] group.contains(other) implies
            !order::before(precedence_rank(first), precedence_rank(other)) by {
            if other != first {
                assert(rest.count(other) == group.count(other));
                assert(rest.contains(other));
                assert(rest.len() > 0) by {
                    assert(rest.remove(other).len() + 1 == rest.len());
                }
            }
        }
        assert(is_top(group, first));
    } else {
        lemma_top_exists(rest);
        let best = choose|row: CommittedMutation| is_top(rest, row);
        assert(is_top(rest, best));
        if order::before(precedence_rank(best), precedence_rank(first)) {
            assert forall|other: CommittedMutation| #[trigger] group.contains(other) implies
                !order::before(precedence_rank(first), precedence_rank(other)) by {
                if other == first {
                    order::lemma_before_irreflexive(precedence_rank(first));
                } else if order::before(precedence_rank(first), precedence_rank(other)) {
                    assert(rest.count(other) == group.count(other));
                    assert(rest.contains(other));
                    order::lemma_before_transitive(
                        precedence_rank(best),
                        precedence_rank(first),
                        precedence_rank(other),
                    );
                }
            }
            assert(is_top(group, first));
        } else {
            assert(group.contains(best)) by {
                assert(rest.contains(best));
            }
            assert forall|other: CommittedMutation| #[trigger] group.contains(other) implies
                !order::before(precedence_rank(best), precedence_rank(other)) by {
                if other != first {
                    assert(rest.count(other) == group.count(other));
                    assert(rest.contains(other));
                }
            }
            assert(is_top(group, best));
        }
    }
}

/// Normalized rows with equal ranks concern the same entity.
proof fn lemma_normalized_rank_key(a: NormalizedMutation, b: NormalizedMutation)
    requires
        normalized_rank(a) == normalized_rank(b),
    ensures
        normalized_key(a) == normalized_key(b),
{
    let x = normalized_rank(a);
    let y = normalized_rank(b);
    assert(x[0] == y[0] && x[1] == y[1] && x[2] == y[2] && x[3] == y[3] && x[4] == y[4] && x[5]
        == y[5] && x[6] == y[6] && x[7] == y[7]);
}

/// Sorting rows at different places keeps each of them once.
proof fn lemma_sorted_normalization(
    rows: Multiset<CommittedMutation>,
    unsorted: Seq<NormalizedMutation>,
    result: Seq<NormalizedMutation>,
)
    requires
        order::sorted(result),
        result.to_multiset() == unsorted.to_multiset(),
        forall|i: int, j: int|
            0 <= i < j < unsorted.len() ==> normalized_key(#[trigger] unsorted[i])
                != normalized_key(#[trigger] unsorted[j]),
        forall|row: NormalizedMutation|
            unsorted.contains(row) <==> resolved(group_of(rows, #[trigger] normalized_key(row)))
                == Some(row),
    ensures
        is_normalization(rows, result),
{
    broadcast use vstd::seq_lib::group_to_multiset_ensures;

    assert(unsorted.no_duplicates()) by {
        assert forall|i: int, j: int|
            0 <= i < unsorted.len() && 0 <= j < unsorted.len() && i != j implies unsorted[i]
            != unsorted[j] by {
            if i < j {
                assert(normalized_key(unsorted[i]) != normalized_key(unsorted[j]));
            } else {
                assert(normalized_key(unsorted[j]) != normalized_key(unsorted[i]));
            }
        }
    }
    unsorted.lemma_multiset_has_no_duplicates();
    result.lemma_multiset_has_no_duplicates_conv();
    assert forall|row: NormalizedMutation| #![auto]
        result.contains(row) <==> unsorted.contains(row) by {
        vstd::seq_lib::to_multiset_contains(result, row);
        vstd::seq_lib::to_multiset_contains(unsorted, row);
    }
    assert forall|i: int, j: int| 0 <= i < j < result.len() implies #[trigger] result[i].rank()
        != #[trigger] result[j].rank() by {
        if result[i].rank() == result[j].rank() {
            lemma_normalized_rank_key(result[i], result[j]);
            assert(result.contains(result[i]));
            assert(result.contains(result[j]));
            assert(unsorted.contains(result[i]));
            assert(unsorted.contains(result[j]));
            let a = choose|a: int| 0 <= a < unsorted.len() && unsorted[a] == result[i];
            let b = choose|b: int| 0 <= b < unsorted.len() && unsorted[b] == result[j];
            assert(result[i] != result[j]);
            if a < b {
                assert(normalized_key(unsorted[a]) != normalized_key(unsorted[b]));
            } else {
                assert(normalized_key(unsorted[b]) != normalized_key(unsorted[a]));
            }
        }
    }
    order::lemma_sorted_distinct(result);
}

/// What is left of the entities that the first `count` rows concern.
spec fn left_over(rows: Seq<CommittedMutation>, count: nat) -> Seq<NormalizedMutation>
    decreases count,
{
    if count == 0 {
        Seq::empty()
    } else {
        let earlier = left_over(rows, (count - 1) as nat);
        let key = key_of(rows[count - 1]);
        if exists|i: int| 0 <= i < count - 1 && key_of(#[trigger] rows[i]) == key {
            earlier
        } else {
            match resolved(group_of(rows.to_multiset(), key)) {
                Some(row) => earlier.push(row),
                None => earlier,
            }
        }
    }
}

/// Whether one of the first `count` rows concerns an entity.
spec fn concerned(rows: Seq<CommittedMutation>, key: MutationKey, count: nat) -> bool {
    exists|i: int| 0 <= i < count && key_of(#[trigger] rows[i]) == key
}

proof fn lemma_left_over(rows: Seq<CommittedMutation>, count: nat)
    requires
        count <= rows.len(),
    ensures
        forall|i: int, j: int|
            0 <= i < j < left_over(rows, count).len() ==> normalized_key(
                #[trigger] left_over(rows, count)[i],
            ) != normalized_key(#[trigger] left_over(rows, count)[j]),
        forall|row: NormalizedMutation| #[trigger]
            left_over(rows, count).contains(row) <==> concerned(rows, normalized_key(row), count)
                && resolved(group_of(rows.to_multiset(), normalized_key(row))) == Some(row),
    decreases count,
{
    let all = left_over(rows, count);
    if count > 0 {
        let earlier = left_over(rows, (count - 1) as nat);
        let key = key_of(rows[count - 1]);
        lemma_left_over(rows, (count - 1) as nat);
        lemma_resolved_key(rows.to_multiset(), key);
        assert forall|other: MutationKey| concerned(rows, other, count) implies other == key
            || concerned(rows, other, (count - 1) as nat) by {
            let i = choose|i: int| 0 <= i < count && key_of(#[trigger] rows[i]) == other;
            if i < count - 1 {
                assert(key_of(rows[i]) == other);
            }
        }
        assert forall|other: MutationKey| concerned(rows, other, (count - 1) as nat) implies concerned(
            rows,
            other,
            count,
        ) by {
            let i = choose|i: int| 0 <= i < count - 1 && key_of(#[trigger] rows[i]) == other;
            assert(key_of(rows[i]) == other);
        }
        assert(concerned(rows, key, count)) by {
            assert(key_of(rows[count - 1]) == key);
        }
        if !concerned(rows, key, (count - 1) as nat) {
            match resolved(group_of(rows.to_multiset(), key)) {
                Some(last) => {
                    assert(all == earlier.push(last));
                    assert forall|i: int, j: int| 0 <= i < j < all.len() implies normalized_key(
                        #[trigger] all[i],
                    ) != normalized_key(#[trigger] all[j]) by {
                        assert(all[i] == earlier[i]);
                        assert(earlier.contains(earlier[i]));
                        if j < earlier.len() {
                            assert(all[j] == earlier[j]);
                        }
                    }
                    assert forall|row: NormalizedMutation| #[trigger] all.contains(row) <==> (
                    concerned(rows, normalized_key(row), count) && resolved(
                        group_of(rows.to_multiset(), normalized_key(row)),
                    ) == Some(row)) by {
                        if all.contains(row) {
                            let i = choose|i: int| 0 <= i < all.len() && all[i] == row;
                            if i < earlier.len() {
                                assert(earlier.contains(earlier[i]));
                            }
                        }
                        if earlier.contains(row) {
                            let i = choose|i: int| 0 <= i < earlier.len() && earlier[i] == row;
                            assert(all[i] == row);
                        }
                        assert(all[earlier.len() as int] == last);
                    }
                },
                None => {},
            }
        }
    }
}

/// All rows have a normal form.
pub proof fn lemma_normalization_exists(rows: Seq<CommittedMutation>)
    ensures
        exists|result: Seq<NormalizedMutation>| #[trigger]
            is_normalization(rows.to_multiset(), result),
{
    broadcast use vstd::seq_lib::group_to_multiset_ensures;

    let bag = rows.to_multiset();
    let unsorted = left_over(rows, rows.len());
    lemma_left_over(rows, rows.len());
    assert forall|i: int, j: int| 0 <= i < j < unsorted.len() implies #[trigger] unsorted[i].rank()
        != #[trigger] unsorted[j].rank() by {
        if unsorted[i].rank() == unsorted[j].rank() {
            lemma_normalized_rank_key(unsorted[i], unsorted[j]);
        }
    }
    order::lemma_sorted_exists(unsorted);
    let result = choose|result: Seq<NormalizedMutation>| #[trigger]
        order::strictly_sorted(result) && result.len() == unsorted.len() && forall|
            row: NormalizedMutation,
        | #[trigger] result.contains(row) <==> unsorted.contains(row);
    assert forall|row: NormalizedMutation|
        result.contains(row) <==> resolved(group_of(bag, #[trigger] normalized_key(row))) == Some(
            row,
        ) by {
        let key = normalized_key(row);
        assert(result.contains(row) <==> unsorted.contains(row));
        if resolved(group_of(bag, key)) == Some(row) {
            lemma_resolved_key(bag, key);
            let top = choose|top: CommittedMutation| #[trigger]
                bag.contains(top) && row == normalized(top);
            assert(rows.contains(top));
            let i = choose|i: int| 0 <= i < rows.len() && rows[i] == top;
            assert(key_of(rows[i]) == key);
            assert(concerned(rows, key, rows.len()));
        }
    }
    assert(is_normalization(bag, result));
}

fn run_end(rows: &Vec<CommittedMutation>, start: usize) -> (end: usize)
    requires
        start < rows.len(),
    ensures
        start < end <= rows@.len(),
        forall|i: int| start <= i < end ==> key_of(#[trigger] rows@[i]) == key_of(rows@[start as int]),
        end < rows@.len() ==> key_of(rows@[end as int]) != key_of(rows@[start as int]),
{
    let first: CommittedMutation = rows[start];
    let mut end: usize = start + 1;
    while end < rows.len() && same_entity(&first, &rows[end])
        invariant
            start < end <= rows@.len(),
            first == rows@[start as int],
            forall|i: int|
                start <= i < end ==> key_of(#[trigger] rows@[i]) == key_of(rows@[start as int]),
        decreases rows@.len() - end,
    {
        end = end + 1;
    }
    end
}

fn same_entity(left: &CommittedMutation, right: &CommittedMutation) -> (same: bool)
    ensures
        same == (key_of(*left) == key_of(*right)),
{
    left.generation_id == right.generation_id && left.operation.is_edge()
        == right.operation.is_edge() && left.direction == right.direction && left.source
        == right.source && left.target == right.target && left.type_id == right.type_id
        && left.schema_reversed == right.schema_reversed
}

/// Normalize committed mutation rows into deterministic segment input.
///
/// # Errors
///
/// Returns [`GraphError::OverlayLimit`] when the row or byte limits are
/// exceeded.
pub fn normalize_committed_mutations(
    rows: &[CommittedMutation],
    limits: MutationBufferLimits,
) -> (batch: GraphResult<NormalizedMutationBatch>)
    ensures
        match batch {
            Ok(batch) => {
                &&& limits_error(rows@.len(), limits) is None
                &&& is_normalization(rows@.to_multiset(), batch.rows@)
                &&& batch.estimated_bytes == batch.rows@.len() * NORMALIZED_ROW_BYTES
                &&& batch.rows@.len() <= rows@.len()
            },
            Err(error) => limits_error(rows@.len(), limits) == Some(error@),
        },
{
    broadcast use vstd::seq_lib::group_to_multiset_ensures;

    validate_limits(rows.len(), limits)?;
    let keyed: Vec<CommittedMutation> = sort_ranked(vstd::slice::slice_to_vec(rows));
    let ghost bag = rows@.to_multiset();
    assert(keyed@.len() == rows@.len()) by {
        assert(keyed@.to_multiset().len() == rows@.to_multiset().len());
    }
    let mut unsorted: Vec<NormalizedMutation> = Vec::new();
    let mut start: usize = 0;
    while start < keyed.len()
        invariant
            order::sorted(keyed@),
            keyed@.to_multiset() == bag,
            start <= keyed@.len(),
            0 < start < keyed@.len() ==> key_of(keyed@[start - 1]) != key_of(keyed@[start as int]),
            unsorted@.len() <= start,
            forall|i: int, j: int|
                0 <= i < j < unsorted@.len() ==> normalized_key(#[trigger] unsorted@[i])
                    != normalized_key(#[trigger] unsorted@[j]),
            forall|i: int|
                0 <= i < unsorted@.len() ==> {
                    &&& resolved(group_of(bag, normalized_key(#[trigger] unsorted@[i]))) == Some(
                        unsorted@[i],
                    )
                    &&& exists|p: int|
                        0 <= p < start && #[trigger] key_of(keyed@[p]) == normalized_key(
                            unsorted@[i],
                        )
                },
            forall|p: int, row: NormalizedMutation|
                0 <= p < start && resolved(group_of(bag, #[trigger] key_of(keyed@[p]))) == Some(row)
                    ==> #[trigger] unsorted@.contains(row),
        decreases keyed@.len() - start,
    {
        let end: usize = run_end(&keyed, start);
        let run: &[CommittedMutation] = vstd::slice::slice_subrange(keyed.as_slice(), start, end);
        proof {
            lemma_run_is_group(keyed@, start as int, end as int);
            assert forall|i: int, j: int| 0 <= i < run@.len() && 0 <= j < run@.len() implies key_of(
                #[trigger] run@[i],
            ) == key_of(#[trigger] run@[j]) by {
                assert(run@[i] == keyed@[start + i]);
                assert(run@[j] == keyed@[start + j]);
            }
        }
        let ghost done = unsorted@;
        let ghost key = key_of(keyed@[start as int]);
        let kept: Option<NormalizedMutation> = normalize_group(run);
        assert(kept == resolved(group_of(bag, key)));
        proof {
            lemma_resolved_key(bag, key);
        }
        match kept {
            Some(row) => {
                unsorted.push(row);
                proof {
                    assert(normalized_key(row) == key);
                    assert forall|i: int, j: int|
                        0 <= i < j < unsorted@.len() implies normalized_key(
                        #[trigger] unsorted@[i],
                    ) != normalized_key(#[trigger] unsorted@[j]) by {
                        if j == done.len() {
                            assert(unsorted@[i] == done[i]);
                            let p = choose|p: int|
                                0 <= p < start && #[trigger] key_of(keyed@[p]) == normalized_key(
                                    done[i],
                                );
                            assert(key_of(keyed@[p]) != key);
                        } else {
                            assert(unsorted@[i] == done[i]);
                            assert(unsorted@[j] == done[j]);
                        }
                    }
                    assert forall|i: int| 0 <= i < unsorted@.len() implies {
                        &&& resolved(group_of(bag, normalized_key(#[trigger] unsorted@[i])))
                            == Some(unsorted@[i])
                        &&& exists|p: int|
                            0 <= p < end && #[trigger] key_of(keyed@[p]) == normalized_key(
                                unsorted@[i],
                            )
                    } by {
                        if i == done.len() {
                            assert(key_of(keyed@[start as int]) == normalized_key(row));
                        } else {
                            assert(unsorted@[i] == done[i]);
                            let p = choose|p: int|
                                0 <= p < start && #[trigger] key_of(keyed@[p]) == normalized_key(
                                    done[i],
                                );
                            assert(0 <= p < end);
                        }
                    }
                    assert forall|p: int, kept_row: NormalizedMutation|
                        0 <= p < end && resolved(group_of(bag, #[trigger] key_of(keyed@[p])))
                            == Some(kept_row) implies #[trigger] unsorted@.contains(kept_row) by {
                        if p < start {
                            assert(done.contains(kept_row));
                            let i = choose|i: int| 0 <= i < done.len() && done[i] == kept_row;
                            assert(unsorted@[i] == kept_row);
                        } else {
                            assert(key_of(keyed@[p]) == key);
                            assert(unsorted@[done.len() as int] == kept_row);
                        }
                    }
                }
            },
            None => {
                proof {
                    assert forall|p: int, kept_row: NormalizedMutation|
                        0 <= p < end && resolved(group_of(bag, #[trigger] key_of(keyed@[p])))
                            == Some(kept_row) implies #[trigger] unsorted@.contains(kept_row) by {
                        if p >= start {
                            assert(key_of(keyed@[p]) == key);
                        }
                    }
                    assert forall|i: int| 0 <= i < unsorted@.len() implies {
                        &&& resolved(group_of(bag, normalized_key(#[trigger] unsorted@[i])))
                            == Some(unsorted@[i])
                        &&& exists|p: int|
                            0 <= p < end && #[trigger] key_of(keyed@[p]) == normalized_key(
                                unsorted@[i],
                            )
                    } by {
                        let p = choose|p: int|
                            0 <= p < start && #[trigger] key_of(keyed@[p]) == normalized_key(
                                unsorted@[i],
                            );
                        assert(0 <= p < end);
                    }
                }
            },
        }
        assert(end < keyed@.len() ==> key_of(keyed@[end - 1]) != key_of(keyed@[end as int]));
        start = end;
    }
    let count: usize = unsorted.len();
    let ghost collected = unsorted@;
    let result: Vec<NormalizedMutation> = sort_ranked(unsorted);
    proof {
        assert forall|row: NormalizedMutation|
            collected.contains(row) <==> resolved(group_of(bag, #[trigger] normalized_key(row)))
                == Some(row) by {
            if collected.contains(row) {
                let i = choose|i: int| 0 <= i < collected.len() && collected[i] == row;
                assert(resolved(group_of(bag, normalized_key(collected[i]))) == Some(
                    collected[i],
                ));
            }
            if resolved(group_of(bag, normalized_key(row))) == Some(row) {
                let group = group_of(bag, normalized_key(row));
                let member = group.choose();
                assert(group.contains(member));
                assert(bag.contains(member));
                assert(keyed@.contains(member));
                let p = choose|p: int| 0 <= p < keyed@.len() && keyed@[p] == member;
                assert(key_of(keyed@[p]) == normalized_key(row));
            }
        }
        lemma_sorted_normalization(bag, collected, result@);
        assert(result@.to_multiset().len() == collected.to_multiset().len());
        assert(count * NORMALIZED_ROW_BYTES <= rows@.len() * NORMALIZED_ROW_BYTES);
    }
    Ok(NormalizedMutationBatch { estimated_bytes: count * NORMALIZED_ROW_BYTES, rows: result })
}

} // verus!
