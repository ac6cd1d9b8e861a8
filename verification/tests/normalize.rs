//! Normalization of committed mutations.

use pggraph::projection::normalize::{
    normalize_committed_mutations, CommittedMutation, MutationBufferLimits, MutationOperation,
};
use pggraph::safety::GraphError;
use pggraph::types::TraversalDirection;

#[test]
fn delta_segment_normalization_is_deterministic() {
    let rows = vec![
        mutation(3, 1, 2, 1, MutationOperation::InsertEdge),
        mutation(1, 1, 1, 1, MutationOperation::InsertEdge),
        mutation(2, 1, 1, 2, MutationOperation::InsertEdge),
    ];
    let mut reversed = rows.clone();
    reversed.reverse();

    let left = normalize_committed_mutations(&rows, limits()).expect("rows normalize");
    let right = normalize_committed_mutations(&reversed, limits()).expect("rows normalize");

    assert_eq!(left, right);
    assert_eq!(
        left.rows.iter().map(|row| row.sync_id).collect::<Vec<_>>(),
        vec![1, 2, 3]
    );
}

#[test]
fn delta_segment_normalization_cancels_insert_delete_pairs() {
    let rows = vec![
        mutation(1, 1, 1, 2, MutationOperation::InsertEdge),
        mutation(2, 1, 1, 2, MutationOperation::DeleteEdge),
    ];

    let normalized = normalize_committed_mutations(&rows, limits()).expect("rows normalize");

    assert!(normalized.rows.is_empty());
}

#[test]
fn delta_segment_normalization_preserves_delete_precedence() {
    let rows = vec![
        mutation(1, 1, 1, 2, MutationOperation::InsertEdge),
        mutation(2, 1, 1, 2, MutationOperation::InsertEdge),
        mutation(3, 1, 1, 2, MutationOperation::DeleteEdge),
    ];

    let normalized = normalize_committed_mutations(&rows, limits()).expect("rows normalize");

    assert_eq!(normalized.rows.len(), 1);
    assert!(normalized.rows[0].tombstone);
    assert_eq!(normalized.rows[0].sync_id, 3);
}

#[test]
fn delta_segment_normalization_groups_direction_and_edge_type() {
    let rows = vec![
        mutation(1, 1, 1, 2, MutationOperation::InsertEdge),
        CommittedMutation {
            direction: TraversalDirection::In,
            ..mutation(2, 1, 1, 2, MutationOperation::InsertEdge)
        },
        CommittedMutation {
            type_id: 3,
            ..mutation(3, 1, 1, 2, MutationOperation::InsertEdge)
        },
    ];

    let normalized = normalize_committed_mutations(&rows, limits()).expect("rows normalize");

    assert_eq!(normalized.rows.len(), 3);
    assert_eq!(normalized.rows[0].direction, TraversalDirection::Out);
    assert_eq!(normalized.rows[1].direction, TraversalDirection::In);
    assert_eq!(normalized.rows[2].type_id, 3);
}

#[test]
fn projection_ingest_buffer_limits_reject_oversized_batch() {
    let rows = vec![
        mutation(1, 1, 1, 2, MutationOperation::InsertEdge),
        mutation(2, 1, 2, 3, MutationOperation::InsertEdge),
    ];

    let row_err = normalize_committed_mutations(&rows, MutationBufferLimits::new(1, 1_000))
        .expect_err("row limit rejects");
    let byte_err = normalize_committed_mutations(&rows, MutationBufferLimits::new(10, 1))
        .expect_err("byte limit rejects");

    assert!(matches!(row_err, GraphError::OverlayLimit { .. }));
    assert!(matches!(byte_err, GraphError::OverlayLimit { .. }));
}

#[test]
fn delta_segment_normalization_handles_node_operations() {
    let rows = vec![
        mutation(1, 1, 1, 1, MutationOperation::UpsertNode),
        mutation(2, 1, 1, 1, MutationOperation::DeleteNode),
        mutation(3, 1, 2, 2, MutationOperation::DeleteNode),
    ];

    let normalized = normalize_committed_mutations(&rows, limits()).expect("rows normalize");

    assert_eq!(normalized.rows.len(), 1);
    assert!(normalized.rows[0].tombstone);
    assert_eq!(normalized.rows[0].source, 2);
}

#[test]
fn delta_segment_normalization_keeps_node_and_edge_domains_separate() {
    let rows = vec![
        mutation(1, 1, 1, 2, MutationOperation::InsertEdge),
        mutation(2, 1, 1, 2, MutationOperation::DeleteNode),
    ];

    let normalized = normalize_committed_mutations(&rows, limits()).expect("rows normalize");

    assert_eq!(normalized.rows.len(), 2);
    assert_eq!(normalized.rows[0].operation, MutationOperation::InsertEdge);
    assert_eq!(normalized.rows[1].operation, MutationOperation::DeleteNode);
}

#[test]
fn delta_segment_normalization_ties_duplicate_sync_ids_deterministically() {
    let rows = vec![
        weighted_mutation(1, 1, 1, 2, Some(10), MutationOperation::InsertEdge),
        weighted_mutation(1, 1, 1, 2, Some(20), MutationOperation::InsertEdge),
    ];
    let mut reversed = rows.clone();
    reversed.reverse();

    let left = normalize_committed_mutations(&rows, limits()).expect("rows normalize");
    let right = normalize_committed_mutations(&reversed, limits()).expect("rows normalize");

    assert_eq!(left, right);
    assert_eq!(left.rows[0].weight, Some(20));
}

fn mutation(
    sync_id: u64,
    generation_id: u64,
    source: u32,
    target: u32,
    operation: MutationOperation,
) -> CommittedMutation {
    weighted_mutation(sync_id, generation_id, source, target, Some(10), operation)
}

fn weighted_mutation(
    sync_id: u64,
    generation_id: u64,
    source: u32,
    target: u32,
    weight: Option<u32>,
    operation: MutationOperation,
) -> CommittedMutation {
    CommittedMutation {
        sync_id,
        generation_id,
        direction: TraversalDirection::Out,
        source,
        target,
        type_id: 1,
        weight,
        operation,
        schema_reversed: false,
    }
}

fn limits() -> MutationBufferLimits {
    MutationBufferLimits::new(1_000, 1_000_000)
}

#[test]
fn normalization_of_mixed_rows_is_deterministic() {
    let sync_ids: [u64; 12] = [7, 3, 3, 41, 12, 1, 1, 30, 22, 7, 9, 49];
    let rows = sync_ids
        .iter()
        .copied()
        .enumerate()
        .map(|(idx, sync_id)| {
            mutation(
                sync_id,
                1,
                (idx % 4) as u32,
                ((idx + 1) % 4) as u32,
                if idx % 3 == 0 {
                    MutationOperation::DeleteEdge
                } else {
                    MutationOperation::InsertEdge
                },
            )
        })
        .collect::<Vec<_>>();
    let mut reversed = rows.clone();
    reversed.reverse();

    let left = normalize_committed_mutations(&rows, limits()).expect("rows normalize");
    let right = normalize_committed_mutations(&reversed, limits()).expect("rows normalize");

    assert_eq!(left, right);
}

#[test]
fn normalization_accounts_for_the_bytes_it_keeps() {
    let rows = vec![
        mutation(1, 1, 1, 2, MutationOperation::InsertEdge),
        mutation(2, 1, 2, 3, MutationOperation::InsertEdge),
    ];

    let batch = normalize_committed_mutations(&rows, limits()).expect("rows normalize");

    assert_eq!(batch.estimated_bytes, 82);
    let err = normalize_committed_mutations(&rows, MutationBufferLimits::new(10, 81))
        .expect_err("byte limit rejects");
    match err {
        GraphError::OverlayLimit { requested, limit, .. } => {
            assert_eq!(requested, 82);
            assert_eq!(limit, 81);
        }
        other => panic!("unexpected error: {other:?}"),
    }
}
