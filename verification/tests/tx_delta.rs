//! Transaction-local graph deltas.

use std::collections::{HashMap, HashSet};
use std::mem::size_of;

use pggraph::projection::tx_delta::{
    self, added_node_keys, clear_current_transaction_state, decrement_subtransaction_depth,
    edge_delta_dirty, edge_overlay, ensure_write_capacity, filter_value_update, heap_bytes,
    increment_subtransaction_depth, node_deleted, record_added_edge, record_added_node,
    record_deleted_edge, record_deleted_node, record_deleted_node_at, record_filter_value_update,
    subtransaction_active, AddedNode, DeletedEdge, DeltaCapacities, DeltaEdge,
    EncodedFilterValue, TxDeltaLimits, TxDeltaStats, TxGraphDelta, TxState,
};
use pggraph::safety::GraphError;
use pggraph::types::TraversalDirection;

fn recorded(state: &mut TxState) -> &mut TxGraphDelta {
    state.delta.get_or_insert_with(TxGraphDelta::new)
}

#[test]
fn empty_delta_reports_clean_stats() {
    let mut state = TxState::new(tx_delta::default_limits());
    clear_current_transaction_state(&mut state);

    assert_eq!(tx_delta::stats(&state), TxDeltaStats::default());
}

#[test]
fn stats_reflect_recorded_delta_contents() {
    let mut state = TxState::new(tx_delta::default_limits());
    clear_current_transaction_state(&mut state);
    recorded(&mut state).add_node_for_test(100, "new-node", 42);
    recorded(&mut state).delete_node(7);
    recorded(&mut state).add_edge_for_test(
        42,
        DeltaEdge {
            target: 7,
            type_id: 1,
            weight: Some(3),
        },
    );
    recorded(&mut state).delete_edge(DeletedEdge { source: 1, target: 2, type_id: 1 });

    let stats = tx_delta::stats(&state);

    assert_eq!(stats.added_nodes, 1);
    assert_eq!(stats.deleted_nodes, 1);
    assert_eq!(stats.added_edges, 1);
    assert_eq!(stats.deleted_edges, 1);
    assert!(stats.memory_bytes > 0);
    assert!(stats.dirty);
}

#[test]
fn stats_include_tenant_string_heap_for_added_nodes() {
    let mut state = TxState::new(tx_delta::default_limits());
    clear_current_transaction_state(&mut state);
    record_added_node(&mut state, 100, "n1", Some("tenant-a")).expect("record tenant node");

    let with_tenant = tx_delta::stats(&state).memory_bytes;

    clear_current_transaction_state(&mut state);
    record_added_node(&mut state, 100, "n1", None).expect("record unscoped node");
    let without_tenant = tx_delta::stats(&state).memory_bytes;

    assert!(with_tenant > without_tenant);
    clear_current_transaction_state(&mut state);
}

#[test]
fn added_node_keys_respect_recorded_tenant_scope() {
    let mut state = TxState::new(tx_delta::default_limits());
    clear_current_transaction_state(&mut state);
    record_added_node(&mut state, 100, "a1", Some("tenant-a")).expect("record tenant-a");
    record_added_node(&mut state, 100, "b1", Some("tenant-b")).expect("record tenant-b");
    record_added_node(&mut state, 100, "global", None).expect("record unscoped");
    record_added_node(&mut state, 200, "other", Some("tenant-a")).expect("record other table");

    assert_eq!(added_node_keys(&state, 100, Some("tenant-a"), true), vec!["a1"]);
    assert_eq!(added_node_keys(&state, 100, Some("tenant-b"), true), vec!["b1"]);
    assert_eq!(
        added_node_keys(&state, 100, Some("tenant-a"), false),
        vec!["a1", "b1", "global"]
    );
    assert_eq!(added_node_keys(&state, 100, None, true), vec!["a1", "b1", "global"]);

    clear_current_transaction_state(&mut state);
}

#[test]
fn filter_value_updates_are_transaction_local() {
    let mut state = TxState::new(tx_delta::default_limits());
    clear_current_transaction_state(&mut state);
    record_filter_value_update(&mut state, 2, 42, Some(EncodedFilterValue::Numeric(101)))
        .expect("record filter update");

    assert_eq!(
        filter_value_update(&state, 2, 42),
        Some(Some(EncodedFilterValue::Numeric(101)))
    );
    assert!(tx_delta::stats(&state).dirty);

    clear_current_transaction_state(&mut state);
    assert_eq!(filter_value_update(&state, 2, 42), None);
}

#[test]
fn deleted_nodes_are_transaction_local() {
    let mut state = TxState::new(tx_delta::default_limits());
    clear_current_transaction_state(&mut state);
    record_deleted_node(&mut state, 42).expect("record node tombstone");

    assert!(node_deleted(&state, 42));
    assert!(!node_deleted(&state, 43));
    assert_eq!(tx_delta::stats(&state).deleted_nodes, 1);

    clear_current_transaction_state(&mut state);
    assert!(!node_deleted(&state, 42));
}

#[test]
fn edge_overlay_cancels_local_insert_delete_pairs() {
    let mut state = TxState::new(tx_delta::default_limits());
    clear_current_transaction_state(&mut state);

    record_added_edge(&mut state, 1,
        DeltaEdge {
            target: 2,
            type_id: 1,
            weight: None,
        },
    )
    .expect("record insert");
    record_deleted_edge(&mut state, 1, 2, 1).expect("record delete");
    let (inserts, deletes) = edge_overlay(&state, TraversalDirection::Out);
    assert!(inserts.is_empty());
    assert!(deletes.is_empty());

    record_added_edge(&mut state, 1,
        DeltaEdge {
            target: 2,
            type_id: 1,
            weight: None,
        },
    )
    .expect("record insert after delete");
    let (inserts, deletes) = edge_overlay(&state, TraversalDirection::In);
    assert!(deletes.is_empty());
    assert!(inserts.get(&2).is_some_and(|edges| edges.contains(&(1, 1))));

    record_deleted_edge(&mut state, 1, 2, 1).expect("record delete after insert");
    let (inserts, deletes) = edge_overlay(&state, TraversalDirection::Out);
    assert!(inserts.is_empty());
    assert!(deletes.is_empty());
}

#[test]
fn edge_delta_capacity_allows_net_neutral_pairs_at_limit() {
    let mut state = TxState::new(tx_delta::default_limits());
    clear_current_transaction_state(&mut state);
    state.limits = TxDeltaLimits { max_nodes: 100_000, max_edges: 1, max_memory_bytes: 256 * 1_048_576 };

    record_deleted_edge(&mut state, 1, 2, 1).expect("record delete at limit");
    record_added_edge(&mut state, 1,
        DeltaEdge {
            target: 2,
            type_id: 1,
            weight: None,
        },
    )
    .expect("delete plus add should be net neutral at limit");
    assert_eq!(tx_delta::stats(&state).deleted_edges, 0);
    assert_eq!(tx_delta::stats(&state).added_edges, 0);

    record_added_edge(&mut state, 1,
        DeltaEdge {
            target: 2,
            type_id: 1,
            weight: None,
        },
    )
    .expect("record insert at limit");
    record_deleted_edge(&mut state, 1, 2, 1).expect("insert plus delete should be net neutral at limit");
    assert_eq!(tx_delta::stats(&state).deleted_edges, 0);
    assert_eq!(tx_delta::stats(&state).added_edges, 0);

    clear_current_transaction_state(&mut state);
}

#[test]
fn transaction_end_clears_delta_and_subtransaction_flag() {
    let mut state = TxState::new(tx_delta::default_limits());
    clear_current_transaction_state(&mut state);
    recorded(&mut state).add_node_for_test(100, "new-node", 42);
    state.subtransaction_depth = 2;

    clear_current_transaction_state(&mut state);

    assert_eq!(tx_delta::stats(&state), TxDeltaStats::default());
    assert!(!subtransaction_active(&state));
}

#[test]
fn subtransaction_depth_counts_starts() {
    let mut state = TxState::new(tx_delta::default_limits());
    increment_subtransaction_depth(&mut state);
    increment_subtransaction_depth(&mut state);
    assert_eq!(state.subtransaction_depth, 2);
    state.subtransaction_depth = u32::MAX;
    increment_subtransaction_depth(&mut state);
    assert_eq!(state.subtransaction_depth, u32::MAX);
}

#[test]
fn nested_subtransaction_depth_survives_inner_commit() {
    let mut state = TxState::new(tx_delta::default_limits());
    clear_current_transaction_state(&mut state);
    state.subtransaction_depth = 2;

    decrement_subtransaction_depth(&mut state);

    assert!(subtransaction_active(&state));
    decrement_subtransaction_depth(&mut state);
    assert!(!subtransaction_active(&state));
}

#[test]
fn subtransaction_abort_preserves_outer_delta_and_depth() {
    let mut state = TxState::new(tx_delta::default_limits());
    clear_current_transaction_state(&mut state);
    recorded(&mut state).add_node_for_test(100, "new-node", 42);
    state.subtransaction_depth = 2;

    decrement_subtransaction_depth(&mut state);

    assert!(tx_delta::stats(&state).dirty);
    assert!(subtransaction_active(&state));
}

#[test]
fn subtransaction_rejection_is_explicit() {
    let mut state = TxState::new(tx_delta::default_limits());
    state.subtransaction_depth = 1;

    let err = record_added_edge(&mut state, 1,
        DeltaEdge {
            target: 2,
            type_id: 1,
            weight: None,
        },
    )
    .expect_err("subtransaction should be rejected");

    assert!(matches!(err, GraphError::UnsupportedOperation { .. }));
    state.subtransaction_depth = 0;
}

#[test]
fn capacity_rejection_reports_overlay_limit_before_subtransaction_guard() {
    let mut state = TxState::new(tx_delta::default_limits());
    clear_current_transaction_state(&mut state);
    state.subtransaction_depth = 1;

    let err = ensure_write_capacity(&state, 100_001, 0, 0)
        .expect_err("node capacity should reject before subtransaction");

    assert!(matches!(
        err,
        GraphError::OverlayLimit { kind, .. } if kind == "tx_delta_nodes"
    ));
    state.subtransaction_depth = 0;
}

#[test]
fn overlay_memory_limit_rejects_before_recording_delta() {
    let mut state = TxState::new(tx_delta::default_limits());
    clear_current_transaction_state(&mut state);
    state.limits = TxDeltaLimits { max_nodes: 100_000, max_edges: 100_000, max_memory_bytes: 8 };

    let err =
        record_added_node(&mut state, 100, "long-primary-key", None).expect_err("memory cap should reject");

    assert!(matches!(
        err,
        GraphError::OverlayLimit { kind, .. } if kind == "overlay_memory_bytes"
    ));
    assert_eq!(tx_delta::stats(&state), TxDeltaStats::default());
    clear_current_transaction_state(&mut state);
}

#[test]
fn heap_bytes_add_up_capacities() {
    let capacities = DeltaCapacities {
        text: 5,
        nodes: 2,
        deleted_nodes: 3,
        sources: 4,
        edges: 6,
        deleted_edges: 7,
        updates: 8,
    };
    let expected = 5
        + 2 * size_of::<AddedNode>()
        + 3 * 4
        + 4 * (4 + size_of::<Vec<DeltaEdge>>())
        + 6 * size_of::<DeltaEdge>()
        + 7 * 12
        + 8 * (size_of::<(usize, u32)>() + size_of::<Option<EncodedFilterValue>>());
    assert_eq!(heap_bytes(capacities), expected);
    assert_eq!(heap_bytes(DeltaCapacities { nodes: usize::MAX, ..capacities }), usize::MAX);
}

#[test]
fn added_edges_are_charged_with_their_lists() {
    let mut state = TxState::new(tx_delta::default_limits());
    let edge = DeltaEdge { target: 2, type_id: 1, weight: None };
    let bytes = 4 + size_of::<Vec<DeltaEdge>>() + size_of::<DeltaEdge>();
    state.limits.max_memory_bytes = bytes - 1;
    let err = record_added_edge(&mut state, 1, edge).expect_err("memory cap should reject");
    assert!(matches!(
        err,
        GraphError::OverlayLimit { requested, limit, .. } if requested == bytes && limit + 1 == bytes
    ));
    assert!(state.delta.is_none());
    state.limits.max_memory_bytes = bytes;
    record_added_edge(&mut state, 1, edge).expect("first edge fits");
    assert!(tx_delta::stats(&state).memory_bytes >= bytes);
}

#[test]
fn recorded_memory_counts_against_the_limit() {
    let mut state = TxState::new(tx_delta::default_limits());
    record_deleted_node(&mut state, 7).expect("record node tombstone");
    let memory = tx_delta::stats(&state).memory_bytes;
    assert!(memory >= 4);
    state.limits.max_memory_bytes = memory + 3;
    assert!(ensure_write_capacity(&state, 1, 0, 3).is_ok());
    assert!(ensure_write_capacity(&state, 1, 0, 4).is_err());
    assert!(record_deleted_node(&mut state, 8).is_err());
    assert!(record_deleted_node_at(&mut state, memory - 1, 8).is_ok());
}

#[test]
fn memory_follows_std_collections() {
    let mut state = TxState::new(tx_delta::default_limits());
    let mut lists: HashMap<u32, Vec<DeltaEdge>> = HashMap::new();
    let mut nodes: HashSet<u32> = HashSet::new();
    for source in 0..40u32 {
        for target in 0..(source % 7) {
            let edge = DeltaEdge { target, type_id: 1, weight: None };
            record_added_edge(&mut state, source, edge).expect("edge is recorded");
            lists.entry(source).or_default().push(edge);
        }
        record_deleted_node(&mut state, source).expect("node is recorded");
        nodes.insert(source);
    }
    record_deleted_edge(&mut state, 6, 0, 1).expect("edge is deleted");
    lists.get_mut(&6).unwrap().retain(|edge| edge.target != 0);
    let expected = lists.capacity() * (4 + size_of::<Vec<DeltaEdge>>())
        + lists.values().map(|list| list.capacity() * size_of::<DeltaEdge>()).sum::<usize>()
        + nodes.capacity() * 4;
    assert_eq!(tx_delta::stats(&state).memory_bytes, expected);
}

#[test]
fn cleared_transactions_say_nothing() {
    let mut state = TxState::new(tx_delta::default_limits());
    record_added_node(&mut state, 100, "n1", None).expect("record node");
    record_added_edge(&mut state, 1, DeltaEdge { target: 2, type_id: 1, weight: Some(4) })
        .expect("record edge");
    assert!(edge_delta_dirty(&state));
    increment_subtransaction_depth(&mut state);
    clear_current_transaction_state(&mut state);
    assert_eq!(tx_delta::stats(&state), TxDeltaStats::default());
    assert!(!subtransaction_active(&state));
    assert!(!edge_delta_dirty(&state));
    assert!(!node_deleted(&state, 1));
    assert!(added_node_keys(&state, 100, None, false).is_empty());
    for direction in [TraversalDirection::Out, TraversalDirection::In, TraversalDirection::Any] {
        let (inserts, deletes) = edge_overlay(&state, direction);
        assert!(inserts.is_empty() && deletes.is_empty());
    }
}

#[test]
fn overlays_turn_edges_of_several_sources() {
    let mut state = TxState::new(tx_delta::default_limits());
    for (source, target, type_id) in [(1, 9, 1), (2, 9, 1), (1, 9, 2), (1, 3, 1)] {
        record_added_edge(&mut state, source, DeltaEdge { target, type_id, weight: None })
            .expect("record edge");
    }
    let (outgoing, _) = edge_overlay(&state, TraversalDirection::Out);
    assert_eq!(outgoing[&1], vec![(9, 1), (9, 2), (3, 1)]);
    assert_eq!(outgoing[&2], vec![(9, 1)]);
    let (incoming, _) = edge_overlay(&state, TraversalDirection::In);
    let mut sources = incoming[&9].clone();
    sources.sort();
    assert_eq!(sources, vec![(1, 1), (1, 2), (2, 1)]);
    assert_eq!(incoming[&3], vec![(1, 1)]);
}
