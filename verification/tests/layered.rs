//! Neighbor sources and reads layered over durable segments.

use pggraph::checksum::checksum_text;
use pggraph::edge_store::{EdgeStore, RawEdge};
use pggraph::projection::ingest::segment_file_name;
use pggraph::projection::layered::{LayeredEdge, LayeredNeighbors, ManifestSegmentProvider};
use pggraph::projection::manifest::{
    ManifestSegmentRef, ProjectionManifest, ProjectionManifestStore,
};
use pggraph::projection::neighbors::{
    CsrNeighbors, Neighbor, NeighborSource, OverlayDeletes, OverlayInserts, OverlayNeighbors,
    WeightedNeighbor,
};
use pggraph::projection::normalize::MutationOperation;
use pggraph::projection::segment::{
    DeltaSegment, SegmentEdge, SegmentEdgeWeight, SegmentKind, SegmentNodeState, SegmentTenant,
};
use pggraph::projection::tx_delta::{
    self, record_added_edge, record_deleted_edge, record_deleted_node, DeltaEdge, TxState,
};
use pggraph::safety::GraphError;
use pggraph::types::TraversalDirection;

fn edge_store_from_tuples(node_count: u32, edges: &[(u32, u32, u8)]) -> EdgeStore {
    EdgeStore::from_edges(
        node_count,
        edges
            .iter()
            .map(|&(source, target, type_id)| RawEdge {
                source,
                target,
                type_id,
                weight: None,
                schema_reversed: false,
            })
            .collect(),
        false,
    )
}

fn weighted_edge_store_from_tuples(node_count: u32, edges: &[(u32, u32, u8, u32)]) -> EdgeStore {
    EdgeStore::from_edges(
        node_count,
        edges
            .iter()
            .map(|&(source, target, type_id, weight)| RawEdge {
                source,
                target,
                type_id,
                weight: Some(weight),
                schema_reversed: false,
            })
            .collect(),
        true,
    )
}

fn collect_neighbors(source: &impl NeighborSource, node_idx: u32) -> Vec<Neighbor> {
    source.neighbors(node_idx).collect()
}

fn assert_full_csr_equivalence(
    node_count: u32,
    expected: &impl NeighborSource,
    actual: &impl NeighborSource,
) {
    for node_idx in 0..node_count {
        assert_eq!(
            collect_neighbors(expected, node_idx),
            collect_neighbors(actual, node_idx),
            "neighbor mismatch at node {node_idx}"
        );
        assert_eq!(
            expected.neighbors_reversed(node_idx).collect(),
            actual.neighbors_reversed(node_idx).collect(),
            "reversed neighbor mismatch at node {node_idx}"
        );
    }
}

fn manifest_with_segment(
    generation_id: u64,
    bytes: &[u8],
    segment: &DeltaSegment,
) -> ProjectionManifest {
    let mut manifest = ProjectionManifest::base_only(
        generation_id,
        "base.pggraph",
        "crc32:base",
        1,
        segment.header.sync_watermark,
        1,
    );
    manifest.segments.push(ManifestSegmentRef {
        path: segment_file_name(generation_id, 0),
        checksum: checksum_text(bytes),
        level: segment.header.level,
        source_start: segment.header.source_start,
        source_end: segment.header.source_end,
        sync_watermark: segment.header.sync_watermark,
    });
    manifest
}

#[test]
fn artifact_dir_builds_stable_projection_paths() {
    let dir = ProjectionManifestStore::new("/artifact_dir_builds_stable_projection_paths");

    assert!(dir.manifest_path(42).starts_with("/artifact_dir_builds_stable_projection_paths/"));
    assert!(dir
        .manifest_path(42)
        .ends_with("projection-generation-00000000000000000042.json"));
    assert!(segment_file_name(42, 7).ends_with(
        "projection-generation-00000000000000000042-segment-00000007.pggraph-delta"
    ));
}

#[test]
fn tuple_edges_build_expected_csr_neighbors() {
    let store = edge_store_from_tuples(3, &[(0, 1, 2), (0, 2, 3)]);
    let neighbors = CsrNeighbors::new(&store);

    assert_eq!(
        collect_neighbors(&neighbors, 0),
        vec![
            Neighbor {
                target: 1,
                type_id: 2,
                schema_reversed: false,
            },
            Neighbor {
                target: 2,
                type_id: 3,
                schema_reversed: false,
            },
        ]
    );
}

#[test]
fn weighted_edges_and_equivalence_helpers_cover_future_surfaces() {
    let store = weighted_edge_store_from_tuples(3, &[(0, 1, 2, 10), (1, 2, 3, 20)]);
    let expected = CsrNeighbors::new(&store);
    let actual = CsrNeighbors::new(&store);

    assert_full_csr_equivalence(3, &expected, &actual);
}

#[test]
fn synthetic_sync_operation_fixture_covers_all_mutation_kinds() {
    let operations = [
        MutationOperation::InsertEdge,
        MutationOperation::DeleteEdge,
        MutationOperation::UpsertNode,
        MutationOperation::DeleteNode,
    ];

    assert_eq!(operations.len(), 4);
}

#[test]
fn clean_neighbors_match_csr_order() {
    let edges = vec![
        RawEdge {
            source: 0,
            target: 1,
            type_id: 1,
            weight: None,
            schema_reversed: false,
        },
        RawEdge {
            source: 0,
            target: 2,
            type_id: 2,
            weight: None,
            schema_reversed: false,
        },
    ];
    let store = EdgeStore::from_edges(3, edges, false);
    let neighbors = CsrNeighbors::new(&store);

    let actual = neighbors.neighbors(0).collect();

    assert_eq!(
        actual,
        vec![
            Neighbor {
                target: 1,
                type_id: 1,
                schema_reversed: false,
            },
            Neighbor {
                target: 2,
                type_id: 2,
                schema_reversed: false,
            }
        ]
    );
}

#[test]
fn overlay_neighbors_hide_deletes_and_append_inserts() {
    let store = EdgeStore::from_edges(
        4,
        vec![
            RawEdge {
                source: 0,
                target: 1,
                type_id: 1,
                weight: None,
                schema_reversed: false,
            },
            RawEdge {
                source: 0,
                target: 2,
                type_id: 1,
                weight: None,
                schema_reversed: false,
            },
        ],
        false,
    );
    let mut inserts = OverlayInserts::new();
    inserts.insert(0, vec![(3, 1), (2, 1), (3, 1)]);
    let mut deletes = OverlayDeletes::new();
    deletes.insert(0, vec![(1, 1)]);
    let neighbors = OverlayNeighbors::new(&store, &inserts, &deletes);

    let actual = neighbors.neighbors(0).collect();

    assert_eq!(
        actual,
        vec![
            Neighbor {
                target: 2,
                type_id: 1,
                schema_reversed: false,
            },
            Neighbor {
                target: 3,
                type_id: 1,
                schema_reversed: false,
            }
        ]
    );
}

#[test]
fn layered_layered_neighbors_equal_full_rebuild_for_insert_delete_sequence() {
    let base = edge_store_from_tuples(4, &[(0, 1, 1), (0, 2, 1)]);
    let mut insert = DeltaSegment::new(SegmentKind::Edge, 0, TraversalDirection::Out, 0, 4, 1)
        .expect("insert segment");
    insert.edge_inserts.push(SegmentEdge {
        source: 0,
        target: 3,
        type_id: 1,
        schema_reversed: false,
    });
    let mut delete = DeltaSegment::new(SegmentKind::Edge, 0, TraversalDirection::Out, 0, 4, 2)
        .expect("delete segment");
    delete.edge_deletes.push(SegmentEdge {
        source: 0,
        target: 1,
        type_id: 1,
        schema_reversed: false,
    });
    let layered = LayeredNeighbors::new(&base, vec![insert, delete]);
    let full_rebuild = edge_store_from_tuples(4, &[(0, 2, 1), (0, 3, 1)]);
    let expected = CsrNeighbors::new(&full_rebuild);

    assert_full_csr_equivalence(4, &expected, &layered);
}

#[test]
fn layered_neighbors_tx_delta_wins_over_durable_segments() {
    let mut state = TxState::new(tx_delta::default_limits());
    let base = edge_store_from_tuples(4, &[(0, 1, 1)]);
    let mut durable = DeltaSegment::new(SegmentKind::Edge, 0, TraversalDirection::Out, 0, 4, 1)
        .expect("durable segment");
    durable.edge_inserts.push(SegmentEdge {
        source: 0,
        target: 2,
        type_id: 1,
        schema_reversed: false,
    });
    record_deleted_edge(&mut state, 0, 2, 1).expect("record tx delete");
    record_added_edge(&mut state, 0,
        DeltaEdge {
            target: 3,
            type_id: 1,
            weight: None,
        },
    )
    .expect("record tx insert");
    let layered = LayeredNeighbors::new(&base, vec![durable]).with_transaction(state.delta.as_ref());

    assert_eq!(
        layered.neighbors(0).collect(),
        vec![
            Neighbor {
                target: 1,
                type_id: 1,
                schema_reversed: false,
            },
            Neighbor {
                target: 3,
                type_id: 1,
                schema_reversed: false,
            },
        ]
    );
}

#[test]
fn inbound_reads_show_the_opposite_of_a_base_edge() {
    let base = edge_store_from_tuples(2, &[(0, 1, 1)]);
    let mut segment = DeltaSegment::new(SegmentKind::Edge, 0, TraversalDirection::Out, 0, 2, 1)
        .expect("segment");
    segment.edge_inserts.push(SegmentEdge {
        source: 1,
        target: 0,
        type_id: 1, schema_reversed: false,
    });
    let layered = LayeredNeighbors::new(&base, vec![segment]);
    assert_eq!(
        layered.merged_neighbors(TraversalDirection::In, 0, false),
        vec![(
            1,
            LayeredEdge { target: 1, type_id: 1, schema_reversed: false, weight: None },
        )]
    );
    assert_eq!(
        layered.merged_neighbors(TraversalDirection::In, 1, false),
        vec![(
            0,
            LayeredEdge { target: 0, type_id: 1, schema_reversed: false, weight: None },
        )]
    );
}

#[test]
fn segments_add_up_alike_in_any_order() {
    let base = edge_store_from_tuples(3, &[(0, 1, 1)]);
    let row = SegmentEdge { source: 0, target: 1, type_id: 1, schema_reversed: false };
    let mut delete = DeltaSegment::new(SegmentKind::Edge, 0, TraversalDirection::Out, 0, 3, 1)
        .expect("segment");
    delete.edge_deletes.push(row);
    let mut insert = DeltaSegment::new(SegmentKind::Edge, 0, TraversalDirection::Out, 0, 3, 2)
        .expect("segment");
    insert.edge_inserts.push(row);
    let one = LayeredNeighbors::new(&base, vec![delete.clone(), insert.clone()]);
    let other = LayeredNeighbors::new(&base, vec![insert, delete]);
    assert_eq!(
        one.merged_neighbors(TraversalDirection::Out, 0, false),
        other.merged_neighbors(TraversalDirection::Out, 0, false)
    );
    assert_eq!(one.merged_neighbors(TraversalDirection::Out, 0, false).len(), 1);
}

#[test]
fn layered_neighbors_inbound_direction_matches_full_rebuild() {
    let base = edge_store_from_tuples(4, &[(1, 0, 1)]);
    let mut inbound = DeltaSegment::new(SegmentKind::Edge, 0, TraversalDirection::In, 0, 4, 1)
        .expect("inbound segment");
    inbound.edge_inserts.push(SegmentEdge {
        source: 0,
        target: 2,
        type_id: 1,
        schema_reversed: false,
    });
    let layered = LayeredNeighbors::new(&base, vec![inbound]);
    let actual = layered.merged_neighbors(TraversalDirection::In, 0, false);

    assert_eq!(
        actual
            .into_iter()
            .map(|(target, edge)| Neighbor {
                target,
                type_id: edge.type_id,
                schema_reversed: false,
            })
            .collect::<Vec<_>>(),
        vec![
            Neighbor {
                target: 1,
                type_id: 1,
                schema_reversed: false,
            },
            Neighbor {
                target: 2,
                type_id: 1,
                schema_reversed: false,
            },
        ]
    );
}

#[test]
fn layered_neighbors_suppresses_duplicates_across_layers() {
    let base = edge_store_from_tuples(3, &[(0, 1, 1)]);
    let mut segment = DeltaSegment::new(SegmentKind::Edge, 0, TraversalDirection::Out, 0, 3, 1)
        .expect("segment");
    segment.edge_inserts.push(SegmentEdge {
        source: 0,
        target: 1,
        type_id: 1,
        schema_reversed: false,
    });
    segment.edge_inserts.push(SegmentEdge {
        source: 0,
        target: 2,
        type_id: 1,
        schema_reversed: false,
    });
    segment.edge_inserts.push(SegmentEdge {
        source: 0,
        target: 2,
        type_id: 1,
        schema_reversed: false,
    });
    let layered = LayeredNeighbors::new(&base, vec![segment]);

    assert_eq!(
        layered.neighbors(0).collect(),
        vec![
            Neighbor {
                target: 1,
                type_id: 1,
                schema_reversed: false,
            },
            Neighbor {
                target: 2,
                type_id: 1,
                schema_reversed: false,
            },
        ]
    );
}

#[test]
fn weighted_shortest_path_uses_durable_weight_segments() {
    let base = weighted_edge_store_from_tuples(4, &[(0, 1, 1, 10)]);
    let mut segment = DeltaSegment::new(SegmentKind::Edge, 0, TraversalDirection::Out, 0, 4, 1)
        .expect("segment");
    segment.edge_inserts.push(SegmentEdge {
        source: 0,
        target: 2,
        type_id: 1,
        schema_reversed: false,
    });
    segment.edge_weights.push(SegmentEdgeWeight {
        source: 0,
        target: 2,
        type_id: 1,
        weight: 3,
        schema_reversed: false,
    });
    let layered = LayeredNeighbors::new(&base, vec![segment]);

    assert_eq!(
        layered.weighted_neighbors(0),
        vec![
            WeightedNeighbor {
                target: 1,
                type_id: 1,
                weight: 10,
                schema_reversed: false,
            },
            WeightedNeighbor {
                target: 2,
                type_id: 1,
                weight: 3,
                schema_reversed: false,
            },
        ]
    );
}

#[test]
fn layered_reads_hide_transaction_deleted_nodes() {
    let mut state = TxState::new(tx_delta::default_limits());
    let base = edge_store_from_tuples(4, &[(0, 1, 1), (0, 2, 1), (3, 0, 1)]);
    record_deleted_node(&mut state, 0).expect("record source node delete");
    let source_deleted = LayeredNeighbors::new(&base, Vec::new()).with_transaction(state.delta.as_ref());

    assert!(source_deleted.neighbors(0).collect().is_empty());

    let mut state = TxState::new(tx_delta::default_limits());
    record_deleted_node(&mut state, 2).expect("record target node delete");
    let target_deleted = LayeredNeighbors::new(&base, Vec::new()).with_transaction(state.delta.as_ref());

    assert_eq!(
        target_deleted.neighbors(0).collect(),
        vec![Neighbor {
            target: 1,
            type_id: 1,
            schema_reversed: false,
        }]
    );
}

#[test]
fn weighted_neighbors_preserve_transaction_local_insert_weights() {
    let mut state = TxState::new(tx_delta::default_limits());
    let base = weighted_edge_store_from_tuples(4, &[(0, 1, 1, 10)]);
    record_added_edge(&mut state, 0,
        DeltaEdge {
            target: 2,
            type_id: 1,
            weight: Some(4),
        },
    )
    .expect("record weighted tx insert");
    let layered = LayeredNeighbors::new(&base, Vec::new()).with_transaction(state.delta.as_ref());

    assert_eq!(
        layered.weighted_neighbors(0),
        vec![
            WeightedNeighbor {
                target: 1,
                type_id: 1,
                weight: 10,
                schema_reversed: false,
            },
            WeightedNeighbor {
                target: 2,
                type_id: 1,
                weight: 4,
                schema_reversed: false,
            },
        ]
    );
}

#[test]
fn layered_reads_apply_tenant_filter_and_node_visibility_segments() {
    let base = edge_store_from_tuples(4, &[(0, 1, 1), (0, 2, 1), (0, 3, 1)]);
    let mut node_segment =
        DeltaSegment::new(SegmentKind::Node, 0, TraversalDirection::Any, 0, 4, 1)
            .expect("node segment");
    node_segment.tenants.push(SegmentTenant {
        node_idx: 0,
        tenant_hash: 42,
        tombstone: false,
    });
    node_segment.node_states.push(SegmentNodeState {
        node_idx: 2,
        active: false,
    });
    node_segment.tenants.push(SegmentTenant {
        node_idx: 1,
        tenant_hash: 42,
        tombstone: false,
    });
    node_segment.tenants.push(SegmentTenant {
        node_idx: 2,
        tenant_hash: 42,
        tombstone: false,
    });
    let layered = LayeredNeighbors::new_with_tenant(&base, vec![node_segment], Some(42));

    assert_eq!(
        layered.neighbors(0).collect(),
        vec![Neighbor {
            target: 1,
            type_id: 1,
            schema_reversed: false,
        }]
    );
}

#[test]
fn manifest_segment_provider_loads_real_segments() {
    let base = edge_store_from_tuples(2, &[]);
    let mut segment = DeltaSegment::new(SegmentKind::Edge, 0, TraversalDirection::Out, 0, 2, 1)
        .expect("segment");
    segment.edge_inserts.push(SegmentEdge {
        source: 0,
        target: 1,
        type_id: 1,
        schema_reversed: false,
    });
    let bytes = segment.to_bytes().expect("segment writes");
    let manifest = manifest_with_segment(1, &bytes, &segment);
    let files = vec![Ok(bytes)];
    let chunks = Vec::new();
    let provider = ManifestSegmentProvider::new(&manifest, &files, &chunks);
    let layered =
        LayeredNeighbors::from_provider(&base, &provider).expect("provider loads segments");

    assert_eq!(
        layered.neighbors(0).collect(),
        vec![Neighbor {
            target: 1,
            type_id: 1,
            schema_reversed: false,
        }]
    );
}

#[test]
fn manifest_segment_provider_rejects_checksum_mismatch() {
    let base = edge_store_from_tuples(2, &[]);
    let mut segment = DeltaSegment::new(SegmentKind::Edge, 0, TraversalDirection::Out, 0, 2, 1)
        .expect("segment");
    segment.edge_inserts.push(SegmentEdge {
        source: 0,
        target: 1,
        type_id: 1,
        schema_reversed: false,
    });
    let bytes = segment.to_bytes().expect("segment writes");
    let mut manifest = manifest_with_segment(1, &bytes, &segment);
    manifest.segments[0].checksum = "crc32:00000000".to_string();
    let files = vec![Ok(bytes)];
    let chunks = Vec::new();
    let provider = ManifestSegmentProvider::new(&manifest, &files, &chunks);

    let err = match LayeredNeighbors::from_provider(&base, &provider) {
        Ok(_) => panic!("checksum mismatch should reject segment"),
        Err(err) => err,
    };

    assert!(matches!(err, GraphError::CorruptFile { .. }));
}

#[test]
fn durable_delete_then_later_insert_reactivates_edge() {
    let base = edge_store_from_tuples(2, &[(0, 1, 1)]);
    let mut delete = DeltaSegment::new(SegmentKind::Edge, 0, TraversalDirection::Out, 0, 2, 1)
        .expect("delete segment");
    delete.edge_deletes.push(SegmentEdge {
        source: 0,
        target: 1,
        type_id: 1,
        schema_reversed: false,
    });
    let mut insert = DeltaSegment::new(SegmentKind::Edge, 0, TraversalDirection::Out, 0, 2, 2)
        .expect("insert segment");
    insert.edge_inserts.push(SegmentEdge {
        source: 0,
        target: 1,
        type_id: 1,
        schema_reversed: false,
    });
    let layered = LayeredNeighbors::new(&base, vec![insert, delete]);

    assert_eq!(
        layered.neighbors(0).collect(),
        vec![Neighbor {
            target: 1,
            type_id: 1,
            schema_reversed: false,
        }]
    );
}

#[test]
fn test_contracts_layered_neighbors_equal_full_rebuild_for_insert_delete_sequence() {
    let base = edge_store_from_tuples(4, &[(0, 1, 1), (0, 2, 1)]);
    let mut insert = DeltaSegment::new(SegmentKind::Edge, 0, TraversalDirection::Out, 0, 4, 1)
        .expect("insert segment");
    insert.edge_inserts.push(SegmentEdge {
        source: 0,
        target: 3,
        type_id: 1,
        schema_reversed: false,
    });
    let mut delete = DeltaSegment::new(SegmentKind::Edge, 0, TraversalDirection::Out, 0, 4, 2)
        .expect("delete segment");
    delete.edge_deletes.push(SegmentEdge {
        source: 0,
        target: 1,
        type_id: 1,
        schema_reversed: false,
    });
    let full_rebuild = edge_store_from_tuples(4, &[(0, 2, 1), (0, 3, 1)]);
    let expected = CsrNeighbors::new(&full_rebuild);
    let layered = LayeredNeighbors::new(&base, vec![insert, delete]);

    assert_full_csr_equivalence(4, &expected, &layered);
}
