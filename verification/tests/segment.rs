//! Durable delta segments.

use pggraph::projection::normalize::{
    normalize_committed_mutations, CommittedMutation, MutationBufferLimits, MutationOperation,
};
use pggraph::projection::segment::{
    checksum_segment_bytes, fuzz_seed_bytes, write_u32_at, write_u64_at, DeltaSegment, SegmentEdge,
    SegmentEdgeWeight, SegmentFilterValue, SegmentKind, SegmentNodeState, SegmentResolution,
    SegmentTenant, CHECKSUM_OFFSET, HEADER_SIZE, RESERVED_OFFSET,
};
use pggraph::safety::GraphError;
use pggraph::types::TraversalDirection;

#[test]
fn segment_delta_segment_roundtrips_edge_topology_weight_and_delete_sections() {
    let mut segment =
        DeltaSegment::new(SegmentKind::Edge, 0, TraversalDirection::Out, 0, 8, 42)
            .expect("segment constructs");
    segment.edge_inserts.push(SegmentEdge {
        source: 0,
        target: 1,
        type_id: 2, schema_reversed: false,
    });
    segment.edge_deletes.push(SegmentEdge {
        source: 2,
        target: 3,
        type_id: 4, schema_reversed: false,
    });
    segment.edge_weights.push(SegmentEdgeWeight {
        source: 0,
        target: 1,
        type_id: 2, schema_reversed: false,
        weight: 7,
    });

    let decoded = DeltaSegment::from_bytes(&segment.to_bytes().expect("segment encodes"))
        .expect("segment decodes");

    assert_eq!(decoded.header.kind, SegmentKind::Edge);
    assert_eq!(decoded.header.direction, TraversalDirection::Out);
    assert_eq!(decoded.edge_inserts, segment.edge_inserts);
    assert_eq!(decoded.edge_deletes, segment.edge_deletes);
    assert_eq!(decoded.edge_weights, segment.edge_weights);
}

#[test]
fn segment_delta_segment_roundtrips_node_resolution_filter_tenant_sections() {
    let mut segment =
        DeltaSegment::new(SegmentKind::Node, 1, TraversalDirection::Any, 0, 8, 43)
            .expect("segment constructs");
    segment.node_states.push(SegmentNodeState {
        node_idx: 1,
        active: false,
    });
    segment.resolutions.push(SegmentResolution {
        table_oid: 100,
        pk_hash: 10_001,
        node_idx: 1,
        tombstone: false,
    });
    segment.filters.push(SegmentFilterValue {
        node_idx: 1,
        column_id: 7,
        value: 99,
        tombstone: true,
    });
    segment.tenants.push(SegmentTenant {
        node_idx: 1,
        tenant_hash: 22_002,
        tombstone: false,
    });

    let decoded = DeltaSegment::from_bytes(&segment.to_bytes().expect("segment encodes"))
        .expect("segment decodes");

    assert_eq!(decoded.header.kind, SegmentKind::Node);
    assert_eq!(decoded.header.level, 1);
    assert_eq!(decoded.node_states, segment.node_states);
    assert_eq!(decoded.resolutions, segment.resolutions);
    assert_eq!(decoded.filters, segment.filters);
    assert_eq!(decoded.tenants, segment.tenants);
}

#[test]
fn delta_segment_rejects_corrupt_offsets_checksum_and_reserved_flags() {
    let mut segment =
        DeltaSegment::new(SegmentKind::Edge, 0, TraversalDirection::Out, 0, 8, 42)
            .expect("segment constructs");
    segment.edge_inserts.push(SegmentEdge {
        source: 0,
        target: 1,
        type_id: 2, schema_reversed: false,
    });
    let bytes = segment.to_bytes().expect("segment encodes");

    let mut bad_offset = bytes.clone();
    write_u64_at(&mut bad_offset, 64, (HEADER_SIZE + 1) as u64);
    rewrite_checksum(&mut bad_offset);
    let offset_err = DeltaSegment::from_bytes(&bad_offset).expect_err("bad offset rejects");

    let mut bad_checksum = bytes.clone();
    bad_checksum[CHECKSUM_OFFSET] ^= 0xff;
    let checksum_err =
        DeltaSegment::from_bytes(&bad_checksum).expect_err("bad checksum rejects");

    let mut bad_reserved = bytes;
    bad_reserved[RESERVED_OFFSET] = 1;
    rewrite_checksum(&mut bad_reserved);
    let reserved_err =
        DeltaSegment::from_bytes(&bad_reserved).expect_err("bad reserved flags reject");

    assert!(matches!(offset_err, GraphError::CorruptFile { .. }));
    assert!(matches!(checksum_err, GraphError::CorruptFile { .. }));
    assert!(matches!(reserved_err, GraphError::CorruptFile { .. }));

    for offset in [15, 60, 120] {
        let mut bad_padding = segment.to_bytes().expect("segment encodes");
        bad_padding[offset] = 1;
        rewrite_checksum(&mut bad_padding);
        let padding_err =
            DeltaSegment::from_bytes(&bad_padding).expect_err("bad padding rejects");
        assert!(matches!(padding_err, GraphError::CorruptFile { .. }));
    }
}

#[test]
fn delta_segment_allows_targets_outside_source_range() {
    let mut segment =
        DeltaSegment::new(SegmentKind::Edge, 0, TraversalDirection::Out, 0, 2, 42)
            .expect("segment constructs");
    segment.edge_inserts.push(SegmentEdge {
        source: 0,
        target: 99,
        type_id: 2, schema_reversed: false,
    });

    let decoded = DeltaSegment::from_bytes(&segment.to_bytes().expect("segment encodes"))
        .expect("segment decodes");

    assert_eq!(decoded.edge_inserts[0].target, 99);
}

#[test]
fn delta_segment_writer_accepts_normalized_edge_rows() {
    let rows = vec![
        committed(1, 0, 1, Some(7), MutationOperation::InsertEdge),
        committed(2, 2, 3, None, MutationOperation::DeleteEdge),
    ];
    let batch = normalize_committed_mutations(&rows, MutationBufferLimits::new(10, 10_000))
        .expect("rows normalize");

    let segment = DeltaSegment::from_normalized_edges(&batch, 0, TraversalDirection::Out, 0, 4)
        .expect("segment builds from normalized rows");
    let decoded = DeltaSegment::from_bytes(&segment.to_bytes().expect("segment encodes"))
        .expect("segment decodes");

    assert_eq!(decoded.edge_inserts.len(), 1);
    assert_eq!(decoded.edge_weights.len(), 1);
    assert_eq!(decoded.edge_deletes.len(), 1);
    assert_eq!(decoded.header.sync_watermark, 2);
}

#[test]
fn delta_segment_writer_rejects_normalized_node_rows() {
    let rows = vec![committed(1, 0, 0, None, MutationOperation::UpsertNode)];
    let batch = normalize_committed_mutations(&rows, MutationBufferLimits::new(10, 10_000))
        .expect("rows normalize");

    let err = DeltaSegment::from_normalized_edges(&batch, 0, TraversalDirection::Out, 0, 4)
        .expect_err("node row cannot be written to edge segment");

    assert!(matches!(err, GraphError::CorruptFile { .. }));
}

#[test]
fn delta_segment_rejects_source_out_of_range() {
    let mut segment =
        DeltaSegment::new(SegmentKind::Edge, 0, TraversalDirection::Out, 0, 2, 42)
            .expect("segment constructs");
    segment.edge_inserts.push(SegmentEdge {
        source: 2,
        target: 0,
        type_id: 2, schema_reversed: false,
    });

    let err = segment
        .to_bytes()
        .expect_err("source outside source range rejects");

    assert!(matches!(err, GraphError::CorruptFile { .. }));
}

#[test]
fn delta_segment_loader_never_panics_on_arbitrary_bytes() {
    let cases: &[&[u8]] = &[
        b"",
        b"PGGSEG01",
        &[0xff; HEADER_SIZE],
        b"not a segment but definitely bytes",
    ];

    for case in cases {
        assert!(DeltaSegment::from_bytes(case).is_err());
    }
}

#[test]
fn fuzz_seeds_decode_whatever_white_space_surrounds_their_names() {
    for (name, kind) in [("edge", SegmentKind::Edge), ("node", SegmentKind::Node)] {
        let seed = fuzz_seed_bytes(name).expect("seed exists");
        let decoded = DeltaSegment::from_bytes(&seed).expect("seed decodes");
        assert_eq!(decoded.header.kind, kind);
        assert_eq!(fuzz_seed_bytes(&format!(" \t{name}\n")), Some(seed));
    }
    assert_eq!(fuzz_seed_bytes("ed ge"), None);
    assert_eq!(fuzz_seed_bytes(""), None);
}

#[test]
fn decoded_segments_encode_to_the_same_bytes() {
    for name in ["edge", "node"] {
        let bytes = fuzz_seed_bytes(name).expect("seed exists");
        let decoded = DeltaSegment::from_bytes(&bytes).expect("seed decodes");
        assert_eq!(decoded.to_bytes(), Ok(bytes));
    }
}

fn rewrite_checksum(bytes: &mut Vec<u8>) {
    write_u32_at(bytes, CHECKSUM_OFFSET, 0);
    let checksum = checksum_segment_bytes(bytes);
    write_u32_at(bytes, CHECKSUM_OFFSET, checksum);
}

fn committed(
    sync_id: u64,
    source: u32,
    target: u32,
    weight: Option<u32>,
    operation: MutationOperation,
) -> CommittedMutation {
    CommittedMutation {
        sync_id,
        generation_id: 1,
        direction: TraversalDirection::Out,
        source,
        target,
        type_id: 1, schema_reversed: false,
        weight,
        operation,
    }
}
