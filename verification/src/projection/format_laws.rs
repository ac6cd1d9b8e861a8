//! How segments are stored.
use vstd::bytes::*;
use vstd::prelude::*;

use crate::projection::segment::{
    self, DeltaSegmentView, SegmentEdge, SegmentEdgeWeight, SegmentFilterValue, SegmentNodeState,
    SegmentResolution, SegmentRow, SegmentTenant,
};
use crate::types::TraversalDirection;

verus! {

/// Whether bytes hold a number of four bytes at a place, the least byte first.
pub open spec fn holds_u32(bytes: Seq<u8>, at: int, value: u32) -> bool {
    0 <= at && at + 4 <= bytes.len() && bytes.subrange(at, at + 4) == spec_u32_to_le_bytes(value)
}

/// Whether bytes hold a number of eight bytes at a place, the least byte first.
pub open spec fn holds_u64(bytes: Seq<u8>, at: int, value: u64) -> bool {
    0 <= at && at + 8 <= bytes.len() && bytes.subrange(at, at + 8) == spec_u64_to_le_bytes(value)
}

/// Whether a byte is one for true and zero for false.
pub open spec fn holds_flag(bytes: Seq<u8>, at: int, flag: bool) -> bool {
    0 <= at < bytes.len() && (flag ==> bytes[at] == 1) && (!flag ==> bytes[at] == 0)
}

/// An edge row has its source, its target, its type and whether it is reversed; a weight
/// row has its weight after them.
pub proof fn lemma_edge_rows(edge: SegmentEdge, weight: SegmentEdgeWeight)
    ensures
        ({
            let bytes = edge.encoded();
            &&& bytes.len() == 10
            &&& holds_u32(bytes, 0, edge.source)
            &&& holds_u32(bytes, 4, edge.target)
            &&& bytes[8] == edge.type_id
            &&& holds_flag(bytes, 9, edge.schema_reversed)
        }),
        ({
            let bytes = weight.encoded();
            &&& bytes.len() == 14
            &&& holds_u32(bytes, 0, weight.source)
            &&& holds_u32(bytes, 4, weight.target)
            &&& bytes[8] == weight.type_id
            &&& holds_flag(bytes, 9, weight.schema_reversed)
            &&& holds_u32(bytes, 10, weight.weight)
        }),
{
    lemma_auto_spec_u32_to_from_le_bytes();
    let a = edge.encoded();
    assert(a.subrange(0, 4) =~= spec_u32_to_le_bytes(edge.source));
    assert(a.subrange(4, 8) =~= spec_u32_to_le_bytes(edge.target));
    let b = weight.encoded();
    assert(b.subrange(0, 4) =~= spec_u32_to_le_bytes(weight.source));
    assert(b.subrange(4, 8) =~= spec_u32_to_le_bytes(weight.target));
    assert(b.subrange(10, 14) =~= spec_u32_to_le_bytes(weight.weight));
}

/// A node row has its node and whether it is active; a resolution its table, key, node and
/// whether it is a tombstone.
pub proof fn lemma_node_rows(state: SegmentNodeState, resolution: SegmentResolution)
    ensures
        ({
            let bytes = state.encoded();
            &&& bytes.len() == 5
            &&& holds_u32(bytes, 0, state.node_idx)
            &&& holds_flag(bytes, 4, state.active)
        }),
        ({
            let bytes = resolution.encoded();
            &&& bytes.len() == 17
            &&& holds_u32(bytes, 0, resolution.table_oid)
            &&& holds_u64(bytes, 4, resolution.pk_hash)
            &&& holds_u32(bytes, 12, resolution.node_idx)
            &&& holds_flag(bytes, 16, resolution.tombstone)
        }),
{
    lemma_auto_spec_u32_to_from_le_bytes();
    lemma_auto_spec_u64_to_from_le_bytes();
    let a = state.encoded();
    assert(a.subrange(0, 4) =~= spec_u32_to_le_bytes(state.node_idx));
    let b = resolution.encoded();
    assert(b.subrange(0, 4) =~= spec_u32_to_le_bytes(resolution.table_oid));
    assert(b.subrange(4, 12) =~= spec_u64_to_le_bytes(resolution.pk_hash));
    assert(b.subrange(12, 16) =~= spec_u32_to_le_bytes(resolution.node_idx));
}

/// A filter row has its node, column and value, a tenant row its node and tenant; both
/// whether they are tombstones.
pub proof fn lemma_value_rows(filter: SegmentFilterValue, tenant: SegmentTenant)
    ensures
        ({
            let bytes = filter.encoded();
            &&& bytes.len() == 13
            &&& holds_u32(bytes, 0, filter.node_idx)
            &&& holds_u32(bytes, 4, filter.column_id)
            &&& holds_u32(bytes, 8, filter.value)
            &&& holds_flag(bytes, 12, filter.tombstone)
        }),
        ({
            let bytes = tenant.encoded();
            &&& bytes.len() == 13
            &&& holds_u32(bytes, 0, tenant.node_idx)
            &&& holds_u64(bytes, 4, tenant.tenant_hash)
            &&& holds_flag(bytes, 12, tenant.tombstone)
        }),
{
    lemma_auto_spec_u32_to_from_le_bytes();
    lemma_auto_spec_u64_to_from_le_bytes();
    let a = filter.encoded();
    assert(a.subrange(0, 4) =~= spec_u32_to_le_bytes(filter.node_idx));
    assert(a.subrange(4, 8) =~= spec_u32_to_le_bytes(filter.column_id));
    assert(a.subrange(8, 12) =~= spec_u32_to_le_bytes(filter.value));
    let b = tenant.encoded();
    assert(b.subrange(0, 4) =~= spec_u32_to_le_bytes(tenant.node_idx));
    assert(b.subrange(4, 12) =~= spec_u64_to_le_bytes(tenant.tenant_hash));
}

/// The number of rows of the sections before one, in bytes.
pub open spec fn bytes_before(held: DeltaSegmentView, section: int) -> int {
    let edges = 10 * held.edge_inserts.len();
    let deletes = 10 * held.edge_deletes.len();
    let weights = 14 * held.edge_weights.len();
    let states = 5 * held.node_states.len();
    let resolutions = 17 * held.resolutions.len();
    let filters = 13 * held.filters.len();
    if section == 0 {
        0
    } else if section == 1 {
        edges as int
    } else if section == 2 {
        edges + deletes as int
    } else if section == 3 {
        edges + deletes + weights as int
    } else if section == 4 {
        edges + deletes + weights + states as int
    } else if section == 5 {
        edges + deletes + weights + states + resolutions as int
    } else {
        edges + deletes + weights + states + resolutions + filters as int
    }
}

proof fn lemma_next(held: DeltaSegmentView, section: int, width: int)
    requires
        0 <= section < 7,
        segment::section_width(section) == width,
    ensures
        segment::section_start(held, section + 1) == segment::section_start(held, section) + width
            * segment::section_rows(held, section),
{
    let rows = segment::section_rows(held, section) as int;
    let by = segment::section_width(section) as int;
    assert(rows * by == width * rows) by (nonlinear_arith)
        requires
            by == width,
    ;
}

proof fn lemma_starts(held: DeltaSegmentView)
    ensures
        forall|section: int|
            0 <= section < 7 ==> #[trigger] segment::section_start(held, section) == 160
                + bytes_before(held, section),
{
    lemma_next(held, 0, 10);
    lemma_next(held, 1, 10);
    lemma_next(held, 2, 14);
    lemma_next(held, 3, 5);
    lemma_next(held, 4, 17);
    lemma_next(held, 5, 13);
    assert(segment::section_start(held, 0) == 160);
    assert forall|section: int| 0 <= section < 7 implies #[trigger] segment::section_start(
        held,
        section,
    ) == 160 + bytes_before(held, section) by {
        assert(section == 0 || section == 1 || section == 2 || section == 3 || section == 4
            || section == 5 || section == 6);
    }
}

/// A stored segment starts with its mark and version, its kind, direction and level, its
/// source range and watermark; then come the number of rows of each section, where each
/// starts, and the checksum; the rows follow in the order of the sections.
pub proof fn lemma_stored_header(held: DeltaSegmentView, bytes: Seq<u8>, section: int)
    requires
        segment::is_image(held, bytes),
        segment::countable(held),
        bytes.len() <= u64::MAX,
        0 <= section < 7,
    ensures
        bytes.len() >= 160,
        bytes.subrange(0, 8) == seq![80u8, 71u8, 71u8, 83u8, 69u8, 71u8, 48u8, 49u8],
        holds_u32(bytes, 8, 1),
        held.header.kind is Edge ==> bytes[12] == 1,
        held.header.kind is Node ==> bytes[12] == 2,
        held.header.direction == TraversalDirection::Any ==> bytes[13] == 0,
        held.header.direction == TraversalDirection::Out ==> bytes[13] == 1,
        held.header.direction == TraversalDirection::In ==> bytes[13] == 2,
        bytes[14] == held.header.level,
        holds_u32(bytes, 16, held.header.source_start),
        holds_u32(bytes, 20, held.header.source_end),
        held.header.sync_watermark >= 0 ==> holds_u64(bytes, 24, held.header.sync_watermark as u64),
        holds_u32(
            bytes,
            32 + 4 * section,
            (if section == 0 {
                held.edge_inserts.len()
            } else if section == 1 {
                held.edge_deletes.len()
            } else if section == 2 {
                held.edge_weights.len()
            } else if section == 3 {
                held.node_states.len()
            } else if section == 4 {
                held.resolutions.len()
            } else if section == 5 {
                held.filters.len()
            } else {
                held.tenants.len()
            }) as u32,
        ),
        holds_u64(bytes, 64 + 8 * section, (160 + bytes_before(held, section)) as u64),
        bytes.skip(160) == segment::flat(held.edge_inserts) + segment::flat(held.edge_deletes)
            + segment::flat(held.edge_weights) + segment::flat(held.node_states) + segment::flat(
            held.resolutions,
        ) + segment::flat(held.filters) + segment::flat(held.tenants),
{
    lemma_starts(held);
    assert(segment::count_field(bytes, section) == spec_u32_to_le_bytes(
        segment::image_counts(held)[section],
    ));
    assert(segment::offset_field(bytes, section) == spec_u64_to_le_bytes(
        segment::image_offsets(held)[section],
    ));
    assert(segment::section_start(held, section) == 160 + bytes_before(held, section));
}

} // verus!
