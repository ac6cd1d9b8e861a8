//! Durable projection delta segment binary format.
//!
//! Segment files store immutable mutation batches referenced by projection
//! manifests. The loader treats bytes as untrusted input and validates magic,
//! version, offsets, checksum, reserved bytes, and row bounds before returning
//! decoded sections.
use vstd::bytes::*;
use vstd::prelude::*;
use vstd::slice::slice_subrange;

use crate::checksum;
use crate::projection::normalize::{self, NormalizedMutation, NormalizedMutationBatch};
use crate::safety::{self, GraphError, GraphErrorView, GraphResult};
use crate::text::{self, concat2, concat3, concat5, decimal_text, same_text};
use crate::types::TraversalDirection;

verus! {

/// Segment file format version.
pub const VERSION: u32 = 1;

/// Bytes taken by the segment header.
pub const HEADER_SIZE: usize = 160;

/// Position of the checksum field in the header.
pub const CHECKSUM_OFFSET: usize = 124;

/// Position of the reserved tail of the header.
pub const RESERVED_OFFSET: usize = 128;

/// Bytes in the reserved tail of the header.
pub const RESERVED_LEN: usize = 32;

/// Number of row sections in a segment.
pub const SECTION_COUNT: usize = 7;

/// The first eight bytes of every segment: `PGGSEG01`.
pub open spec fn magic() -> Seq<u8> {
    seq![80u8, 71u8, 71u8, 83u8, 69u8, 71u8, 48u8, 49u8]
}

/// Segment file category.
#[derive(Debug, Clone, Copy, PartialEq, Eq, Structural)]
pub enum SegmentKind {
    /// Edge topology, delete, and weight deltas.
    Edge,
    /// Node, resolution, filter, and tenant deltas.
    Node,
}

/// Header metadata for one decoded segment.
#[derive(Debug, Clone, Copy, PartialEq, Eq, Structural)]
pub struct SegmentHeader {
    /// Segment file format version.
    pub version: u32,
    /// Segment category.
    pub kind: SegmentKind,
    /// Segment compaction level.
    pub level: u8,
    /// Direction covered by edge sections.
    pub direction: TraversalDirection,
    /// Inclusive source-node range start.
    pub source_start: u32,
    /// Exclusive source-node range end.
    pub source_end: u32,
    /// Highest sync-log row represented by this segment.
    pub sync_watermark: i64,
    /// CRC32 checksum over the segment bytes with the checksum field zeroed.
    pub checksum: u32,
}

/// Edge topology row.
#[derive(Debug, Clone, Copy, PartialEq, Eq, Structural)]
pub struct SegmentEdge {
    /// Source node index.
    pub source: u32,
    /// Target node index.
    pub target: u32,
    /// Edge type identifier.
    pub type_id: u8,
    /// Whether this edge row is a synthetic reverse of the schema edge.
    pub schema_reversed: bool,
}

/// Weighted edge row.
#[derive(Debug, Clone, Copy, PartialEq, Eq, Structural)]
pub struct SegmentEdgeWeight {
    /// Source node index.
    pub source: u32,
    /// Target node index.
    pub target: u32,
    /// Edge type identifier.
    pub type_id: u8,
    /// Whether this edge row is a synthetic reverse of the schema edge.
    pub schema_reversed: bool,
    /// Edge weight.
    pub weight: u32,
}

/// Node active-state row.
#[derive(Debug, Clone, Copy, PartialEq, Eq, Structural)]
pub struct SegmentNodeState {
    /// Node index.
    pub node_idx: u32,
    /// Whether the node is active after this delta.
    pub active: bool,
}

/// Resolution-index row.
#[derive(Debug, Clone, Copy, PartialEq, Eq, Structural)]
pub struct SegmentResolution {
    /// Source table OID.
    pub table_oid: u32,
    /// Hash of the source primary key.
    pub pk_hash: u64,
    /// Node index.
    pub node_idx: u32,
    /// Whether the resolution entry is removed.
    pub tombstone: bool,
}

/// Filter-index row.
#[derive(Debug, Clone, Copy, PartialEq, Eq, Structural)]
pub struct SegmentFilterValue {
    /// Node index.
    pub node_idx: u32,
    /// Registered filter column identifier.
    pub column_id: u32,
    /// Encoded filter value.
    pub value: u32,
    /// Whether the filter value is removed.
    pub tombstone: bool,
}

/// Tenant-membership row.
#[derive(Debug, Clone, Copy, PartialEq, Eq, Structural)]
pub struct SegmentTenant {
    /// Node index.
    pub node_idx: u32,
    /// Hash of the tenant identifier.
    pub tenant_hash: u64,
    /// Whether the tenant membership is removed.
    pub tombstone: bool,
}

/// Decoded durable delta segment.
#[derive(Debug, Clone, PartialEq, Eq)]
pub struct DeltaSegment {
    /// Segment header.
    pub header: SegmentHeader,
    /// Edge insert/topology rows.
    pub edge_inserts: Vec<SegmentEdge>,
    /// Edge delete rows.
    pub edge_deletes: Vec<SegmentEdge>,
    /// Edge weight rows.
    pub edge_weights: Vec<SegmentEdgeWeight>,
    /// Node active/tombstone rows.
    pub node_states: Vec<SegmentNodeState>,
    /// Resolution-index rows.
    pub resolutions: Vec<SegmentResolution>,
    /// Filter-index rows.
    pub filters: Vec<SegmentFilterValue>,
    /// Tenant-membership rows.
    pub tenants: Vec<SegmentTenant>,
}

/// What a segment holds: its header and the rows of each section.
#[verifier::ext_equal]
pub struct DeltaSegmentView {
    pub header: SegmentHeader,
    pub edge_inserts: Seq<SegmentEdge>,
    pub edge_deletes: Seq<SegmentEdge>,
    pub edge_weights: Seq<SegmentEdgeWeight>,
    pub node_states: Seq<SegmentNodeState>,
    pub resolutions: Seq<SegmentResolution>,
    pub filters: Seq<SegmentFilterValue>,
    pub tenants: Seq<SegmentTenant>,
}

impl View for DeltaSegment {
    type V = DeltaSegmentView;

    open spec fn view(&self) -> DeltaSegmentView {
        DeltaSegmentView {
            header: self.header,
            edge_inserts: self.edge_inserts@,
            edge_deletes: self.edge_deletes@,
            edge_weights: self.edge_weights@,
            node_states: self.node_states@,
            resolutions: self.resolutions@,
            filters: self.filters@,
            tenants: self.tenants@,
        }
    }
}

/// The error of a malformed segment.
pub open spec fn corrupt(reason: Seq<char>) -> GraphErrorView {
    GraphErrorView::CorruptFile { reason: "projection segment: "@ + reason }
}

pub fn segment_corrupt(reason: &str) -> (error: GraphError)
    ensures
        error@ == corrupt(reason@),
{
    GraphError::CorruptFile { reason: concat2("projection segment: ", reason) }
}

/// `first`, or `second` where there is no first.
pub open spec fn first_of(
    first: Option<GraphErrorView>,
    second: Option<GraphErrorView>,
) -> Option<GraphErrorView> {
    if first is Some { first } else { second }
}

// ---------------------------------------------------------------------------
// Fixed-width rows
// ---------------------------------------------------------------------------

/// A value stored in a fixed number of bytes.
pub trait SegmentRow: Sized + Copy {
    /// Bytes taken by one row.
    spec fn width() -> nat;

    /// The bytes of this row.
    spec fn encoded(self) -> Seq<u8>;

    /// The row held in `bytes`, or `None` where a boolean byte is neither 0 nor 1.
    spec fn decoded(bytes: Seq<u8>) -> Option<Self>;

    proof fn encoded_width(self)
        ensures
            self.encoded().len() == Self::width(),
            Self::width() > 0,
    ;

    proof fn decoded_encoded(self)
        ensures
            Self::decoded(self.encoded()) == Some(self),
    ;

    proof fn encoded_decoded(bytes: Seq<u8>)
        requires
            bytes.len() == Self::width(),
            Self::decoded(bytes) is Some,
        ensures
            Self::decoded(bytes)->0.encoded() == bytes,
    ;

    fn row_width() -> (width: usize)
        ensures
            width == Self::width(),
    ;

    fn encode(&self, out: &mut Vec<u8>)
        ensures
            final(out)@ == old(out)@ + self.encoded(),
    ;

    fn decode(bytes: &[u8], offset: usize) -> (row: Option<Self>)
        requires
            offset + Self::width() <= bytes.len(),
        ensures
            row == Self::decoded(bytes@.subrange(offset as int, offset + Self::width())),
    ;
}

/// The bytes of rows stored one after the other.
pub open spec fn flat<R: SegmentRow>(rows: Seq<R>) -> Seq<u8>
    decreases rows.len(),
{
    if rows.len() == 0 {
        Seq::empty()
    } else {
        flat(rows.drop_last()) + rows.last().encoded()
    }
}

/// The bytes of row `i` in a section.
pub open spec fn row_bytes<R: SegmentRow>(bytes: Seq<u8>, i: int) -> Seq<u8> {
    bytes.subrange(i * R::width(), i * R::width() + R::width())
}

/// The rows of a section of `count` rows, or the error of a malformed boolean.
pub open spec fn decoded_rows<R: SegmentRow>(bytes: Seq<u8>, count: nat) -> Result<
    Seq<R>,
    GraphErrorView,
> {
    if forall|i: int| 0 <= i < count ==> R::decoded(#[trigger] row_bytes::<R>(bytes, i)) is Some {
        Ok(Seq::new(count, |i: int| R::decoded(row_bytes::<R>(bytes, i))->0))
    } else {
        Err(corrupt("boolean section value must be 0 or 1"@))
    }
}

proof fn lemma_flat<R: SegmentRow>(rows: Seq<R>)
    ensures
        flat(rows).len() == rows.len() * R::width(),
        forall|i: int| 0 <= i < rows.len() ==> #[trigger] row_bytes::<R>(flat(rows), i) == rows[i].encoded(),
    decreases rows.len(),
{
    if rows.len() > 0 {
        let init = rows.drop_last();
        let w = R::width() as int;
        lemma_flat::<R>(init);
        rows.last().encoded_width();
        assert(rows.len() * w == init.len() * w + w) by (nonlinear_arith)
            requires
                rows.len() == init.len() + 1,
        ;
        assert forall|i: int| 0 <= i < rows.len() implies #[trigger] row_bytes::<R>(flat(rows), i)
            == rows[i].encoded() by {
            assert(0 <= i * w) by (nonlinear_arith)
                requires
                    0 <= i,
                    0 <= w,
            ;
            if i < init.len() {
                assert(i * w + w <= init.len() * w) by (nonlinear_arith)
                    requires
                        i + 1 <= init.len(),
                        0 <= w,
                ;
                assert(row_bytes::<R>(flat(rows), i) =~= row_bytes::<R>(flat(init), i));
            } else {
                assert(i == init.len());
                assert(row_bytes::<R>(flat(rows), i) =~= rows.last().encoded());
            }
        }
    } else {
        assert(0 * R::width() == 0) by (nonlinear_arith);
    }
}

proof fn lemma_decoded_flat<R: SegmentRow>(rows: Seq<R>)
    ensures
        flat(rows).len() == rows.len() * R::width(),
        decoded_rows::<R>(flat(rows), rows.len()) == Ok::<Seq<R>, GraphErrorView>(rows),
{
    lemma_flat::<R>(rows);
    assert forall|i: int| 0 <= i < rows.len() implies R::decoded(
        #[trigger] row_bytes::<R>(flat(rows), i),
    ) == Some(rows[i]) by {
        rows[i].decoded_encoded();
    }
    assert(decoded_rows::<R>(flat(rows), rows.len())->Ok_0 =~= rows);
}

fn encode_rows<R: SegmentRow>(out: &mut Vec<u8>, rows: &[R])
    ensures
        final(out)@ == old(out)@ + flat(rows@),
{
    let ghost start = out@;
    assert(start + flat(rows@.take(0)) =~= start);
    for i in 0..rows.len()
        invariant
            out@ == start + flat(rows@.take(i as int)),
    {
        rows[i].encode(out);
        proof {
            let next = rows@.take(i + 1);
            assert(next.drop_last() =~= rows@.take(i as int));
            assert(next.last() == rows@[i as int]);
            assert(out@ =~= start + flat(next));
        }
    }
    assert(rows@.take(rows@.len() as int) =~= rows@);
}

fn decode_rows<R: SegmentRow>(bytes: &[u8], count: u32) -> (rows: GraphResult<Vec<R>>)
    requires
        bytes.len() == count * R::width(),
    ensures
        safety::outcome(rows) == decoded_rows::<R>(bytes@, count as nat),
{
    let mut rows: Vec<R> = Vec::new();
    let width: usize = R::row_width();
    let mut offset: usize = 0;
    assert(0 * R::width() == 0) by (nonlinear_arith);
    for i in 0..count
        invariant
            width == R::width(),
            bytes.len() == count * R::width(),
            offset == i * R::width(),
            rows@.len() == i,
            forall|j: int|
                0 <= j < i ==> R::decoded(#[trigger] row_bytes::<R>(bytes@, j)) == Some(rows@[j]),
    {
        proof {
            assert((i + 1) * R::width() <= count * R::width()) by (nonlinear_arith)
                requires
                    i + 1 <= count,
            ;
            assert((i + 1) * R::width() == i * R::width() + R::width()) by (nonlinear_arith);
        }
        let decoded: Option<R> = R::decode(bytes, offset);
        assert(bytes@.subrange(offset as int, offset + R::width()) == row_bytes::<R>(
            bytes@,
            i as int,
        ));
        match decoded {
            Some(row) => {
                rows.push(row);
                assert(rows@[i as int] == row);
            },
            None => {
                assert(R::decoded(row_bytes::<R>(bytes@, i as int)) is None);
                return Err(segment_corrupt("boolean section value must be 0 or 1"));
            },
        }
        offset = offset + width;
    }
    assert(rows@ =~= decoded_rows::<R>(bytes@, count as nat)->Ok_0);
    Ok(rows)
}

/// The byte of a boolean.
pub open spec fn bool_byte(value: bool) -> u8 {
    if value { 1 } else { 0 }
}

/// The boolean of a byte, where it is one.
pub open spec fn byte_bool(byte: u8) -> Option<bool> {
    if byte == 0 {
        Some(false)
    } else if byte == 1 {
        Some(true)
    } else {
        None
    }
}

pub fn encode_bool(value: bool) -> (byte: u8)
    ensures
        byte == bool_byte(value),
{
    if value { 1 } else { 0 }
}

pub fn decode_bool(raw: u8) -> (value: GraphResult<bool>)
    ensures
        match value {
            Ok(value) => byte_bool(raw) == Some(value),
            Err(error) => byte_bool(raw) is None && error@ == corrupt(
                "boolean section value must be 0 or 1"@,
            ),
        },
{
    if raw == 0 {
        Ok(false)
    } else if raw == 1 {
        Ok(true)
    } else {
        Err(segment_corrupt("boolean section value must be 0 or 1"))
    }
}

pub fn push_u32(bytes: &mut Vec<u8>, value: u32)
    ensures
        final(bytes)@ == old(bytes)@ + spec_u32_to_le_bytes(value),
{
    let mut raw: Vec<u8> = u32_to_le_bytes(value);
    bytes.append(&mut raw);
}

pub fn push_u64(bytes: &mut Vec<u8>, value: u64)
    ensures
        final(bytes)@ == old(bytes)@ + spec_u64_to_le_bytes(value),
{
    let mut raw: Vec<u8> = u64_to_le_bytes(value);
    bytes.append(&mut raw);
}

fn u32_at(bytes: &[u8], offset: usize) -> (value: u32)
    requires
        offset + 4 <= bytes.len(),
    ensures
        value == spec_u32_from_le_bytes(bytes@.subrange(offset as int, offset + 4)),
{
    u32_from_le_bytes(slice_subrange(bytes, offset, offset + 4))
}

fn u64_at(bytes: &[u8], offset: usize) -> (value: u64)
    requires
        offset + 8 <= bytes.len(),
    ensures
        value == spec_u64_from_le_bytes(bytes@.subrange(offset as int, offset + 8)),
{
    u64_from_le_bytes(slice_subrange(bytes, offset, offset + 8))
}

impl SegmentRow for u32 {
    open spec fn width() -> nat {
        4
    }

    open spec fn encoded(self) -> Seq<u8> {
        spec_u32_to_le_bytes(self)
    }

    open spec fn decoded(bytes: Seq<u8>) -> Option<u32> {
        Some(spec_u32_from_le_bytes(bytes))
    }

    proof fn encoded_width(self) {
        lemma_auto_spec_u32_to_from_le_bytes();
    }

    proof fn decoded_encoded(self) {
        lemma_auto_spec_u32_to_from_le_bytes();
        assert(spec_u32_to_le_bytes(self).len() == 4);
    }

    proof fn encoded_decoded(bytes: Seq<u8>) {
        lemma_auto_spec_u32_to_from_le_bytes();
        assert(bytes.len() == 4);
    }

    fn row_width() -> usize {
        4
    }

    fn encode(&self, out: &mut Vec<u8>) {
        push_u32(out, *self);
    }

    fn decode(bytes: &[u8], offset: usize) -> (row: Option<u32>) {
        Some(u32_at(bytes, offset))
    }
}

impl SegmentRow for u64 {
    open spec fn width() -> nat {
        8
    }

    open spec fn encoded(self) -> Seq<u8> {
        spec_u64_to_le_bytes(self)
    }

    open spec fn decoded(bytes: Seq<u8>) -> Option<u64> {
        Some(spec_u64_from_le_bytes(bytes))
    }

    proof fn encoded_width(self) {
        lemma_auto_spec_u64_to_from_le_bytes();
    }

    proof fn decoded_encoded(self) {
        lemma_auto_spec_u64_to_from_le_bytes();
        assert(spec_u64_to_le_bytes(self).len() == 8);
    }

    proof fn encoded_decoded(bytes: Seq<u8>) {
        lemma_auto_spec_u64_to_from_le_bytes();
        assert(bytes.len() == 8);
    }

    fn row_width() -> usize {
        8
    }

    fn encode(&self, out: &mut Vec<u8>) {
        push_u64(out, *self);
    }

    fn decode(bytes: &[u8], offset: usize) -> (row: Option<u64>) {
        Some(u64_at(bytes, offset))
    }
}

impl SegmentRow for SegmentEdge {
    open spec fn width() -> nat {
        10
    }

    open spec fn encoded(self) -> Seq<u8> {
        spec_u32_to_le_bytes(self.source) + spec_u32_to_le_bytes(self.target) + seq![self.type_id]
            + seq![bool_byte(self.schema_reversed)]
    }

    open spec fn decoded(bytes: Seq<u8>) -> Option<SegmentEdge> {
        if byte_bool(bytes[9]) is Some {
            Some(
                SegmentEdge {
                    source: spec_u32_from_le_bytes(bytes.subrange(0, 4)),
                    target: spec_u32_from_le_bytes(bytes.subrange(4, 8)),
                    type_id: bytes[8],
                    schema_reversed: byte_bool(bytes[9])->0,
                },
            )
        } else {
            None
        }
    }

    proof fn encoded_width(self) {
        lemma_auto_spec_u32_to_from_le_bytes();
        lemma_auto_spec_u64_to_from_le_bytes();
    }

    proof fn decoded_encoded(self) {
        lemma_auto_spec_u32_to_from_le_bytes();
        lemma_auto_spec_u64_to_from_le_bytes();
        let bytes = self.encoded();
        assert(bytes.subrange(0, 4) =~= spec_u32_to_le_bytes(self.source));
        assert(bytes.subrange(4, 8) =~= spec_u32_to_le_bytes(self.target));
    }

    proof fn encoded_decoded(bytes: Seq<u8>) {
        lemma_auto_spec_u32_to_from_le_bytes();
        lemma_auto_spec_u64_to_from_le_bytes();
        assert(spec_u32_to_le_bytes(spec_u32_from_le_bytes(bytes.subrange(0, 4)))
            == bytes.subrange(0, 4));
        assert(spec_u32_to_le_bytes(spec_u32_from_le_bytes(bytes.subrange(4, 8)))
            == bytes.subrange(4, 8));
        assert(Self::decoded(bytes)->0.encoded() =~= bytes);
    }

    fn row_width() -> usize {
        10
    }

    fn encode(&self, out: &mut Vec<u8>) {
        let ghost start = out@;
        push_u32(out, self.source);
        push_u32(out, self.target);
        out.push(self.type_id);
        out.push(encode_bool(self.schema_reversed));
        assert(out@ =~= start + self.encoded());
    }

    fn decode(bytes: &[u8], offset: usize) -> (row: Option<SegmentEdge>) {
        let ghost row_bytes = bytes@.subrange(offset as int, offset + 10);
        assert(row_bytes.subrange(0, 4) =~= bytes@.subrange(offset + 0, offset + 4));
        assert(row_bytes.subrange(4, 8) =~= bytes@.subrange(offset + 4, offset + 8));
        match decode_bool(bytes[offset + 9]) {
            Ok(schema_reversed) => Some(SegmentEdge {
                source: u32_at(bytes, offset),
                target: u32_at(bytes, offset + 4),
                type_id: bytes[offset + 8],
                schema_reversed,
            }),
            Err(_) => None,
        }
    }
}

impl SegmentRow for SegmentEdgeWeight {
    open spec fn width() -> nat {
        14
    }

    open spec fn encoded(self) -> Seq<u8> {
        spec_u32_to_le_bytes(self.source) + spec_u32_to_le_bytes(self.target) + seq![self.type_id]
            + seq![bool_byte(self.schema_reversed)] + spec_u32_to_le_bytes(self.weight)
    }

    open spec fn decoded(bytes: Seq<u8>) -> Option<SegmentEdgeWeight> {
        if byte_bool(bytes[9]) is Some {
            Some(
                SegmentEdgeWeight {
                    source: spec_u32_from_le_bytes(bytes.subrange(0, 4)),
                    target: spec_u32_from_le_bytes(bytes.subrange(4, 8)),
                    type_id: bytes[8],
                    schema_reversed: byte_bool(bytes[9])->0,
                    weight: spec_u32_from_le_bytes(bytes.subrange(10, 14)),
                },
            )
        } else {
            None
        }
    }

    proof fn encoded_width(self) {
        lemma_auto_spec_u32_to_from_le_bytes();
        lemma_auto_spec_u64_to_from_le_bytes();
    }

    proof fn decoded_encoded(self) {
        lemma_auto_spec_u32_to_from_le_bytes();
        lemma_auto_spec_u64_to_from_le_bytes();
        let bytes = self.encoded();
        assert(bytes.subrange(0, 4) =~= spec_u32_to_le_bytes(self.source));
        assert(bytes.subrange(4, 8) =~= spec_u32_to_le_bytes(self.target));
        assert(bytes.subrange(10, 14) =~= spec_u32_to_le_bytes(self.weight));
    }

    proof fn encoded_decoded(bytes: Seq<u8>) {
        lemma_auto_spec_u32_to_from_le_bytes();
        lemma_auto_spec_u64_to_from_le_bytes();
        assert(spec_u32_to_le_bytes(spec_u32_from_le_bytes(bytes.subrange(0, 4)))
            == bytes.subrange(0, 4));
        assert(spec_u32_to_le_bytes(spec_u32_from_le_bytes(bytes.subrange(4, 8)))
            == bytes.subrange(4, 8));
        assert(spec_u32_to_le_bytes(spec_u32_from_le_bytes(bytes.subrange(10, 14)))
            == bytes.subrange(10, 14));
        assert(Self::decoded(bytes)->0.encoded() =~= bytes);
    }

    fn row_width() -> usize {
        14
    }

    fn encode(&self, out: &mut Vec<u8>) {
        let ghost start = out@;
        push_u32(out, self.source);
        push_u32(out, self.target);
        out.push(self.type_id);
        out.push(encode_bool(self.schema_reversed));
        push_u32(out, self.weight);
        assert(out@ =~= start + self.encoded());
    }

    fn decode(bytes: &[u8], offset: usize) -> (row: Option<SegmentEdgeWeight>) {
        let ghost row_bytes = bytes@.subrange(offset as int, offset + 14);
        assert(row_bytes.subrange(0, 4) =~= bytes@.subrange(offset + 0, offset + 4));
        assert(row_bytes.subrange(4, 8) =~= bytes@.subrange(offset + 4, offset + 8));
        assert(row_bytes.subrange(10, 14) =~= bytes@.subrange(offset + 10, offset + 14));
        match decode_bool(bytes[offset + 9]) {
            Ok(schema_reversed) => Some(SegmentEdgeWeight {
                source: u32_at(bytes, offset),
                target: u32_at(bytes, offset + 4),
                type_id: bytes[offset + 8],
                schema_reversed,
                weight: u32_at(bytes, offset + 10),
            }),
            Err(_) => None,
        }
    }
}

impl SegmentRow for SegmentNodeState {
    open spec fn width() -> nat {
        5
    }

    open spec fn encoded(self) -> Seq<u8> {
        spec_u32_to_le_bytes(self.node_idx) + seq![bool_byte(self.active)]
    }

    open spec fn decoded(bytes: Seq<u8>) -> Option<SegmentNodeState> {
        if byte_bool(bytes[4]) is Some {
            Some(
                SegmentNodeState {
                    node_idx: spec_u32_from_le_bytes(bytes.subrange(0, 4)),
                    active: byte_bool(bytes[4])->0,
                },
            )
        } else {
            None
        }
    }

    proof fn encoded_width(self) {
        lemma_auto_spec_u32_to_from_le_bytes();
        lemma_auto_spec_u64_to_from_le_bytes();
    }

    proof fn decoded_encoded(self) {
        lemma_auto_spec_u32_to_from_le_bytes();
        lemma_auto_spec_u64_to_from_le_bytes();
        let bytes = self.encoded();
        assert(bytes.subrange(0, 4) =~= spec_u32_to_le_bytes(self.node_idx));
    }

    proof fn encoded_decoded(bytes: Seq<u8>) {
        lemma_auto_spec_u32_to_from_le_bytes();
        lemma_auto_spec_u64_to_from_le_bytes();
        assert(spec_u32_to_le_bytes(spec_u32_from_le_bytes(bytes.subrange(0, 4)))
            == bytes.subrange(0, 4));
        assert(Self::decoded(bytes)->0.encoded() =~= bytes);
    }

    fn row_width() -> usize {
        5
    }

    fn encode(&self, out: &mut Vec<u8>) {
        let ghost start = out@;
        push_u32(out, self.node_idx);
        out.push(encode_bool(self.active));
        assert(out@ =~= start + self.encoded());
    }

    fn decode(bytes: &[u8], offset: usize) -> (row: Option<SegmentNodeState>) {
        let ghost row_bytes = bytes@.subrange(offset as int, offset + 5);
        assert(row_bytes.subrange(0, 4) =~= bytes@.subrange(offset + 0, offset + 4));
        match decode_bool(bytes[offset + 4]) {
            Ok(active) => Some(SegmentNodeState {
                node_idx: u32_at(bytes, offset),
                active,
            }),
            Err(_) => None,
        }
    }
}

impl SegmentRow for SegmentResolution {
    open spec fn width() -> nat {
        17
    }

    open spec fn encoded(self) -> Seq<u8> {
        spec_u32_to_le_bytes(self.table_oid) + spec_u64_to_le_bytes(self.pk_hash)
            + spec_u32_to_le_bytes(self.node_idx) + seq![bool_byte(self.tombstone)]
    }

    open spec fn decoded(bytes: Seq<u8>) -> Option<SegmentResolution> {
        if byte_bool(bytes[16]) is Some {
            Some(
                SegmentResolution {
                    table_oid: spec_u32_from_le_bytes(bytes.subrange(0, 4)),
                    pk_hash: spec_u64_from_le_bytes(bytes.subrange(4, 12)),
                    node_idx: spec_u32_from_le_bytes(bytes.subrange(12, 16)),
                    tombstone: byte_bool(bytes[16])->0,
                },
            )
        } else {
            None
        }
    }

    proof fn encoded_width(self) {
        lemma_auto_spec_u32_to_from_le_bytes();
        lemma_auto_spec_u64_to_from_le_bytes();
    }

    proof fn decoded_encoded(self) {
        lemma_auto_spec_u32_to_from_le_bytes();
        lemma_auto_spec_u64_to_from_le_bytes();
        let bytes = self.encoded();
        assert(bytes.subrange(0, 4) =~= spec_u32_to_le_bytes(self.table_oid));
        assert(bytes.subrange(4, 12) =~= spec_u64_to_le_bytes(self.pk_hash));
        assert(bytes.subrange(12, 16) =~= spec_u32_to_le_bytes(self.node_idx));
    }

    proof fn encoded_decoded(bytes: Seq<u8>) {
        lemma_auto_spec_u32_to_from_le_bytes();
        lemma_auto_spec_u64_to_from_le_bytes();
        assert(spec_u32_to_le_bytes(spec_u32_from_le_bytes(bytes.subrange(0, 4)))
            == bytes.subrange(0, 4));
        assert(spec_u64_to_le_bytes(spec_u64_from_le_bytes(bytes.subrange(4, 12)))
            == bytes.subrange(4, 12));
        assert(spec_u32_to_le_bytes(spec_u32_from_le_bytes(bytes.subrange(12, 16)))
            == bytes.subrange(12, 16));
        assert(Self::decoded(bytes)->0.encoded() =~= bytes);
    }

    fn row_width() -> usize {
        17
    }

    fn encode(&self, out: &mut Vec<u8>) {
        let ghost start = out@;
        push_u32(out, self.table_oid);
        push_u64(out, self.pk_hash);
        push_u32(out, self.node_idx);
        out.push(encode_bool(self.tombstone));
        assert(out@ =~= start + self.encoded());
    }

    fn decode(bytes: &[u8], offset: usize) -> (row: Option<SegmentResolution>) {
        let ghost row_bytes = bytes@.subrange(offset as int, offset + 17);
        assert(row_bytes.subrange(0, 4) =~= bytes@.subrange(offset + 0, offset + 4));
        assert(row_bytes.subrange(4, 12) =~= bytes@.subrange(offset + 4, offset + 12));
        assert(row_bytes.subrange(12, 16) =~= bytes@.subrange(offset + 12, offset + 16));
        match decode_bool(bytes[offset + 16]) {
            Ok(tombstone) => Some(SegmentResolution {
                table_oid: u32_at(bytes, offset),
                pk_hash: u64_at(bytes, offset + 4),
                node_idx: u32_at(bytes, offset + 12),
                tombstone,
            }),
            Err(_) => None,
        }
    }
}

impl SegmentRow for SegmentFilterValue {
    open spec fn width() -> nat {
        13
    }

    open spec fn encoded(self) -> Seq<u8> {
        spec_u32_to_le_bytes(self.node_idx) + spec_u32_to_le_bytes(self.column_id)
            + spec_u32_to_le_bytes(self.value) + seq![bool_byte(self.tombstone)]
    }

    open spec fn decoded(bytes: Seq<u8>) -> Option<SegmentFilterValue> {
        if byte_bool(bytes[12]) is Some {
            Some(
                SegmentFilterValue {
                    node_idx: spec_u32_from_le_bytes(bytes.subrange(0, 4)),
                    column_id: spec_u32_from_le_bytes(bytes.subrange(4, 8)),
                    value: spec_u32_from_le_bytes(bytes.subrange(8, 12)),
                    tombstone: byte_bool(bytes[12])->0,
                },
            )
        } else {
            None
        }
    }

    proof fn encoded_width(self) {
        lemma_auto_spec_u32_to_from_le_bytes();
        lemma_auto_spec_u64_to_from_le_bytes();
    }

    proof fn decoded_encoded(self) {
        lemma_auto_spec_u32_to_from_le_bytes();
        lemma_auto_spec_u64_to_from_le_bytes();
        let bytes = self.encoded();
        assert(bytes.subrange(0, 4) =~= spec_u32_to_le_bytes(self.node_idx));
        assert(bytes.subrange(4, 8) =~= spec_u32_to_le_bytes(self.column_id));
        assert(bytes.subrange(8, 12) =~= spec_u32_to_le_bytes(self.value));
    }

    proof fn encoded_decoded(bytes: Seq<u8>) {
        lemma_auto_spec_u32_to_from_le_bytes();
        lemma_auto_spec_u64_to_from_le_bytes();
        assert(spec_u32_to_le_bytes(spec_u32_from_le_bytes(bytes.subrange(0, 4)))
            == bytes.subrange(0, 4));
        assert(spec_u32_to_le_bytes(spec_u32_from_le_bytes(bytes.subrange(4, 8)))
            == bytes.subrange(4, 8));
        assert(spec_u32_to_le_bytes(spec_u32_from_le_bytes(bytes.subrange(8, 12)))
            == bytes.subrange(8, 12));
        assert(Self::decoded(bytes)->0.encoded() =~= bytes);
    }

    fn row_width() -> usize {
        13
    }

    fn encode(&self, out: &mut Vec<u8>) {
        let ghost start = out@;
        push_u32(out, self.node_idx);
        push_u32(out, self.column_id);
        push_u32(out, self.value);
        out.push(encode_bool(self.tombstone));
        assert(out@ =~= start + self.encoded());
    }

    fn decode(bytes: &[u8], offset: usize) -> (row: Option<SegmentFilterValue>) {
        let ghost row_bytes = bytes@.subrange(offset as int, offset + 13);
        assert(row_bytes.subrange(0, 4) =~= bytes@.subrange(offset + 0, offset + 4));
        assert(row_bytes.subrange(4, 8) =~= bytes@.subrange(offset + 4, offset + 8));
        assert(row_bytes.subrange(8, 12) =~= bytes@.subrange(offset + 8, offset + 12));
        match decode_bool(bytes[offset + 12]) {
            Ok(tombstone) => Some(SegmentFilterValue {
                node_idx: u32_at(bytes, offset),
                column_id: u32_at(bytes, offset + 4),
                value: u32_at(bytes, offset + 8),
                tombstone,
            }),
            Err(_) => None,
        }
    }
}

impl SegmentRow for SegmentTenant {
    open spec fn width() -> nat {
        13
    }

    open spec fn encoded(self) -> Seq<u8> {
        spec_u32_to_le_bytes(self.node_idx) + spec_u64_to_le_bytes(self.tenant_hash)
            + seq![bool_byte(self.tombstone)]
    }

    open spec fn decoded(bytes: Seq<u8>) -> Option<SegmentTenant> {
        if byte_bool(bytes[12]) is Some {
            Some(
                SegmentTenant {
                    node_idx: spec_u32_from_le_bytes(bytes.subrange(0, 4)),
                    tenant_hash: spec_u64_from_le_bytes(bytes.subrange(4, 12)),
                    tombstone: byte_bool(bytes[12])->0,
                },
            )
        } else {
            None
        }
    }

    proof fn encoded_width(self) {
        lemma_auto_spec_u32_to_from_le_bytes();
        lemma_auto_spec_u64_to_from_le_bytes();
    }

    proof fn decoded_encoded(self) {
        lemma_auto_spec_u32_to_from_le_bytes();
        lemma_auto_spec_u64_to_from_le_bytes();
        let bytes = self.encoded();
        assert(bytes.subrange(0, 4) =~= spec_u32_to_le_bytes(self.node_idx));
        assert(bytes.subrange(4, 12) =~= spec_u64_to_le_bytes(self.tenant_hash));
    }

    proof fn encoded_decoded(bytes: Seq<u8>) {
        lemma_auto_spec_u32_to_from_le_bytes();
        lemma_auto_spec_u64_to_from_le_bytes();
        assert(spec_u32_to_le_bytes(spec_u32_from_le_bytes(bytes.subrange(0, 4)))
            == bytes.subrange(0, 4));
        assert(spec_u64_to_le_bytes(spec_u64_from_le_bytes(bytes.subrange(4, 12)))
            == bytes.subrange(4, 12));
        assert(Self::decoded(bytes)->0.encoded() =~= bytes);
    }

    fn row_width() -> usize {
        13
    }

    fn encode(&self, out: &mut Vec<u8>) {
        let ghost start = out@;
        push_u32(out, self.node_idx);
        push_u64(out, self.tenant_hash);
        out.push(encode_bool(self.tombstone));
        assert(out@ =~= start + self.encoded());
    }

    fn decode(bytes: &[u8], offset: usize) -> (row: Option<SegmentTenant>) {
        let ghost row_bytes = bytes@.subrange(offset as int, offset + 13);
        assert(row_bytes.subrange(0, 4) =~= bytes@.subrange(offset + 0, offset + 4));
        assert(row_bytes.subrange(4, 12) =~= bytes@.subrange(offset + 4, offset + 12));
        match decode_bool(bytes[offset + 12]) {
            Ok(tombstone) => Some(SegmentTenant {
                node_idx: u32_at(bytes, offset),
                tenant_hash: u64_at(bytes, offset + 4),
                tombstone,
            }),
            Err(_) => None,
        }
    }
}

pub fn encode_edges(out: &mut Vec<u8>, rows: &[SegmentEdge])
    ensures
        final(out)@ == old(out)@ + flat(rows@),
{
    encode_rows(out, rows);
}

pub fn encode_edge_weights(out: &mut Vec<u8>, rows: &[SegmentEdgeWeight])
    ensures
        final(out)@ == old(out)@ + flat(rows@),
{
    encode_rows(out, rows);
}

pub fn encode_node_states(out: &mut Vec<u8>, rows: &[SegmentNodeState])
    ensures
        final(out)@ == old(out)@ + flat(rows@),
{
    encode_rows(out, rows);
}

pub fn encode_resolutions(out: &mut Vec<u8>, rows: &[SegmentResolution])
    ensures
        final(out)@ == old(out)@ + flat(rows@),
{
    encode_rows(out, rows);
}

pub fn encode_filters(out: &mut Vec<u8>, rows: &[SegmentFilterValue])
    ensures
        final(out)@ == old(out)@ + flat(rows@),
{
    encode_rows(out, rows);
}

pub fn encode_tenants(out: &mut Vec<u8>, rows: &[SegmentTenant])
    ensures
        final(out)@ == old(out)@ + flat(rows@),
{
    encode_rows(out, rows);
}

pub fn decode_edges(bytes: &[u8], count: u32) -> (rows: GraphResult<Vec<SegmentEdge>>)
    requires
        bytes.len() == count * SegmentEdge::width(),
    ensures
        safety::outcome(rows) == decoded_rows::<SegmentEdge>(bytes@, count as nat),
{
    decode_rows(bytes, count)
}

pub fn decode_edge_weights(bytes: &[u8], count: u32) -> (rows: GraphResult<Vec<SegmentEdgeWeight>>)
    requires
        bytes.len() == count * SegmentEdgeWeight::width(),
    ensures
        safety::outcome(rows) == decoded_rows::<SegmentEdgeWeight>(bytes@, count as nat),
{
    decode_rows(bytes, count)
}

pub fn decode_node_states(bytes: &[u8], count: u32) -> (rows: GraphResult<Vec<SegmentNodeState>>)
    requires
        bytes.len() == count * SegmentNodeState::width(),
    ensures
        safety::outcome(rows) == decoded_rows::<SegmentNodeState>(bytes@, count as nat),
{
    decode_rows(bytes, count)
}

pub fn decode_resolutions(bytes: &[u8], count: u32) -> (rows: GraphResult<Vec<SegmentResolution>>)
    requires
        bytes.len() == count * SegmentResolution::width(),
    ensures
        safety::outcome(rows) == decoded_rows::<SegmentResolution>(bytes@, count as nat),
{
    decode_rows(bytes, count)
}

pub fn decode_filters(bytes: &[u8], count: u32) -> (rows: GraphResult<Vec<SegmentFilterValue>>)
    requires
        bytes.len() == count * SegmentFilterValue::width(),
    ensures
        safety::outcome(rows) == decoded_rows::<SegmentFilterValue>(bytes@, count as nat),
{
    decode_rows(bytes, count)
}

pub fn decode_tenants(bytes: &[u8], count: u32) -> (rows: GraphResult<Vec<SegmentTenant>>)
    requires
        bytes.len() == count * SegmentTenant::width(),
    ensures
        safety::outcome(rows) == decoded_rows::<SegmentTenant>(bytes@, count as nat),
{
    decode_rows(bytes, count)
}

// ---------------------------------------------------------------------------
// Row bounds
// ---------------------------------------------------------------------------

/// The error of a header whose range or watermark is out of shape.
pub open spec fn header_shape_error(header: SegmentHeader) -> Option<GraphErrorView> {
    if header.source_start > header.source_end {
        Some(corrupt("source_start must not exceed source_end"@))
    } else if header.sync_watermark < 0 {
        Some(corrupt("sync_watermark must be nonnegative"@))
    } else {
        None
    }
}

/// The error of a node outside the source range of the header.
pub open spec fn node_bounds_error(header: SegmentHeader, node_idx: u32) -> Option<GraphErrorView> {
    if header.source_start <= node_idx < header.source_end {
        None
    } else {
        Some(
            corrupt(
                "node "@ + text::decimal(node_idx as nat) + " is outside segment range "@ + text::decimal(
                    header.source_start as nat,
                ) + ".."@ + text::decimal(header.source_end as nat),
            ),
        )
    }
}

/// The error of an edge row: its source is out of range or its type reserved.
pub open spec fn edge_bounds_error(
    header: SegmentHeader,
    source: u32,
    type_id: u8,
) -> Option<GraphErrorView> {
    first_of(
        node_bounds_error(header, source),
        if type_id == 255 {
            Some(corrupt("edge type 255 is reserved"@))
        } else {
            None
        },
    )
}

pub fn validate_header_shape(header: &SegmentHeader) -> (result: GraphResult<()>)
    ensures
        safety::refusal(result) == header_shape_error(*header),
{
    if header.source_start > header.source_end {
        return Err(segment_corrupt("source_start must not exceed source_end"));
    }
    if header.sync_watermark < 0 {
        return Err(segment_corrupt("sync_watermark must be nonnegative"));
    }
    Ok(())
}

pub fn validate_node_bounds(header: &SegmentHeader, node_idx: u32) -> (result: GraphResult<()>)
    ensures
        safety::refusal(result) == node_bounds_error(*header, node_idx),
{
    if node_idx < header.source_start || node_idx >= header.source_end {
        let node: String = decimal_text(node_idx as u64);
        let start: String = decimal_text(header.source_start as u64);
        let end: String = decimal_text(header.source_end as u64);
        let text: String = concat5(
            "node ",
            node.as_str(),
            " is outside segment range ",
            start.as_str(),
            "..",
        );
        return Err(segment_corrupt(concat2(text.as_str(), end.as_str()).as_str()));
    }
    Ok(())
}

pub fn validate_edge_bounds(header: &SegmentHeader, edge: &SegmentEdge) -> (result: GraphResult<()>)
    ensures
        safety::refusal(result) == edge_bounds_error(*header, edge.source, edge.type_id),
{
    match validate_node_bounds(header, edge.source) {
        Err(error) => { return Err(error); },
        Ok(_) => {},
    }
    if edge.type_id == 255 {
        return Err(segment_corrupt("edge type 255 is reserved"));
    }
    Ok(())
}

/// A row that names a node of the segment's source range.
pub trait BoundedRow: Sized {
    /// The error of this row under `header`.
    spec fn bounds_error(self, header: SegmentHeader) -> Option<GraphErrorView>;

    /// Bounds depend on the source range alone.
    proof fn bounds_by_range(self, first: SegmentHeader, second: SegmentHeader)
        requires
            first.source_start == second.source_start,
            first.source_end == second.source_end,
        ensures
            self.bounds_error(first) == self.bounds_error(second),
    ;

    fn check_bounds(&self, header: &SegmentHeader) -> (result: GraphResult<()>)
        ensures
            safety::refusal(result) == self.bounds_error(*header),
    ;
}

impl BoundedRow for SegmentEdge {
    open spec fn bounds_error(self, header: SegmentHeader) -> Option<GraphErrorView> {
        edge_bounds_error(header, self.source, self.type_id)
    }

    proof fn bounds_by_range(self, first: SegmentHeader, second: SegmentHeader) {
    }

    fn check_bounds(&self, header: &SegmentHeader) -> (result: GraphResult<()>) {
        validate_edge_bounds(header, self)
    }
}

impl BoundedRow for SegmentEdgeWeight {
    open spec fn bounds_error(self, header: SegmentHeader) -> Option<GraphErrorView> {
        edge_bounds_error(header, self.source, self.type_id)
    }

    proof fn bounds_by_range(self, first: SegmentHeader, second: SegmentHeader) {
    }

    fn check_bounds(&self, header: &SegmentHeader) -> (result: GraphResult<()>) {
        validate_edge_bounds(
            header,
            &SegmentEdge {
                source: self.source,
                target: self.target,
                type_id: self.type_id,
                schema_reversed: self.schema_reversed,
            },
        )
    }
}

impl BoundedRow for SegmentNodeState {
    open spec fn bounds_error(self, header: SegmentHeader) -> Option<GraphErrorView> {
        node_bounds_error(header, self.node_idx)
    }

    proof fn bounds_by_range(self, first: SegmentHeader, second: SegmentHeader) {
    }

    fn check_bounds(&self, header: &SegmentHeader) -> (result: GraphResult<()>) {
        validate_node_bounds(header, self.node_idx)
    }
}

impl BoundedRow for SegmentResolution {
    open spec fn bounds_error(self, header: SegmentHeader) -> Option<GraphErrorView> {
        node_bounds_error(header, self.node_idx)
    }

    proof fn bounds_by_range(self, first: SegmentHeader, second: SegmentHeader) {
    }

    fn check_bounds(&self, header: &SegmentHeader) -> (result: GraphResult<()>) {
        validate_node_bounds(header, self.node_idx)
    }
}

impl BoundedRow for SegmentFilterValue {
    open spec fn bounds_error(self, header: SegmentHeader) -> Option<GraphErrorView> {
        node_bounds_error(header, self.node_idx)
    }

    proof fn bounds_by_range(self, first: SegmentHeader, second: SegmentHeader) {
    }

    fn check_bounds(&self, header: &SegmentHeader) -> (result: GraphResult<()>) {
        validate_node_bounds(header, self.node_idx)
    }
}

impl BoundedRow for SegmentTenant {
    open spec fn bounds_error(self, header: SegmentHeader) -> Option<GraphErrorView> {
        node_bounds_error(header, self.node_idx)
    }

    proof fn bounds_by_range(self, first: SegmentHeader, second: SegmentHeader) {
    }

    fn check_bounds(&self, header: &SegmentHeader) -> (result: GraphResult<()>) {
        validate_node_bounds(header, self.node_idx)
    }
}

/// The error of the first row at or after `from` that is out of bounds.
pub open spec fn rows_error<R: BoundedRow>(
    header: SegmentHeader,
    rows: Seq<R>,
    from: int,
) -> Option<GraphErrorView>
    decreases rows.len() - from,
{
    if from < 0 || from >= rows.len() {
        None
    } else {
        first_of(rows[from].bounds_error(header), rows_error(header, rows, from + 1))
    }
}

fn check_rows<R: BoundedRow>(header: &SegmentHeader, rows: &[R]) -> (result: GraphResult<()>)
    ensures
        safety::refusal(result) == rows_error(*header, rows@, 0),
{
    for i in 0..rows.len()
        invariant
            rows_error(*header, rows@, 0) == rows_error(*header, rows@, i as int),
    {
        match rows[i].check_bounds(header) {
            Err(error) => { return Err(error); },
            Ok(_) => {},
        }
    }
    Ok(())
}

/// The error of a section that the segment kind may not have.
pub open spec fn section_ownership_error(segment: DeltaSegmentView) -> Option<GraphErrorView> {
    match segment.header.kind {
        SegmentKind::Edge => if segment.node_states.len() > 0 || segment.resolutions.len() > 0
            || segment.filters.len() > 0 || segment.tenants.len() > 0 {
            Some(corrupt("edge segment contains node sections"@))
        } else {
            None
        },
        SegmentKind::Node => if segment.edge_inserts.len() > 0 || segment.edge_deletes.len() > 0
            || segment.edge_weights.len() > 0 {
            Some(corrupt("node segment contains edge sections"@))
        } else {
            None
        },
    }
}

/// The first error of a segment, in the order in which its parts are checked.
pub open spec fn segment_error(segment: DeltaSegmentView) -> Option<GraphErrorView> {
    let header = segment.header;
    first_of(
        header_shape_error(header),
        first_of(
            section_ownership_error(segment),
            first_of(
                rows_error(header, segment.edge_inserts, 0),
                first_of(
                    rows_error(header, segment.edge_deletes, 0),
                    first_of(
                        rows_error(header, segment.edge_weights, 0),
                        first_of(
                            rows_error(header, segment.node_states, 0),
                            first_of(
                                rows_error(header, segment.resolutions, 0),
                                first_of(
                                    rows_error(header, segment.filters, 0),
                                    rows_error(header, segment.tenants, 0),
                                ),
                            ),
                        ),
                    ),
                ),
            ),
        ),
    )
}

pub fn validate_segment(segment: &DeltaSegment) -> (result: GraphResult<()>)
    ensures
        safety::refusal(result) == segment_error(segment@),
{
    validate_header_shape(&segment.header)?;
    match segment.header.kind {
        SegmentKind::Edge => {
            if !segment.node_states.is_empty() || !segment.resolutions.is_empty()
                || !segment.filters.is_empty() || !segment.tenants.is_empty() {
                return Err(segment_corrupt("edge segment contains node sections"));
            }
        },
        SegmentKind::Node => {
            if !segment.edge_inserts.is_empty() || !segment.edge_deletes.is_empty()
                || !segment.edge_weights.is_empty() {
                return Err(segment_corrupt("node segment contains edge sections"));
            }
        },
    }
    check_rows(&segment.header, segment.edge_inserts.as_slice())?;
    check_rows(&segment.header, segment.edge_deletes.as_slice())?;
    check_rows(&segment.header, segment.edge_weights.as_slice())?;
    check_rows(&segment.header, segment.node_states.as_slice())?;
    check_rows(&segment.header, segment.resolutions.as_slice())?;
    check_rows(&segment.header, segment.filters.as_slice())?;
    check_rows(&segment.header, segment.tenants.as_slice())?;
    Ok(())
}

// ---------------------------------------------------------------------------
// Header
// ---------------------------------------------------------------------------

/// The byte of a segment kind.
pub open spec fn kind_byte(kind: SegmentKind) -> u8 {
    match kind {
        SegmentKind::Edge => 1,
        SegmentKind::Node => 2,
    }
}

impl SegmentKind {
    pub fn from_u8(raw: u8) -> (kind: GraphResult<SegmentKind>)
        ensures
            match kind {
                Ok(kind) => raw == kind_byte(kind),
                Err(error) => raw != 1 && raw != 2 && error@ == unknown_kind(raw),
            },
    {
        if raw == 1 {
            Ok(SegmentKind::Edge)
        } else if raw == 2 {
            Ok(SegmentKind::Node)
        } else {
            let other: String = decimal_text(raw as u64);
            Err(segment_corrupt(concat2("unknown segment kind ", other.as_str()).as_str()))
        }
    }

    /// The byte that stands for this kind in a header.
    pub fn to_u8(self) -> (raw: u8)
        ensures
            raw == kind_byte(self),
    {
        match self {
            SegmentKind::Edge => 1,
            SegmentKind::Node => 2,
        }
    }
}

/// The error of a kind byte that stands for no kind.
pub open spec fn unknown_kind(raw: u8) -> GraphErrorView {
    corrupt("unknown segment kind "@ + text::decimal(raw as nat))
}

/// The byte of a direction.
pub open spec fn direction_byte(direction: TraversalDirection) -> u8 {
    match direction {
        TraversalDirection::Any => 0,
        TraversalDirection::Out => 1,
        TraversalDirection::In => 2,
    }
}

pub fn encode_direction(direction: TraversalDirection) -> (raw: u8)
    ensures
        raw == direction_byte(direction),
{
    match direction {
        TraversalDirection::Any => 0,
        TraversalDirection::Out => 1,
        TraversalDirection::In => 2,
    }
}

pub fn decode_direction(raw: u8) -> (direction: GraphResult<TraversalDirection>)
    ensures
        match direction {
            Ok(direction) => raw == direction_byte(direction),
            Err(error) => raw > 2 && error@ == corrupt("unknown segment direction"@),
        },
{
    if raw == 0 {
        Ok(TraversalDirection::Any)
    } else if raw == 1 {
        Ok(TraversalDirection::Out)
    } else if raw == 2 {
        Ok(TraversalDirection::In)
    } else {
        Err(segment_corrupt("unknown segment direction"))
    }
}

/// The value that bytes read past their end give.
pub open spec fn end_of_segment() -> GraphErrorView {
    corrupt("unexpected end of segment"@)
}

pub fn read_u8(bytes: &[u8], offset: usize) -> (value: GraphResult<u8>)
    ensures
        match value {
            Ok(value) => offset < bytes@.len() && value == bytes@[offset as int],
            Err(error) => offset >= bytes@.len() && error@ == end_of_segment(),
        },
{
    if offset < bytes.len() {
        Ok(bytes[offset])
    } else {
        Err(segment_corrupt("unexpected end of segment"))
    }
}

pub fn read_u32(bytes: &[u8], offset: usize) -> (value: GraphResult<u32>)
    ensures
        match value {
            Ok(value) => offset + 4 <= bytes@.len() && value == spec_u32_from_le_bytes(
                bytes@.subrange(offset as int, offset + 4),
            ),
            Err(error) => offset + 4 > bytes@.len() && error@ == end_of_segment(),
        },
{
    if bytes.len() >= 4 && offset <= bytes.len() - 4 {
        Ok(u32_at(bytes, offset))
    } else {
        Err(segment_corrupt("unexpected end of segment"))
    }
}

pub fn read_u64(bytes: &[u8], offset: usize) -> (value: GraphResult<u64>)
    ensures
        match value {
            Ok(value) => offset + 8 <= bytes@.len() && value == spec_u64_from_le_bytes(
                bytes@.subrange(offset as int, offset + 8),
            ),
            Err(error) => offset + 8 > bytes@.len() && error@ == end_of_segment(),
        },
{
    if bytes.len() >= 8 && offset <= bytes.len() - 8 {
        Ok(u64_at(bytes, offset))
    } else {
        Err(segment_corrupt("unexpected end of segment"))
    }
}

/// The signed value with the bits of `raw`.
pub open spec fn signed(raw: u64) -> i64 {
    if raw <= i64::MAX {
        raw as i64
    } else {
        (raw - 0x1_0000_0000_0000_0000) as i64
    }
}

/// The unsigned value with the bits of `value`.
pub open spec fn unsigned(value: i64) -> u64 {
    if value >= 0 {
        value as u64
    } else {
        (value + 0x1_0000_0000_0000_0000) as u64
    }
}

pub fn read_i64(bytes: &[u8], offset: usize) -> (value: GraphResult<i64>)
    ensures
        match value {
            Ok(value) => offset + 8 <= bytes@.len() && value == signed(
                spec_u64_from_le_bytes(bytes@.subrange(offset as int, offset + 8)),
            ),
            Err(error) => offset + 8 > bytes@.len() && error@ == end_of_segment(),
        },
{
    let raw: u64 = read_u64(bytes, offset)?;
    if raw <= 0x7fff_ffff_ffff_ffff {
        Ok(raw as i64)
    } else {
        let below: u64 = 0xffff_ffff_ffff_ffff - raw;
        Ok(-1 - (below as i64))
    }
}

/// `bytes` with `field` written at `offset`.
pub open spec fn patched(bytes: Seq<u8>, offset: int, field: Seq<u8>) -> Seq<u8> {
    Seq::new(
        bytes.len(),
        |i: int| if offset <= i < offset + field.len() { field[i - offset] } else { bytes[i] },
    )
}

/// What a write at `offset` leaves as it was, and what can be read back.
proof fn lemma_patched(bytes: Seq<u8>, offset: int, field: Seq<u8>)
    requires
        0 <= offset,
        offset + field.len() <= bytes.len(),
    ensures
        patched(bytes, offset, field).len() == bytes.len(),
        patched(bytes, offset, field).subrange(offset, offset + field.len()) == field,
        forall|a: int, b: int|
            0 <= a <= b <= bytes.len() && (b <= offset || offset + field.len() <= a)
                ==> #[trigger] patched(bytes, offset, field).subrange(a, b) == bytes.subrange(a, b),
        forall|i: int|
            0 <= i < bytes.len() && !(offset <= i < offset + field.len()) ==> #[trigger] patched(
                bytes,
                offset,
                field,
            )[i] == bytes[i],
{
    let after = patched(bytes, offset, field);
    assert(after.subrange(offset, offset + field.len()) =~= field);
    assert forall|a: int, b: int|
        0 <= a <= b <= bytes.len() && (b <= offset || offset + field.len()
            <= a) implies #[trigger] after.subrange(a, b) == bytes.subrange(a, b) by {
        assert(after.subrange(a, b) =~= bytes.subrange(a, b));
    }
}

fn write_at(bytes: &mut Vec<u8>, offset: usize, field: &Vec<u8>)
    requires
        offset + field@.len() <= old(bytes)@.len(),
    ensures
        final(bytes)@ == patched(old(bytes)@, offset as int, field@),
{
    let ghost before = bytes@;
    for i in 0..field.len()
        invariant
            offset + field@.len() <= before.len(),
            bytes@.len() == before.len(),
            bytes@ == patched(before, offset as int, field@.take(i as int)),
    {
        let total: usize = bytes.len();
        bytes.set(offset + i, field[i]);
        assert(bytes@ =~= patched(before, offset as int, field@.take(i + 1)));
    }
    assert(field@.take(field@.len() as int) =~= field@);
}

pub fn write_u32_at(bytes: &mut Vec<u8>, offset: usize, value: u32)
    requires
        offset + 4 <= old(bytes)@.len(),
    ensures
        final(bytes)@ == patched(old(bytes)@, offset as int, spec_u32_to_le_bytes(value)),
{
    let raw: Vec<u8> = u32_to_le_bytes(value);
    write_at(bytes, offset, &raw);
}

pub fn write_u64_at(bytes: &mut Vec<u8>, offset: usize, value: u64)
    requires
        offset + 8 <= old(bytes)@.len(),
    ensures
        final(bytes)@ == patched(old(bytes)@, offset as int, spec_u64_to_le_bytes(value)),
{
    let raw: Vec<u8> = u64_to_le_bytes(value);
    write_at(bytes, offset, &raw);
}

pub fn write_i64_at(bytes: &mut Vec<u8>, offset: usize, value: i64)
    requires
        offset + 8 <= old(bytes)@.len(),
    ensures
        final(bytes)@ == patched(old(bytes)@, offset as int, spec_u64_to_le_bytes(unsigned(value))),
{
    let raw: u64 = if value >= 0 {
        value as u64
    } else {
        let below: u64 = (-1 - value) as u64;
        0xffff_ffff_ffff_ffff - below
    };
    write_u64_at(bytes, offset, raw);
}

/// Whether all reserved bytes of the header are zero.
pub open spec fn reserved_zero(bytes: Seq<u8>) -> bool {
    &&& bytes[15] == 0
    &&& forall|i: int| 60 <= i < 64 ==> #[trigger] bytes[i] == 0
    &&& forall|i: int| 120 <= i < 124 ==> #[trigger] bytes[i] == 0
    &&& forall|i: int|
        RESERVED_OFFSET <= i < RESERVED_OFFSET + RESERVED_LEN ==> #[trigger] bytes[i] == 0
}

fn all_zero(bytes: &[u8], start: usize, end: usize) -> (zero: bool)
    requires
        start <= end <= bytes.len(),
    ensures
        zero == (forall|i: int| start <= i < end ==> #[trigger] bytes@[i] == 0),
{
    for i in start..end
        invariant
            end <= bytes.len(),
            forall|j: int| start <= j < i ==> #[trigger] bytes@[j] == 0,
    {
        if bytes[i] != 0 {
            return false;
        }
    }
    true
}

pub fn validate_reserved_header_bytes(bytes: &[u8]) -> (result: GraphResult<()>)
    requires
        bytes.len() >= HEADER_SIZE,
    ensures
        safety::refusal(result) == (if reserved_zero(bytes@) {
            None
        } else {
            Some(corrupt("reserved header bytes must be zero"@))
        }),
{
    if bytes[15] != 0 || !all_zero(bytes, 60, 64) || !all_zero(bytes, 120, 124) || !all_zero(
        bytes,
        RESERVED_OFFSET,
        RESERVED_OFFSET + RESERVED_LEN,
    ) {
        return Err(segment_corrupt("reserved header bytes must be zero"));
    }
    Ok(())
}

/// The header field that holds the row count of a section.
pub open spec fn count_field(bytes: Seq<u8>, section: int) -> Seq<u8> {
    bytes.subrange(32 + 4 * section, 36 + 4 * section)
}

/// The header field that holds the offset of a section.
pub open spec fn offset_field(bytes: Seq<u8>, section: int) -> Seq<u8> {
    bytes.subrange(64 + 8 * section, 72 + 8 * section)
}

/// The row count of a section, as the header gives it.
pub open spec fn header_count(bytes: Seq<u8>, section: int) -> u32 {
    spec_u32_from_le_bytes(count_field(bytes, section))
}

/// The offset of a section, as the header gives it.
pub open spec fn header_offset(bytes: Seq<u8>, section: int) -> u64 {
    spec_u64_from_le_bytes(offset_field(bytes, section))
}

pub fn read_counts(bytes: &[u8]) -> (counts: GraphResult<[u32; SECTION_COUNT]>)
    requires
        bytes.len() >= HEADER_SIZE,
    ensures
        counts is Ok,
        counts->Ok_0@ == Seq::new(SECTION_COUNT as nat, |i: int| header_count(bytes@, i)),
{
    let counts: [u32; SECTION_COUNT] = [
        read_u32(bytes, 32)?,
        read_u32(bytes, 36)?,
        read_u32(bytes, 40)?,
        read_u32(bytes, 44)?,
        read_u32(bytes, 48)?,
        read_u32(bytes, 52)?,
        read_u32(bytes, 56)?,
    ];
    assert(counts@ =~= Seq::new(SECTION_COUNT as nat, |i: int| header_count(bytes@, i)));
    Ok(counts)
}

pub fn read_offsets(bytes: &[u8]) -> (offsets: GraphResult<[u64; SECTION_COUNT]>)
    requires
        bytes.len() >= HEADER_SIZE,
    ensures
        offsets is Ok,
        offsets->Ok_0@ == Seq::new(SECTION_COUNT as nat, |i: int| header_offset(bytes@, i)),
{
    let offsets: [u64; SECTION_COUNT] = [
        read_u64(bytes, 64)?,
        read_u64(bytes, 72)?,
        read_u64(bytes, 80)?,
        read_u64(bytes, 88)?,
        read_u64(bytes, 96)?,
        read_u64(bytes, 104)?,
        read_u64(bytes, 112)?,
    ];
    assert(offsets@ =~= Seq::new(SECTION_COUNT as nat, |i: int| header_offset(bytes@, i)));
    Ok(offsets)
}

/// Whether the first bytes are the header of a segment with this metadata,
/// these section counts and offsets, and this checksum.
pub open spec fn header_at(
    bytes: Seq<u8>,
    header: SegmentHeader,
    counts: Seq<u32>,
    offsets: Seq<u64>,
    checksum: u32,
) -> bool {
    &&& bytes.len() >= HEADER_SIZE
    &&& bytes.subrange(0, 8) == magic()
    &&& bytes.subrange(8, 12) == spec_u32_to_le_bytes(VERSION)
    &&& bytes[12] == kind_byte(header.kind)
    &&& bytes[13] == direction_byte(header.direction)
    &&& bytes[14] == header.level
    &&& bytes.subrange(16, 20) == spec_u32_to_le_bytes(header.source_start)
    &&& bytes.subrange(20, 24) == spec_u32_to_le_bytes(header.source_end)
    &&& bytes.subrange(24, 32) == spec_u64_to_le_bytes(unsigned(header.sync_watermark))
    &&& forall|i: int|
        0 <= i < SECTION_COUNT ==> #[trigger] count_field(bytes, i) == spec_u32_to_le_bytes(
            counts[i],
        )
    &&& forall|i: int|
        0 <= i < SECTION_COUNT ==> #[trigger] offset_field(bytes, i) == spec_u64_to_le_bytes(
            offsets[i],
        )
    &&& bytes.subrange(CHECKSUM_OFFSET as int, CHECKSUM_OFFSET + 4) == spec_u32_to_le_bytes(
        checksum,
    )
    &&& reserved_zero(bytes)
}

/// Whether `after` has the bytes of `before` outside `start..end`.
spec fn same_outside(before: Seq<u8>, after: Seq<u8>, start: int, end: int) -> bool {
    &&& after.len() == before.len()
    &&& forall|i: int| 0 <= i < before.len() && !(start <= i < end) ==> #[trigger] after[i] == before[i]
}

proof fn lemma_same_outside(before: Seq<u8>, after: Seq<u8>, start: int, end: int, a: int, b: int)
    requires
        same_outside(before, after, start, end),
        0 <= a <= b <= before.len(),
        b <= start || end <= a,
    ensures
        after.subrange(a, b) == before.subrange(a, b),
{
    assert(after.subrange(a, b) =~= before.subrange(a, b));
}

fn write_counts(bytes: &mut Vec<u8>, counts: &[u32; SECTION_COUNT])
    requires
        old(bytes)@.len() >= HEADER_SIZE,
    ensures
        same_outside(old(bytes)@, final(bytes)@, 32, 60),
        forall|i: int|
            0 <= i < SECTION_COUNT ==> #[trigger] count_field(final(bytes)@, i)
                == spec_u32_to_le_bytes(counts@[i]),
{
    let ghost before = bytes@;
    let mut at: usize = 32;
    for i in 0..SECTION_COUNT
        invariant
            before.len() >= HEADER_SIZE,
            at == 32 + 4 * i,
            same_outside(before, bytes@, 32, 60),
            forall|j: int|
                0 <= j < i ==> #[trigger] count_field(bytes@, j) == spec_u32_to_le_bytes(counts@[j]),
    {
        let ghost prior = bytes@;
        write_u32_at(bytes, at, counts[i]);
        proof {
            lemma_auto_spec_u32_to_from_le_bytes();
            let field = spec_u32_to_le_bytes(counts@[i as int]);
            assert(field.len() == 4);
            lemma_patched(prior, at as int, field);
            assert forall|j: int| 0 <= j < i + 1 implies #[trigger] count_field(bytes@, j)
                == spec_u32_to_le_bytes(counts@[j]) by {
                if j < i {
                    assert(count_field(prior, j) == spec_u32_to_le_bytes(counts@[j]));
                }
            }
        }
        at = at + 4;
    }
}

fn write_offsets(bytes: &mut Vec<u8>, offsets: &[u64; SECTION_COUNT])
    requires
        old(bytes)@.len() >= HEADER_SIZE,
    ensures
        same_outside(old(bytes)@, final(bytes)@, 64, 120),
        forall|i: int|
            0 <= i < SECTION_COUNT ==> #[trigger] offset_field(final(bytes)@, i)
                == spec_u64_to_le_bytes(offsets@[i]),
{
    let ghost before = bytes@;
    let mut at: usize = 64;
    for i in 0..SECTION_COUNT
        invariant
            before.len() >= HEADER_SIZE,
            at == 64 + 8 * i,
            same_outside(before, bytes@, 64, 120),
            forall|j: int|
                0 <= j < i ==> #[trigger] offset_field(bytes@, j) == spec_u64_to_le_bytes(
                    offsets@[j],
                ),
    {
        let ghost prior = bytes@;
        write_u64_at(bytes, at, offsets[i]);
        proof {
            lemma_auto_spec_u64_to_from_le_bytes();
            let field = spec_u64_to_le_bytes(offsets@[i as int]);
            assert(field.len() == 8);
            lemma_patched(prior, at as int, field);
            assert forall|j: int| 0 <= j < i + 1 implies #[trigger] offset_field(bytes@, j)
                == spec_u64_to_le_bytes(offsets@[j]) by {
                if j < i {
                    assert(offset_field(prior, j) == spec_u64_to_le_bytes(offsets@[j]));
                }
            }
        }
        at = at + 8;
    }
}

pub fn write_header(
    bytes: &mut Vec<u8>,
    header: &SegmentHeader,
    counts: &[u32; SECTION_COUNT],
    offsets: &[u64; SECTION_COUNT],
    checksum: u32,
)
    requires
        old(bytes)@.len() >= HEADER_SIZE,
        forall|i: int| 0 <= i < HEADER_SIZE ==> #[trigger] old(bytes)@[i] == 0,
    ensures
        header_at(final(bytes)@, *header, counts@, offsets@, checksum),
        final(bytes)@.len() == old(bytes)@.len(),
        final(bytes)@.skip(HEADER_SIZE as int) == old(bytes)@.skip(HEADER_SIZE as int),
{
    let ghost start = bytes@;
    write_counts(bytes, counts);
    let ghost counted = bytes@;
    write_offsets(bytes, offsets);
    let ghost placed = bytes@;
    proof {
        assert forall|i: int| 0 <= i < SECTION_COUNT implies #[trigger] count_field(placed, i)
            == spec_u32_to_le_bytes(counts@[i]) by {
            lemma_same_outside(counted, placed, 64, 120, 32 + 4 * i, 36 + 4 * i);
            assert(count_field(counted, i) == spec_u32_to_le_bytes(counts@[i]));
        }
    }
    let name: Vec<u8> = vec![80u8, 71u8, 71u8, 83u8, 69u8, 71u8, 48u8, 49u8];
    assert(name@ =~= magic());
    write_at(bytes, 0, &name);
    let ghost b1 = bytes@;
    write_u32_at(bytes, 8, VERSION);
    let ghost b2 = bytes@;
    bytes.set(12, header.kind.to_u8());
    bytes.set(13, encode_direction(header.direction));
    bytes.set(14, header.level);
    bytes.set(15, 0);
    let ghost b3 = bytes@;
    write_u32_at(bytes, 16, header.source_start);
    let ghost b4 = bytes@;
    write_u32_at(bytes, 20, header.source_end);
    let ghost b5 = bytes@;
    write_i64_at(bytes, 24, header.sync_watermark);
    let ghost b6 = bytes@;
    write_u32_at(bytes, CHECKSUM_OFFSET, checksum);
    proof {
        lemma_auto_spec_u32_to_from_le_bytes();
        lemma_auto_spec_u64_to_from_le_bytes();
        let done = bytes@;
        assert(spec_u32_to_le_bytes(VERSION).len() == 4);
        assert(spec_u32_to_le_bytes(header.source_start).len() == 4);
        assert(spec_u32_to_le_bytes(header.source_end).len() == 4);
        assert(spec_u32_to_le_bytes(checksum).len() == 4);
        assert(spec_u64_to_le_bytes(unsigned(header.sync_watermark)).len() == 8);
        assert(done.subrange(0, 8) =~= magic());
        assert(done.subrange(8, 12) =~= spec_u32_to_le_bytes(VERSION));
        assert(done.subrange(16, 20) =~= spec_u32_to_le_bytes(header.source_start));
        assert(done.subrange(20, 24) =~= spec_u32_to_le_bytes(header.source_end));
        assert(done.subrange(24, 32) =~= spec_u64_to_le_bytes(unsigned(header.sync_watermark)));
        assert(done.subrange(124, 128) =~= spec_u32_to_le_bytes(checksum));
        assert forall|i: int| 0 <= i < SECTION_COUNT implies #[trigger] count_field(done, i)
            == spec_u32_to_le_bytes(counts@[i]) by {
            assert(count_field(done, i) =~= count_field(placed, i));
        }
        assert forall|i: int| 0 <= i < SECTION_COUNT implies #[trigger] offset_field(done, i)
            == spec_u64_to_le_bytes(offsets@[i]) by {
            assert(offset_field(done, i) =~= offset_field(placed, i));
        }
        assert(done.skip(HEADER_SIZE as int) =~= start.skip(HEADER_SIZE as int));
    }
}

pub fn count_len(len: usize) -> (count: GraphResult<u32>)
    ensures
        match count {
            Ok(count) => count == len,
            Err(error) => len > u32::MAX && error@ == corrupt("section row count exceeds u32"@),
        },
{
    if len <= u32::MAX as usize {
        Ok(len as u32)
    } else {
        Err(segment_corrupt("section row count exceeds u32"))
    }
}

/// Bytes taken by one row of a section.
pub open spec fn section_width(section: int) -> nat {
    if section == 0 {
        SegmentEdge::width()
    } else if section == 1 {
        SegmentEdge::width()
    } else if section == 2 {
        SegmentEdgeWeight::width()
    } else if section == 3 {
        SegmentNodeState::width()
    } else if section == 4 {
        SegmentResolution::width()
    } else if section == 5 {
        SegmentFilterValue::width()
    } else {
        SegmentTenant::width()
    }
}

/// The end of a section that starts at its header offset.
pub open spec fn section_end(counts: Seq<u32>, offsets: Seq<u64>, section: int) -> int {
    offsets[section] + counts[section] * section_width(section)
}

/// The first error of the section table from `section` on, where the section
/// before it ended at `previous_end`: sections follow one another without gaps
/// and fill the file.
pub open spec fn ranges_error(
    len: nat,
    counts: Seq<u32>,
    offsets: Seq<u64>,
    section: int,
    previous_end: int,
) -> Option<GraphErrorView>
    decreases SECTION_COUNT - section,
{
    if section < 0 || section >= SECTION_COUNT {
        if previous_end != len {
            Some(corrupt("trailing bytes after final section"@))
        } else {
            None
        }
    } else if offsets[section] > usize::MAX {
        Some(corrupt("section offset exceeds usize"@))
    } else if counts[section] > usize::MAX || counts[section] * section_width(section)
        > usize::MAX {
        Some(corrupt("section byte length overflowed"@))
    } else if section_end(counts, offsets, section) > usize::MAX {
        Some(corrupt("section end overflowed"@))
    } else if offsets[section] != previous_end {
        Some(corrupt("section offsets are not contiguous"@))
    } else if section_end(counts, offsets, section) > len {
        Some(corrupt("section extends past file end"@))
    } else {
        ranges_error(len, counts, offsets, section + 1, section_end(counts, offsets, section))
    }
}

fn section_row_width(section: usize) -> (width: usize)
    requires
        section < SECTION_COUNT,
    ensures
        width == section_width(section as int),
{
    if section == 0 || section == 1 {
        SegmentEdge::row_width()
    } else if section == 2 {
        SegmentEdgeWeight::row_width()
    } else if section == 3 {
        SegmentNodeState::row_width()
    } else if section == 4 {
        SegmentResolution::row_width()
    } else if section == 5 {
        SegmentFilterValue::row_width()
    } else {
        SegmentTenant::row_width()
    }
}

pub fn validate_section_ranges(
    len: usize,
    counts: &[u32; SECTION_COUNT],
    offsets: &[u64; SECTION_COUNT],
) -> (ranges: GraphResult<Vec<std::ops::Range<usize>>>)
    ensures
        match ranges {
            Ok(ranges) => {
                &&& ranges_error(len as nat, counts@, offsets@, 0, HEADER_SIZE as int) is None
                &&& ranges@.len() == SECTION_COUNT
                &&& forall|i: int|
                    0 <= i < SECTION_COUNT ==> {
                        &&& (#[trigger] ranges@[i]).start == offsets@[i]
                        &&& ranges@[i].end == section_end(counts@, offsets@, i)
                        &&& ranges@[i].start <= ranges@[i].end <= len
                    }
            },
            Err(error) => ranges_error(len as nat, counts@, offsets@, 0, HEADER_SIZE as int)
                == Some(error@),
        },
{
    let mut ranges: Vec<std::ops::Range<usize>> = Vec::new();
    let mut previous_end: usize = HEADER_SIZE;
    for idx in 0..SECTION_COUNT
        invariant
            ranges_error(len as nat, counts@, offsets@, 0, HEADER_SIZE as int) == ranges_error(
                len as nat,
                counts@,
                offsets@,
                idx as int,
                previous_end as int,
            ),
            ranges@.len() == idx,
            forall|i: int|
                0 <= i < idx ==> {
                    &&& (#[trigger] ranges@[i]).start == offsets@[i]
                    &&& ranges@[i].end == section_end(counts@, offsets@, i)
                    &&& ranges@[i].start <= ranges@[i].end <= len
                },
    {
        if offsets[idx] > usize::MAX as u64 {
            return Err(segment_corrupt("section offset exceeds usize"));
        }
        let start: usize = offsets[idx] as usize;
        let width: usize = section_row_width(idx);
        assert(counts@[idx as int] as int * width == counts@[idx as int] * section_width(idx as int));
        let byte_len: usize = match (counts[idx] as usize).checked_mul(width) {
            Some(byte_len) => byte_len,
            None => {
                return Err(segment_corrupt("section byte length overflowed"));
            },
        };
        let end: usize = match start.checked_add(byte_len) {
            Some(end) => end,
            None => {
                return Err(segment_corrupt("section end overflowed"));
            },
        };
        if start != previous_end {
            return Err(segment_corrupt("section offsets are not contiguous"));
        }
        if end > len {
            return Err(segment_corrupt("section extends past file end"));
        }
        ranges.push(start..end);
        previous_end = end;
    }
    if previous_end != len {
        return Err(segment_corrupt("trailing bytes after final section"));
    }
    Ok(ranges)
}

pub fn section<'a>(bytes: &'a [u8], range: std::ops::Range<usize>) -> (part: GraphResult<&'a [u8]>)
    ensures
        match part {
            Ok(part) => range.start <= range.end <= bytes@.len() && part@ == bytes@.subrange(
                range.start as int,
                range.end as int,
            ),
            Err(error) => !(range.start <= range.end <= bytes@.len()) && error@ == corrupt(
                "section range is out of bounds"@,
            ),
        },
{
    if range.start <= range.end && range.end <= bytes.len() {
        Ok(slice_subrange(bytes, range.start, range.end))
    } else {
        Err(segment_corrupt("section range is out of bounds"))
    }
}

// ---------------------------------------------------------------------------
// Whole segments
// ---------------------------------------------------------------------------

/// The bytes over which the checksum is taken: the checksum field holds zeros.
pub open spec fn unsealed(bytes: Seq<u8>) -> Seq<u8> {
    patched(bytes, CHECKSUM_OFFSET as int, seq![0u8, 0u8, 0u8, 0u8])
}

/// CRC32 over the segment bytes with the checksum field zeroed.
pub fn checksum_segment_bytes(bytes: &[u8]) -> (sum: u32)
    requires
        bytes.len() >= HEADER_SIZE,
    ensures
        sum == checksum::crc32_of(unsealed(bytes@)),
{
    let mut image: Vec<u8> = vstd::slice::slice_to_vec(bytes);
    let zeros: Vec<u8> = vec![0u8, 0u8, 0u8, 0u8];
    write_at(&mut image, CHECKSUM_OFFSET, &zeros);
    assert(zeros@ =~= seq![0u8, 0u8, 0u8, 0u8]);
    crc32fast::hash(image.as_slice())
}

/// The number of rows in a section.
pub open spec fn section_rows(segment: DeltaSegmentView, section: int) -> nat {
    if section == 0 {
        segment.edge_inserts.len()
    } else if section == 1 {
        segment.edge_deletes.len()
    } else if section == 2 {
        segment.edge_weights.len()
    } else if section == 3 {
        segment.node_states.len()
    } else if section == 4 {
        segment.resolutions.len()
    } else if section == 5 {
        segment.filters.len()
    } else {
        segment.tenants.len()
    }
}

/// Where a section starts: after the header and the sections before it.
pub open spec fn section_start(segment: DeltaSegmentView, section: int) -> int
    decreases section,
{
    if section <= 0 {
        HEADER_SIZE as int
    } else {
        section_start(segment, section - 1) + section_rows(segment, section - 1) * section_width(
            section - 1,
        )
    }
}

/// The rows of all sections, one section after the other.
pub open spec fn body(segment: DeltaSegmentView) -> Seq<u8> {
    flat(segment.edge_inserts) + flat(segment.edge_deletes) + flat(segment.edge_weights) + flat(
        segment.node_states,
    ) + flat(segment.resolutions) + flat(segment.filters) + flat(segment.tenants)
}

/// The section counts that the header of this segment holds.
pub open spec fn image_counts(segment: DeltaSegmentView) -> Seq<u32> {
    Seq::new(SECTION_COUNT as nat, |i: int| section_rows(segment, i) as u32)
}

/// The section offsets that the header of this segment holds.
pub open spec fn image_offsets(segment: DeltaSegmentView) -> Seq<u64> {
    Seq::new(SECTION_COUNT as nat, |i: int| section_start(segment, i) as u64)
}

/// Whether every section has a row count that the header can hold.
pub open spec fn countable(segment: DeltaSegmentView) -> bool {
    forall|i: int| 0 <= i < SECTION_COUNT ==> #[trigger] section_rows(segment, i) <= u32::MAX
}

/// Whether `bytes` are the stored form of `segment`. Every byte is determined.
pub open spec fn is_image(segment: DeltaSegmentView, bytes: Seq<u8>) -> bool {
    &&& header_at(
        bytes,
        segment.header,
        image_counts(segment),
        image_offsets(segment),
        checksum::crc32_of(unsealed(bytes)),
    )
    &&& bytes.skip(HEADER_SIZE as int) == body(segment)
}

/// The segment as it is read back: with the format version and the checksum of
/// its stored form in the header.
pub open spec fn sealed(segment: DeltaSegmentView, bytes: Seq<u8>) -> DeltaSegmentView {
    DeltaSegmentView {
        header: SegmentHeader {
            version: VERSION,
            checksum: checksum::crc32_of(unsealed(bytes)),
            ..segment.header
        },
        ..segment
    }
}

/// The kind that a header byte stands for.
pub open spec fn kind_of(raw: u8) -> Option<SegmentKind> {
    if raw == 1 {
        Some(SegmentKind::Edge)
    } else if raw == 2 {
        Some(SegmentKind::Node)
    } else {
        None
    }
}

/// The direction that a header byte stands for.
pub open spec fn direction_of(raw: u8) -> Option<TraversalDirection> {
    if raw == 0 {
        Some(TraversalDirection::Any)
    } else if raw == 1 {
        Some(TraversalDirection::Out)
    } else if raw == 2 {
        Some(TraversalDirection::In)
    } else {
        None
    }
}

/// The unsigned 32-bit header field at `at`.
pub open spec fn u32_field(bytes: Seq<u8>, at: int) -> u32 {
    spec_u32_from_le_bytes(bytes.subrange(at, at + 4))
}

/// The metadata in the header, where its kind and direction are known.
pub open spec fn header_of(bytes: Seq<u8>) -> SegmentHeader {
    SegmentHeader {
        version: u32_field(bytes, 8),
        kind: kind_of(bytes[12])->0,
        level: bytes[14],
        direction: direction_of(bytes[13])->0,
        source_start: u32_field(bytes, 16),
        source_end: u32_field(bytes, 20),
        sync_watermark: signed(spec_u64_from_le_bytes(bytes.subrange(24, 32))),
        checksum: u32_field(bytes, CHECKSUM_OFFSET as int),
    }
}

pub open spec fn stored_counts(bytes: Seq<u8>) -> Seq<u32> {
    Seq::new(SECTION_COUNT as nat, |i: int| header_count(bytes, i))
}

pub open spec fn stored_offsets(bytes: Seq<u8>) -> Seq<u64> {
    Seq::new(SECTION_COUNT as nat, |i: int| header_offset(bytes, i))
}

/// The bytes of a section, as the header places it.
pub open spec fn section_bytes(bytes: Seq<u8>, section: int) -> Seq<u8> {
    bytes.subrange(
        header_offset(bytes, section) as int,
        section_end(stored_counts(bytes), stored_offsets(bytes), section),
    )
}

/// The rows of a section, as the header places it.
pub open spec fn stored_rows<R: SegmentRow>(bytes: Seq<u8>, section: int) -> Result<
    Seq<R>,
    GraphErrorView,
> {
    decoded_rows::<R>(section_bytes(bytes, section), header_count(bytes, section) as nat)
}

/// Whether every boolean of every section is well formed.
pub open spec fn rows_decode(bytes: Seq<u8>) -> bool {
    &&& stored_rows::<SegmentEdge>(bytes, 0) is Ok
    &&& stored_rows::<SegmentEdge>(bytes, 1) is Ok
    &&& stored_rows::<SegmentEdgeWeight>(bytes, 2) is Ok
    &&& stored_rows::<SegmentNodeState>(bytes, 3) is Ok
    &&& stored_rows::<SegmentResolution>(bytes, 4) is Ok
    &&& stored_rows::<SegmentFilterValue>(bytes, 5) is Ok
    &&& stored_rows::<SegmentTenant>(bytes, 6) is Ok
}

/// The segment with the rows that the sections hold, where they decode.
pub open spec fn stored_segment(bytes: Seq<u8>) -> DeltaSegmentView {
    DeltaSegmentView {
        header: header_of(bytes),
        edge_inserts: stored_rows::<SegmentEdge>(bytes, 0)->Ok_0,
        edge_deletes: stored_rows::<SegmentEdge>(bytes, 1)->Ok_0,
        edge_weights: stored_rows::<SegmentEdgeWeight>(bytes, 2)->Ok_0,
        node_states: stored_rows::<SegmentNodeState>(bytes, 3)->Ok_0,
        resolutions: stored_rows::<SegmentResolution>(bytes, 4)->Ok_0,
        filters: stored_rows::<SegmentFilterValue>(bytes, 5)->Ok_0,
        tenants: stored_rows::<SegmentTenant>(bytes, 6)->Ok_0,
    }
}

/// The segment stored in `bytes`, or the first error found in them.
pub open spec fn parse(bytes: Seq<u8>) -> Result<DeltaSegmentView, GraphErrorView> {
    if bytes.len() < HEADER_SIZE {
        Err(corrupt("segment is shorter than header"@))
    } else if bytes.subrange(0, 8) != magic() {
        Err(corrupt("invalid segment magic"@))
    } else if !reserved_zero(bytes) {
        Err(corrupt("reserved header bytes must be zero"@))
    } else if u32_field(bytes, 8) != VERSION {
        Err(
            GraphErrorView::IncompatibleVersion(
                "projection segment version "@ + text::decimal(u32_field(bytes, 8) as nat)
                    + " is unsupported; expected "@ + text::decimal(VERSION as nat),
            ),
        )
    } else if u32_field(bytes, CHECKSUM_OFFSET as int) != checksum::crc32_of(unsealed(bytes)) {
        Err(corrupt("segment checksum mismatch"@))
    } else if kind_of(bytes[12]) is None {
        Err(unknown_kind(bytes[12]))
    } else if direction_of(bytes[13]) is None {
        Err(corrupt("unknown segment direction"@))
    } else if header_shape_error(header_of(bytes)) is Some {
        Err(header_shape_error(header_of(bytes))->0)
    } else if ranges_error(
        bytes.len(),
        stored_counts(bytes),
        stored_offsets(bytes),
        0,
        HEADER_SIZE as int,
    ) is Some {
        Err(
            ranges_error(
                bytes.len(),
                stored_counts(bytes),
                stored_offsets(bytes),
                0,
                HEADER_SIZE as int,
            )->0,
        )
    } else if !rows_decode(bytes) {
        Err(corrupt("boolean section value must be 0 or 1"@))
    } else if segment_error(stored_segment(bytes)) is Some {
        Err(segment_error(stored_segment(bytes))->0)
    } else {
        Ok(stored_segment(bytes))
    }
}

fn has_magic(bytes: &[u8]) -> (found: bool)
    requires
        bytes.len() >= HEADER_SIZE,
    ensures
        found == (bytes@.subrange(0, 8) == magic()),
{
    let found: bool = bytes[0] == 80 && bytes[1] == 71 && bytes[2] == 71 && bytes[3] == 83
        && bytes[4] == 69 && bytes[5] == 71 && bytes[6] == 48 && bytes[7] == 49;
    proof {
        let head = bytes@.subrange(0, 8);
        if found {
            assert(head =~= magic());
        } else {
            assert(head[0] == bytes@[0] && head[1] == bytes@[1] && head[2] == bytes@[2] && head[3]
                == bytes@[3] && head[4] == bytes@[4] && head[5] == bytes@[5] && head[6] == bytes@[6]
                && head[7] == bytes@[7]);
        }
    }
    found
}

impl DeltaSegment {
    /// Construct an empty segment with validated header metadata.
    pub fn new(
        kind: SegmentKind,
        level: u8,
        direction: TraversalDirection,
        source_start: u32,
        source_end: u32,
        sync_watermark: i64,
    ) -> (segment: GraphResult<DeltaSegment>)
        ensures
            safety::outcome(segment) == empty_segment(
                kind,
                level,
                direction,
                source_start,
                source_end,
                sync_watermark,
            ),
    {
        let header: SegmentHeader = SegmentHeader {
            version: VERSION,
            kind,
            level,
            direction,
            source_start,
            source_end,
            sync_watermark,
            checksum: 0,
        };
        validate_header_shape(&header)?;
        let segment: DeltaSegment = DeltaSegment {
            header,
            edge_inserts: Vec::new(),
            edge_deletes: Vec::new(),
            edge_weights: Vec::new(),
            node_states: Vec::new(),
            resolutions: Vec::new(),
            filters: Vec::new(),
            tenants: Vec::new(),
        };
        Ok(segment)
    }

    pub fn section_counts(&self) -> (counts: GraphResult<[u32; SECTION_COUNT]>)
        ensures
            match counts {
                Ok(counts) => countable(self@) && counts@ == image_counts(self@),
                Err(error) => !countable(self@) && error@ == corrupt(
                    "section row count exceeds u32"@,
                ),
            },
    {
        assert(section_rows(self@, 0) == self.edge_inserts@.len());
        assert(section_rows(self@, 1) == self.edge_deletes@.len());
        assert(section_rows(self@, 2) == self.edge_weights@.len());
        assert(section_rows(self@, 3) == self.node_states@.len());
        assert(section_rows(self@, 4) == self.resolutions@.len());
        assert(section_rows(self@, 5) == self.filters@.len());
        assert(section_rows(self@, 6) == self.tenants@.len());
        let counts: [u32; SECTION_COUNT] = [
            count_len(self.edge_inserts.len())?,
            count_len(self.edge_deletes.len())?,
            count_len(self.edge_weights.len())?,
            count_len(self.node_states.len())?,
            count_len(self.resolutions.len())?,
            count_len(self.filters.len())?,
            count_len(self.tenants.len())?,
        ];
        assert(counts@ =~= image_counts(self@));
        Ok(counts)
    }

    /// Encode this segment to bytes.
    ///
    /// # Errors
    ///
    /// Returns [`GraphError::CorruptFile`] if row bounds or section ownership
    /// are invalid.
    pub fn to_bytes(&self) -> (bytes: GraphResult<Vec<u8>>)
        ensures
            match bytes {
                Ok(bytes) => {
                    &&& segment_error(self@) is None
                    &&& countable(self@)
                    &&& is_image(self@, bytes@)
                    &&& parse(bytes@) == Ok::<DeltaSegmentView, GraphErrorView>(
                        sealed(self@, bytes@),
                    )
                },
                Err(error) => Some(error@) == first_of(
                    segment_error(self@),
                    if countable(self@) {
                        None
                    } else {
                        Some(corrupt("section row count exceeds u32"@))
                    },
                ),
            },
    {
        validate_segment(self)?;
        let counts: [u32; SECTION_COUNT] = self.section_counts()?;
        let mut bytes: Vec<u8> = zeroed_header();
        let offsets: [u64; SECTION_COUNT] = append_sections(&mut bytes, self);
        assert(bytes@.skip(HEADER_SIZE as int) =~= body(self@));
        write_header(&mut bytes, &self.header, &counts, &offsets, 0);
        let checksum: u32 = checksum_segment_bytes(bytes.as_slice());
        let ghost blank = bytes@;
        write_u32_at(&mut bytes, CHECKSUM_OFFSET, checksum);
        proof {
            lemma_auto_spec_u32_to_from_le_bytes();
            assert(spec_u32_to_le_bytes(checksum).len() == 4);
            lemma_seal(self@, blank, bytes@, checksum);
            assert(bytes@.len() == bytes.len());
            lemma_parse_image(self@, bytes@);
        }
        Ok(bytes)
    }

    /// Decode and validate a segment from bytes.
    ///
    /// # Errors
    ///
    /// Returns [`GraphError::CorruptFile`] when the segment is malformed.
    pub fn from_bytes(bytes: &[u8]) -> (segment: GraphResult<DeltaSegment>)
        ensures
            safety::outcome(segment) == parse(bytes@),
    {
        if bytes.len() < HEADER_SIZE {
            return Err(segment_corrupt("segment is shorter than header"));
        }
        if !has_magic(bytes) {
            return Err(segment_corrupt("invalid segment magic"));
        }
        validate_reserved_header_bytes(bytes)?;
        let version: u32 = read_u32(bytes, 8)?;
        if version != VERSION {
            let found: String = decimal_text(version as u64);
            let known: String = decimal_text(VERSION as u64);
            let text: String = concat3(
                "projection segment version ",
                found.as_str(),
                " is unsupported; expected ",
            );
            return Err(
                GraphError::IncompatibleVersion(concat2(text.as_str(), known.as_str())),
            );
        }
        let stored_checksum: u32 = read_u32(bytes, CHECKSUM_OFFSET)?;
        if stored_checksum != checksum_segment_bytes(bytes) {
            return Err(segment_corrupt("segment checksum mismatch"));
        }
        let header: SegmentHeader = SegmentHeader {
            version,
            kind: SegmentKind::from_u8(read_u8(bytes, 12)?)?,
            level: read_u8(bytes, 14)?,
            direction: decode_direction(read_u8(bytes, 13)?)?,
            source_start: read_u32(bytes, 16)?,
            source_end: read_u32(bytes, 20)?,
            sync_watermark: read_i64(bytes, 24)?,
            checksum: stored_checksum,
        };
        assert(header == header_of(bytes@));
        validate_header_shape(&header)?;
        let counts: [u32; SECTION_COUNT] = read_counts(bytes)?;
        let offsets: [u64; SECTION_COUNT] = read_offsets(bytes)?;
        assert(counts@ =~= stored_counts(bytes@));
        assert(offsets@ =~= stored_offsets(bytes@));
        let ranges: Vec<std::ops::Range<usize>> = validate_section_ranges(
            bytes.len(),
            &counts,
            &offsets,
        )?;
        let part0: &[u8] = section(bytes, ranges[0].start..ranges[0].end)?;
        assert(part0@ == section_bytes(bytes@, 0));
        let part1: &[u8] = section(bytes, ranges[1].start..ranges[1].end)?;
        assert(part1@ == section_bytes(bytes@, 1));
        let part2: &[u8] = section(bytes, ranges[2].start..ranges[2].end)?;
        assert(part2@ == section_bytes(bytes@, 2));
        let part3: &[u8] = section(bytes, ranges[3].start..ranges[3].end)?;
        assert(part3@ == section_bytes(bytes@, 3));
        let part4: &[u8] = section(bytes, ranges[4].start..ranges[4].end)?;
        assert(part4@ == section_bytes(bytes@, 4));
        let part5: &[u8] = section(bytes, ranges[5].start..ranges[5].end)?;
        assert(part5@ == section_bytes(bytes@, 5));
        let part6: &[u8] = section(bytes, ranges[6].start..ranges[6].end)?;
        assert(part6@ == section_bytes(bytes@, 6));
        let segment: DeltaSegment = DeltaSegment {
            header,
            edge_inserts: decode_edges(part0, counts[0])?,
            edge_deletes: decode_edges(part1, counts[1])?,
            edge_weights: decode_edge_weights(part2, counts[2])?,
            node_states: decode_node_states(part3, counts[3])?,
            resolutions: decode_resolutions(part4, counts[4])?,
            filters: decode_filters(part5, counts[5])?,
            tenants: decode_tenants(part6, counts[6])?,
        };
        assert(segment@ == stored_segment(bytes@));
        validate_segment(&segment)?;
        Ok(segment)
    }
}

/// A segment without rows, or the error of its header.
pub open spec fn empty_segment(
    kind: SegmentKind,
    level: u8,
    direction: TraversalDirection,
    source_start: u32,
    source_end: u32,
    sync_watermark: i64,
) -> Result<DeltaSegmentView, GraphErrorView> {
    let header = SegmentHeader {
        version: VERSION,
        kind,
        level,
        direction,
        source_start,
        source_end,
        sync_watermark,
        checksum: 0,
    };
    match header_shape_error(header) {
        Some(error) => Err(error),
        None => Ok(
            DeltaSegmentView {
                header,
                edge_inserts: Seq::empty(),
                edge_deletes: Seq::empty(),
                edge_weights: Seq::empty(),
                node_states: Seq::empty(),
                resolutions: Seq::empty(),
                filters: Seq::empty(),
                tenants: Seq::empty(),
            },
        ),
    }
}

/// Append the rows of every section, and return where each one starts.
fn append_sections(bytes: &mut Vec<u8>, segment: &DeltaSegment) -> (offsets: [u64; SECTION_COUNT])
    requires
        old(bytes)@.len() == HEADER_SIZE,
    ensures
        offsets@ == image_offsets(segment@),
        final(bytes)@ == old(bytes)@ + body(segment@),
{
    let ghost start = bytes@;
    proof {
        reveal_with_fuel(section_start, 8);
        lemma_flat(segment.edge_inserts@);
        lemma_flat(segment.edge_deletes@);
        lemma_flat(segment.edge_weights@);
        lemma_flat(segment.node_states@);
        lemma_flat(segment.resolutions@);
        lemma_flat(segment.filters@);
        lemma_flat(segment.tenants@);
    }
    let offset0: u64 = bytes.len() as u64;
    encode_edges(bytes, segment.edge_inserts.as_slice());
    let offset1: u64 = bytes.len() as u64;
    encode_edges(bytes, segment.edge_deletes.as_slice());
    let offset2: u64 = bytes.len() as u64;
    encode_edge_weights(bytes, segment.edge_weights.as_slice());
    let offset3: u64 = bytes.len() as u64;
    encode_node_states(bytes, segment.node_states.as_slice());
    let offset4: u64 = bytes.len() as u64;
    encode_resolutions(bytes, segment.resolutions.as_slice());
    let offset5: u64 = bytes.len() as u64;
    encode_filters(bytes, segment.filters.as_slice());
    let offset6: u64 = bytes.len() as u64;
    encode_tenants(bytes, segment.tenants.as_slice());
    let offsets: [u64; SECTION_COUNT] = [
        offset0,
        offset1,
        offset2,
        offset3,
        offset4,
        offset5,
        offset6,
    ];
    assert(offsets@ =~= image_offsets(segment@));
    assert(bytes@ =~= start + body(segment@));
    offsets
}

fn zeroed_header() -> (bytes: Vec<u8>)
    ensures
        bytes@.len() == HEADER_SIZE,
        forall|i: int| 0 <= i < HEADER_SIZE ==> #[trigger] bytes@[i] == 0,
{
    let mut bytes: Vec<u8> = Vec::new();
    for i in 0..HEADER_SIZE
        invariant
            bytes@.len() == i,
            forall|j: int| 0 <= j < i ==> #[trigger] bytes@[j] == 0,
    {
        bytes.push(0);
    }
    bytes
}

/// Writing the checksum into a header that holds zeros there gives the stored
/// form.
proof fn lemma_seal(segment: DeltaSegmentView, blank: Seq<u8>, bytes: Seq<u8>, sum: u32)
    requires
        header_at(blank, segment.header, image_counts(segment), image_offsets(segment), 0),
        blank.skip(HEADER_SIZE as int) == body(segment),
        bytes == patched(blank, CHECKSUM_OFFSET as int, spec_u32_to_le_bytes(sum)),
        sum == checksum::crc32_of(unsealed(blank)),
    ensures
        is_image(segment, bytes),
{
    lemma_auto_spec_u32_to_from_le_bytes();
    let field = spec_u32_to_le_bytes(sum);
    assert(field.len() == 4);
    lemma_patched(blank, CHECKSUM_OFFSET as int, field);
    assert(unsealed(bytes) =~= unsealed(blank));
    assert(bytes.skip(HEADER_SIZE as int) =~= blank.skip(HEADER_SIZE as int));
    assert forall|i: int| 0 <= i < SECTION_COUNT implies #[trigger] count_field(bytes, i)
        == spec_u32_to_le_bytes(image_counts(segment)[i]) by {
        assert(count_field(blank, i) == spec_u32_to_le_bytes(image_counts(segment)[i]));
    }
    assert forall|i: int| 0 <= i < SECTION_COUNT implies #[trigger] offset_field(bytes, i)
        == spec_u64_to_le_bytes(image_offsets(segment)[i]) by {
        assert(offset_field(blank, i) == spec_u64_to_le_bytes(image_offsets(segment)[i]));
    }
}

/// The header of the stored form gives back the segment's metadata and section
/// table.
proof fn lemma_image_header(segment: DeltaSegmentView, bytes: Seq<u8>)
    requires
        header_shape_error(segment.header) is None,
        is_image(segment, bytes),
    ensures
        kind_of(bytes[12]) is Some,
        direction_of(bytes[13]) is Some,
        header_of(bytes) == sealed(segment, bytes).header,
        stored_counts(bytes) == image_counts(segment),
        stored_offsets(bytes) == image_offsets(segment),
{
    lemma_auto_spec_u32_to_from_le_bytes();
    lemma_auto_spec_u64_to_from_le_bytes();
    let header = segment.header;
    let sum = checksum::crc32_of(unsealed(bytes));
    assert(spec_u32_to_le_bytes(VERSION).len() == 4);
    assert(spec_u32_to_le_bytes(header.source_start).len() == 4);
    assert(spec_u32_to_le_bytes(header.source_end).len() == 4);
    assert(spec_u32_to_le_bytes(sum).len() == 4);
    assert(spec_u64_to_le_bytes(unsigned(header.sync_watermark)).len() == 8);
    assert(signed(unsigned(header.sync_watermark)) == header.sync_watermark);
    assert forall|i: int| 0 <= i < SECTION_COUNT implies header_count(bytes, i) == image_counts(
        segment,
    )[i] by {
        assert(count_field(bytes, i) == spec_u32_to_le_bytes(image_counts(segment)[i]));
        assert(spec_u32_to_le_bytes(image_counts(segment)[i]).len() == 4);
    }
    assert forall|i: int| 0 <= i < SECTION_COUNT implies header_offset(bytes, i) == image_offsets(
        segment,
    )[i] by {
        assert(offset_field(bytes, i) == spec_u64_to_le_bytes(image_offsets(segment)[i]));
        assert(spec_u64_to_le_bytes(image_offsets(segment)[i]).len() == 8);
    }
    assert(stored_counts(bytes) =~= image_counts(segment));
    assert(stored_offsets(bytes) =~= image_offsets(segment));
}

/// Sections start in order, and the last one ends where the body ends.
proof fn lemma_section_starts(segment: DeltaSegmentView)
    ensures
        HEADER_SIZE <= section_start(segment, 0) <= section_start(segment, 1) <= section_start(
            segment,
            2,
        ) <= section_start(segment, 3) <= section_start(segment, 4) <= section_start(segment, 5)
            <= section_start(segment, 6) <= section_start(segment, 7),
        section_start(segment, 7) == HEADER_SIZE + body(segment).len(),
        forall|i: int|
            0 <= i < SECTION_COUNT ==> #[trigger] section_start(segment, i) <= section_start(
                segment,
                7,
            ),
        body(segment).subrange(
            section_start(segment, 0) - HEADER_SIZE,
            section_start(segment, 1) - HEADER_SIZE,
        ) == flat(segment.edge_inserts),
        body(segment).subrange(
            section_start(segment, 1) - HEADER_SIZE,
            section_start(segment, 2) - HEADER_SIZE,
        ) == flat(segment.edge_deletes),
        body(segment).subrange(
            section_start(segment, 2) - HEADER_SIZE,
            section_start(segment, 3) - HEADER_SIZE,
        ) == flat(segment.edge_weights),
        body(segment).subrange(
            section_start(segment, 3) - HEADER_SIZE,
            section_start(segment, 4) - HEADER_SIZE,
        ) == flat(segment.node_states),
        body(segment).subrange(
            section_start(segment, 4) - HEADER_SIZE,
            section_start(segment, 5) - HEADER_SIZE,
        ) == flat(segment.resolutions),
        body(segment).subrange(
            section_start(segment, 5) - HEADER_SIZE,
            section_start(segment, 6) - HEADER_SIZE,
        ) == flat(segment.filters),
        body(segment).subrange(
            section_start(segment, 6) - HEADER_SIZE,
            section_start(segment, 7) - HEADER_SIZE,
        ) == flat(segment.tenants),
{
    reveal_with_fuel(section_start, 8);
    lemma_flat(segment.edge_inserts);
    lemma_flat(segment.edge_deletes);
    lemma_flat(segment.edge_weights);
    lemma_flat(segment.node_states);
    lemma_flat(segment.resolutions);
    lemma_flat(segment.filters);
    lemma_flat(segment.tenants);
    assert(body(segment).subrange(
        section_start(segment, 0) - HEADER_SIZE,
        section_start(segment, 1) - HEADER_SIZE,
    ) =~= flat(segment.edge_inserts));
    assert(body(segment).subrange(
        section_start(segment, 1) - HEADER_SIZE,
        section_start(segment, 2) - HEADER_SIZE,
    ) =~= flat(segment.edge_deletes));
    assert(body(segment).subrange(
        section_start(segment, 2) - HEADER_SIZE,
        section_start(segment, 3) - HEADER_SIZE,
    ) =~= flat(segment.edge_weights));
    assert(body(segment).subrange(
        section_start(segment, 3) - HEADER_SIZE,
        section_start(segment, 4) - HEADER_SIZE,
    ) =~= flat(segment.node_states));
    assert(body(segment).subrange(
        section_start(segment, 4) - HEADER_SIZE,
        section_start(segment, 5) - HEADER_SIZE,
    ) =~= flat(segment.resolutions));
    assert(body(segment).subrange(
        section_start(segment, 5) - HEADER_SIZE,
        section_start(segment, 6) - HEADER_SIZE,
    ) =~= flat(segment.filters));
    assert(body(segment).subrange(
        section_start(segment, 6) - HEADER_SIZE,
        section_start(segment, 7) - HEADER_SIZE,
    ) =~= flat(segment.tenants));
}

/// The section table of the stored form has no error.
proof fn lemma_image_ranges(segment: DeltaSegmentView, bytes: Seq<u8>)
    requires
        countable(segment),
        is_image(segment, bytes),
        bytes.len() <= usize::MAX,
    ensures
        ranges_error(
            bytes.len(),
            image_counts(segment),
            image_offsets(segment),
            0,
            HEADER_SIZE as int,
        ) is None,
        forall|i: int|
            0 <= i < SECTION_COUNT ==> #[trigger] image_offsets(segment)[i] == section_start(
                segment,
                i,
            ),
        forall|i: int|
            0 <= i < SECTION_COUNT ==> #[trigger] section_end(
                image_counts(segment),
                image_offsets(segment),
                i,
            ) == section_start(segment, i + 1),
{
    lemma_section_starts(segment);
    let counts = image_counts(segment);
    let offsets = image_offsets(segment);
    assert(bytes.len() == HEADER_SIZE + bytes.skip(HEADER_SIZE as int).len());
    assert forall|i: int| 0 <= i < SECTION_COUNT implies #[trigger] offsets[i] == section_start(
        segment,
        i,
    ) by {
        assert(section_start(segment, i) <= section_start(segment, 7));
    }
    assert forall|i: int| 0 <= i < SECTION_COUNT implies #[trigger] section_end(counts, offsets, i)
        == section_start(segment, i + 1) by {
        assert(section_rows(segment, i) <= u32::MAX);
        assert(offsets[i] == section_start(segment, i));
        assert(counts[i] == section_rows(segment, i));
        reveal_with_fuel(section_start, 2);
    }
    lemma_ranges_from(segment, bytes.len(), 0);
}

/// From any section on, the section table of the stored form has no error.
proof fn lemma_ranges_from(segment: DeltaSegmentView, len: nat, section: int)
    requires
        0 <= section <= SECTION_COUNT,
        countable(segment),
        len == section_start(segment, 7),
        len <= usize::MAX,
        forall|i: int|
            0 <= i < SECTION_COUNT ==> #[trigger] image_offsets(segment)[i] == section_start(
                segment,
                i,
            ),
        forall|i: int|
            0 <= i < SECTION_COUNT ==> #[trigger] section_end(
                image_counts(segment),
                image_offsets(segment),
                i,
            ) == section_start(segment, i + 1),
    ensures
        ranges_error(
            len,
            image_counts(segment),
            image_offsets(segment),
            section,
            section_start(segment, section),
        ) is None,
    decreases SECTION_COUNT - section,
{
    lemma_section_starts(segment);
    if section < SECTION_COUNT {
        let counts = image_counts(segment);
        let offsets = image_offsets(segment);
        assert(offsets[section] == section_start(segment, section));
        assert(section_end(counts, offsets, section) == section_start(segment, section + 1));
        assert(section_rows(segment, section) <= u32::MAX);
        assert(0 <= counts[section] * section_width(section)) by (nonlinear_arith)
            requires
                0 <= counts[section],
                0 <= section_width(section),
        ;
        assert(counts[section] <= usize::MAX);
        lemma_ranges_from(segment, len, section + 1);
        assert(section + 1 <= 7);
        assert(section_start(segment, section + 1) <= section_start(segment, 7)) by {
            if section + 1 < SECTION_COUNT {
                assert(section_start(segment, section + 1) <= section_start(segment, 7));
            }
        }
    }
}

/// Reading back the stored form of a valid segment gives that segment, with
/// the format version and the stored checksum in its header.
pub proof fn lemma_parse_image(segment: DeltaSegmentView, bytes: Seq<u8>)
    requires
        segment_error(segment) is None,
        countable(segment),
        is_image(segment, bytes),
        bytes.len() <= usize::MAX,
    ensures
        parse(bytes) == Ok::<DeltaSegmentView, GraphErrorView>(sealed(segment, bytes)),
{
    lemma_image_header(segment, bytes);
    lemma_section_starts(segment);
    lemma_image_ranges(segment, bytes);
    lemma_image_section::<SegmentEdge>(segment, bytes, 0, segment.edge_inserts);
    lemma_image_section::<SegmentEdge>(segment, bytes, 1, segment.edge_deletes);
    lemma_image_section::<SegmentEdgeWeight>(segment, bytes, 2, segment.edge_weights);
    lemma_image_section::<SegmentNodeState>(segment, bytes, 3, segment.node_states);
    lemma_image_section::<SegmentResolution>(segment, bytes, 4, segment.resolutions);
    lemma_image_section::<SegmentFilterValue>(segment, bytes, 5, segment.filters);
    lemma_image_section::<SegmentTenant>(segment, bytes, 6, segment.tenants);
    lemma_same_rows_error(segment, sealed(segment, bytes).header);
    assert(stored_segment(bytes) =~= sealed(segment, bytes));
}

/// A section of the stored form gives back its rows.
proof fn lemma_image_section<R: SegmentRow>(
    segment: DeltaSegmentView,
    bytes: Seq<u8>,
    section: int,
    rows: Seq<R>,
)
    requires
        header_shape_error(segment.header) is None,
        countable(segment),
        is_image(segment, bytes),
        bytes.len() <= usize::MAX,
        0 <= section < SECTION_COUNT,
        rows.len() == section_rows(segment, section),
        R::width() == section_width(section),
        HEADER_SIZE <= section_start(segment, section) <= section_start(segment, section + 1)
            <= section_start(segment, 7),
        section_start(segment, 7) == HEADER_SIZE + body(segment).len(),
        body(segment).subrange(
            section_start(segment, section) - HEADER_SIZE,
            section_start(segment, section + 1) - HEADER_SIZE,
        ) == flat(rows),
    ensures
        stored_rows::<R>(bytes, section) == Ok::<Seq<R>, GraphErrorView>(rows),
{
    lemma_image_header(segment, bytes);
    lemma_image_ranges(segment, bytes);
    lemma_decoded_flat(rows);
    assert(image_offsets(segment)[section] == section_start(segment, section));
    assert(stored_offsets(bytes)[section] == header_offset(bytes, section));
    assert(stored_counts(bytes)[section] == header_count(bytes, section));
    assert(section_rows(segment, section) <= u32::MAX);
    assert(bytes.skip(HEADER_SIZE as int) == body(segment));
    assert(section_bytes(bytes, section) =~= body(segment).subrange(
        section_start(segment, section) - HEADER_SIZE,
        section_start(segment, section + 1) - HEADER_SIZE,
    ));
}

/// Row bounds depend on the source range of the header alone.
proof fn lemma_same_rows_error(segment: DeltaSegmentView, header: SegmentHeader)
    requires
        header.kind == segment.header.kind,
        header.source_start == segment.header.source_start,
        header.source_end == segment.header.source_end,
        header.sync_watermark == segment.header.sync_watermark,
    ensures
        segment_error(DeltaSegmentView { header, ..segment }) == segment_error(segment),
{
    lemma_same_bounds(segment.header, header, segment.edge_inserts, 0);
    lemma_same_bounds(segment.header, header, segment.edge_deletes, 0);
    lemma_same_bounds(segment.header, header, segment.edge_weights, 0);
    lemma_same_bounds(segment.header, header, segment.node_states, 0);
    lemma_same_bounds(segment.header, header, segment.resolutions, 0);
    lemma_same_bounds(segment.header, header, segment.filters, 0);
    lemma_same_bounds(segment.header, header, segment.tenants, 0);
}

proof fn lemma_same_bounds<R: BoundedRow>(
    first: SegmentHeader,
    second: SegmentHeader,
    rows: Seq<R>,
    from: int,
)
    requires
        first.source_start == second.source_start,
        first.source_end == second.source_end,
        0 <= from <= rows.len(),
    ensures
        rows_error(first, rows, from) == rows_error(second, rows, from),
    decreases rows.len() - from,
{
    if from < rows.len() {
        rows[from].bounds_by_range(first, second);
        lemma_same_bounds(first, second, rows, from + 1);
    }
}

// ---------------------------------------------------------------------------
// Segments from normalized rows
// ---------------------------------------------------------------------------

/// The topology row of a normalized row.
pub open spec fn edge_of(row: NormalizedMutation) -> SegmentEdge {
    SegmentEdge {
        source: row.source,
        target: row.target,
        type_id: row.type_id,
        schema_reversed: row.schema_reversed,
    }
}

/// The weight row of a normalized row that has a weight.
pub open spec fn weight_of(row: NormalizedMutation) -> SegmentEdgeWeight {
    SegmentEdgeWeight {
        source: row.source,
        target: row.target,
        type_id: row.type_id,
        schema_reversed: row.schema_reversed,
        weight: row.weight->0,
    }
}

/// The topology rows of the tombstones, or of the other rows.
pub open spec fn edges_of(rows: Seq<NormalizedMutation>, tombstones: bool) -> Seq<SegmentEdge> {
    rows.filter(|row: NormalizedMutation| row.tombstone == tombstones).map_values(
        |row: NormalizedMutation| edge_of(row),
    )
}

/// The weight rows of the inserted rows that have a weight.
pub open spec fn weights_of(rows: Seq<NormalizedMutation>) -> Seq<SegmentEdgeWeight> {
    rows.filter(
        |row: NormalizedMutation| !row.tombstone && row.weight is Some,
    ).map_values(|row: NormalizedMutation| weight_of(row))
}

/// The latest sync-log row, or zero where there is none.
pub open spec fn latest_sync(rows: Seq<NormalizedMutation>) -> nat
    decreases rows.len(),
{
    if rows.len() == 0 {
        0
    } else {
        let earlier = latest_sync(rows.drop_last());
        if rows.last().sync_id > earlier {
            rows.last().sync_id as nat
        } else {
            earlier
        }
    }
}

/// The error of the first row at or after `from` that an edge segment of this
/// direction cannot hold.
pub open spec fn misplaced_row_error(
    rows: Seq<NormalizedMutation>,
    direction: TraversalDirection,
    from: int,
) -> Option<GraphErrorView>
    decreases rows.len() - from,
{
    if from < 0 || from >= rows.len() {
        None
    } else if rows[from].direction != direction {
        Some(corrupt("normalized row direction mismatches segment"@))
    } else if !normalize::on_edge(rows[from].operation) {
        Some(corrupt("normalized node row cannot be written to edge segment"@))
    } else {
        misplaced_row_error(rows, direction, from + 1)
    }
}

/// The edge segment that holds normalized rows, or the first error of building it.
pub open spec fn segment_of_rows(
    rows: Seq<NormalizedMutation>,
    level: u8,
    direction: TraversalDirection,
    source_start: u32,
    source_end: u32,
) -> Result<DeltaSegmentView, GraphErrorView> {
    if latest_sync(rows) > i64::MAX {
        Err(GraphErrorView::Internal("sync watermark exceeds i64"@))
    } else {
        match empty_segment(
            SegmentKind::Edge,
            level,
            direction,
            source_start,
            source_end,
            latest_sync(rows) as i64,
        ) {
            Err(error) => Err(error),
            Ok(blank) => match misplaced_row_error(rows, direction, 0) {
                Some(error) => Err(error),
                None => {
                    let segment = DeltaSegmentView {
                        edge_inserts: edges_of(rows, false),
                        edge_deletes: edges_of(rows, true),
                        edge_weights: weights_of(rows),
                        ..blank
                    };
                    match segment_error(segment) {
                        Some(error) => Err(error),
                        None => Ok(segment),
                    }
                },
            },
        }
    }
}

fn newest_sync_id(rows: &Vec<NormalizedMutation>) -> (latest: u64)
    ensures
        latest == latest_sync(rows@),
{
    let mut latest: u64 = 0;
    for i in 0..rows.len()
        invariant
            latest == latest_sync(rows@.take(i as int)),
    {
        assert(rows@.take(i + 1).drop_last() =~= rows@.take(i as int));
        if rows[i].sync_id > latest {
            latest = rows[i].sync_id;
        }
    }
    assert(rows@.take(rows@.len() as int) =~= rows@);
    latest
}

impl DeltaSegment {
    /// Build an edge segment from normalized mutation rows.
    ///
    /// # Errors
    ///
    /// Returns [`GraphError::CorruptFile`] if normalized rows are not valid for
    /// the requested source range.
    pub fn from_normalized_edges(
        batch: &NormalizedMutationBatch,
        level: u8,
        direction: TraversalDirection,
        source_start: u32,
        source_end: u32,
    ) -> (segment: GraphResult<DeltaSegment>)
        ensures
            safety::outcome(segment) == segment_of_rows(
                batch.rows@,
                level,
                direction,
                source_start,
                source_end,
            ),
    {
        let latest: u64 = newest_sync_id(&batch.rows);
        if latest > i64::MAX as u64 {
            return Err(GraphError::Internal(text::owned("sync watermark exceeds i64")));
        }
        let mut segment: DeltaSegment = DeltaSegment::new(
            SegmentKind::Edge,
            level,
            direction,
            source_start,
            source_end,
            latest as i64,
        )?;
        let ghost blank = segment@;
        let ghost rows = batch.rows@;
        proof {
            reveal(Seq::filter);
            assert(segment.edge_inserts@ =~= edges_of(rows.take(0), false));
            assert(segment.edge_deletes@ =~= edges_of(rows.take(0), true));
            assert(segment.edge_weights@ =~= weights_of(rows.take(0)));
        }
        for i in 0..batch.rows.len()
            invariant
                rows == batch.rows@,
                latest_sync(rows) <= i64::MAX,
                empty_segment(
                    SegmentKind::Edge,
                    level,
                    direction,
                    source_start,
                    source_end,
                    latest_sync(rows) as i64,
                ) == Ok::<DeltaSegmentView, GraphErrorView>(blank),
                misplaced_row_error(rows, direction, 0) == misplaced_row_error(
                    rows,
                    direction,
                    i as int,
                ),
                segment@ == (DeltaSegmentView {
                    edge_inserts: edges_of(rows.take(i as int), false),
                    edge_deletes: edges_of(rows.take(i as int), true),
                    edge_weights: weights_of(rows.take(i as int)),
                    ..blank
                }),
        {
            let row: NormalizedMutation = batch.rows[i];
            if row.direction != direction {
                return Err(segment_corrupt("normalized row direction mismatches segment"));
            }
            if !row.operation.is_edge() {
                return Err(
                    segment_corrupt("normalized node row cannot be written to edge segment"),
                );
            }
            let edge: SegmentEdge = SegmentEdge {
                source: row.source,
                target: row.target,
                type_id: row.type_id,
                schema_reversed: row.schema_reversed,
            };
            let ghost held = segment@;
            if row.tombstone {
                segment.edge_deletes.push(edge);
            } else {
                segment.edge_inserts.push(edge);
                match row.weight {
                    Some(weight) => {
                        segment.edge_weights.push(
                            SegmentEdgeWeight {
                                source: row.source,
                                target: row.target,
                                type_id: row.type_id,
                                schema_reversed: row.schema_reversed,
                                weight,
                            },
                        );
                    },
                    None => {},
                }
            }
            proof {
                reveal(Seq::filter);
                assert(rows.take(i + 1).drop_last() =~= rows.take(i as int));
                assert(segment.edge_inserts@ =~= edges_of(rows.take(i + 1), false));
                assert(segment.edge_deletes@ =~= edges_of(rows.take(i + 1), true));
                assert(segment.edge_weights@ =~= weights_of(rows.take(i + 1)));
            }
        }
        assert(rows.take(rows.len() as int) =~= rows);
        validate_segment(&segment)?;
        Ok(segment)
    }
}

// ---------------------------------------------------------------------------
// Seeds
// ---------------------------------------------------------------------------

/// The segment behind the `edge` seed.
pub open spec fn edge_seed() -> DeltaSegmentView {
    DeltaSegmentView {
        header: SegmentHeader {
            version: VERSION,
            kind: SegmentKind::Edge,
            level: 0,
            direction: TraversalDirection::Out,
            source_start: 0,
            source_end: 4,
            sync_watermark: 1,
            checksum: 0,
        },
        edge_inserts: seq![SegmentEdge { source: 0, target: 1, type_id: 1, schema_reversed: false }],
        edge_deletes: seq![SegmentEdge { source: 1, target: 2, type_id: 1, schema_reversed: false }],
        edge_weights: seq![
            SegmentEdgeWeight {
                source: 0,
                target: 1,
                type_id: 1,
                schema_reversed: false,
                weight: 5,
            },
        ],
        node_states: Seq::empty(),
        resolutions: Seq::empty(),
        filters: Seq::empty(),
        tenants: Seq::empty(),
    }
}

/// The segment behind the `node` seed.
pub open spec fn node_seed() -> DeltaSegmentView {
    DeltaSegmentView {
        header: SegmentHeader {
            version: VERSION,
            kind: SegmentKind::Node,
            level: 0,
            direction: TraversalDirection::Any,
            source_start: 0,
            source_end: 4,
            sync_watermark: 1,
            checksum: 0,
        },
        edge_inserts: Seq::empty(),
        edge_deletes: Seq::empty(),
        edge_weights: Seq::empty(),
        node_states: seq![SegmentNodeState { node_idx: 0, active: true }],
        resolutions: seq![
            SegmentResolution { table_oid: 100, pk_hash: 1_001, node_idx: 0, tombstone: false },
        ],
        filters: seq![
            SegmentFilterValue { node_idx: 0, column_id: 7, value: 9, tombstone: false },
        ],
        tenants: seq![SegmentTenant { node_idx: 0, tenant_hash: 2_002, tombstone: false }],
    }
}

/// The stored form of the seed called `name`.
pub fn seed_bytes(name: &str) -> (bytes: Option<Vec<u8>>)
    ensures
        match bytes {
            Some(bytes) => (name@ == "edge"@ && is_image(edge_seed(), bytes@)) || (name@
                == "node"@ && is_image(node_seed(), bytes@)),
            None => name@ != "edge"@ && name@ != "node"@,
        },
{
    proof {
        reveal_with_fuel(rows_error, 2);
    }
    if same_text(name, "edge") {
        let mut segment: DeltaSegment = match DeltaSegment::new(
            SegmentKind::Edge,
            0,
            TraversalDirection::Out,
            0,
            4,
            1,
        ) {
            Ok(segment) => segment,
            Err(_) => {
                return None;
            },
        };
        segment.edge_inserts.push(
            SegmentEdge { source: 0, target: 1, type_id: 1, schema_reversed: false },
        );
        segment.edge_deletes.push(
            SegmentEdge { source: 1, target: 2, type_id: 1, schema_reversed: false },
        );
        segment.edge_weights.push(
            SegmentEdgeWeight {
                source: 0,
                target: 1,
                type_id: 1,
                schema_reversed: false,
                weight: 5,
            },
        );
        assert(segment@ =~= edge_seed());
        assert(segment_error(segment@) is None);
        assert(countable(segment@));
        segment.to_bytes().ok()
    } else if same_text(name, "node") {
        let mut segment: DeltaSegment = match DeltaSegment::new(
            SegmentKind::Node,
            0,
            TraversalDirection::Any,
            0,
            4,
            1,
        ) {
            Ok(segment) => segment,
            Err(_) => {
                return None;
            },
        };
        segment.node_states.push(SegmentNodeState { node_idx: 0, active: true });
        segment.resolutions.push(
            SegmentResolution { table_oid: 100, pk_hash: 1_001, node_idx: 0, tombstone: false },
        );
        segment.filters.push(
            SegmentFilterValue { node_idx: 0, column_id: 7, value: 9, tombstone: false },
        );
        segment.tenants.push(
            SegmentTenant { node_idx: 0, tenant_hash: 2_002, tombstone: false },
        );
        assert(segment@ =~= node_seed());
        assert(segment_error(segment@) is None);
        assert(countable(segment@));
        segment.to_bytes().ok()
    } else {
        None
    }
}

/// Return valid seed bytes for projection segment fuzz targets. White space
/// around the name does not count.
pub fn fuzz_seed_bytes(name: &str) -> (bytes: Option<Vec<u8>>)
    ensures
        match bytes {
            Some(bytes) => (text::trimmed(name@) == "edge"@ && is_image(edge_seed(), bytes@)) || (
            text::trimmed(name@) == "node"@ && is_image(node_seed(), bytes@)),
            None => text::trimmed(name@) != "edge"@ && text::trimmed(name@) != "node"@,
        },
{
    seed_bytes(name.trim())
}

/// A segment that was read is valid, and its header holds the format version
/// and the checksum of its bytes.
pub proof fn lemma_parsed_valid(bytes: Seq<u8>)
    requires
        parse(bytes) is Ok,
    ensures
        segment_error(parse(bytes)->Ok_0) is None,
        parse(bytes)->Ok_0.header.version == VERSION,
        parse(bytes)->Ok_0.header.checksum == checksum::crc32_of(unsealed(bytes)),
{
}

/// The rows that a section decodes to are stored as the bytes of the section.
proof fn lemma_flat_decoded<R: SegmentRow>(bytes: Seq<u8>, rows: Seq<R>)
    requires
        bytes.len() == rows.len() * R::width(),
        decoded_rows::<R>(bytes, rows.len()) == Ok::<Seq<R>, GraphErrorView>(rows),
    ensures
        flat(rows) == bytes,
    decreases rows.len(),
{
    let w = R::width() as int;
    if rows.len() > 0 {
        let init = rows.drop_last();
        let count = init.len() as int;
        assert(rows.len() * w == count * w + w) by (nonlinear_arith)
            requires
                rows.len() == count + 1,
        ;
        assert(0 <= count * w) by (nonlinear_arith)
            requires
                0 <= count,
                0 <= w,
        ;
        let head = bytes.subrange(0, count * w);
        assert forall|i: int| 0 <= i < count implies #[trigger] row_bytes::<R>(head, i)
            == row_bytes::<R>(bytes, i) by {
            assert(0 <= i * w && i * w + w <= count * w) by (nonlinear_arith)
                requires
                    0 <= i,
                    i + 1 <= count,
                    0 <= w,
            ;
            assert(row_bytes::<R>(head, i) =~= row_bytes::<R>(bytes, i));
        }
        assert forall|i: int| 0 <= i < rows.len() implies R::decoded(
            #[trigger] row_bytes::<R>(bytes, i),
        ) == Some(rows[i]) by {}
        assert forall|i: int| 0 <= i < count implies R::decoded(
            #[trigger] row_bytes::<R>(head, i),
        ) == Some(init[i]) by {
            assert(R::decoded(row_bytes::<R>(bytes, i)) == Some(rows[i]));
        }
        assert(decoded_rows::<R>(head, init.len())->Ok_0 =~= init);
        lemma_flat_decoded(head, init);
        let last = row_bytes::<R>(bytes, count);
        assert(R::decoded(last) == Some(rows[count]));
        R::encoded_decoded(last);
        assert(flat(rows) =~= bytes);
    } else {
        assert(0 * w == 0) by (nonlinear_arith);
        assert(flat(rows) =~= bytes);
    }
}

/// Sections without an error in the section table follow one another.
proof fn lemma_ranges_follow(
    len: nat,
    counts: Seq<u32>,
    offsets: Seq<u64>,
    section: int,
    previous_end: int,
)
    requires
        0 <= section <= SECTION_COUNT,
        ranges_error(len, counts, offsets, section, previous_end) is None,
    ensures
        section < SECTION_COUNT ==> offsets[section] == previous_end,
        section < SECTION_COUNT ==> section_end(counts, offsets, section) <= len,
        section < SECTION_COUNT ==> ranges_error(
            len,
            counts,
            offsets,
            section + 1,
            section_end(counts, offsets, section),
        ) is None,
        section == SECTION_COUNT ==> previous_end == len,
{
}

proof fn lemma_section_decoded<R: SegmentRow>(bytes: Seq<u8>, section: int)
    requires
        0 <= section < SECTION_COUNT,
        R::width() == section_width(section),
        stored_rows::<R>(bytes, section) is Ok,
        0 <= header_offset(bytes, section),
        section_end(stored_counts(bytes), stored_offsets(bytes), section) <= bytes.len(),
    ensures
        stored_rows::<R>(bytes, section)->Ok_0.len() == header_count(bytes, section),
        flat(stored_rows::<R>(bytes, section)->Ok_0) == section_bytes(bytes, section),
{
    let rows = stored_rows::<R>(bytes, section)->Ok_0;
    let count = header_count(bytes, section) as int;
    assert(stored_counts(bytes)[section] == header_count(bytes, section));
    assert(stored_offsets(bytes)[section] == header_offset(bytes, section));
    assert(0 <= count * R::width()) by (nonlinear_arith)
        requires
            0 <= count,
            0 <= R::width(),
    ;
    lemma_flat_decoded(section_bytes(bytes, section), rows);
}

/// The stored form is canonical: bytes that are read as a segment are the stored
/// form of that segment, and its only one.
pub proof fn lemma_parsed_image(bytes: Seq<u8>)
    requires
        parse(bytes) is Ok,
    ensures
        countable(parse(bytes)->Ok_0),
        is_image(parse(bytes)->Ok_0, bytes),
        forall|other: Seq<u8>| #[trigger]
            is_image(parse(bytes)->Ok_0, other) ==> other == bytes,
{
    lemma_auto_spec_u32_to_from_le_bytes();
    lemma_auto_spec_u64_to_from_le_bytes();
    let segment = stored_segment(bytes);
    let counts = stored_counts(bytes);
    let offsets = stored_offsets(bytes);
    let len = bytes.len();
    let start = HEADER_SIZE as int;
    lemma_ranges_follow(len, counts, offsets, 0, start);
    lemma_ranges_follow(len, counts, offsets, 1, section_end(counts, offsets, 0));
    lemma_ranges_follow(len, counts, offsets, 2, section_end(counts, offsets, 1));
    lemma_ranges_follow(len, counts, offsets, 3, section_end(counts, offsets, 2));
    lemma_ranges_follow(len, counts, offsets, 4, section_end(counts, offsets, 3));
    lemma_ranges_follow(len, counts, offsets, 5, section_end(counts, offsets, 4));
    lemma_ranges_follow(len, counts, offsets, 6, section_end(counts, offsets, 5));
    lemma_ranges_follow(len, counts, offsets, 7, section_end(counts, offsets, 6));
    lemma_section_decoded::<SegmentEdge>(bytes, 0);
    lemma_section_decoded::<SegmentEdge>(bytes, 1);
    lemma_section_decoded::<SegmentEdgeWeight>(bytes, 2);
    lemma_section_decoded::<SegmentNodeState>(bytes, 3);
    lemma_section_decoded::<SegmentResolution>(bytes, 4);
    lemma_section_decoded::<SegmentFilterValue>(bytes, 5);
    lemma_section_decoded::<SegmentTenant>(bytes, 6);
    assert forall|i: int| 0 <= i < SECTION_COUNT implies #[trigger] section_rows(segment, i)
        == header_count(bytes, i) by {}
    reveal_with_fuel(section_start, 8);
    assert forall|i: int| 0 <= i < SECTION_COUNT implies #[trigger] offsets[i] == section_start(
        segment,
        i,
    ) by {
        assert(section_rows(segment, 0) == counts[0] && section_rows(segment, 1) == counts[1]
            && section_rows(segment, 2) == counts[2] && section_rows(segment, 3) == counts[3]
            && section_rows(segment, 4) == counts[4] && section_rows(segment, 5) == counts[5]
            && section_rows(segment, 6) == counts[6]);
    }
    assert(image_counts(segment) =~= counts);
    assert(image_offsets(segment) =~= offsets);
    assert forall|i: int| 0 <= i < SECTION_COUNT implies #[trigger] count_field(bytes, i)
        == spec_u32_to_le_bytes(image_counts(segment)[i]) by {
        assert(count_field(bytes, i).len() == 4);
    }
    assert forall|i: int| 0 <= i < SECTION_COUNT implies #[trigger] offset_field(bytes, i)
        == spec_u64_to_le_bytes(image_offsets(segment)[i]) by {
        assert(offset_field(bytes, i).len() == 8);
    }
    assert(bytes.subrange(8, 12).len() == 4);
    assert(bytes.subrange(16, 20).len() == 4);
    assert(bytes.subrange(20, 24).len() == 4);
    assert(bytes.subrange(24, 32).len() == 8);
    assert(bytes.subrange(CHECKSUM_OFFSET as int, CHECKSUM_OFFSET + 4).len() == 4);
    let raw = spec_u64_from_le_bytes(bytes.subrange(24, 32));
    assert(unsigned(signed(raw)) == raw);
    assert(bytes.skip(start) =~= body(segment));
    assert forall|other: Seq<u8>| #[trigger] is_image(segment, other) implies other == bytes by {
        lemma_image_unique(segment, other, bytes);
    }
}

/// A segment has one stored form.
pub proof fn lemma_image_unique(segment: DeltaSegmentView, a: Seq<u8>, b: Seq<u8>)
    requires
        is_image(segment, a),
        is_image(segment, b),
    ensures
        a == b,
{
    lemma_auto_spec_u32_to_from_le_bytes();
    assert(a.skip(HEADER_SIZE as int).len() == b.skip(HEADER_SIZE as int).len());
    assert forall|i: int|
        0 <= i < a.len() && !(CHECKSUM_OFFSET <= i < CHECKSUM_OFFSET + 4) implies a[i] == b[i] by {
        lemma_same_header_byte(segment, a, b, i);
    }
    assert(unsealed(a) =~= unsealed(b));
    let at = CHECKSUM_OFFSET as int;
    assert forall|i: int| at <= i < at + 4 implies a[i] == b[i] by {
        assert(a[i] == a.subrange(at, at + 4)[i - at]);
        assert(b[i] == b.subrange(at, at + 4)[i - at]);
    }
    assert(a =~= b);
}

proof fn lemma_same_field(a: Seq<u8>, b: Seq<u8>, start: int, end: int, i: int)
    requires
        0 <= start <= i < end <= a.len(),
        end <= b.len(),
        a.subrange(start, end) == b.subrange(start, end),
    ensures
        a[i] == b[i],
{
    assert(a[i] == a.subrange(start, end)[i - start]);
    assert(b[i] == b.subrange(start, end)[i - start]);
}

proof fn lemma_same_header_byte(segment: DeltaSegmentView, a: Seq<u8>, b: Seq<u8>, i: int)
    requires
        is_image(segment, a),
        is_image(segment, b),
        a.len() == b.len(),
        0 <= i < a.len(),
        !(CHECKSUM_OFFSET <= i < CHECKSUM_OFFSET + 4),
    ensures
        a[i] == b[i],
{
    let start = HEADER_SIZE as int;
    if i >= start {
        assert(a.skip(start)[i - start] == a[i]);
        assert(b.skip(start)[i - start] == b[i]);
    } else if i < 8 {
        lemma_same_field(a, b, 0, 8, i);
    } else if i < 12 {
        lemma_same_field(a, b, 8, 12, i);
    } else if 16 <= i < 20 {
        lemma_same_field(a, b, 16, 20, i);
    } else if 20 <= i < 24 {
        lemma_same_field(a, b, 20, 24, i);
    } else if 24 <= i < 32 {
        lemma_same_field(a, b, 24, 32, i);
    } else if 32 <= i < 60 {
        let section = (i - 32) / 4;
        assert(count_field(a, section) == count_field(b, section));
        lemma_same_field(a, b, 32 + 4 * section, 36 + 4 * section, i);
    } else if 64 <= i < 120 {
        let section = (i - 64) / 8;
        assert(offset_field(a, section) == offset_field(b, section));
        lemma_same_field(a, b, 64 + 8 * section, 72 + 8 * section, i);
    }
}

} // verus!
