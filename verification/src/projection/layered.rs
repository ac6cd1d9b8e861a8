//! Durable projection layered read source.
//!
//! Layered reads merge base neighbors, durable delta segments, and the current
//! transaction-local delta into one deterministic source.
use std::collections::HashMap;
use vstd::prelude::*;

use crate::edge_store::{self, edges_from, EdgeKey, EdgeStore};
use crate::order::{self, sort_ranked, Ranked};
use crate::ordered_map::{self, MapKey, OrderedMap};
use crate::projection::neighbors::{
    self, listed_edges, EdgeOverlay, Neighbor, NeighborIter, NeighborSource, OverlayDeletes,
    OverlayInserts, WeightedNeighbor,
};
use crate::projection::segment::{
    self, DeltaSegment, DeltaSegmentView, SegmentEdge, SegmentEdgeWeight, SegmentKind, SegmentNodeState,
    SegmentTenant,
};
use crate::checksum::{self, checksum_text};
use crate::projection::manifest::{
    self, ChunkRefView, ManifestChunkRef, ManifestSegmentRef, ProjectionManifest, SegmentRefView,
};
use crate::projection::tx_delta::{self, DeltaEdge, TxGraphDelta};
use crate::safety::{self, GraphError, GraphErrorView, GraphResult};
use crate::text::{self, concat2, concat6, decimal_text};
use crate::types::TraversalDirection;

verus! {

/// Range of source nodes.
#[derive(Debug, Clone, Copy, PartialEq, Eq, Structural)]
pub struct SourceRange {
    /// Inclusive start.
    pub start: u32,
    /// Exclusive end.
    pub end: u32,
}

impl SourceRange {
    pub open spec fn has(&self, source: u32) -> bool {
        self.start <= source < self.end
    }

    /// Whether the range has the source node.
    pub fn contains(&self, source: u32) -> (found: bool)
        ensures
            found == self.has(source),
    {
        self.start <= source && source < self.end
    }
}

/// Identity of an edge among the edges of one node.
#[derive(Debug, Clone, Copy, PartialEq, Eq, Structural)]
pub struct NeighborKey {
    /// Target node index.
    pub target: u32,
    /// Edge type identifier.
    pub type_id: u8,
    /// Whether the edge is a synthetic reverse of the schema edge.
    pub schema_reversed: bool,
}

impl Ranked for NeighborKey {
    open spec fn rank(&self) -> Seq<int> {
        seq![
            self.target as int,
            self.type_id as int,
            edge_store::flag_rank(self.schema_reversed),
        ]
    }

    fn precedes(&self, other: &NeighborKey) -> (found: bool) {
        proof {
            reveal_with_fuel(order::ranks_before, 4);
        }
        if self.target != other.target {
            self.target < other.target
        } else if self.type_id != other.type_id {
            self.type_id < other.type_id
        } else {
            !self.schema_reversed && other.schema_reversed
        }
    }
}

impl MapKey for NeighborKey {
    proof fn rank_unique(a: NeighborKey, b: NeighborKey) {
        let x = a.rank();
        let y = b.rank();
        assert(x[0] == y[0] && x[1] == y[1] && x[2] == y[2]);
    }
}

/// The edge from `node` to a neighbor.
pub open spec fn edge_to(node: u32, key: NeighborKey) -> EdgeKey {
    EdgeKey {
        source: node,
        target: key.target,
        type_id: key.type_id,
        schema_reversed: key.schema_reversed,
    }
}

/// The edge with its ends exchanged.
pub open spec fn mirrored(key: EdgeKey) -> EdgeKey {
    EdgeKey { source: key.target, target: key.source, ..key }
}

/// What durable segments say of an edge.
#[derive(Debug, Clone, Copy, PartialEq, Eq)]
pub enum DurableEdgeState {
    /// The edge is there, with this weight.
    Present(Option<u32>),
    /// The edge is deleted.
    Deleted,
}

/// Membership of a node in a tenant.
#[derive(Debug, Clone, Copy, PartialEq, Eq, Structural)]
pub struct MemberKey {
    /// Hash of the tenant identifier.
    pub tenant_hash: u64,
    /// Node index.
    pub node_idx: u32,
}

impl Ranked for MemberKey {
    open spec fn rank(&self) -> Seq<int> {
        seq![self.tenant_hash as int, self.node_idx as int]
    }

    fn precedes(&self, other: &MemberKey) -> (found: bool) {
        proof {
            reveal_with_fuel(order::ranks_before, 3);
        }
        if self.tenant_hash != other.tenant_hash {
            self.tenant_hash < other.tenant_hash
        } else {
            self.node_idx < other.node_idx
        }
    }
}

impl MapKey for MemberKey {
    proof fn rank_unique(a: MemberKey, b: MemberKey) {
        let x = a.rank();
        let y = b.rank();
        assert(x[0] == y[0] && x[1] == y[1]);
    }
}

// ---------------------------------------------------------------------------
// What segments add up to
// ---------------------------------------------------------------------------

/// What a sequence of segments says of edges, nodes and tenants.
#[verifier::ext_equal]
pub struct LayeredState {
    /// Edges by source.
    pub out_edges: Map<EdgeKey, DurableEdgeState>,
    /// Edges by target.
    pub in_edges: Map<EdgeKey, DurableEdgeState>,
    /// Whether nodes are active.
    pub active_nodes: Map<u32, bool>,
    /// Tenant memberships.
    pub members: Set<MemberKey>,
}

/// Nothing said yet.
pub open spec fn blank_state() -> LayeredState {
    LayeredState {
        out_edges: Map::empty(),
        in_edges: Map::empty(),
        active_nodes: Map::empty(),
        members: Set::empty(),
    }
}

/// The edge that a row of a segment of this direction stands for.
pub open spec fn directed(direction: TraversalDirection, edge: SegmentEdge) -> EdgeKey {
    let key = EdgeKey {
        source: edge.source,
        target: edge.target,
        type_id: edge.type_id,
        schema_reversed: edge.schema_reversed,
    };
    if direction is In {
        mirrored(key)
    } else {
        key
    }
}

/// The state after something was said of an edge.
pub open spec fn with_edge(
    state: LayeredState,
    key: EdgeKey,
    edge_state: DurableEdgeState,
) -> LayeredState {
    LayeredState {
        out_edges: state.out_edges.insert(key, edge_state),
        in_edges: state.in_edges.insert(mirrored(key), edge_state),
        ..state
    }
}

/// Whether a weight row is for an edge row.
pub open spec fn weighs(weight: SegmentEdgeWeight, edge: SegmentEdge) -> bool {
    &&& weight.source == edge.source
    &&& weight.target == edge.target
    &&& weight.type_id == edge.type_id
    &&& weight.schema_reversed == edge.schema_reversed
}

/// The weight of an edge row: that of the last weight row for it.
pub open spec fn weight_in(weights: Seq<SegmentEdgeWeight>, edge: SegmentEdge) -> Option<u32>
    decreases weights.len(),
{
    if weights.len() == 0 {
        None
    } else if weighs(weights.last(), edge) {
        Some(weights.last().weight)
    } else {
        weight_in(weights.drop_last(), edge)
    }
}

/// The state after the deleted edges of a segment.
pub open spec fn with_deletes(
    state: LayeredState,
    direction: TraversalDirection,
    edges: Seq<SegmentEdge>,
) -> LayeredState
    decreases edges.len(),
{
    if edges.len() == 0 {
        state
    } else {
        with_edge(
            with_deletes(state, direction, edges.drop_last()),
            directed(direction, edges.last()),
            DurableEdgeState::Deleted,
        )
    }
}

/// The state after the inserted edges of a segment, with their weights.
pub open spec fn with_inserts(
    state: LayeredState,
    direction: TraversalDirection,
    edges: Seq<SegmentEdge>,
    weights: Seq<SegmentEdgeWeight>,
) -> LayeredState
    decreases edges.len(),
{
    if edges.len() == 0 {
        state
    } else {
        with_edge(
            with_inserts(state, direction, edges.drop_last(), weights),
            directed(direction, edges.last()),
            DurableEdgeState::Present(weight_in(weights, edges.last())),
        )
    }
}

/// The active nodes after node rows.
pub open spec fn with_node_states(active: Map<u32, bool>, rows: Seq<SegmentNodeState>) -> Map<
    u32,
    bool,
>
    decreases rows.len(),
{
    if rows.len() == 0 {
        active
    } else {
        with_node_states(active, rows.drop_last()).insert(rows.last().node_idx, rows.last().active)
    }
}

/// The memberships after tenant rows.
pub open spec fn with_tenants(members: Set<MemberKey>, rows: Seq<SegmentTenant>) -> Set<MemberKey>
    decreases rows.len(),
{
    if rows.len() == 0 {
        members
    } else {
        let row = rows.last();
        let earlier = with_tenants(members, rows.drop_last());
        let key = MemberKey { tenant_hash: row.tenant_hash, node_idx: row.node_idx };
        if row.tombstone {
            earlier.remove(key)
        } else {
            earlier.insert(key)
        }
    }
}

/// The state after a segment: deletes come before inserts.
pub open spec fn with_segment(state: LayeredState, segment: DeltaSegmentView) -> LayeredState {
    match segment.header.kind {
        SegmentKind::Edge => with_inserts(
            with_deletes(state, segment.header.direction, segment.edge_deletes),
            segment.header.direction,
            segment.edge_inserts,
            segment.edge_weights,
        ),
        SegmentKind::Node => LayeredState {
            active_nodes: with_node_states(state.active_nodes, segment.node_states),
            members: with_tenants(state.members, segment.tenants),
            ..state
        },
    }
}

/// Where a segment stands in the order in which segments are applied.
#[derive(Debug, Clone, Copy, PartialEq, Eq, Structural)]
pub struct SegmentPosition {
    pub sync_watermark: i64,
    pub level: u8,
    pub source_start: u32,
    pub source_end: u32,
    pub index: usize,
}

impl Ranked for SegmentPosition {
    open spec fn rank(&self) -> Seq<int> {
        seq![
            self.sync_watermark as int,
            self.level as int,
            self.source_start as int,
            self.source_end as int,
            self.index as int,
        ]
    }

    fn precedes(&self, other: &SegmentPosition) -> (found: bool) {
        proof {
            reveal_with_fuel(order::ranks_before, 6);
        }
        if self.sync_watermark != other.sync_watermark {
            self.sync_watermark < other.sync_watermark
        } else if self.level != other.level {
            self.level < other.level
        } else if self.source_start != other.source_start {
            self.source_start < other.source_start
        } else if self.source_end != other.source_end {
            self.source_end < other.source_end
        } else {
            self.index < other.index
        }
    }
}

/// The position of the segment at `index`.
pub open spec fn position_of(segments: Seq<DeltaSegmentView>, index: int) -> SegmentPosition {
    SegmentPosition {
        sync_watermark: segments[index].header.sync_watermark,
        level: segments[index].header.level,
        source_start: segments[index].header.source_start,
        source_end: segments[index].header.source_end,
        index: index as usize,
    }
}

/// Whether `positions` lists all segments by watermark, level and source range;
/// segments that agree in these stay in the order in which they were given.
pub open spec fn is_apply_order(
    segments: Seq<DeltaSegmentView>,
    positions: Seq<SegmentPosition>,
) -> bool {
    &&& order::strictly_sorted(positions)
    &&& forall|position: SegmentPosition|
        #![trigger positions.contains(position)]
        positions.contains(position) <==> exists|i: int|
            0 <= i < segments.len() && #[trigger] position_of(segments, i) == position
}

/// The order in which segments are applied.
pub open spec fn apply_order(segments: Seq<DeltaSegmentView>) -> Seq<SegmentPosition> {
    choose|positions: Seq<SegmentPosition>| is_apply_order(segments, positions)
}

/// The state after the first `count` segments of an order.
pub open spec fn with_segments_in(
    state: LayeredState,
    segments: Seq<DeltaSegmentView>,
    positions: Seq<SegmentPosition>,
    count: int,
) -> LayeredState
    decreases count,
{
    if count <= 0 {
        state
    } else {
        with_segment(
            with_segments_in(state, segments, positions, count - 1),
            segments[positions[count - 1].index as int],
        )
    }
}

/// The state after all segments, in the order in which they are applied.
pub open spec fn with_segments(state: LayeredState, segments: Seq<DeltaSegmentView>) -> LayeredState {
    with_segments_in(state, segments, apply_order(segments), segments.len() as int)
}

/// What segments hold.
pub open spec fn views(segments: Seq<DeltaSegment>) -> Seq<DeltaSegmentView> {
    segments.map_values(|segment: DeltaSegment| segment@)
}

/// There is one order in which segments are applied.
pub proof fn lemma_apply_order_unique(
    segments: Seq<DeltaSegmentView>,
    positions: Seq<SegmentPosition>,
)
    requires
        is_apply_order(segments, positions),
    ensures
        apply_order(segments) == positions,
{
    let chosen = apply_order(segments);
    assert(is_apply_order(segments, chosen));
    assert forall|position: SegmentPosition| #![auto]
        chosen.contains(position) <==> positions.contains(position) by {}
    order::lemma_strictly_sorted_unique(chosen, positions);
}

/// Edges by source and edges by target say the same.
pub open spec fn is_mirror(state: LayeredState) -> bool {
    forall|key: EdgeKey|
        #![trigger state.out_edges.contains_key(key)]
        #![trigger state.in_edges.contains_key(mirrored(key))]
        {
            &&& state.out_edges.contains_key(key) <==> state.in_edges.contains_key(mirrored(key))
            &&& state.out_edges.contains_key(key) ==> state.out_edges[key]
                == state.in_edges[mirrored(key)]
        }
}

proof fn lemma_with_edge_mirror(state: LayeredState, key: EdgeKey, edge_state: DurableEdgeState)
    requires
        is_mirror(state),
    ensures
        is_mirror(with_edge(state, key, edge_state)),
{
    let after = with_edge(state, key, edge_state);
    assert forall|k: EdgeKey|
        #![trigger after.out_edges.contains_key(k)]
        #![trigger after.in_edges.contains_key(mirrored(k))]
        {
            &&& after.out_edges.contains_key(k) <==> after.in_edges.contains_key(mirrored(k))
            &&& after.out_edges.contains_key(k) ==> after.out_edges[k]
                == after.in_edges[mirrored(k)]
        } by {
        assert(state.out_edges.contains_key(k) <==> state.in_edges.contains_key(mirrored(k)));
        if mirrored(k) == mirrored(key) {
            assert(k == key);
        }
    }
}

proof fn lemma_deletes_mirror(
    state: LayeredState,
    direction: TraversalDirection,
    edges: Seq<SegmentEdge>,
)
    requires
        is_mirror(state),
    ensures
        is_mirror(with_deletes(state, direction, edges)),
    decreases edges.len(),
{
    if edges.len() > 0 {
        lemma_deletes_mirror(state, direction, edges.drop_last());
        lemma_with_edge_mirror(
            with_deletes(state, direction, edges.drop_last()),
            directed(direction, edges.last()),
            DurableEdgeState::Deleted,
        );
    }
}

proof fn lemma_inserts_mirror(
    state: LayeredState,
    direction: TraversalDirection,
    edges: Seq<SegmentEdge>,
    weights: Seq<SegmentEdgeWeight>,
)
    requires
        is_mirror(state),
    ensures
        is_mirror(with_inserts(state, direction, edges, weights)),
    decreases edges.len(),
{
    if edges.len() > 0 {
        lemma_inserts_mirror(state, direction, edges.drop_last(), weights);
        lemma_with_edge_mirror(
            with_inserts(state, direction, edges.drop_last(), weights),
            directed(direction, edges.last()),
            DurableEdgeState::Present(weight_in(weights, edges.last())),
        );
    }
}

/// Whatever segments are applied, edges by source and edges by target say the
/// same.
pub proof fn lemma_segments_mirror(segments: Seq<DeltaSegmentView>, count: int)
    ensures
        is_mirror(with_segments_in(blank_state(), segments, apply_order(segments), count)),
    decreases count,
{
    if count > 0 {
        lemma_segments_mirror(segments, count - 1);
        let state = with_segments_in(blank_state(), segments, apply_order(segments), count - 1);
        let segment = segments[apply_order(segments)[count - 1].index as int];
        lemma_deletes_mirror(state, segment.header.direction, segment.edge_deletes);
        lemma_inserts_mirror(
            with_deletes(state, segment.header.direction, segment.edge_deletes),
            segment.header.direction,
            segment.edge_inserts,
            segment.edge_weights,
        );
    }
}


/// Collects what segments say.
pub struct LayeredBuilder<'a> {
    pub base: &'a EdgeStore,
    pub out_edges: OrderedMap<EdgeKey, DurableEdgeState>,
    pub in_edges: OrderedMap<EdgeKey, DurableEdgeState>,
    pub active_nodes: HashMap<u32, bool>,
    pub tenant_memberships: OrderedMap<MemberKey, bool>,
}

/// What segments say, ready for reads.
pub struct LayeredBuildOutput {
    pub durable_out: OrderedMap<EdgeKey, DurableEdgeState>,
    pub durable_in: OrderedMap<EdgeKey, DurableEdgeState>,
    pub active_nodes: HashMap<u32, bool>,
    pub tenant_memberships: OrderedMap<MemberKey, bool>,
}

/// The base edges with base chunks taken in: a source in one of the ranges has
/// the edges that the chunks give it, any other source those of the base.
pub open spec fn replaced_base(
    base: Map<EdgeKey, Option<u32>>,
    ranges: Seq<SourceRange>,
    chunk_out: Map<EdgeKey, DurableEdgeState>,
) -> Map<EdgeKey, Option<u32>> {
    Map::new(
        |key: EdgeKey|
            if covered(ranges, key.source) {
                chunk_out.contains_key(key) && chunk_out[key] is Present
            } else {
                base.contains_key(key)
            },
        |key: EdgeKey|
            if covered(ranges, key.source) {
                chunk_out[key]->Present_0
            } else {
                base[key]
            },
    )
}

/// Edges under their mirror images.
pub open spec fn mirror_image<V>(edges: Map<EdgeKey, V>) -> Map<EdgeKey, V> {
    Map::new(
        |key: EdgeKey| edges.contains_key(mirrored(key)),
        |key: EdgeKey| edges[mirrored(key)],
    )
}

/// Durable edges without those that insert an edge of the base once more and give
/// it no weight.
pub open spec fn without_repeats(
    edges: Map<EdgeKey, DurableEdgeState>,
    base: Map<EdgeKey, Option<u32>>,
    suppress: bool,
) -> Map<EdgeKey, DurableEdgeState> {
    Map::new(
        |key: EdgeKey|
            edges.contains_key(key) && !(suppress && base.contains_key(key) && edges[key]
                == DurableEdgeState::Present(None)),
        |key: EdgeKey| edges[key],
    )
}

impl<'a> LayeredBuilder<'a> {
    pub open spec fn wf(&self) -> bool {
        &&& self.base.wf()
        &&& self.out_edges.wf()
        &&& self.in_edges.wf()
        &&& self.tenant_memberships.wf()
    }

    /// What has been collected.
    pub open spec fn state(&self) -> LayeredState {
        LayeredState {
            out_edges: self.out_edges@,
            in_edges: self.in_edges@,
            active_nodes: self.active_nodes@,
            members: self.tenant_memberships@.dom(),
        }
    }

    pub fn new(base: &'a EdgeStore) -> (builder: LayeredBuilder<'a>)
        requires
            base.wf(),
        ensures
            builder.wf(),
            builder.base == base,
            builder.state() == blank_state(),
    {
        broadcast use vstd::std_specs::hash::group_hash_axioms;

        let builder: LayeredBuilder<'a> = LayeredBuilder {
            base,
            out_edges: OrderedMap::new(),
            in_edges: OrderedMap::new(),
            active_nodes: HashMap::new(),
            tenant_memberships: OrderedMap::new(),
        };
        assert(builder.state() =~= blank_state());
        builder
    }

    /// Apply segments by watermark, level and source range.
    pub fn apply_segments(&mut self, segments: Vec<DeltaSegment>)
        requires
            old(self).wf(),
        ensures
            final(self).wf(),
            final(self).base == old(self).base,
            final(self).state() == with_segments(old(self).state(), views(segments@)),
    {
        let positions: Vec<SegmentPosition> = segment_order(&segments);
        let ghost start = self.state();
        let ghost held = views(segments@);
        for i in 0..positions.len()
            invariant
                self.wf(),
                self.base == old(self).base,
                held == views(segments@),
                positions@.len() == segments@.len(),
                positions@ == apply_order(held),
                forall|j: int|
                    0 <= j < positions@.len() ==> (#[trigger] positions@[j]).index < segments@.len(),
                self.state() == with_segments_in(start, held, positions@, i as int),
        {
            let at: usize = positions[i].index;
            let segment: &DeltaSegment = &segments[at];
            assert(held[at as int] == segment@);
            match segment.header.kind {
                SegmentKind::Edge => self.apply_edge_segment(segment),
                SegmentKind::Node => self.apply_node_segment(segment),
            }
        }
    }

    pub fn apply_edge_segment(&mut self, segment: &DeltaSegment)
        requires
            old(self).wf(),
            segment.header.kind is Edge,
        ensures
            final(self).wf(),
            final(self).base == old(self).base,
            final(self).state() == with_segment(old(self).state(), segment@),
    {
        let ghost start = self.state();
        let ghost deletes = segment.edge_deletes@;
        let ghost inserts = segment.edge_inserts@;
        let direction: TraversalDirection = segment.header.direction;
        for i in 0..segment.edge_deletes.len()
            invariant
                self.wf(),
                self.base == old(self).base,
                deletes == segment.edge_deletes@,
                self.state() == with_deletes(start, direction, deletes.take(i as int)),
        {
            let edge: SegmentEdge = segment.edge_deletes[i];
            assert(deletes.take(i + 1).drop_last() =~= deletes.take(i as int));
            self.remove_edge(direction, edge);
        }
        assert(deletes.take(deletes.len() as int) =~= deletes);
        let ghost between = self.state();
        for i in 0..segment.edge_inserts.len()
            invariant
                self.wf(),
                self.base == old(self).base,
                inserts == segment.edge_inserts@,
                self.state() == with_inserts(
                    between,
                    direction,
                    inserts.take(i as int),
                    segment.edge_weights@,
                ),
        {
            let edge: SegmentEdge = segment.edge_inserts[i];
            assert(inserts.take(i + 1).drop_last() =~= inserts.take(i as int));
            let weight: Option<u32> = edge_weight(&segment.edge_weights, edge);
            self.insert_edge(direction, edge, weight);
        }
        assert(inserts.take(inserts.len() as int) =~= inserts);
    }

    pub fn apply_node_segment(&mut self, segment: &DeltaSegment)
        requires
            old(self).wf(),
            segment.header.kind is Node,
        ensures
            final(self).wf(),
            final(self).base == old(self).base,
            final(self).state() == with_segment(old(self).state(), segment@),
    {
        let ghost start = self.state();
        let ghost nodes = segment.node_states@;
        let ghost tenants = segment.tenants@;
        for i in 0..segment.node_states.len()
            invariant
                self.wf(),
                self.base == old(self).base,
                nodes == segment.node_states@,
                self.out_edges == old(self).out_edges,
                self.in_edges == old(self).in_edges,
                self.tenant_memberships == old(self).tenant_memberships,
                start == old(self).state(),
                self.active_nodes@ == with_node_states(start.active_nodes, nodes.take(i as int)),
        {
            broadcast use vstd::std_specs::hash::group_hash_axioms;

            let node: SegmentNodeState = segment.node_states[i];
            assert(nodes.take(i + 1).drop_last() =~= nodes.take(i as int));
            self.active_nodes.insert(node.node_idx, node.active);
        }
        assert(nodes.take(nodes.len() as int) =~= nodes);
        let ghost active = self.active_nodes@;
        for i in 0..segment.tenants.len()
            invariant
                self.wf(),
                self.base == old(self).base,
                tenants == segment.tenants@,
                self.out_edges == old(self).out_edges,
                self.in_edges == old(self).in_edges,
                self.active_nodes@ == active,
                start == old(self).state(),
                self.tenant_memberships@.dom() == with_tenants(
                    start.members,
                    tenants.take(i as int),
                ),
        {
            let tenant: SegmentTenant = segment.tenants[i];
            assert(tenants.take(i + 1).drop_last() =~= tenants.take(i as int));
            let key: MemberKey = MemberKey {
                tenant_hash: tenant.tenant_hash,
                node_idx: tenant.node_idx,
            };
            if tenant.tombstone {
                self.tenant_memberships.remove(&key);
            } else {
                self.tenant_memberships.insert(key, true);
            }
            assert(self.tenant_memberships@.dom() =~= with_tenants(
                start.members,
                tenants.take(i + 1),
            ));
        }
        assert(tenants.take(tenants.len() as int) =~= tenants);
    }

    fn set_edge(&mut self, direction: TraversalDirection, edge: SegmentEdge, state: DurableEdgeState)
        requires
            old(self).wf(),
        ensures
            final(self).wf(),
            final(self).base == old(self).base,
            final(self).state() == with_edge(old(self).state(), directed(direction, edge), state),
    {
        let ends: (u32, u32) = match direction {
            TraversalDirection::In => (edge.target, edge.source),
            TraversalDirection::Out | TraversalDirection::Any => (edge.source, edge.target),
        };
        self.out_edges.insert(
            EdgeKey {
                source: ends.0,
                target: ends.1,
                type_id: edge.type_id,
                schema_reversed: edge.schema_reversed,
            },
            state,
        );
        self.in_edges.insert(
            EdgeKey {
                source: ends.1,
                target: ends.0,
                type_id: edge.type_id,
                schema_reversed: edge.schema_reversed,
            },
            state,
        );
    }

    /// Record that an edge is there.
    pub fn insert_edge(
        &mut self,
        direction: TraversalDirection,
        edge: SegmentEdge,
        weight: Option<u32>,
    )
        requires
            old(self).wf(),
        ensures
            final(self).wf(),
            final(self).base == old(self).base,
            final(self).state() == with_edge(
                old(self).state(),
                directed(direction, edge),
                DurableEdgeState::Present(weight),
            ),
    {
        self.set_edge(direction, edge, DurableEdgeState::Present(weight));
    }

    /// Record that an edge is deleted.
    pub fn remove_edge(&mut self, direction: TraversalDirection, edge: SegmentEdge)
        requires
            old(self).wf(),
        ensures
            final(self).wf(),
            final(self).base == old(self).base,
            final(self).state() == with_edge(
                old(self).state(),
                directed(direction, edge),
                DurableEdgeState::Deleted,
            ),
    {
        self.set_edge(direction, edge, DurableEdgeState::Deleted);
    }

    /// What was collected, without edges that only repeat the base with its chunks.
    pub fn finish(
        self,
        ranges: &[SourceRange],
        chunk_out: &OrderedMap<EdgeKey, DurableEdgeState>,
    ) -> (output: LayeredBuildOutput)
        requires
            self.wf(),
            chunk_out.wf(),
        ensures
            output.holds(
                self.state(),
                replaced_base(self.base.edges@, ranges@, chunk_out@),
                true,
            ),
    {
        self.finish_with_base_duplicate_filter(ranges, chunk_out, true)
    }

    /// What was collected, for ranges that replace the base.
    pub fn finish_replacement(self) -> (output: LayeredBuildOutput)
        requires
            self.wf(),
        ensures
            output.holds(self.state(), self.base.edges@, false),
    {
        let none: &[SourceRange] = &[];
        let no_chunks: OrderedMap<EdgeKey, DurableEdgeState> = OrderedMap::new();
        assert(replaced_base(self.base.edges@, none@, no_chunks@) =~= self.base.edges@);
        self.finish_with_base_duplicate_filter(none, &no_chunks, false)
    }

    pub fn finish_with_base_duplicate_filter(
        self,
        ranges: &[SourceRange],
        chunk_out: &OrderedMap<EdgeKey, DurableEdgeState>,
        suppress_base_duplicates: bool,
    ) -> (output: LayeredBuildOutput)
        requires
            self.wf(),
            chunk_out.wf(),
        ensures
            output.holds(
                self.state(),
                replaced_base(self.base.edges@, ranges@, chunk_out@),
                suppress_base_duplicates,
            ),
    {
        let stored: StoredEdges = StoredEdges { base: self.base, ranges, chunk_out };
        assert(stored.edges(false) =~= replaced_base(self.base.edges@, ranges@, chunk_out@));
        LayeredBuildOutput {
            durable_out: finish_direction(
                &stored,
                self.out_edges,
                false,
                suppress_base_duplicates,
            ),
            durable_in: finish_direction(&stored, self.in_edges, true, suppress_base_duplicates),
            active_nodes: self.active_nodes,
            tenant_memberships: self.tenant_memberships,
        }
    }
}

/// The base with the base chunks that replace source ranges of it.
pub struct StoredEdges<'a> {
    pub base: &'a EdgeStore,
    pub ranges: &'a [SourceRange],
    pub chunk_out: &'a OrderedMap<EdgeKey, DurableEdgeState>,
}

impl<'a> StoredEdges<'a> {
    pub open spec fn wf(&self) -> bool {
        &&& self.base.wf()
        &&& self.chunk_out.wf()
    }

    /// The edges by source, or by target where `by_target` says so.
    pub open spec fn edges(&self, by_target: bool) -> Map<EdgeKey, Option<u32>> {
        let stored = replaced_base(self.base.edges@, self.ranges@, self.chunk_out@);
        if by_target {
            mirror_image(stored)
        } else {
            stored
        }
    }

    /// Whether an edge is held, by source or by target.
    pub fn holds(&self, key: EdgeKey, by_target: bool) -> (found: bool)
        requires
            self.wf(),
        ensures
            found == self.edges(by_target).contains_key(key),
    {
        let outgoing: EdgeKey = if by_target {
            EdgeKey {
                source: key.target,
                target: key.source,
                type_id: key.type_id,
                schema_reversed: key.schema_reversed,
            }
        } else {
            key
        };
        if ranges_cover(self.ranges, outgoing.source) {
            match self.chunk_out.get(&outgoing) {
                Some(DurableEdgeState::Present(_)) => true,
                _ => false,
            }
        } else {
            base_edge_exists(self.base, outgoing)
        }
    }
}

impl LayeredBuildOutput {
    /// Whether the output holds a state over a base.
    pub open spec fn holds(
        &self,
        state: LayeredState,
        base: Map<EdgeKey, Option<u32>>,
        suppress: bool,
    ) -> bool {
        &&& self.durable_out.wf()
        &&& self.durable_in.wf()
        &&& self.tenant_memberships.wf()
        &&& self.durable_out@ == without_repeats(state.out_edges, base, suppress)
        &&& self.durable_in@ == without_repeats(state.in_edges, mirror_image(base), suppress)
        &&& self.active_nodes@ == state.active_nodes
        &&& self.tenant_memberships@.dom() == state.members
    }
}

/// The positions of segments in the order in which they are applied.
fn segment_order(segments: &Vec<DeltaSegment>) -> (positions: Vec<SegmentPosition>)
    ensures
        positions@ == apply_order(views(segments@)),
        positions@.len() == segments@.len(),
        forall|j: int|
            0 <= j < positions@.len() ==> (#[trigger] positions@[j]).index < segments@.len(),
{
    let ghost held = views(segments@);
    let mut positions: Vec<SegmentPosition> = Vec::new();
    for i in 0..segments.len()
        invariant
            held == views(segments@),
            positions@.len() == i,
            forall|j: int| 0 <= j < i ==> #[trigger] positions@[j] == position_of(held, j),
    {
        let segment: &DeltaSegment = &segments[i];
        assert(held[i as int] == segment@);
        positions.push(
            SegmentPosition {
                sync_watermark: segment.header.sync_watermark,
                level: segment.header.level,
                source_start: segment.header.source_start,
                source_end: segment.header.source_end,
                index: i,
            },
        );
    }
    let ghost given = positions@;
    let positions: Vec<SegmentPosition> = sort_ranked(positions);
    proof {
        assert(segments.len() == held.len());
        lemma_sorted_positions(held, given, positions@);
        lemma_apply_order_unique(held, positions@);
    }
    positions
}

proof fn lemma_sorted_positions(
    segments: Seq<DeltaSegmentView>,
    given: Seq<SegmentPosition>,
    sorted: Seq<SegmentPosition>,
)
    requires
        given.len() == segments.len(),
        segments.len() <= usize::MAX,
        forall|j: int| 0 <= j < given.len() ==> #[trigger] given[j] == position_of(segments, j),
        order::sorted(sorted),
        sorted.to_multiset() == given.to_multiset(),
    ensures
        is_apply_order(segments, sorted),
        sorted.len() == segments.len(),
        forall|j: int| 0 <= j < sorted.len() ==> (#[trigger] sorted[j]).index < segments.len(),
{
    broadcast use vstd::seq_lib::group_to_multiset_ensures;

    given.to_multiset_ensures();
    sorted.to_multiset_ensures();
    assert(given.no_duplicates()) by {
        assert forall|i: int, j: int|
            0 <= i < given.len() && 0 <= j < given.len() && i != j implies given[i] != given[j] by {
            assert(given[i].index == i && given[j].index == j);
        }
    }
    given.lemma_multiset_has_no_duplicates();
    assert(sorted.no_duplicates()) by {
        sorted.lemma_multiset_has_no_duplicates_conv();
    }
    assert forall|position: SegmentPosition|
        #![trigger sorted.contains(position)]
        sorted.contains(position) <==> exists|i: int|
            0 <= i < segments.len() && #[trigger] position_of(segments, i) == position by {
        vstd::seq_lib::to_multiset_contains(sorted, position);
        vstd::seq_lib::to_multiset_contains(given, position);
        if given.contains(position) {
            let i = choose|i: int| 0 <= i < given.len() && given[i] == position;
            assert(position_of(segments, i) == position);
        }
        if exists|i: int| 0 <= i < segments.len() && #[trigger] position_of(segments, i) == position {
            let i = choose|i: int|
                0 <= i < segments.len() && #[trigger] position_of(segments, i) == position;
            assert(given[i] == position);
        }
    }
    assert forall|j: int| 0 <= j < sorted.len() implies (#[trigger] sorted[j]).index
        < segments.len() by {
        assert(sorted.contains(sorted[j]));
    }
    assert forall|i: int, j: int| 0 <= i < j < sorted.len() implies sorted[i].rank()
        != sorted[j].rank() by {
        if sorted[i].rank() == sorted[j].rank() {
            let a = sorted[i];
            let b = sorted[j];
            assert(a.rank()[0] == b.rank()[0] && a.rank()[1] == b.rank()[1] && a.rank()[2]
                == b.rank()[2] && a.rank()[3] == b.rank()[3] && a.rank()[4] == b.rank()[4]);
            assert(a == b);
        }
    }
    order::lemma_sorted_distinct(sorted);
}

/// The weight that weight rows give an edge row.
fn edge_weight(weights: &Vec<SegmentEdgeWeight>, edge: SegmentEdge) -> (weight: Option<u32>)
    ensures
        weight == weight_in(weights@, edge),
{
    let ghost all = weights@;
    let mut end: usize = weights.len();
    assert(all.take(all.len() as int) =~= all);
    while end > 0
        invariant
            all == weights@,
            end <= all.len(),
            weight_in(all, edge) == weight_in(all.take(end as int), edge),
        decreases end,
    {
        let row: SegmentEdgeWeight = weights[end - 1];
        assert(all.take(end as int).drop_last() =~= all.take(end - 1));
        if row.source == edge.source && row.target == edge.target && row.type_id == edge.type_id
            && row.schema_reversed == edge.schema_reversed {
            return Some(row.weight);
        }
        end = end - 1;
    }
    None
}

/// The edges of one direction, ready for reads.
pub fn finish_direction(
    stored: &StoredEdges,
    edges: OrderedMap<EdgeKey, DurableEdgeState>,
    by_target: bool,
    suppress_base_duplicates: bool,
) -> (kept: OrderedMap<EdgeKey, DurableEdgeState>)
    requires
        stored.wf(),
        edges.wf(),
    ensures
        kept.wf(),
        kept@ == without_repeats(edges@, stored.edges(by_target), suppress_base_duplicates),
{
    let mut kept: OrderedMap<EdgeKey, DurableEdgeState> = OrderedMap::new();
    let ghost all = edges.entries@;
    proof {
        ordered_map::lemma_no_entries::<EdgeKey, DurableEdgeState>(all.take(0));
        assert(kept@ =~= without_repeats(
            ordered_map::map_of(all.take(0)),
            stored.edges(by_target),
            suppress_base_duplicates,
        ));
    }
    for i in 0..edges.entries.len()
        invariant
            stored.wf(),
            all == edges.entries@,
            ordered_map::keys_sorted(all),
            kept.wf(),
            kept@ == without_repeats(
                ordered_map::map_of(all.take(i as int)),
                stored.edges(by_target),
                suppress_base_duplicates,
            ),
    {
        let (key, state): (EdgeKey, DurableEdgeState) = edges.entries[i];
        proof {
            ordered_map::lemma_take_next(all, i as int);
        }
        let repeats: bool = match state {
            DurableEdgeState::Present(weight) => suppress_base_duplicates && stored.holds(
                key,
                by_target,
            ) && weight.is_none(),
            DurableEdgeState::Deleted => false,
        };
        if !repeats {
            kept.insert(key, state);
        }
        assert(kept@ =~= without_repeats(
            ordered_map::map_of(all.take(i + 1)),
            stored.edges(by_target),
            suppress_base_duplicates,
        ));
    }
    assert(all.take(all.len() as int) =~= all);
    kept
}

/// Whether the base has an edge.
pub fn base_edge_exists(base: &EdgeStore, key: EdgeKey) -> (found: bool)
    requires
        base.wf(),
    ensures
        found == base.edges@.contains_key(key),
{
    base.edges.contains(&key)
}


// ---------------------------------------------------------------------------
// Reads
// ---------------------------------------------------------------------------

/// Edge as a layered read returns it.
#[derive(Debug, Clone, Copy, PartialEq, Eq)]
pub struct LayeredEdge {
    /// Target node index.
    pub target: u32,
    /// Edge type identifier.
    pub type_id: u8,
    /// Whether the edge is a synthetic reverse of the schema edge.
    pub schema_reversed: bool,
    /// Optional edge weight.
    pub weight: Option<u32>,
}

/// The edges of one node by the neighbors they lead to.
pub open spec fn leads_to<V>(edges: Map<EdgeKey, V>, node: u32) -> Map<NeighborKey, V> {
    Map::new(
        |key: NeighborKey| edges.contains_key(edge_to(node, key)),
        |key: NeighborKey| edges[edge_to(node, key)],
    )
}

/// The edges that lead to `node` by the neighbors they come from.
pub open spec fn comes_from(edges: Map<EdgeKey, Option<u32>>, node: u32) -> Map<
    NeighborKey,
    Option<u32>,
> {
    Map::new(
        |key: NeighborKey| edges.contains_key(mirrored(edge_to(node, key))),
        |key: NeighborKey| edges[mirrored(edge_to(node, key))],
    )
}

/// Whether one of the ranges has the source node.
pub open spec fn covered(ranges: Seq<SourceRange>, source: u32) -> bool {
    exists|i: int| 0 <= i < ranges.len() && (#[trigger] ranges[i]).has(source)
}

/// The neighbors that no range has.
pub open spec fn uncovered(
    edges: Map<NeighborKey, Option<u32>>,
    ranges: Seq<SourceRange>,
) -> Map<NeighborKey, Option<u32>> {
    Map::new(
        |key: NeighborKey| edges.contains_key(key) && !covered(ranges, key.target),
        |key: NeighborKey| edges[key],
    )
}

/// Edges after durable changes: deleted edges leave, present edges come in or
/// take their new weight.
pub open spec fn with_durable(
    edges: Map<NeighborKey, Option<u32>>,
    durable: Map<NeighborKey, DurableEdgeState>,
) -> Map<NeighborKey, Option<u32>> {
    Map::new(
        |key: NeighborKey|
            if durable.contains_key(key) {
                durable[key] is Present
            } else {
                edges.contains_key(key)
            },
        |key: NeighborKey|
            if durable.contains_key(key) {
                durable[key]->Present_0
            } else {
                edges[key]
            },
    )
}

/// Whether a list of targets and types has a neighbor.
pub open spec fn names(listed: Seq<(u32, u8)>, key: NeighborKey) -> bool {
    listed.contains((key.target, key.type_id))
}

/// Edges without those whose target and type are listed.
pub open spec fn without_listed(
    edges: Map<NeighborKey, Option<u32>>,
    deleted: Seq<(u32, u8)>,
) -> Map<NeighborKey, Option<u32>> {
    Map::new(
        |key: NeighborKey| edges.contains_key(key) && !names(deleted, key),
        |key: NeighborKey| edges[key],
    )
}

/// Edges with those whose target and type are listed, without weights.
pub open spec fn with_listed(
    edges: Map<NeighborKey, Option<u32>>,
    inserted: Seq<(u32, u8)>,
) -> Map<NeighborKey, Option<u32>> {
    Map::new(
        |key: NeighborKey|
            edges.contains_key(key) || (!key.schema_reversed && names(inserted, key)),
        |key: NeighborKey|
            if !key.schema_reversed && names(inserted, key) {
                None
            } else {
                edges[key]
            },
    )
}

/// Edges after a committed overlay: deletes come before inserts.
pub open spec fn with_overlay(
    edges: Map<NeighborKey, Option<u32>>,
    inserted: Seq<(u32, u8)>,
    deleted: Seq<(u32, u8)>,
) -> Map<NeighborKey, Option<u32>> {
    with_listed(without_listed(edges, deleted), inserted)
}

/// Edges without those that a transaction deleted.
pub open spec fn without_deleted(
    edges: Map<NeighborKey, Option<u32>>,
    deleted: Set<tx_delta::DeletedEdge>,
    direction: TraversalDirection,
    node: u32,
) -> Map<NeighborKey, Option<u32>> {
    Map::new(
        |key: NeighborKey|
            edges.contains_key(key) && !tx_delta::deleted_from(
                deleted,
                direction,
                node,
                key.target,
                key.type_id,
            ),
        |key: NeighborKey| edges[key],
    )
}

/// The neighbor of an added edge.
pub open spec fn added_neighbor(edge: DeltaEdge) -> NeighborKey {
    NeighborKey { target: edge.target, type_id: edge.type_id, schema_reversed: false }
}

/// Edges with each of some added ones in turn.
pub open spec fn with_each(edges: Map<NeighborKey, Option<u32>>, added: Seq<DeltaEdge>) -> Map<
    NeighborKey,
    Option<u32>,
>
    decreases added.len(),
{
    if added.len() == 0 {
        edges
    } else {
        with_each(edges, added.drop_last()).insert(
            added_neighbor(added.last()),
            added.last().weight,
        )
    }
}

/// The edge that leads from a node to a neighbor in a direction.
pub open spec fn traversed(
    direction: TraversalDirection,
    node: u32,
    key: NeighborKey,
) -> tx_delta::DeletedEdge {
    let ends = tx_delta::oriented(direction, node, key.target);
    tx_delta::DeletedEdge { source: ends.0, target: ends.1, type_id: key.type_id }
}

/// The weight of the last edge that a transaction added from a node to a neighbor.
pub open spec fn added_weight(
    added: Map<u32, Seq<DeltaEdge>>,
    direction: TraversalDirection,
    node: u32,
    key: NeighborKey,
) -> Option<Option<u32>> {
    if key.schema_reversed {
        None
    } else {
        let edge = traversed(direction, node, key);
        tx_delta::last_weight(
            tx_delta::edges_at(added, edge.source),
            edge.target,
            edge.type_id,
        )
    }
}

/// Edges with those that a transaction added; of equal edges the last counts.
pub open spec fn with_added(
    edges: Map<NeighborKey, Option<u32>>,
    added: Map<u32, Seq<DeltaEdge>>,
    direction: TraversalDirection,
    node: u32,
) -> Map<NeighborKey, Option<u32>> {
    Map::new(
        |key: NeighborKey|
            edges.contains_key(key) || added_weight(added, direction, node, key) is Some,
        |key: NeighborKey|
            match added_weight(added, direction, node, key) {
                Some(weight) => weight,
                None => edges[key],
            },
    )
}

proof fn lemma_with_each(
    edges: Map<NeighborKey, Option<u32>>,
    list: Seq<(u32, DeltaEdge)>,
    direction: TraversalDirection,
    node: u32,
    key: NeighborKey,
)
    ensures
        ({
            let after = with_each(edges, tx_delta::added_from(list, direction, node));
            match tx_delta::last_added(list, traversed(direction, node, key)) {
                Some(weight) if !key.schema_reversed => after.contains_key(key) && after[key]
                    == weight,
                _ => after.contains_key(key) == edges.contains_key(key) && (edges.contains_key(key)
                    ==> after[key] == edges[key]),
            }
        }),
    decreases list.len(),
{
    reveal(Seq::filter);
    if list.len() > 0 {
        let init = list.drop_last();
        let last = list.last();
        let fewer = tx_delta::added_from(init, direction, node);
        let more = tx_delta::added_from(list, direction, node);
        lemma_with_each(edges, init, direction, node, key);
        if tx_delta::oriented_added(direction, last).0 == node {
            assert(more.drop_last() =~= fewer);
            assert(more.last() == tx_delta::oriented_added(direction, last).1);
        } else {
            assert(more =~= fewer);
        }
    }
}

/// Adding the edges that a transaction added, source by source, adds the last of equal
/// ones.
pub proof fn lemma_added_each(
    edges: Map<NeighborKey, Option<u32>>,
    added: Map<u32, Seq<DeltaEdge>>,
    list: Seq<(u32, DeltaEdge)>,
    direction: TraversalDirection,
    node: u32,
)
    requires
        tx_delta::lists_added(list, added),
    ensures
        with_each(edges, tx_delta::added_from(list, direction, node)) == with_added(
            edges,
            added,
            direction,
            node,
        ),
{
    let after = with_each(edges, tx_delta::added_from(list, direction, node));
    let goal = with_added(edges, added, direction, node);
    assert forall|key: NeighborKey|
        after.contains_key(key) == goal.contains_key(key) && (goal.contains_key(key) ==> after[key]
            == #[trigger] goal[key]) by {
        lemma_with_each(edges, list, direction, node, key);
        tx_delta::lemma_last_listed(list, added, traversed(direction, node, key));
    }
    assert forall|key: NeighborKey| #[trigger] after.contains_key(key) <==> goal.contains_key(
        key,
    ) by {
        assert(goal[key] == goal[key]);
    }
    assert(after =~= goal);
}

/// The layered edge of an entry.
pub open spec fn layered_edge(entry: (NeighborKey, Option<u32>)) -> (u32, LayeredEdge) {
    (
        entry.0.target,
        LayeredEdge {
            target: entry.0.target,
            type_id: entry.0.type_id,
            schema_reversed: entry.0.schema_reversed,
            weight: entry.1,
        },
    )
}

/// Edges in neighbor order, where `shown` tells which neighbors are visible.
pub open spec fn listing(
    edges: Map<NeighborKey, Option<u32>>,
    shown: spec_fn(u32) -> bool,
) -> Seq<(u32, LayeredEdge)> {
    visible_edges(ordered_map::sorted_entries(edges), shown)
}

/// The visible entries as layered edges.
pub open spec fn visible_edges(
    entries: Seq<(NeighborKey, Option<u32>)>,
    shown: spec_fn(u32) -> bool,
) -> Seq<(u32, LayeredEdge)> {
    entries.filter(|entry: (NeighborKey, Option<u32>)| shown(entry.0.target)).map_values(
        |entry: (NeighborKey, Option<u32>)| layered_edge(entry),
    )
}

/// The neighbor that a layered edge leads to.
pub open spec fn plain_neighbor(row: (u32, LayeredEdge)) -> Neighbor {
    Neighbor {
        target: row.0,
        type_id: row.1.type_id,
        schema_reversed: row.1.schema_reversed,
    }
}

/// The neighbors that layered edges lead to.
pub open spec fn plain_neighbors(rows: Seq<(u32, LayeredEdge)>) -> Seq<Neighbor> {
    rows.map_values(|row: (u32, LayeredEdge)| plain_neighbor(row))
}

/// The weighted neighbors among layered edges.
pub open spec fn weighted_rows(rows: Seq<(u32, LayeredEdge)>) -> Seq<WeightedNeighbor> {
    rows.filter(|row: (u32, LayeredEdge)| row.1.weight is Some).map_values(
        |row: (u32, LayeredEdge)|
            WeightedNeighbor {
                target: row.0,
                type_id: row.1.type_id,
                schema_reversed: row.1.schema_reversed,
                weight: row.1.weight->Some_0,
            },
    )
}

/// What a filter keeps is among the items.
pub proof fn lemma_filter_member<A>(items: Seq<A>, keep: spec_fn(A) -> bool, i: int)
    requires
        0 <= i < items.filter(keep).len(),
    ensures
        items.contains(items.filter(keep)[i]),
    decreases items.len(),
{
    reveal(Seq::filter);
    if items.len() > 0 {
        let init = items.drop_last();
        if i < init.filter(keep).len() {
            lemma_filter_member(init, keep, i);
            let j = choose|j: int| 0 <= j < init.len() && init[j] == init.filter(keep)[i];
            assert(items[j] == init[j]);
        } else {
            assert(items[items.len() - 1] == items.filter(keep)[i]);
        }
    }
}

/// The entries of an edge map that start at a node stand for the neighbors they
/// lead to.
pub proof fn lemma_rows<V>(entries: Seq<(EdgeKey, V)>, node: u32)
    requires
        ordered_map::keys_sorted(entries),
    ensures
        ({
            let rows = entries.filter(|entry: (EdgeKey, V)| entry.0.source == node);
            &&& ordered_map::keys_sorted(rows)
            &&& forall|i: int| 0 <= i < rows.len() ==> (#[trigger] rows[i]).0.source == node
            &&& leads_to(ordered_map::map_of(rows), node) == leads_to(
                ordered_map::map_of(entries),
                node,
            )
        }),
    decreases entries.len(),
{
    let keep = |entry: (EdgeKey, V)| entry.0.source == node;
    let rows = entries.filter(keep);
    reveal(Seq::filter);
    if entries.len() == 0 {
        assert(rows =~= entries);
    } else {
        let init = entries.drop_last();
        let last = entries.last();
        let count = entries.len() - 1;
        ordered_map::lemma_take_next(entries, count);
        assert(entries.take(count + 1) =~= entries);
        assert(entries.take(count) =~= init);
        assert(ordered_map::keys_sorted(init)) by {
            assert forall|i: int, j: int| 0 <= i < j < init.len() implies order::before(
                (#[trigger] init[i]).0.rank(),
                (#[trigger] init[j]).0.rank(),
            ) by {
                assert(init[i] == entries[i] && init[j] == entries[j]);
            }
        }
        lemma_rows(init, node);
        let before = init.filter(keep);
        if keep(last) {
            assert(rows == before.push(last));
            assert forall|i: int| 0 <= i < before.len() implies order::before(
                (#[trigger] before[i]).0.rank(),
                last.0.rank(),
            ) by {
                lemma_filter_member(init, keep, i);
                let j = choose|j: int| 0 <= j < init.len() && init[j] == before[i];
                assert(order::before(entries[j].0.rank(), entries[count].0.rank()));
            }
            assert forall|i: int, j: int| 0 <= i < j < rows.len() implies order::before(
                (#[trigger] rows[i]).0.rank(),
                (#[trigger] rows[j]).0.rank(),
            ) by {
                assert(rows[i] == before[i]);
                if j < before.len() {
                    assert(rows[j] == before[j]);
                }
            }
            ordered_map::lemma_take_next(rows, before.len() as int);
            assert(rows.take(before.len() as int) =~= before);
            assert(rows.take((before.len() + 1) as int) =~= rows);
        } else {
            assert(rows == before);
        }
        assert forall|key: NeighborKey| #![auto]
            leads_to(ordered_map::map_of(rows), node).contains_key(key) <==> leads_to(
                ordered_map::map_of(entries),
                node,
            ).contains_key(key) by {
            assert(leads_to(ordered_map::map_of(before), node).contains_key(key) <==> leads_to(
                ordered_map::map_of(init),
                node,
            ).contains_key(key));
        }
        assert forall|key: NeighborKey| #![auto]
            leads_to(ordered_map::map_of(rows), node).contains_key(key) implies leads_to(
            ordered_map::map_of(rows),
            node,
        )[key] == leads_to(ordered_map::map_of(entries), node)[key] by {
            assert(leads_to(ordered_map::map_of(before), node).contains_key(key) <==> leads_to(
                ordered_map::map_of(init),
                node,
            ).contains_key(key));
            assert(leads_to(ordered_map::map_of(before), node)[key] == leads_to(
                ordered_map::map_of(init),
                node,
            )[key]);
        }
        assert(leads_to(ordered_map::map_of(rows), node) =~= leads_to(
            ordered_map::map_of(entries),
            node,
        ));
    }
}


/// Immutable layered neighbor source for one manifest snapshot.
pub struct LayeredNeighbors<'a> {
    pub base: &'a EdgeStore,
    pub base_in: Option<&'a EdgeStore>,
    pub base_chunk_ranges: Vec<SourceRange>,
    pub base_chunk_out: OrderedMap<EdgeKey, DurableEdgeState>,
    pub base_chunk_in: OrderedMap<EdgeKey, DurableEdgeState>,
    pub durable_out: OrderedMap<EdgeKey, DurableEdgeState>,
    pub durable_in: OrderedMap<EdgeKey, DurableEdgeState>,
    pub committed_out_inserts: OverlayInserts,
    pub committed_out_deletes: OverlayDeletes,
    pub committed_in_inserts: OverlayInserts,
    pub committed_in_deletes: OverlayDeletes,
    pub active_nodes: HashMap<u32, bool>,
    pub tenant_memberships: OrderedMap<MemberKey, bool>,
    pub tenant_filter: Option<u64>,
    /// What the current transaction has recorded.
    pub transaction: Option<&'a TxGraphDelta>,
}

/// The source ranges of chunks.
pub open spec fn chunk_ranges(chunks: Seq<DeltaSegmentView>) -> Seq<SourceRange> {
    chunks.map_values(
        |chunk: DeltaSegmentView|
            SourceRange { start: chunk.header.source_start, end: chunk.header.source_end },
    )
}

/// The maps of an overlay, or empty maps.
pub open spec fn overlay_maps(overlay: Option<EdgeOverlay>) -> (
    Map<u32, Vec<(u32, u8)>>,
    Map<u32, Vec<(u32, u8)>>,
) {
    match overlay {
        Some(maps) => (maps.0@, maps.1@),
        None => (Map::empty(), Map::empty()),
    }
}

fn overlay_or_empty(overlay: Option<EdgeOverlay>) -> (maps: EdgeOverlay)
    ensures
        maps.0@ == overlay_maps(overlay).0,
        maps.1@ == overlay_maps(overlay).1,
{
    broadcast use vstd::std_specs::hash::group_hash_axioms;

    match overlay {
        Some(maps) => maps,
        None => (HashMap::new(), HashMap::new()),
    }
}

/// Add the edges of `rows`, which all start at `node`.
pub fn merge_rows(
    rows: &[(EdgeKey, Option<u32>)],
    node: u32,
    skipped: &[SourceRange],
    merged: &mut OrderedMap<NeighborKey, Option<u32>>,
)
    requires
        old(merged).wf(),
        ordered_map::keys_sorted(rows@),
        forall|i: int| 0 <= i < rows@.len() ==> (#[trigger] rows@[i]).0.source == node,
    ensures
        final(merged).wf(),
        final(merged)@ == old(merged)@.union_prefer_right(
            uncovered(leads_to(ordered_map::map_of(rows@), node), skipped@),
        ),
{
    let ghost start = merged@;
    proof {
        ordered_map::lemma_no_entries(rows@.take(0));
        assert(merged@ =~= start.union_prefer_right(
            uncovered(leads_to(ordered_map::map_of(rows@.take(0)), node), skipped@),
        ));
    }
    for i in 0..rows.len()
        invariant
            merged.wf(),
            ordered_map::keys_sorted(rows@),
            forall|j: int| 0 <= j < rows@.len() ==> (#[trigger] rows@[j]).0.source == node,
            merged@ == start.union_prefer_right(
                uncovered(leads_to(ordered_map::map_of(rows@.take(i as int)), node), skipped@),
            ),
    {
        let (key, weight): (EdgeKey, Option<u32>) = rows[i];
        proof {
            ordered_map::lemma_take_next(rows@, i as int);
        }
        let ghost before = merged@;
        let neighbor: NeighborKey = NeighborKey {
            target: key.target,
            type_id: key.type_id,
            schema_reversed: key.schema_reversed,
        };
        assert(edge_to(node, neighbor) == key);
        if !ranges_cover(skipped, key.target) {
            merged.insert(neighbor, weight);
        }
        assert(merged@ =~= start.union_prefer_right(
            uncovered(leads_to(ordered_map::map_of(rows@.take(i + 1)), node), skipped@),
        ));
    }
    assert(rows@.take(rows@.len() as int) =~= rows@);
}

/// Whether one of the ranges has the source node.
fn ranges_cover(ranges: &[SourceRange], source: u32) -> (found: bool)
    ensures
        found == covered(ranges@, source),
{
    for i in 0..ranges.len()
        invariant
            forall|j: int| 0 <= j < i ==> !(#[trigger] ranges@[j]).has(source),
    {
        if ranges[i].contains(source) {
            return true;
        }
    }
    false
}

/// Apply the durable changes of one node.
pub fn merge_durable_map(
    durable: &OrderedMap<EdgeKey, DurableEdgeState>,
    node_idx: u32,
    merged: &mut OrderedMap<NeighborKey, Option<u32>>,
)
    requires
        durable.wf(),
        old(merged).wf(),
    ensures
        final(merged).wf(),
        final(merged)@ == with_durable(old(merged)@, leads_to(durable@, node_idx)),
{
    let rows: &[(EdgeKey, DurableEdgeState)] = edges_from(durable, node_idx);
    let ghost start = merged@;
    proof {
        lemma_rows(durable.entries@, node_idx);
        ordered_map::lemma_no_entries(rows@.take(0));
        assert(merged@ =~= with_durable(
            start,
            leads_to(ordered_map::map_of(rows@.take(0)), node_idx),
        ));
    }
    for i in 0..rows.len()
        invariant
            merged.wf(),
            ordered_map::keys_sorted(rows@),
            forall|j: int| 0 <= j < rows@.len() ==> (#[trigger] rows@[j]).0.source == node_idx,
            merged@ == with_durable(
                start,
                leads_to(ordered_map::map_of(rows@.take(i as int)), node_idx),
            ),
    {
        let (key, state): (EdgeKey, DurableEdgeState) = rows[i];
        proof {
            ordered_map::lemma_take_next(rows@, i as int);
        }
        let neighbor: NeighborKey = NeighborKey {
            target: key.target,
            type_id: key.type_id,
            schema_reversed: key.schema_reversed,
        };
        assert(edge_to(node_idx, neighbor) == key);
        match state {
            DurableEdgeState::Deleted => merged.remove(&neighbor),
            DurableEdgeState::Present(weight) => merged.insert(neighbor, weight),
        }
        assert(merged@ =~= with_durable(
            start,
            leads_to(ordered_map::map_of(rows@.take(i + 1)), node_idx),
        ));
    }
    assert(rows@.take(rows@.len() as int) =~= rows@);
}

proof fn lemma_take_contains<A>(items: Seq<A>, count: int, item: A)
    requires
        0 <= count < items.len(),
    ensures
        items.take(count + 1).contains(item) <==> items.take(count).contains(item) || item
            == items[count],
{
    let fewer = items.take(count);
    let more = items.take(count + 1);
    if more.contains(item) {
        let i = choose|i: int| 0 <= i < more.len() && more[i] == item;
        if i < count {
            assert(fewer[i] == item);
        }
    }
    if fewer.contains(item) {
        let i = choose|i: int| 0 <= i < fewer.len() && fewer[i] == item;
        assert(more[i] == item);
    }
    assert(more[count] == items[count]);
}

/// Apply a committed overlay for one node.
pub fn merge_committed_overlay_maps(
    inserts: &OverlayInserts,
    deletes: &OverlayDeletes,
    node_idx: u32,
    merged: &mut OrderedMap<NeighborKey, Option<u32>>,
)
    requires
        old(merged).wf(),
    ensures
        final(merged).wf(),
        final(merged)@ == with_overlay(
            old(merged)@,
            neighbors::listed(inserts@, node_idx),
            neighbors::listed(deletes@, node_idx),
        ),
{
    let deleted: &[(u32, u8)] = listed_edges(deletes, node_idx);
    let ghost start = merged@;
    assert(merged@ =~= without_listed(start, deleted@.take(0)));
    for i in 0..deleted.len()
        invariant
            merged.wf(),
            merged@ == without_listed(start, deleted@.take(i as int)),
    {
        let (target, type_id): (u32, u8) = deleted[i];
        merged.remove(&NeighborKey { target, type_id, schema_reversed: false });
        merged.remove(&NeighborKey { target, type_id, schema_reversed: true });
        proof {
            assert forall|key: NeighborKey| #![auto] names(deleted@.take(i + 1), key) <==> (names(
                deleted@.take(i as int),
                key,
            ) || (key.target, key.type_id) == deleted@[i as int]) by {
                lemma_take_contains(deleted@, i as int, (key.target, key.type_id));
            }
        }
        assert(merged@ =~= without_listed(start, deleted@.take(i + 1)));
    }
    assert(deleted@.take(deleted@.len() as int) =~= deleted@);
    let inserted: &[(u32, u8)] = listed_edges(inserts, node_idx);
    let ghost between = merged@;
    assert(merged@ =~= with_listed(between, inserted@.take(0)));
    for i in 0..inserted.len()
        invariant
            merged.wf(),
            merged@ == with_listed(between, inserted@.take(i as int)),
    {
        let (target, type_id): (u32, u8) = inserted[i];
        let neighbor: NeighborKey = NeighborKey { target, type_id, schema_reversed: false };
        merged.insert(neighbor, None);
        proof {
            let more = inserted@.take(i + 1);
            assert forall|key: NeighborKey| #[trigger] names(more, key) <==> (names(
                inserted@.take(i as int),
                key,
            ) || (key.target == target && key.type_id == type_id)) by {
                lemma_take_contains(inserted@, i as int, (key.target, key.type_id));
            }
            assert forall|key: NeighborKey| #[trigger]
                merged@.contains_key(key) <==> with_listed(between, more).contains_key(key) by {
                assert(names(more, key) || !names(more, key));
            }
        }
        assert(merged@ =~= with_listed(between, inserted@.take(i + 1)));
    }
    assert(inserted@.take(inserted@.len() as int) =~= inserted@);
}

impl<'a> LayeredNeighbors<'a> {
    pub open spec fn wf(&self) -> bool {
        &&& self.base.wf()
        &&& self.base_in matches Some(store) ==> store.wf()
        &&& self.base_chunk_out.wf()
        &&& self.base_chunk_in.wf()
        &&& self.durable_out.wf()
        &&& self.durable_in.wf()
        &&& self.tenant_memberships.wf()
    }

    /// Whether a node can be seen: neither the transaction nor a segment
    /// deleted it, and it belongs to the tenant that reads are limited to.
    pub open spec fn visible(&self, node: u32) -> bool {
        &&& !(self.transaction matches Some(delta) && delta@.deleted_nodes.contains(node))
        &&& !(self.active_nodes@.contains_key(node) && !self.active_nodes@[node])
        &&& self.tenant_filter matches Some(tenant_hash)
            ==> self.tenant_memberships@.contains_key(MemberKey { tenant_hash, node_idx: node })
    }

    /// Base edges that lead to a node, before base chunks.
    pub open spec fn base_incoming(&self, node: u32) -> Map<NeighborKey, Option<u32>> {
        uncovered(
            match self.base_in {
                Some(store) => leads_to(store.edges@, node),
                None => comes_from(self.base.edges@, node),
            },
            self.base_chunk_ranges@,
        )
    }

    /// The edges after the base was added to them.
    pub open spec fn with_base(
        &self,
        edges: Map<NeighborKey, Option<u32>>,
        direction: TraversalDirection,
        node: u32,
    ) -> Map<NeighborKey, Option<u32>> {
        let outgoing = if covered(self.base_chunk_ranges@, node) {
            with_durable(edges, leads_to(self.base_chunk_out@, node))
        } else {
            edges.union_prefer_right(leads_to(self.base.edges@, node))
        };
        let before_in = if direction is Any {
            outgoing
        } else {
            edges
        };
        let incoming = with_durable(
            before_in.union_prefer_right(self.base_incoming(node)),
            leads_to(self.base_chunk_in@, node),
        );
        if direction is Out {
            outgoing
        } else {
            incoming
        }
    }

    /// The edges after durable segments.
    pub open spec fn with_segments_of(
        &self,
        edges: Map<NeighborKey, Option<u32>>,
        direction: TraversalDirection,
        node: u32,
    ) -> Map<NeighborKey, Option<u32>> {
        let outgoing = leads_to(self.durable_out@, node);
        let incoming = leads_to(self.durable_in@, node);
        match direction {
            TraversalDirection::Out => with_durable(edges, outgoing),
            TraversalDirection::In => with_durable(edges, incoming),
            TraversalDirection::Any => with_durable(with_durable(edges, outgoing), incoming),
        }
    }

    pub open spec fn with_out_overlay(
        &self,
        edges: Map<NeighborKey, Option<u32>>,
        node: u32,
    ) -> Map<NeighborKey, Option<u32>> {
        with_overlay(
            edges,
            neighbors::listed(self.committed_out_inserts@, node),
            neighbors::listed(self.committed_out_deletes@, node),
        )
    }

    pub open spec fn with_in_overlay(
        &self,
        edges: Map<NeighborKey, Option<u32>>,
        node: u32,
    ) -> Map<NeighborKey, Option<u32>> {
        with_overlay(
            edges,
            neighbors::listed(self.committed_in_inserts@, node),
            neighbors::listed(self.committed_in_deletes@, node),
        )
    }

    /// The edges after the committed overlay.
    pub open spec fn with_committed(
        &self,
        edges: Map<NeighborKey, Option<u32>>,
        direction: TraversalDirection,
        node: u32,
    ) -> Map<NeighborKey, Option<u32>> {
        match direction {
            TraversalDirection::Out => self.with_out_overlay(edges, node),
            TraversalDirection::In => self.with_in_overlay(edges, node),
            TraversalDirection::Any => self.with_in_overlay(
                self.with_out_overlay(edges, node),
                node,
            ),
        }
    }

    /// The edges after the current transaction.
    pub open spec fn with_transaction_of(
        &self,
        edges: Map<NeighborKey, Option<u32>>,
        direction: TraversalDirection,
        node: u32,
    ) -> Map<NeighborKey, Option<u32>> {
        match self.transaction {
            Some(delta) => with_added(
                without_deleted(edges, delta@.deleted_edges, direction, node),
                delta@.added_edges,
                direction,
                node,
            ),
            None => edges,
        }
    }

    /// The edges of a node: base, then durable segments, then the committed
    /// overlay, then the current transaction; each layer wins over those before
    /// it.
    pub open spec fn merged(&self, direction: TraversalDirection, node: u32) -> Map<
        NeighborKey,
        Option<u32>,
    > {
        self.with_transaction_of(
            self.with_committed(
                self.with_segments_of(
                    self.with_base(Map::empty(), direction, node),
                    direction,
                    node,
                ),
                direction,
                node,
            ),
            direction,
            node,
        )
    }

    /// The layered edges of a node, in neighbor order.
    pub open spec fn rows(&self, direction: TraversalDirection, node: u32) -> Seq<
        (u32, LayeredEdge),
    > {
        if self.visible(node) {
            listing(self.merged(direction, node), |target: u32| self.visible(target))
        } else {
            Seq::empty()
        }
    }

    /// Whether a source is in a range that a base chunk replaces.
    pub fn base_chunk_covers(&self, source: u32) -> (found: bool)
        ensures
            found == covered(self.base_chunk_ranges@, source),
    {
        ranges_cover(self.base_chunk_ranges.as_slice(), source)
    }

    pub fn merge_base(
        &self,
        direction: TraversalDirection,
        node_idx: u32,
        merged: &mut OrderedMap<NeighborKey, Option<u32>>,
    )
        requires
            self.wf(),
            old(merged).wf(),
        ensures
            final(merged).wf(),
            final(merged)@ == self.with_base(old(merged)@, direction, node_idx),
    {
        match direction {
            TraversalDirection::Out => self.merge_base_out(node_idx, merged),
            TraversalDirection::In => self.merge_base_in(node_idx, merged),
            TraversalDirection::Any => {
                self.merge_base_out(node_idx, merged);
                self.merge_base_in(node_idx, merged);
            },
        }
    }

    fn merge_base_out(&self, node_idx: u32, merged: &mut OrderedMap<NeighborKey, Option<u32>>)
        requires
            self.wf(),
            old(merged).wf(),
        ensures
            final(merged).wf(),
            final(merged)@ == self.with_base(old(merged)@, TraversalDirection::Out, node_idx),
    {
        if self.base_chunk_covers(node_idx) {
            merge_durable_map(&self.base_chunk_out, node_idx, merged);
        } else {
            let ghost start = merged@;
            let none: &[SourceRange] = &[];
            proof {
                lemma_rows(self.base.edges.entries@, node_idx);
            }
            merge_rows(self.base.neighbors(node_idx), node_idx, none, merged);
            assert(uncovered(leads_to(self.base.edges@, node_idx), none@) =~= leads_to(
                self.base.edges@,
                node_idx,
            ));
        }
    }

    fn merge_base_in(&self, node_idx: u32, merged: &mut OrderedMap<NeighborKey, Option<u32>>)
        requires
            self.wf(),
            old(merged).wf(),
        ensures
            final(merged).wf(),
            final(merged)@ == self.with_base(old(merged)@, TraversalDirection::In, node_idx),
    {
        match self.base_in {
            Some(base_in) => {
                proof {
                    lemma_rows(base_in.edges.entries@, node_idx);
                }
                merge_rows(
                    base_in.neighbors(node_idx),
                    node_idx,
                    self.base_chunk_ranges.as_slice(),
                    merged,
                );
            },
            None => self.merge_base_in_by_scan(node_idx, merged),
        }
        merge_durable_map(&self.base_chunk_in, node_idx, merged);
    }

    pub fn merge_base_in_by_scan(
        &self,
        node_idx: u32,
        merged: &mut OrderedMap<NeighborKey, Option<u32>>,
    )
        requires
            self.wf(),
            old(merged).wf(),
        ensures
            final(merged).wf(),
            final(merged)@ == old(merged)@.union_prefer_right(
                uncovered(comes_from(self.base.edges@, node_idx), self.base_chunk_ranges@),
            ),
    {
        let ghost start = merged@;
        let ghost entries = self.base.edges.entries@;
        let ghost ranges = self.base_chunk_ranges@;
        proof {
            ordered_map::lemma_no_entries(entries.take(0));
            assert(merged@ =~= start.union_prefer_right(
                uncovered(comes_from(ordered_map::map_of(entries.take(0)), node_idx), ranges),
            ));
        }
        for i in 0..self.base.edges.entries.len()
            invariant
                merged.wf(),
                entries == self.base.edges.entries@,
                ranges == self.base_chunk_ranges@,
                ordered_map::keys_sorted(entries),
                merged@ == start.union_prefer_right(
                    uncovered(
                        comes_from(ordered_map::map_of(entries.take(i as int)), node_idx),
                        ranges,
                    ),
                ),
        {
            let (key, weight): (EdgeKey, Option<u32>) = self.base.edges.entries[i];
            proof {
                ordered_map::lemma_take_next(entries, i as int);
            }
            let neighbor: NeighborKey = NeighborKey {
                target: key.source,
                type_id: key.type_id,
                schema_reversed: key.schema_reversed,
            };
            if key.target == node_idx && !self.base_chunk_covers(key.source) {
                assert(mirrored(edge_to(node_idx, neighbor)) == key);
                merged.insert(neighbor, weight);
            }
            proof {
                assert forall|other: NeighborKey| #![auto] mirrored(edge_to(node_idx, other))
                    == key implies key.target == node_idx && other == neighbor by {}
            }
            assert(merged@ =~= start.union_prefer_right(
                uncovered(comes_from(ordered_map::map_of(entries.take(i + 1)), node_idx), ranges),
            ));
        }
        assert(entries.take(entries.len() as int) =~= entries);
    }

    pub fn merge_durable(
        &self,
        direction: TraversalDirection,
        node_idx: u32,
        merged: &mut OrderedMap<NeighborKey, Option<u32>>,
    )
        requires
            self.wf(),
            old(merged).wf(),
        ensures
            final(merged).wf(),
            final(merged)@ == self.with_segments_of(old(merged)@, direction, node_idx),
    {
        match direction {
            TraversalDirection::Out => merge_durable_map(&self.durable_out, node_idx, merged),
            TraversalDirection::In => merge_durable_map(&self.durable_in, node_idx, merged),
            TraversalDirection::Any => {
                merge_durable_map(&self.durable_out, node_idx, merged);
                merge_durable_map(&self.durable_in, node_idx, merged);
            },
        }
    }

    pub fn merge_committed_overlay(
        &self,
        direction: TraversalDirection,
        node_idx: u32,
        merged: &mut OrderedMap<NeighborKey, Option<u32>>,
    )
        requires
            old(merged).wf(),
        ensures
            final(merged).wf(),
            final(merged)@ == self.with_committed(old(merged)@, direction, node_idx),
    {
        match direction {
            TraversalDirection::Out => merge_committed_overlay_maps(
                &self.committed_out_inserts,
                &self.committed_out_deletes,
                node_idx,
                merged,
            ),
            TraversalDirection::In => merge_committed_overlay_maps(
                &self.committed_in_inserts,
                &self.committed_in_deletes,
                node_idx,
                merged,
            ),
            TraversalDirection::Any => {
                merge_committed_overlay_maps(
                    &self.committed_out_inserts,
                    &self.committed_out_deletes,
                    node_idx,
                    merged,
                );
                merge_committed_overlay_maps(
                    &self.committed_in_inserts,
                    &self.committed_in_deletes,
                    node_idx,
                    merged,
                );
            },
        }
    }

    pub fn merge_tx_delta(
        &self,
        direction: TraversalDirection,
        node_idx: u32,
        merged: &mut OrderedMap<NeighborKey, Option<u32>>,
    )
        requires
            old(merged).wf(),
        ensures
            final(merged).wf(),
            final(merged)@ == self.with_transaction_of(old(merged)@, direction, node_idx),
    {
        match self.transaction {
            Some(delta) => {
                remove_deleted(delta, direction, node_idx, merged);
                let added: Vec<DeltaEdge> = delta.added_edges_from(direction, node_idx);
                let ghost start = merged@;
                for i in 0..added.len()
                    invariant
                        merged.wf(),
                        merged@ == with_each(start, added@.take(i as int)),
                {
                    let edge: DeltaEdge = added[i];
                    assert(added@.take(i + 1).drop_last() =~= added@.take(i as int));
                    merged.insert(
                        NeighborKey {
                            target: edge.target,
                            type_id: edge.type_id,
                            schema_reversed: false,
                        },
                        edge.weight,
                    );
                }
                assert(added@.take(added@.len() as int) =~= added@);
                proof {
                    let list = choose|list: Seq<(u32, DeltaEdge)>| #[trigger]
                        tx_delta::lists_added(list, delta@.added_edges) && added@
                            == tx_delta::added_from(list, direction, node_idx);
                    lemma_added_each(start, delta@.added_edges, list, direction, node_idx);
                }
            },
            None => {},
        }
    }

    /// Whether a node can be seen.
    pub fn node_visible(&self, node_idx: u32) -> (found: bool)
        requires
            self.tenant_memberships.wf(),
        ensures
            found == self.visible(node_idx),
    {
        broadcast use vstd::std_specs::hash::group_hash_axioms;

        match self.transaction {
            Some(delta) => {
                if delta.has_deleted_node(node_idx) {
                    return false;
                }
            },
            None => {},
        }
        match self.active_nodes.get(&node_idx) {
            Some(active) => {
                if !*active {
                    return false;
                }
            },
            None => {},
        }
        match self.tenant_filter {
            Some(tenant_hash) => self.tenant_memberships.contains(
                &MemberKey { tenant_hash, node_idx },
            ),
            None => true,
        }
    }

    /// The layered edges of a node.
    pub fn merged_neighbors(
        &self,
        direction: TraversalDirection,
        node_idx: u32,
        reversed: bool,
    ) -> (edges: Vec<(u32, LayeredEdge)>)
        requires
            self.wf(),
        ensures
            edges@ == (if reversed {
                self.rows(direction, node_idx).reverse()
            } else {
                self.rows(direction, node_idx)
            }),
    {
        let mut edges: Vec<(u32, LayeredEdge)> = Vec::new();
        if !self.node_visible(node_idx) {
            assert(edges@ =~= self.rows(direction, node_idx).reverse());
            return edges;
        }
        let mut merged: OrderedMap<NeighborKey, Option<u32>> = OrderedMap::new();
        self.merge_base(direction, node_idx, &mut merged);
        self.merge_durable(direction, node_idx, &mut merged);
        self.merge_committed_overlay(direction, node_idx, &mut merged);
        self.merge_tx_delta(direction, node_idx, &mut merged);
        let ghost entries = merged.entries@;
        let ghost shown = |target: u32| self.visible(target);
        proof {
            ordered_map::lemma_sorted_entries(entries);
            reveal(Seq::filter);
            assert(edges@ =~= visible_edges(entries.take(0), shown));
        }
        for i in 0..merged.entries.len()
            invariant
                self.wf(),
                entries == merged.entries@,
                shown == (|target: u32| self.visible(target)),
                edges@ == visible_edges(entries.take(i as int), shown),
        {
            let (key, weight): (NeighborKey, Option<u32>) = merged.entries[i];
            if self.node_visible(key.target) {
                edges.push(
                    (
                        key.target,
                        LayeredEdge {
                            target: key.target,
                            type_id: key.type_id,
                            schema_reversed: key.schema_reversed,
                            weight,
                        },
                    ),
                );
            }
            proof {
                reveal(Seq::filter);
                assert(entries.take(i + 1).drop_last() =~= entries.take(i as int));
                assert(edges@ =~= visible_edges(entries.take(i + 1), shown));
            }
        }
        assert(entries.take(entries.len() as int) =~= entries);
        if reversed {
            reverse_edges(edges)
        } else {
            edges
        }
    }
}

fn reverse_edges(edges: Vec<(u32, LayeredEdge)>) -> (reversed: Vec<(u32, LayeredEdge)>)
    ensures
        reversed@ == edges@.reverse(),
{
    let mut reversed: Vec<(u32, LayeredEdge)> = Vec::new();
    let mut end: usize = edges.len();
    while end > 0
        invariant
            end <= edges@.len(),
            reversed@ == edges@.skip(end as int).reverse(),
        decreases end,
    {
        reversed.push(edges[end - 1]);
        end = end - 1;
        assert(reversed@ =~= edges@.skip(end as int).reverse());
    }
    assert(edges@.skip(0) =~= edges@);
    reversed
}

/// Remove the edges that a transaction deleted.
fn remove_deleted(
    delta: &TxGraphDelta,
    direction: TraversalDirection,
    node_idx: u32,
    merged: &mut OrderedMap<NeighborKey, Option<u32>>,
)
    requires
        old(merged).wf(),
    ensures
        final(merged).wf(),
        final(merged)@ == without_deleted(
            old(merged)@,
            delta@.deleted_edges,
            direction,
            node_idx,
        ),
{
    let ghost start = merged@;
    let ghost entries = merged.entries@;
    let mut kept: OrderedMap<NeighborKey, Option<u32>> = OrderedMap::new();
    proof {
        ordered_map::lemma_no_entries(entries.take(0));
        assert(kept@ =~= without_deleted(
            ordered_map::map_of(entries.take(0)),
            delta@.deleted_edges,
            direction,
            node_idx,
        ));
    }
    for i in 0..merged.entries.len()
        invariant
            entries == merged.entries@,
            ordered_map::keys_sorted(entries),
            kept.wf(),
            kept@ == without_deleted(
                ordered_map::map_of(entries.take(i as int)),
                delta@.deleted_edges,
                direction,
                node_idx,
            ),
    {
        let (key, weight): (NeighborKey, Option<u32>) = merged.entries[i];
        proof {
            ordered_map::lemma_take_next(entries, i as int);
        }
        if !delta.deletes_edge(direction, node_idx, key.target, key.type_id) {
            kept.insert(key, weight);
        }
        assert(kept@ =~= without_deleted(
            ordered_map::map_of(entries.take(i + 1)),
            delta@.deleted_edges,
            direction,
            node_idx,
        ));
    }
    assert(entries.take(entries.len() as int) =~= entries);
    *merged = kept;
}


// ---------------------------------------------------------------------------
// Construction
// ---------------------------------------------------------------------------

impl<'a> LayeredNeighbors<'a> {
    /// Whether the source reads chunks, segments and overlays over a base.
    pub open spec fn layers(
        &self,
        base: &EdgeStore,
        base_in: Option<&EdgeStore>,
        chunks: Seq<DeltaSegmentView>,
        segments: Seq<DeltaSegmentView>,
        tenant_filter: Option<u64>,
    ) -> bool {
        let chunk_state = with_segments(blank_state(), chunks);
        let state = with_segments(blank_state(), segments);
        let stored = replaced_base(base.edges@, chunk_ranges(chunks), chunk_state.out_edges);
        &&& self.base == base
        &&& self.base_in == base_in
        &&& self.base_chunk_ranges@ == chunk_ranges(chunks)
        &&& self.base_chunk_out@ == chunk_state.out_edges
        &&& self.base_chunk_in@ == chunk_state.in_edges
        &&& self.durable_out@ == without_repeats(state.out_edges, stored, true)
        &&& self.durable_in@ == without_repeats(state.in_edges, mirror_image(stored), true)
        &&& self.active_nodes@ == state.active_nodes
        &&& self.tenant_memberships@.dom() == state.members
        &&& self.tenant_filter == tenant_filter
    }

    /// Whether the committed overlays are these.
    pub open spec fn overlays(
        &self,
        committed_out: Option<EdgeOverlay>,
        committed_in: Option<EdgeOverlay>,
    ) -> bool {
        &&& self.committed_out_inserts@ == overlay_maps(committed_out).0
        &&& self.committed_out_deletes@ == overlay_maps(committed_out).1
        &&& self.committed_in_inserts@ == overlay_maps(committed_in).0
        &&& self.committed_in_deletes@ == overlay_maps(committed_in).1
    }

    /// Build a layered source from already-decoded segments.
    pub fn new(base: &'a EdgeStore, segments: Vec<DeltaSegment>) -> (source: LayeredNeighbors<'a>)
        requires
            base.wf(),
        ensures
            source.wf(),
            source.layers(base, None, Seq::empty(), views(segments@), None),
            source.overlays(None, None),
            source.transaction is None,
    {
        LayeredNeighbors::new_with_tenant(base, segments, None)
    }

    /// Build a layered source with an optional tenant membership filter.
    pub fn new_with_tenant(
        base: &'a EdgeStore,
        segments: Vec<DeltaSegment>,
        tenant_filter: Option<u64>,
    ) -> (source: LayeredNeighbors<'a>)
        requires
            base.wf(),
        ensures
            source.wf(),
            source.layers(base, None, Seq::empty(), views(segments@), tenant_filter),
            source.overlays(None, None),
            source.transaction is None,
    {
        LayeredNeighbors::new_with_options(base, None, segments, tenant_filter, None, None)
    }

    /// Build a layered source with reverse base edges and committed overlays.
    pub fn new_with_options(
        base: &'a EdgeStore,
        base_in: Option<&'a EdgeStore>,
        segments: Vec<DeltaSegment>,
        tenant_filter: Option<u64>,
        committed_out: Option<EdgeOverlay>,
        committed_in: Option<EdgeOverlay>,
    ) -> (source: LayeredNeighbors<'a>)
        requires
            base.wf(),
            base_in matches Some(store) ==> store.wf(),
        ensures
            source.wf(),
            source.layers(base, base_in, Seq::empty(), views(segments@), tenant_filter),
            source.overlays(committed_out, committed_in),
            source.transaction is None,
    {
        let chunks: Vec<DeltaSegment> = Vec::new();
        assert(views(chunks@) =~= Seq::<DeltaSegmentView>::empty());
        LayeredNeighbors::new_with_base_chunks(
            base,
            base_in,
            chunks,
            segments,
            tenant_filter,
            committed_out,
            committed_in,
        )
    }

    /// Build a layered source in which base chunks replace source ranges.
    pub fn new_with_base_chunks(
        base: &'a EdgeStore,
        base_in: Option<&'a EdgeStore>,
        base_chunks: Vec<DeltaSegment>,
        segments: Vec<DeltaSegment>,
        tenant_filter: Option<u64>,
        committed_out: Option<EdgeOverlay>,
        committed_in: Option<EdgeOverlay>,
    ) -> (source: LayeredNeighbors<'a>)
        requires
            base.wf(),
            base_in matches Some(store) ==> store.wf(),
        ensures
            source.wf(),
            source.layers(base, base_in, views(base_chunks@), views(segments@), tenant_filter),
            source.overlays(committed_out, committed_in),
            source.transaction is None,
    {
        let ghost chunks = views(base_chunks@);
        let mut base_chunk_ranges: Vec<SourceRange> = Vec::new();
        for i in 0..base_chunks.len()
            invariant
                chunks == views(base_chunks@),
                base_chunk_ranges@ == chunk_ranges(chunks).take(i as int),
        {
            assert(chunks[i as int] == base_chunks@[i as int]@);
            base_chunk_ranges.push(
                SourceRange {
                    start: base_chunks[i].header.source_start,
                    end: base_chunks[i].header.source_end,
                },
            );
            assert(base_chunk_ranges@ =~= chunk_ranges(chunks).take(i + 1));
        }
        assert(chunk_ranges(chunks).take(chunks.len() as int) =~= chunk_ranges(chunks));
        let mut base_chunk_builder: LayeredBuilder = LayeredBuilder::new(base);
        base_chunk_builder.apply_segments(base_chunks);
        let base_chunk_output: LayeredBuildOutput = base_chunk_builder.finish_replacement();
        proof {
            let chunk_state = with_segments(blank_state(), chunks);
            assert(base_chunk_output.durable_out@ =~= chunk_state.out_edges);
            assert(base_chunk_output.durable_in@ =~= chunk_state.in_edges);
        }
        let mut builder: LayeredBuilder = LayeredBuilder::new(base);
        builder.apply_segments(segments);
        let output: LayeredBuildOutput = builder.finish(
            base_chunk_ranges.as_slice(),
            &base_chunk_output.durable_out,
        );
        let (committed_out_inserts, committed_out_deletes): EdgeOverlay = overlay_or_empty(
            committed_out,
        );
        let (committed_in_inserts, committed_in_deletes): EdgeOverlay = overlay_or_empty(
            committed_in,
        );
        LayeredNeighbors {
            base,
            base_in,
            base_chunk_ranges,
            base_chunk_out: base_chunk_output.durable_out,
            base_chunk_in: base_chunk_output.durable_in,
            durable_out: output.durable_out,
            durable_in: output.durable_in,
            committed_out_inserts,
            committed_out_deletes,
            committed_in_inserts,
            committed_in_deletes,
            active_nodes: output.active_nodes,
            tenant_memberships: output.tenant_memberships,
            tenant_filter,
            transaction: None,
        }
    }

    /// Read what the current transaction has recorded on top of this source, if it has
    /// recorded something.
    pub fn with_transaction(self, delta: Option<&'a TxGraphDelta>) -> (source: LayeredNeighbors<'a>)
        requires
            self.wf(),
        ensures
            source.wf(),
            source == (LayeredNeighbors { transaction: delta, ..self }),
    {
        let mut source: LayeredNeighbors<'a> = self;
        source.transaction = delta;
        source
    }

    /// Borrow this layered snapshot as a neighbor source for `direction`.
    pub fn for_direction<'b>(&'b self, direction: TraversalDirection) -> (source:
        DirectionalLayeredNeighbors<'b, 'a>)
        ensures
            source.layered == self,
            source.direction == direction,
    {
        DirectionalLayeredNeighbors { layered: self, direction }
    }

    /// Weighted outgoing neighbors after durable deltas and transaction overlays
    /// have been applied.
    pub fn weighted_neighbors(&self, node_idx: u32) -> (found: Vec<WeightedNeighbor>)
        requires
            self.wf(),
        ensures
            found@ == weighted_rows(self.rows(TraversalDirection::Out, node_idx)),
    {
        let rows: Vec<(u32, LayeredEdge)> = self.merged_neighbors(
            TraversalDirection::Out,
            node_idx,
            false,
        );
        let mut found: Vec<WeightedNeighbor> = Vec::new();
        proof {
            reveal(Seq::filter);
            assert(found@ =~= weighted_rows(rows@.take(0)));
        }
        for i in 0..rows.len()
            invariant
                found@ == weighted_rows(rows@.take(i as int)),
        {
            let (target, edge): (u32, LayeredEdge) = rows[i];
            match edge.weight {
                Some(weight) => found.push(
                    WeightedNeighbor {
                        target,
                        type_id: edge.type_id,
                        schema_reversed: edge.schema_reversed,
                        weight,
                    },
                ),
                None => {},
            }
            proof {
                reveal(Seq::filter);
                assert(rows@.take(i + 1).drop_last() =~= rows@.take(i as int));
                assert(found@ =~= weighted_rows(rows@.take(i + 1)));
            }
        }
        assert(rows@.take(rows@.len() as int) =~= rows@);
        found
    }

    /// Whether any outgoing edge can carry a weight.
    pub fn has_weighted_edges(&self) -> (found: bool)
        requires
            self.wf(),
        ensures
            found == (self.base.weighted || has_weight(self.base_chunk_out@) || has_weight(
                self.durable_out@,
            ) || (self.transaction matches Some(delta) && adds_weight(delta@.added_edges))),
    {
        if self.base.has_weights() || any_weight(&self.base_chunk_out) || any_weight(
            &self.durable_out,
        ) {
            return true;
        }
        match self.transaction {
            Some(delta) => adds_any_weight(delta),
            None => false,
        }
    }
}

/// Whether an added edge has a weight.
pub open spec fn adds_weight(added: Map<u32, Seq<DeltaEdge>>) -> bool {
    exists|source: u32, edge: DeltaEdge| #[trigger]
        tx_delta::edges_at(added, source).contains(edge) && edge.weight is Some
}

fn adds_any_weight(delta: &TxGraphDelta) -> (found: bool)
    ensures
        found == adds_weight(delta@.added_edges),
{
    let list: Vec<(u32, DeltaEdge)> = delta.added_list();
    for i in 0..list.len()
        invariant
            tx_delta::lists_added(list@, delta@.added_edges),
            forall|j: int| 0 <= j < i ==> (#[trigger] list@[j]).1.weight is None,
    {
        if list[i].1.weight.is_some() {
            proof {
                let entry = list@[i as int];
                assert(list@.contains(entry));
                tx_delta::lemma_listed_members(list@, delta@.added_edges, entry.0, entry.1);
            }
            return true;
        }
    }
    proof {
        if adds_weight(delta@.added_edges) {
            let (source, edge) = choose|source: u32, edge: DeltaEdge| #[trigger]
                tx_delta::edges_at(delta@.added_edges, source).contains(edge) && edge.weight is Some;
            tx_delta::lemma_listed_members(list@, delta@.added_edges, source, edge);
            let i = choose|i: int| 0 <= i < list@.len() && list@[i] == (source, edge);
            assert(list@[i].1.weight is None);
        }
    }
    false
}

/// Whether an edge is present with a weight.
pub open spec fn has_weight(edges: Map<EdgeKey, DurableEdgeState>) -> bool {
    exists|key: EdgeKey| #[trigger]
        edges.contains_key(key) && edges[key] is Present && edges[key]->Present_0 is Some
}

fn any_weight(edges: &OrderedMap<EdgeKey, DurableEdgeState>) -> (found: bool)
    requires
        edges.wf(),
    ensures
        found == has_weight(edges@),
{
    for i in 0..edges.entries.len()
        invariant
            edges.wf(),
            forall|j: int|
                0 <= j < i ==> !((#[trigger] edges.entries@[j]).1 is Present
                    && edges.entries@[j].1->Present_0 is Some),
    {
        proof {
            ordered_map::lemma_entry(edges.entries@, i as int);
        }
        match edges.entries[i].1 {
            DurableEdgeState::Present(weight) => {
                if weight.is_some() {
                    return true;
                }
            },
            DurableEdgeState::Deleted => {},
        }
    }
    proof {
        assert forall|key: EdgeKey| #[trigger] edges@.contains_key(key) implies !(edges@[key] is Present
            && edges@[key]->Present_0 is Some) by {
            let i = choose|i: int| ordered_map::entry_at(edges.entries@, key, i);
            assert(ordered_map::entry_at(edges.entries@, key, i));
            ordered_map::lemma_entry(edges.entries@, i);
        }
    }
    false
}

/// The neighbors that layered edges lead to, as a list.
fn collect_neighbors(rows: Vec<(u32, LayeredEdge)>) -> (found: Vec<Neighbor>)
    ensures
        found@ == plain_neighbors(rows@),
{
    let mut found: Vec<Neighbor> = Vec::new();
    for i in 0..rows.len()
        invariant
            found@ == plain_neighbors(rows@).take(i as int),
    {
        let (target, edge): (u32, LayeredEdge) = rows[i];
        found.push(
            Neighbor {
                target,
                type_id: edge.type_id,
                schema_reversed: edge.schema_reversed,
            },
        );
        assert(found@ =~= plain_neighbors(rows@).take(i + 1));
    }
    assert(found@ =~= plain_neighbors(rows@));
    found
}

impl<'b> NeighborSource for LayeredNeighbors<'b> {
    open spec fn source_wf(&self) -> bool {
        self.wf()
    }

    open spec fn neighbor_list(&self, node_idx: u32) -> Seq<Neighbor> {
        plain_neighbors(self.rows(TraversalDirection::Out, node_idx))
    }

    fn neighbors(&self, node_idx: u32) -> (iter: NeighborIter<'_>) {
        NeighborIter::owned(
            collect_neighbors(self.merged_neighbors(TraversalDirection::Out, node_idx, false)),
        )
    }

    fn neighbors_reversed(&self, node_idx: u32) -> (iter: NeighborIter<'_>) {
        proof {
            let rows = self.rows(TraversalDirection::Out, node_idx);
            assert(plain_neighbors(rows.reverse()) =~= plain_neighbors(rows).reverse());
        }
        NeighborIter::owned(
            collect_neighbors(self.merged_neighbors(TraversalDirection::Out, node_idx, true)),
        )
    }
}

/// Direction-specific neighbor source backed by one layered snapshot.
pub struct DirectionalLayeredNeighbors<'a, 'b> {
    pub layered: &'a LayeredNeighbors<'b>,
    pub direction: TraversalDirection,
}

impl<'c, 'b> NeighborSource for DirectionalLayeredNeighbors<'c, 'b> {
    open spec fn source_wf(&self) -> bool {
        self.layered.wf()
    }

    open spec fn neighbor_list(&self, node_idx: u32) -> Seq<Neighbor> {
        plain_neighbors(self.layered.rows(self.direction, node_idx))
    }

    fn neighbors(&self, node_idx: u32) -> (iter: NeighborIter<'_>) {
        NeighborIter::owned(
            collect_neighbors(self.layered.merged_neighbors(self.direction, node_idx, false)),
        )
    }

    fn neighbors_reversed(&self, node_idx: u32) -> (iter: NeighborIter<'_>) {
        proof {
            let rows = self.layered.rows(self.direction, node_idx);
            assert(plain_neighbors(rows.reverse()) =~= plain_neighbors(rows).reverse());
        }
        NeighborIter::owned(
            collect_neighbors(self.layered.merged_neighbors(self.direction, node_idx, true)),
        )
    }
}

// ---------------------------------------------------------------------------
// Laws of layered reads
// ---------------------------------------------------------------------------

/// The neighbor that a stored edge leads to.
pub open spec fn row_neighbor(key: EdgeKey) -> NeighborKey {
    NeighborKey { target: key.target, type_id: key.type_id, schema_reversed: key.schema_reversed }
}

/// The sorted entries of a map whose neighbors are those of a stored node.
proof fn lemma_entries_of_rows(
    edges: Map<NeighborKey, Option<u32>>,
    store: &EdgeStore,
    node: u32,
)
    requires
        store.wf(),
        edges.dom() == leads_to(store.edges@, node).dom(),
    ensures
        ordered_map::sorted_entries(edges) == store.rows(node).map_values(
            |row: (EdgeKey, Option<u32>)| (row_neighbor(row.0), edges[row_neighbor(row.0)]),
        ),
{
    let rows = store.rows(node);
    let entries = rows.map_values(
        |row: (EdgeKey, Option<u32>)| (row_neighbor(row.0), edges[row_neighbor(row.0)]),
    );
    lemma_rows(store.edges.entries@, node);
    reveal_with_fuel(order::ranks_before, 5);
    assert forall|i: int, j: int| 0 <= i < j < entries.len() implies order::before(
        (#[trigger] entries[i]).0.rank(),
        (#[trigger] entries[j]).0.rank(),
    ) by {
        let a = rows[i].0;
        let b = rows[j].0;
        assert(order::before(a.rank(), b.rank()));
        assert(a.rank()[0] == b.rank()[0]);
        assert(a.rank()[1] == entries[i].0.rank()[0] && b.rank()[1] == entries[j].0.rank()[0]);
        assert(a.rank()[2] == entries[i].0.rank()[1] && b.rank()[2] == entries[j].0.rank()[1]);
        assert(a.rank()[3] == entries[i].0.rank()[2] && b.rank()[3] == entries[j].0.rank()[2]);
    }
    assert forall|key: NeighborKey| #[trigger]
        ordered_map::map_of(entries).contains_key(key) <==> edges.contains_key(key) by {
        assert(edges.dom().contains(key) <==> leads_to(store.edges@, node).dom().contains(key));
        assert(leads_to(ordered_map::map_of(rows), node).contains_key(key) <==> leads_to(
            store.edges@,
            node,
        ).contains_key(key));
        if ordered_map::map_of(entries).contains_key(key) {
            let i = choose|i: int| ordered_map::entry_at(entries, key, i);
            assert(ordered_map::entry_at(entries, key, i));
            assert(rows[i].0 == edge_to(node, key));
            assert(ordered_map::entry_at(rows, edge_to(node, key), i));
        }
        if edges.contains_key(key) {
            let i = choose|i: int| ordered_map::entry_at(rows, edge_to(node, key), i);
            assert(ordered_map::entry_at(rows, edge_to(node, key), i));
            assert(ordered_map::entry_at(entries, key, i));
        }
    }
    assert forall|key: NeighborKey| #[trigger]
        ordered_map::map_of(entries).contains_key(key) implies ordered_map::map_of(entries)[key]
        == edges[key] by {
        let i = choose|i: int| ordered_map::entry_at(entries, key, i);
        assert(ordered_map::entry_at(entries, key, i));
        ordered_map::lemma_entry(entries, i);
    }
    assert(ordered_map::map_of(entries) =~= edges);
    ordered_map::lemma_sorted_entries(entries);
}

/// Whether every node can be seen.
pub open spec fn all_visible(layered: LayeredNeighbors) -> bool {
    forall|node: u32| #[trigger] layered.visible(node)
}

/// Where all nodes can be seen, a layered read lists the neighbors that a store
/// with the same edges lists.
pub proof fn lemma_matches_store(
    layered: LayeredNeighbors,
    direction: TraversalDirection,
    store: &EdgeStore,
    node: u32,
)
    requires
        store.wf(),
        all_visible(layered),
        layered.merged(direction, node).dom() == leads_to(store.edges@, node).dom(),
    ensures
        plain_neighbors(layered.rows(direction, node)) == neighbors::neighbors_of(
            store.rows(node),
        ),
{
    let edges = layered.merged(direction, node);
    let shown = |target: u32| layered.visible(target);
    lemma_entries_of_rows(edges, store, node);
    let entries = ordered_map::sorted_entries(edges);
    let keep = |entry: (NeighborKey, Option<u32>)| shown(entry.0.target);
    assert(layered.visible(node));
    assert forall|i: int| 0 <= i < entries.len() implies (keep(#[trigger] entries[i]) <==> 0 <= i
        < entries.len()) by {
        assert(layered.visible(entries[i].0.target));
    }
    edge_store::lemma_filter_run(entries, keep, 0, entries.len() as int);
    assert(entries.subrange(0, entries.len() as int) =~= entries);
    assert(plain_neighbors(layered.rows(direction, node)) =~= neighbors::neighbors_of(
        store.rows(node),
    ));
}

/// Whether a source reads nothing but its base and durable segments.
pub open spec fn only_segments(layered: LayeredNeighbors, node: u32) -> bool {
    &&& layered.base_chunk_ranges@.len() == 0
    &&& layered.base_chunk_in@ == Map::<EdgeKey, DurableEdgeState>::empty()
    &&& neighbors::listed(layered.committed_out_inserts@, node).len() == 0
    &&& neighbors::listed(layered.committed_out_deletes@, node).len() == 0
    &&& neighbors::listed(layered.committed_in_inserts@, node).len() == 0
    &&& neighbors::listed(layered.committed_in_deletes@, node).len() == 0
    &&& layered.transaction is None
    &&& all_visible(layered)
}

/// The edges after a rebuild that takes in what segments say.
pub open spec fn rebuilt_has(
    base: Map<EdgeKey, Option<u32>>,
    durable: Map<EdgeKey, DurableEdgeState>,
    key: EdgeKey,
) -> bool {
    if durable.contains_key(key) {
        durable[key] is Present
    } else {
        base.contains_key(key)
    }
}

pub proof fn lemma_no_overlay(
    edges: Map<NeighborKey, Option<u32>>,
    inserted: Seq<(u32, u8)>,
    deleted: Seq<(u32, u8)>,
)
    requires
        inserted.len() == 0,
        deleted.len() == 0,
    ensures
        with_overlay(edges, inserted, deleted) == edges,
{
    assert forall|key: NeighborKey| #![auto] !names(inserted, key) && !names(deleted, key) by {}
    assert(with_overlay(edges, inserted, deleted) =~= edges);
}

/// Outgoing reads over base and segments list what a rebuild with the segments
/// taken in lists.
pub proof fn lemma_matches_rebuild(
    layered: LayeredNeighbors,
    state: LayeredState,
    rebuilt: &EdgeStore,
    node: u32,
)
    requires
        only_segments(layered, node),
        layered.durable_out@ == without_repeats(state.out_edges, layered.base.edges@, true),
        rebuilt.wf(),
        forall|key: EdgeKey|
            key.source == node ==> (#[trigger] rebuilt.edges@.contains_key(key) <==> rebuilt_has(
                layered.base.edges@,
                state.out_edges,
                key,
            )),
    ensures
        plain_neighbors(layered.rows(TraversalDirection::Out, node)) == neighbors::neighbors_of(
            rebuilt.rows(node),
        ),
{
    let direction = TraversalDirection::Out;
    let none = Map::<NeighborKey, Option<u32>>::empty();
    let over_base = layered.with_base(none, direction, node);
    let durable = layered.with_segments_of(over_base, direction, node);
    lemma_no_overlay(
        durable,
        neighbors::listed(layered.committed_out_inserts@, node),
        neighbors::listed(layered.committed_out_deletes@, node),
    );
    assert(layered.merged(direction, node) == durable);
    assert(!covered(layered.base_chunk_ranges@, node));
    assert forall|key: NeighborKey| #[trigger] durable.dom().contains(key) <==> leads_to(
        rebuilt.edges@,
        node,
    ).dom().contains(key) by {
        assert(rebuilt.edges@.contains_key(edge_to(node, key)) <==> rebuilt_has(
            layered.base.edges@,
            state.out_edges,
            edge_to(node, key),
        ));
    }
    assert(durable.dom() =~= leads_to(rebuilt.edges@, node).dom());
    lemma_matches_store(layered, direction, rebuilt, node);
}

/// Incoming reads over base and segments list what the reverse of a rebuild
/// lists. The reverse store holds each edge under its target.
pub proof fn lemma_matches_reverse_rebuild(
    layered: LayeredNeighbors,
    state: LayeredState,
    reversed: &EdgeStore,
    node: u32,
)
    requires
        only_segments(layered, node),
        layered.base_in is None,
        is_mirror(state),
        layered.durable_in@ == without_repeats(
            state.in_edges,
            mirror_image(layered.base.edges@),
            true,
        ),
        reversed.wf(),
        forall|key: EdgeKey|
            key.source == node ==> (#[trigger] reversed.edges@.contains_key(key) <==> rebuilt_has(
                layered.base.edges@,
                state.out_edges,
                mirrored(key),
            )),
    ensures
        plain_neighbors(layered.rows(TraversalDirection::In, node)) == neighbors::neighbors_of(
            reversed.rows(node),
        ),
{
    let direction = TraversalDirection::In;
    let none = Map::<NeighborKey, Option<u32>>::empty();
    let over_base = layered.with_base(none, direction, node);
    let durable = layered.with_segments_of(over_base, direction, node);
    lemma_no_overlay(
        durable,
        neighbors::listed(layered.committed_in_inserts@, node),
        neighbors::listed(layered.committed_in_deletes@, node),
    );
    assert(layered.merged(direction, node) == durable);
    assert forall|source: u32| #[trigger] covered(layered.base_chunk_ranges@, source) == false by {}
    assert forall|key: NeighborKey| #[trigger] durable.dom().contains(key) <==> leads_to(
        reversed.edges@,
        node,
    ).dom().contains(key) by {
        let edge = edge_to(node, key);
        assert(mirrored(mirrored(edge)) == edge);
        assert(reversed.edges@.contains_key(edge) <==> rebuilt_has(
            layered.base.edges@,
            state.out_edges,
            mirrored(edge),
        ));
        assert(state.out_edges.contains_key(mirrored(edge)) <==> state.in_edges.contains_key(edge));
    }
    assert(durable.dom() =~= leads_to(reversed.edges@, node).dom());
    lemma_matches_store(layered, direction, reversed, node);
}

/// Without segments, overlays and transaction a layered read lists the base.
pub proof fn lemma_matches_base(layered: LayeredNeighbors, node: u32)
    requires
        layered.wf(),
        only_segments(layered, node),
        layered.durable_out@ == Map::<EdgeKey, DurableEdgeState>::empty(),
    ensures
        layered.neighbor_list(node) == neighbors::neighbors_of(layered.base.rows(node)),
{
    let state = blank_state();
    assert(layered.durable_out@ =~= without_repeats(state.out_edges, layered.base.edges@, true));
    lemma_matches_rebuild(layered, state, layered.base, node);
}

/// An edge that the current transaction added is read with the weight that it was last
/// given, whatever the layers below say.
pub proof fn lemma_transaction_adds(
    layered: LayeredNeighbors,
    direction: TraversalDirection,
    node: u32,
    key: NeighborKey,
)
    requires
        layered.transaction matches Some(delta) && tx_delta::is_added(
            delta@.added_edges,
            traversed(direction, node, key),
        ),
        !key.schema_reversed,
    ensures
        layered.merged(direction, node).contains_key(key),
        Some(layered.merged(direction, node)[key]) == added_weight(
            layered.transaction->Some_0@.added_edges,
            direction,
            node,
            key,
        ),
{
    let edge = traversed(direction, node, key);
    let added = layered.transaction->Some_0@.added_edges;
    tx_delta::lemma_last_weight(
        tx_delta::edges_at(added, edge.source),
        edge.target,
        edge.type_id,
    );
}

/// An edge that the current transaction deleted, and did not add, is not read,
/// whatever the layers below say.
pub proof fn lemma_transaction_deletes(
    layered: LayeredNeighbors,
    direction: TraversalDirection,
    node: u32,
    key: NeighborKey,
)
    requires
        layered.transaction matches Some(delta) && delta@.deleted_edges.contains(
            traversed(direction, node, key),
        ) && !tx_delta::is_added(delta@.added_edges, traversed(direction, node, key)),
    ensures
        !layered.merged(direction, node).contains_key(key),
{
    let edge = traversed(direction, node, key);
    let added = layered.transaction->Some_0@.added_edges;
    tx_delta::lemma_last_weight(
        tx_delta::edges_at(added, edge.source),
        edge.target,
        edge.type_id,
    );
}

// ---------------------------------------------------------------------------
// Segment providers
// ---------------------------------------------------------------------------

/// What reading a file gave: its bytes, or the text of the error.
pub type FileRead = Result<Vec<u8>, String>;

/// What reading a file gave.
pub open spec fn file_view(file: FileRead) -> Result<Seq<u8>, Seq<char>> {
    match file {
        Ok(bytes) => Ok(bytes@),
        Err(err) => Err(err@),
    }
}

/// What reading files gave.
pub open spec fn file_views(files: Seq<FileRead>) -> Seq<Result<Seq<u8>, Seq<char>>> {
    files.map_values(|file: FileRead| file_view(file))
}

/// The segment that a manifest references, out of its file.
pub open spec fn loaded_segment(
    segment: SegmentRefView,
    file: Result<Seq<u8>, Seq<char>>,
) -> Result<DeltaSegmentView, GraphErrorView> {
    match file {
        Err(err) => Err(GraphErrorView::Internal("segment read failed: "@ + err)),
        Ok(bytes) => {
            let found = checksum::checksum_label(checksum::crc32_of(bytes));
            if found != segment.checksum {
                Err(
                    GraphErrorView::CorruptFile {
                        reason: "projection segment checksum mismatch for "@ + segment.path
                            + ": expected "@ + segment.checksum + ", got "@ + found,
                    },
                )
            } else {
                segment::parse(bytes)
            }
        },
    }
}

/// The base chunk that a manifest references, out of its file. The chunk has to
/// hold outgoing edges of the range that the manifest names.
pub open spec fn loaded_chunk(
    chunk: ChunkRefView,
    file: Result<Seq<u8>, Seq<char>>,
) -> Result<DeltaSegmentView, GraphErrorView> {
    match file {
        Err(err) => Err(GraphErrorView::Internal("base chunk read failed: "@ + err)),
        Ok(bytes) => {
            let found = checksum::checksum_label(checksum::crc32_of(bytes));
            if found != chunk.checksum {
                Err(
                    GraphErrorView::CorruptFile {
                        reason: "projection base chunk checksum mismatch for "@ + chunk.path
                            + ": expected "@ + chunk.checksum + ", got "@ + found,
                    },
                )
            } else {
                match segment::parse(bytes) {
                    Err(error) => Err(error),
                    Ok(held) => if held.header.source_start != chunk.source_start
                        || held.header.source_end != chunk.source_end || !(held.header.kind is Edge)
                        || !(held.header.direction is Out) {
                        Err(
                            GraphErrorView::CorruptFile {
                                reason: "projection base chunk "@ + chunk.path
                                    + " metadata does not match manifest range "@ + text::decimal(
                                    chunk.source_start as nat,
                                ) + ".."@ + text::decimal(chunk.source_end as nat),
                            },
                        )
                    } else {
                        Ok(held)
                    },
                }
            }
        },
    }
}

/// Decode the segment that a manifest references.
pub fn read_manifest_segment(segment: &ManifestSegmentRef, file: &FileRead) -> (result: GraphResult<
    DeltaSegment,
>)
    ensures
        safety::outcome(result) == loaded_segment(segment@, file_view(*file)),
{
    match file {
        Err(err) => Err(GraphError::Internal(concat2("segment read failed: ", err.as_str()))),
        Ok(bytes) => {
            let found: String = checksum_text(bytes.as_slice());
            if found != segment.checksum {
                return Err(
                    GraphError::CorruptFile {
                        reason: concat6(
                            "projection segment checksum mismatch for ",
                            segment.path.as_str(),
                            ": expected ",
                            segment.checksum.as_str(),
                            ", got ",
                            found.as_str(),
                        ),
                    },
                );
            }
            DeltaSegment::from_bytes(bytes.as_slice())
        },
    }
}

/// Decode the base chunk that a manifest references.
pub fn read_manifest_chunk(chunk: &ManifestChunkRef, file: &FileRead) -> (result: GraphResult<
    DeltaSegment,
>)
    ensures
        safety::outcome(result) == loaded_chunk(chunk@, file_view(*file)),
{
    match file {
        Err(err) => Err(GraphError::Internal(concat2("base chunk read failed: ", err.as_str()))),
        Ok(bytes) => {
            let found: String = checksum_text(bytes.as_slice());
            if found != chunk.checksum {
                return Err(
                    GraphError::CorruptFile {
                        reason: concat6(
                            "projection base chunk checksum mismatch for ",
                            chunk.path.as_str(),
                            ": expected ",
                            chunk.checksum.as_str(),
                            ", got ",
                            found.as_str(),
                        ),
                    },
                );
            }
            let segment: DeltaSegment = DeltaSegment::from_bytes(bytes.as_slice())?;
            if segment.header.source_start != chunk.source_start || segment.header.source_end
                != chunk.source_end || segment.header.kind != SegmentKind::Edge
                || segment.header.direction != TraversalDirection::Out {
                return Err(
                    GraphError::CorruptFile {
                        reason: concat6(
                            "projection base chunk ",
                            chunk.path.as_str(),
                            " metadata does not match manifest range ",
                            decimal_text(chunk.source_start as u64).as_str(),
                            "..",
                            decimal_text(chunk.source_end as u64).as_str(),
                        ),
                    },
                );
            }
            Ok(segment)
        },
    }
}

/// The segments of references from `from` on, or the first error.
pub open spec fn loaded_segments(
    refs: Seq<SegmentRefView>,
    files: Seq<Result<Seq<u8>, Seq<char>>>,
    from: int,
    done: Seq<DeltaSegmentView>,
) -> Result<Seq<DeltaSegmentView>, GraphErrorView>
    decreases refs.len() - from,
{
    if from >= refs.len() {
        Ok(done)
    } else {
        match loaded_segment(refs[from], files[from]) {
            Err(error) => Err(error),
            Ok(segment) => loaded_segments(refs, files, from + 1, done.push(segment)),
        }
    }
}

/// The base chunks of references from `from` on, or the first error.
pub open spec fn loaded_chunks(
    refs: Seq<ChunkRefView>,
    files: Seq<Result<Seq<u8>, Seq<char>>>,
    from: int,
    done: Seq<DeltaSegmentView>,
) -> Result<Seq<DeltaSegmentView>, GraphErrorView>
    decreases refs.len() - from,
{
    if from >= refs.len() {
        Ok(done)
    } else {
        match loaded_chunk(refs[from], files[from]) {
            Err(error) => Err(error),
            Ok(chunk) => loaded_chunks(refs, files, from + 1, done.push(chunk)),
        }
    }
}

/// A list of segments, or an error, by their views.
pub open spec fn views_of(result: GraphResult<Vec<DeltaSegment>>) -> Result<
    Seq<DeltaSegmentView>,
    GraphErrorView,
> {
    match result {
        Ok(segments) => Ok(views(segments@)),
        Err(error) => Err(error@),
    }
}

/// Source of decoded durable segments for a layered projection snapshot.
pub trait SegmentProvider {
    /// Whether segments can be loaded.
    spec fn provider_wf(&self) -> bool;

    /// The segments that the provider gives, or its error.
    spec fn segment_result(&self) -> Result<Seq<DeltaSegmentView>, GraphErrorView>;

    /// The base chunks that the provider gives, or its error.
    spec fn chunk_result(&self) -> Result<Seq<DeltaSegmentView>, GraphErrorView>;

    /// Load decoded segments that belong to one manifest snapshot.
    fn load_segments(&self) -> (result: GraphResult<Vec<DeltaSegment>>)
        requires
            self.provider_wf(),
        ensures
            views_of(result) == self.segment_result(),
    ;

    /// Load decoded base chunks that replace source-node ranges.
    fn load_base_chunks(&self) -> (result: GraphResult<Vec<DeltaSegment>>)
        requires
            self.provider_wf(),
        ensures
            views_of(result) == self.chunk_result(),
    ;
}

/// Segment provider backed by a manifest and what its files hold.
pub struct ManifestSegmentProvider<'a> {
    pub manifest: &'a ProjectionManifest,
    /// What reading the segment files gave, in manifest order.
    pub segment_files: &'a Vec<FileRead>,
    /// What reading the base chunk files gave, in manifest order.
    pub chunk_files: &'a Vec<FileRead>,
}

impl<'a> ManifestSegmentProvider<'a> {
    /// Borrow a manifest snapshot and its files for durable segment loading.
    pub fn new(
        manifest: &'a ProjectionManifest,
        segment_files: &'a Vec<FileRead>,
        chunk_files: &'a Vec<FileRead>,
    ) -> (provider: ManifestSegmentProvider<'a>)
        ensures
            provider.manifest == manifest,
            provider.segment_files == segment_files,
            provider.chunk_files == chunk_files,
    {
        ManifestSegmentProvider { manifest, segment_files, chunk_files }
    }
}

proof fn lemma_views_push(segments: Seq<DeltaSegment>, segment: DeltaSegment)
    ensures
        views(segments.push(segment)) == views(segments).push(segment@),
{
    assert(views(segments.push(segment)) =~= views(segments).push(segment@));
}

impl<'b> SegmentProvider for ManifestSegmentProvider<'b> {
    open spec fn provider_wf(&self) -> bool {
        &&& self.segment_files@.len() == self.manifest@.segments.len()
        &&& self.chunk_files@.len() == self.manifest@.base_chunks.len()
    }

    open spec fn segment_result(&self) -> Result<Seq<DeltaSegmentView>, GraphErrorView> {
        loaded_segments(self.manifest@.segments, file_views(self.segment_files@), 0, Seq::empty())
    }

    open spec fn chunk_result(&self) -> Result<Seq<DeltaSegmentView>, GraphErrorView> {
        loaded_chunks(self.manifest@.base_chunks, file_views(self.chunk_files@), 0, Seq::empty())
    }

    fn load_segments(&self) -> (result: GraphResult<Vec<DeltaSegment>>) {
        let ghost refs = self.manifest@.segments;
        let ghost files = file_views(self.segment_files@);
        let mut segments: Vec<DeltaSegment> = Vec::new();
        assert(views(segments@) =~= Seq::<DeltaSegmentView>::empty());
        for i in 0..self.manifest.segments.len()
            invariant
                refs == self.manifest@.segments,
                files == file_views(self.segment_files@),
                self.segment_files@.len() == refs.len(),
                self.segment_result() == loaded_segments(refs, files, 0, Seq::empty()),
                loaded_segments(refs, files, 0, Seq::empty()) == loaded_segments(
                    refs,
                    files,
                    i as int,
                    views(segments@),
                ),
        {
            assert(refs[i as int] == self.manifest.segments@[i as int]@);
            assert(files[i as int] == file_view(self.segment_files@[i as int]));
            let segment: DeltaSegment = read_manifest_segment(
                &self.manifest.segments[i],
                &self.segment_files[i],
            )?;
            proof {
                lemma_views_push(segments@, segment);
            }
            segments.push(segment);
        }
        Ok(segments)
    }

    fn load_base_chunks(&self) -> (result: GraphResult<Vec<DeltaSegment>>) {
        let ghost refs = self.manifest@.base_chunks;
        let ghost files = file_views(self.chunk_files@);
        let mut chunks: Vec<DeltaSegment> = Vec::new();
        assert(views(chunks@) =~= Seq::<DeltaSegmentView>::empty());
        for i in 0..self.manifest.base_chunks.len()
            invariant
                refs == self.manifest@.base_chunks,
                files == file_views(self.chunk_files@),
                self.chunk_files@.len() == refs.len(),
                self.chunk_result() == loaded_chunks(refs, files, 0, Seq::empty()),
                loaded_chunks(refs, files, 0, Seq::empty()) == loaded_chunks(
                    refs,
                    files,
                    i as int,
                    views(chunks@),
                ),
        {
            assert(refs[i as int] == self.manifest.base_chunks@[i as int]@);
            assert(files[i as int] == file_view(self.chunk_files@[i as int]));
            let chunk: DeltaSegment = read_manifest_chunk(
                &self.manifest.base_chunks[i],
                &self.chunk_files[i],
            )?;
            proof {
                lemma_views_push(chunks@, chunk);
            }
            chunks.push(chunk);
        }
        Ok(chunks)
    }
}

impl<'a> LayeredNeighbors<'a> {
    /// Whether a load from a provider gave this source, or the first error:
    /// base chunks are loaded before segments.
    pub open spec fn loads(
        result: GraphResult<LayeredNeighbors<'a>>,
        base: &EdgeStore,
        base_in: Option<&EdgeStore>,
        chunks: Result<Seq<DeltaSegmentView>, GraphErrorView>,
        segments: Result<Seq<DeltaSegmentView>, GraphErrorView>,
        committed_out: Option<EdgeOverlay>,
        committed_in: Option<EdgeOverlay>,
    ) -> bool {
        match (chunks, segments) {
            (Err(error), _) => result matches Err(given) && given@ == error,
            (Ok(_), Err(error)) => result matches Err(given) && given@ == error,
            (Ok(chunks), Ok(segments)) => result matches Ok(source) && source.wf() && source.layers(
                base,
                base_in,
                chunks,
                segments,
                None,
            ) && source.overlays(committed_out, committed_in) && source.transaction is None,
        }
    }

    /// Build a layered source from a segment provider.
    pub fn from_provider<P: SegmentProvider>(base: &'a EdgeStore, provider: &P) -> (result:
        GraphResult<LayeredNeighbors<'a>>)
        requires
            base.wf(),
            provider.provider_wf(),
        ensures
            LayeredNeighbors::loads(
                result,
                base,
                None,
                provider.chunk_result(),
                provider.segment_result(),
                None,
                None,
            ),
    {
        let chunks: Vec<DeltaSegment> = provider.load_base_chunks()?;
        let segments: Vec<DeltaSegment> = provider.load_segments()?;
        Ok(
            LayeredNeighbors::new_with_base_chunks(base, None, chunks, segments, None, None, None),
        )
    }

    /// Build a layered source from a provider plus read overlays.
    pub fn from_provider_with_overlays<P: SegmentProvider>(
        base: &'a EdgeStore,
        base_in: &'a EdgeStore,
        provider: &P,
        committed_out: EdgeOverlay,
        committed_in: EdgeOverlay,
    ) -> (result: GraphResult<LayeredNeighbors<'a>>)
        requires
            base.wf(),
            base_in.wf(),
            provider.provider_wf(),
        ensures
            LayeredNeighbors::loads(
                result,
                base,
                Some(base_in),
                provider.chunk_result(),
                provider.segment_result(),
                Some(committed_out),
                Some(committed_in),
            ),
    {
        let chunks: Vec<DeltaSegment> = provider.load_base_chunks()?;
        let segments: Vec<DeltaSegment> = provider.load_segments()?;
        Ok(
            LayeredNeighbors::new_with_base_chunks(
                base,
                Some(base_in),
                chunks,
                segments,
                None,
                Some(committed_out),
                Some(committed_in),
            ),
        )
    }
}

} // verus!
