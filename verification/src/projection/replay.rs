//! How segments replay: in one order, whatever other segments stand among them.
use vstd::prelude::*;

use crate::order::{self, Ranked};
use crate::projection::layered::{self, LayeredState, SegmentPosition};
use crate::projection::segment::{DeltaSegmentView, SegmentHeader};

verus! {

/// Segments in the order in which they are applied.
pub open spec fn in_order(segments: Seq<DeltaSegmentView>) -> Seq<DeltaSegmentView> {
    layered::apply_order(segments).map_values(
        |position: SegmentPosition| segments[position.index as int],
    )
}

/// The state after segments, one after the other.
pub open spec fn replayed(state: LayeredState, segments: Seq<DeltaSegmentView>) -> LayeredState
    decreases segments.len(),
{
    if segments.len() == 0 {
        state
    } else {
        layered::with_segment(replayed(state, segments.drop_last()), segments.last())
    }
}

proof fn lemma_position_rank(a: SegmentPosition, b: SegmentPosition)
    ensures
        a.rank() == b.rank() ==> a == b,
{
    if a.rank() == b.rank() {
        assert(a.rank()[0] == b.rank()[0] && a.rank()[1] == b.rank()[1] && a.rank()[2]
            == b.rank()[2] && a.rank()[3] == b.rank()[3] && a.rank()[4] == b.rank()[4]);
    }
}

/// There is an order in which segments are applied.
pub proof fn lemma_apply_order(segments: Seq<DeltaSegmentView>)
    requires
        segments.len() <= usize::MAX,
    ensures
        layered::is_apply_order(segments, layered::apply_order(segments)),
        layered::apply_order(segments).len() == segments.len(),
        forall|i: int|
            0 <= i < segments.len() ==> (#[trigger] layered::apply_order(segments)[i]).index
                < segments.len(),
{
    let positions = Seq::new(segments.len(), |i: int| layered::position_of(segments, i));
    assert forall|i: int, j: int| 0 <= i < j < positions.len() implies (#[trigger] positions[i]).rank()
        != (#[trigger] positions[j]).rank() by {
        lemma_position_rank(positions[i], positions[j]);
        assert(positions[i].index == i && positions[j].index == j);
    }
    order::lemma_sorted_exists(positions);
    let sorted = choose|sorted: Seq<SegmentPosition>| #[trigger]
        order::strictly_sorted(sorted) && sorted.len() == positions.len() && forall|
            position: SegmentPosition,
        | #[trigger]
            sorted.contains(position) <==> positions.contains(position);
    assert forall|position: SegmentPosition| #[trigger] sorted.contains(position) <==> exists|i: int|
        0 <= i < segments.len() && #[trigger] layered::position_of(segments, i) == position by {
        if positions.contains(position) {
            let i = choose|i: int| 0 <= i < positions.len() && positions[i] == position;
            assert(layered::position_of(segments, i) == position);
        }
        if exists|i: int|
            0 <= i < segments.len() && #[trigger] layered::position_of(segments, i) == position {
            let i = choose|i: int|
                0 <= i < segments.len() && #[trigger] layered::position_of(segments, i)
                    == position;
            assert(positions[i] == position);
        }
    }
    assert(layered::is_apply_order(segments, sorted));
    layered::lemma_apply_order_unique(segments, sorted);
    assert forall|i: int| 0 <= i < segments.len() implies (#[trigger] layered::apply_order(
        segments,
    )[i]).index < segments.len() by {
        assert(sorted.contains(sorted[i]));
    }
}

proof fn lemma_replayed_take(segments: Seq<DeltaSegmentView>, state: LayeredState, count: int)
    requires
        segments.len() <= usize::MAX,
        0 <= count <= segments.len(),
    ensures
        layered::with_segments_in(state, segments, layered::apply_order(segments), count)
            == replayed(state, in_order(segments).take(count)),
    decreases count,
{
    lemma_apply_order(segments);
    if count > 0 {
        lemma_replayed_take(segments, state, count - 1);
        let more = in_order(segments).take(count);
        assert(more.drop_last() =~= in_order(segments).take(count - 1));
        assert(more.last() == in_order(segments)[count - 1]);
    }
}

/// Applying segments is replaying them in their order.
pub proof fn lemma_with_segments(segments: Seq<DeltaSegmentView>, state: LayeredState)
    requires
        segments.len() <= usize::MAX,
    ensures
        layered::with_segments(state, segments) == replayed(state, in_order(segments)),
{
    lemma_apply_order(segments);
    lemma_replayed_take(segments, state, segments.len() as int);
    assert(in_order(segments).take(segments.len() as int) =~= in_order(segments));
}

// ---------------------------------------------------------------------------
// Filters
// ---------------------------------------------------------------------------

/// The number of kept items before `i`.
spec fn kept_before<A>(items: Seq<A>, keep: spec_fn(A) -> bool, i: int) -> int {
    items.take(i).filter(keep).len() as int
}

/// A kept item stands in the filtered sequence where the number of kept items
/// before it says.
proof fn lemma_kept_position<A>(items: Seq<A>, keep: spec_fn(A) -> bool, i: int)
    requires
        0 <= i < items.len(),
        keep(items[i]),
    ensures
        0 <= kept_before(items, keep, i) < items.filter(keep).len(),
        items.filter(keep)[kept_before(items, keep, i)] == items[i],
    decreases items.len(),
{
    reveal(Seq::filter);
    let init = items.drop_last();
    if i < init.len() {
        lemma_kept_position(init, keep, i);
        assert(init.take(i) =~= items.take(i));
    } else {
        assert(items.take(i) =~= init);
    }
}

/// The number of kept items grows from one kept item to a later one.
proof fn lemma_kept_monotone<A>(items: Seq<A>, keep: spec_fn(A) -> bool, i: int, j: int)
    requires
        0 <= i < j <= items.len(),
        keep(items[i]),
    ensures
        kept_before(items, keep, i) < kept_before(items, keep, j),
    decreases j,
{
    reveal(Seq::filter);
    assert(items.take(j).drop_last() =~= items.take(j - 1));
    if i < j - 1 {
        lemma_kept_monotone(items, keep, i, j - 1);
    }
}

/// Every place of the filtered sequence is that of a kept item.
proof fn lemma_kept_onto<A>(items: Seq<A>, keep: spec_fn(A) -> bool, at: int) -> (i: int)
    requires
        0 <= at < items.filter(keep).len(),
    ensures
        0 <= i < items.len(),
        keep(items[i]),
        kept_before(items, keep, i) == at,
    decreases items.len(),
{
    reveal(Seq::filter);
    let init = items.drop_last();
    if at < init.filter(keep).len() {
        let i = lemma_kept_onto(init, keep, at);
        assert(init.take(i) =~= items.take(i));
        i
    } else {
        let i = items.len() - 1;
        assert(items.take(i) =~= init);
        i
    }
}

/// The position of a segment among the kept segments.
spec fn renumbered(
    segments: Seq<DeltaSegmentView>,
    keep: spec_fn(DeltaSegmentView) -> bool,
    position: SegmentPosition,
) -> SegmentPosition {
    SegmentPosition {
        index: kept_before(segments, keep, position.index as int) as usize,
        ..position
    }
}

/// What a filter keeps of a strictly sorted sequence is strictly sorted.
proof fn lemma_filter_sorted<T: Ranked>(items: Seq<T>, keep: spec_fn(T) -> bool)
    requires
        order::strictly_sorted(items),
    ensures
        order::strictly_sorted(items.filter(keep)),
        forall|i: int|
            0 <= i < items.filter(keep).len() ==> items.contains(#[trigger] items.filter(keep)[i])
                && keep(items.filter(keep)[i]),
        forall|item: T| #[trigger]
            items.contains(item) && keep(item) ==> items.filter(keep).contains(item),
    decreases items.len(),
{
    reveal(Seq::filter);
    if items.len() > 0 {
        let init = items.drop_last();
        let last = items.last();
        assert(order::strictly_sorted(init)) by {
            assert forall|i: int, j: int| 0 <= i < j < init.len() implies order::before(
                (#[trigger] init[i]).rank(),
                (#[trigger] init[j]).rank(),
            ) by {
                assert(init[i] == items[i] && init[j] == items[j]);
            }
        }
        lemma_filter_sorted(init, keep);
        let kept = items.filter(keep);
        let before = init.filter(keep);
        assert forall|i: int| 0 <= i < kept.len() implies items.contains(#[trigger] kept[i]) && keep(
            kept[i],
        ) by {
            if i < before.len() {
                assert(kept[i] == before[i]);
                let j = choose|j: int| 0 <= j < init.len() && init[j] == before[i];
                assert(items[j] == kept[i]);
            } else {
                assert(items[items.len() - 1] == kept[i]);
            }
        }
        assert forall|i: int, j: int| 0 <= i < j < kept.len() implies order::before(
            (#[trigger] kept[i]).rank(),
            (#[trigger] kept[j]).rank(),
        ) by {
            assert(kept[i] == before[i]);
            if j < before.len() {
                assert(kept[j] == before[j]);
            } else {
                let m = choose|m: int| 0 <= m < init.len() && init[m] == before[i];
                assert(items[m] == before[i]);
                assert(order::before(items[m].rank(), items[items.len() - 1].rank()));
            }
        }
        assert forall|item: T| #[trigger] items.contains(item) && keep(item) implies kept.contains(
            item,
        ) by {
            let j = choose|j: int| 0 <= j < items.len() && items[j] == item;
            if j < init.len() {
                assert(init[j] == item);
                assert(init.contains(item));
                let m = choose|m: int| 0 <= m < before.len() && before[m] == item;
                assert(kept[m] == item);
            } else {
                assert(kept[kept.len() - 1] == item);
            }
        }
    }
}

/// Filtering segments and putting them in order can be done either way round.
pub proof fn lemma_order_filter(
    segments: Seq<DeltaSegmentView>,
    keep: spec_fn(DeltaSegmentView) -> bool,
)
    requires
        segments.len() <= usize::MAX,
    ensures
        in_order(segments.filter(keep)) == in_order(segments).filter(keep),
{
    let kept = segments.filter(keep);
    segments.lemma_filter_len(keep);
    lemma_apply_order(segments);
    lemma_apply_order(kept);
    let positions = layered::apply_order(segments);
    let wanted = |position: SegmentPosition| keep(segments[position.index as int]);
    lemma_filter_sorted(positions, wanted);
    let chosen = positions.filter(wanted);
    let result = chosen.map_values(
        |position: SegmentPosition| renumbered(segments, keep, position),
    );
    assert forall|i: int| 0 <= i < chosen.len() implies {
        &&& (#[trigger] chosen[i]).index < segments.len()
        &&& keep(segments[chosen[i].index as int])
        &&& chosen[i] == layered::position_of(segments, chosen[i].index as int)
        &&& kept[result[i].index as int] == segments[chosen[i].index as int]
        &&& result[i].index < kept.len()
        &&& result[i] == layered::position_of(kept, result[i].index as int)
    } by {
        assert(positions.contains(chosen[i]));
        let at = choose|at: int|
            0 <= at < segments.len() && #[trigger] layered::position_of(segments, at) == chosen[i];
        assert(chosen[i].index == at);
        lemma_kept_position(segments, keep, at);
    }
    assert(order::strictly_sorted(result)) by {
        reveal_with_fuel(order::ranks_before, 6);
        assert forall|i: int, j: int| 0 <= i < j < result.len() implies order::before(
            (#[trigger] result[i]).rank(),
            (#[trigger] result[j]).rank(),
        ) by {
            let a = chosen[i];
            let b = chosen[j];
            assert(order::before(a.rank(), b.rank()));
            if a.index < b.index {
                lemma_kept_monotone(segments, keep, a.index as int, b.index as int);
            } else if b.index < a.index {
                lemma_kept_monotone(segments, keep, b.index as int, a.index as int);
            }
            assert(result[i].rank()[0] == a.rank()[0] && result[j].rank()[0] == b.rank()[0]);
            assert(result[i].rank()[1] == a.rank()[1] && result[j].rank()[1] == b.rank()[1]);
            assert(result[i].rank()[2] == a.rank()[2] && result[j].rank()[2] == b.rank()[2]);
            assert(result[i].rank()[3] == a.rank()[3] && result[j].rank()[3] == b.rank()[3]);
        }
    }
    assert forall|position: SegmentPosition| #[trigger] result.contains(position) <==> exists|i: int|
        0 <= i < kept.len() && #[trigger] layered::position_of(kept, i) == position by {
        if result.contains(position) {
            let i = choose|i: int| 0 <= i < result.len() && result[i] == position;
            assert(chosen[i].index < segments.len());
            assert(layered::position_of(kept, result[i].index as int) == position);
        }
        if exists|i: int|
            0 <= i < kept.len() && #[trigger] layered::position_of(kept, i) == position {
            let at = choose|i: int|
                0 <= i < kept.len() && #[trigger] layered::position_of(kept, i) == position;
            let i = lemma_kept_onto(segments, keep, at);
            lemma_kept_position(segments, keep, i);
            let place = layered::position_of(segments, i);
            assert(positions.contains(place));
            assert(chosen.contains(place));
            let j = choose|j: int| 0 <= j < chosen.len() && chosen[j] == place;
            assert(result[j] == position);
        }
    }
    assert(layered::is_apply_order(kept, result));
    layered::lemma_apply_order_unique(kept, result);
    lemma_filter_mapped(positions, segments, keep);
    assert(in_order(kept) =~= in_order(segments).filter(keep)) by {
        assert forall|i: int| 0 <= i < chosen.len() implies in_order(kept)[i] == chosen.map_values(
            |position: SegmentPosition| segments[position.index as int],
        )[i] by {
            assert(chosen[i].index < segments.len());
        }
    }
}

/// Filtering by the segment of a position and taking the segments can be done
/// either way round.
proof fn lemma_filter_mapped(
    positions: Seq<SegmentPosition>,
    segments: Seq<DeltaSegmentView>,
    keep: spec_fn(DeltaSegmentView) -> bool,
)
    ensures
        positions.filter(
            |position: SegmentPosition| keep(segments[position.index as int]),
        ).map_values(|position: SegmentPosition| segments[position.index as int])
            == positions.map_values(
            |position: SegmentPosition| segments[position.index as int],
        ).filter(keep),
    decreases positions.len(),
{
    reveal(Seq::filter);
    let take = |position: SegmentPosition| segments[position.index as int];
    let wanted = |position: SegmentPosition| keep(segments[position.index as int]);
    if positions.len() == 0 {
        assert(positions.filter(wanted).map_values(take) =~= positions.map_values(take).filter(
            keep,
        ));
    } else {
        let init = positions.drop_last();
        lemma_filter_mapped(init, segments, keep);
        assert(positions.map_values(take).drop_last() =~= init.map_values(take));
        assert(positions.filter(wanted).map_values(take) =~= positions.map_values(take).filter(
            keep,
        ));
    }
}

// ---------------------------------------------------------------------------
// What kinds of segments change
// ---------------------------------------------------------------------------

proof fn lemma_deletes_keep_nodes(
    state: LayeredState,
    direction: crate::types::TraversalDirection,
    edges: Seq<crate::projection::segment::SegmentEdge>,
)
    ensures
        layered::with_deletes(state, direction, edges).active_nodes == state.active_nodes,
        layered::with_deletes(state, direction, edges).members == state.members,
    decreases edges.len(),
{
    if edges.len() > 0 {
        lemma_deletes_keep_nodes(state, direction, edges.drop_last());
    }
}

proof fn lemma_inserts_keep_nodes(
    state: LayeredState,
    direction: crate::types::TraversalDirection,
    edges: Seq<crate::projection::segment::SegmentEdge>,
    weights: Seq<crate::projection::segment::SegmentEdgeWeight>,
)
    ensures
        layered::with_inserts(state, direction, edges, weights).active_nodes
            == state.active_nodes,
        layered::with_inserts(state, direction, edges, weights).members == state.members,
    decreases edges.len(),
{
    if edges.len() > 0 {
        lemma_inserts_keep_nodes(state, direction, edges.drop_last(), weights);
    }
}

/// Edge segments say nothing of nodes and tenants.
pub proof fn lemma_edge_segment_keeps_nodes(state: LayeredState, segment: DeltaSegmentView)
    requires
        segment.header.kind is Edge,
    ensures
        layered::with_segment(state, segment).active_nodes == state.active_nodes,
        layered::with_segment(state, segment).members == state.members,
{
    let direction = segment.header.direction;
    lemma_deletes_keep_nodes(state, direction, segment.edge_deletes);
    lemma_inserts_keep_nodes(
        layered::with_deletes(state, direction, segment.edge_deletes),
        direction,
        segment.edge_inserts,
        segment.edge_weights,
    );
}

/// Nodes and tenants after segments are those after the node segments among
/// them.
pub proof fn lemma_nodes_of_node_segments(
    segments: Seq<DeltaSegmentView>,
    state: LayeredState,
)
    ensures
        replayed(state, segments).active_nodes == replayed(
            state,
            segments.filter(|segment: DeltaSegmentView| segment.header.kind is Node),
        ).active_nodes,
        replayed(state, segments).members == replayed(
            state,
            segments.filter(|segment: DeltaSegmentView| segment.header.kind is Node),
        ).members,
    decreases segments.len(),
{
    reveal(Seq::filter);
    let keep = |segment: DeltaSegmentView| segment.header.kind is Node;
    if segments.len() > 0 {
        let init = segments.drop_last();
        lemma_nodes_of_node_segments(init, state);
        let kept = segments.filter(keep);
        if keep(segments.last()) {
            assert(kept.drop_last() =~= init.filter(keep));
            assert(kept.last() == segments.last());
        } else {
            lemma_edge_segment_keeps_nodes(replayed(state, init), segments.last());
        }
    }
}

proof fn lemma_deletes_edges_only(
    a: LayeredState,
    b: LayeredState,
    direction: crate::types::TraversalDirection,
    edges: Seq<crate::projection::segment::SegmentEdge>,
)
    requires
        a.out_edges == b.out_edges,
    ensures
        layered::with_deletes(a, direction, edges).out_edges == layered::with_deletes(
            b,
            direction,
            edges,
        ).out_edges,
    decreases edges.len(),
{
    if edges.len() > 0 {
        lemma_deletes_edges_only(a, b, direction, edges.drop_last());
    }
}

proof fn lemma_inserts_edges_only(
    a: LayeredState,
    b: LayeredState,
    direction: crate::types::TraversalDirection,
    edges: Seq<crate::projection::segment::SegmentEdge>,
    weights: Seq<crate::projection::segment::SegmentEdgeWeight>,
)
    requires
        a.out_edges == b.out_edges,
    ensures
        layered::with_inserts(a, direction, edges, weights).out_edges == layered::with_inserts(
            b,
            direction,
            edges,
            weights,
        ).out_edges,
    decreases edges.len(),
{
    if edges.len() > 0 {
        lemma_inserts_edges_only(a, b, direction, edges.drop_last(), weights);
    }
}

/// Outgoing edges after segments are those after the edge segments among them.
pub proof fn lemma_edges_of_edge_segments(
    segments: Seq<DeltaSegmentView>,
    state: LayeredState,
)
    ensures
        replayed(state, segments).out_edges == replayed(
            state,
            segments.filter(|segment: DeltaSegmentView| segment.header.kind is Edge),
        ).out_edges,
    decreases segments.len(),
{
    reveal(Seq::filter);
    let keep = |segment: DeltaSegmentView| segment.header.kind is Edge;
    if segments.len() > 0 {
        let init = segments.drop_last();
        lemma_edges_of_edge_segments(init, state);
        let kept = segments.filter(keep);
        if keep(segments.last()) {
            assert(kept.drop_last() =~= init.filter(keep));
            assert(kept.last() == segments.last());
            let direction = segments.last().header.direction;
            let a = replayed(state, init);
            let b = replayed(state, init.filter(keep));
            lemma_deletes_edges_only(a, b, direction, segments.last().edge_deletes);
            lemma_inserts_edges_only(
                layered::with_deletes(a, direction, segments.last().edge_deletes),
                layered::with_deletes(b, direction, segments.last().edge_deletes),
                direction,
                segments.last().edge_inserts,
                segments.last().edge_weights,
            );
        }
    }
}

// ---------------------------------------------------------------------------
// The order in which segments are given
// ---------------------------------------------------------------------------

/// Whether two segments have the same place among others, but for the order in which
/// they are given.
pub open spec fn same_place(a: DeltaSegmentView, b: DeltaSegmentView) -> bool {
    &&& a.header.sync_watermark == b.header.sync_watermark
    &&& a.header.level == b.header.level
    &&& a.header.source_start == b.header.source_start
    &&& a.header.source_end == b.header.source_end
}

/// Whether all segments have places of their own.
pub open spec fn places_differ(segments: Seq<DeltaSegmentView>) -> bool {
    forall|i: int, j: int|
        0 <= i < j < segments.len() ==> !same_place(#[trigger] segments[i], #[trigger] segments[j])
}

proof fn lemma_member_of_other(a: Seq<DeltaSegmentView>, b: Seq<DeltaSegmentView>, i: int)
    requires
        a.to_multiset() == b.to_multiset(),
        0 <= i < a.len(),
    ensures
        b.contains(a[i]),
{
    vstd::seq_lib::to_multiset_contains(a, a[i]);
    vstd::seq_lib::to_multiset_contains(b, a[i]);
    assert(a.contains(a[i]));
}

/// Segments that have places of their own are applied in one order, however they
/// are given, so that they add up to the same.
pub proof fn lemma_given_order_is_free(
    a: Seq<DeltaSegmentView>,
    b: Seq<DeltaSegmentView>,
    state: LayeredState,
)
    requires
        a.len() <= usize::MAX,
        a.to_multiset() == b.to_multiset(),
        places_differ(a),
    ensures
        in_order(a) == in_order(b),
        layered::with_segments(state, a) == layered::with_segments(state, b),
{
    broadcast use vstd::seq_lib::group_to_multiset_ensures;

    assert(a.len() == b.len()) by {
        a.to_multiset_ensures();
        b.to_multiset_ensures();
    }
    lemma_apply_order(a);
    lemma_apply_order(b);
    let positions = layered::apply_order(a);
    let place = |i: int| choose|j: int| 0 <= j < b.len() && b[j] == a[i];
    assert forall|i: int| 0 <= i < a.len() implies 0 <= #[trigger] place(i) < b.len() && b[place(i)]
        == a[i] by {
        lemma_member_of_other(a, b, i);
    }
    let result = positions.map_values(
        |position: SegmentPosition| layered::position_of(b, place(position.index as int)),
    );
    assert forall|i: int| 0 <= i < positions.len() implies {
        &&& (#[trigger] positions[i]).index < a.len()
        &&& positions[i] == layered::position_of(a, positions[i].index as int)
        &&& result[i].index == place(positions[i].index as int)
    } by {
        assert(positions.contains(positions[i]));
    }
    assert(order::strictly_sorted(result)) by {
        reveal_with_fuel(order::ranks_before, 6);
        assert forall|i: int, j: int| 0 <= i < j < result.len() implies order::before(
            (#[trigger] result[i]).rank(),
            (#[trigger] result[j]).rank(),
        ) by {
            let first = positions[i];
            let second = positions[j];
            assert(order::before(first.rank(), second.rank()));
            let m = first.index as int;
            let n = second.index as int;
            order::lemma_before_irreflexive(first.rank());
            assert(m != n);
            if m < n {
                assert(!same_place(a[m], a[n]));
            } else {
                assert(!same_place(a[n], a[m]));
            }
            assert(result[i].rank()[0] == first.rank()[0] && result[j].rank()[0]
                == second.rank()[0]);
            assert(result[i].rank()[1] == first.rank()[1] && result[j].rank()[1]
                == second.rank()[1]);
            assert(result[i].rank()[2] == first.rank()[2] && result[j].rank()[2]
                == second.rank()[2]);
            assert(result[i].rank()[3] == first.rank()[3] && result[j].rank()[3]
                == second.rank()[3]);
        }
    }
    assert forall|i: int, j: int| 0 <= i < b.len() && 0 <= j < b.len() && i != j implies b[i]
        != b[j] by {
        assert(a.no_duplicates()) by {
            assert forall|m: int, n: int|
                0 <= m < a.len() && 0 <= n < a.len() && m != n implies a[m] != a[n] by {
                if m < n {
                    assert(!same_place(a[m], a[n]));
                } else {
                    assert(!same_place(a[n], a[m]));
                }
            }
        }
        a.lemma_multiset_has_no_duplicates();
        b.lemma_multiset_has_no_duplicates_conv();
    }
    assert forall|position: SegmentPosition| #[trigger] result.contains(position) <==> exists|i: int|
        0 <= i < b.len() && #[trigger] layered::position_of(b, i) == position by {
        if result.contains(position) {
            let i = choose|i: int| 0 <= i < result.len() && result[i] == position;
            assert(positions[i].index < a.len());
            assert(layered::position_of(b, place(positions[i].index as int)) == position);
        }
        if exists|i: int| 0 <= i < b.len() && #[trigger] layered::position_of(b, i) == position {
            let j = choose|i: int|
                0 <= i < b.len() && #[trigger] layered::position_of(b, i) == position;
            lemma_member_of_other(b, a, j);
            let i = choose|i: int| 0 <= i < a.len() && a[i] == b[j];
            assert(b[place(i)] == b[j]);
            assert(place(i) == j);
            let spot = layered::position_of(a, i);
            assert(positions.contains(spot));
            let n = choose|n: int| 0 <= n < positions.len() && positions[n] == spot;
            assert(result[n] == position);
        }
    }
    assert(layered::is_apply_order(b, result));
    layered::lemma_apply_order_unique(b, result);
    assert(in_order(a) =~= in_order(b)) by {
        assert forall|i: int| 0 <= i < positions.len() implies in_order(a)[i] == in_order(b)[i] by {
            assert(positions[i].index < a.len());
        }
    }
    lemma_with_segments(a, state);
    lemma_with_segments(b, state);
}

// ---------------------------------------------------------------------------
// Segments as they are written
// ---------------------------------------------------------------------------

/// Whether a segment is another one as it was written: the format version and the
/// checksum in its header may differ.
pub open spec fn written_as(segment: DeltaSegmentView, written: DeltaSegmentView) -> bool {
    written == DeltaSegmentView {
        header: SegmentHeader {
            version: written.header.version,
            checksum: written.header.checksum,
            ..segment.header
        },
        ..segment
    }
}

/// Segments add up to the same after they were written.
pub proof fn lemma_written_segments(
    segments: Seq<DeltaSegmentView>,
    written: Seq<DeltaSegmentView>,
    state: LayeredState,
)
    requires
        segments.len() <= usize::MAX,
        segments.len() == written.len(),
        forall|i: int|
            0 <= i < written.len() ==> written_as(segments[i], #[trigger] written[i]),
    ensures
        layered::with_segments(state, segments) == layered::with_segments(state, written),
{
    lemma_apply_order(segments);
    let positions = layered::apply_order(segments);
    assert forall|i: int| 0 <= i < segments.len() implies #[trigger] layered::position_of(
        written,
        i,
    ) == layered::position_of(segments, i) by {
        assert(written_as(segments[i], written[i]));
    }
    assert forall|position: SegmentPosition|
        #![trigger positions.contains(position)]
        positions.contains(position) <==> exists|i: int|
            0 <= i < written.len() && #[trigger] layered::position_of(written, i) == position by {
        if positions.contains(position) {
            let i = choose|i: int|
                0 <= i < segments.len() && #[trigger] layered::position_of(segments, i) == position;
            assert(layered::position_of(written, i) == position);
        }
        if exists|i: int|
            0 <= i < written.len() && #[trigger] layered::position_of(written, i) == position {
            let i = choose|i: int|
                0 <= i < written.len() && #[trigger] layered::position_of(written, i) == position;
            assert(layered::position_of(segments, i) == position);
        }
    }
    layered::lemma_apply_order_unique(written, positions);
    lemma_written_prefix(segments, written, positions, state, segments.len() as int);
}

proof fn lemma_written_prefix(
    segments: Seq<DeltaSegmentView>,
    written: Seq<DeltaSegmentView>,
    positions: Seq<SegmentPosition>,
    state: LayeredState,
    count: int,
)
    requires
        segments.len() == written.len(),
        0 <= count <= positions.len(),
        forall|i: int|
            0 <= i < positions.len() ==> (#[trigger] positions[i]).index < segments.len(),
        forall|i: int|
            0 <= i < written.len() ==> written_as(segments[i], #[trigger] written[i]),
    ensures
        layered::with_segments_in(state, segments, positions, count)
            == layered::with_segments_in(state, written, positions, count),
    decreases count,
{
    if count > 0 {
        lemma_written_prefix(segments, written, positions, state, count - 1);
        let at = positions[count - 1].index as int;
        assert(written_as(segments[at], written[at]));
    }
}

} // verus!
