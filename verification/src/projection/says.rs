//! What segments say of an edge.
use vstd::prelude::*;

use crate::edge_store::EdgeKey;
use crate::order::{self, Ranked};
use crate::projection::layered::{self, DurableEdgeState, LayeredState};
use crate::projection::replay;
use crate::projection::segment::{DeltaSegmentView, SegmentEdge, SegmentEdgeWeight};
use crate::types::TraversalDirection;

verus! {

/// The edge row of an edge.
pub open spec fn row_of(key: EdgeKey) -> SegmentEdge {
    SegmentEdge {
        source: key.source,
        target: key.target,
        type_id: key.type_id,
        schema_reversed: key.schema_reversed,
    }
}

/// The row that stands for an edge in a segment of a direction.
pub open spec fn row_for(direction: TraversalDirection, key: EdgeKey) -> SegmentEdge {
    if direction is In {
        row_of(layered::mirrored(key))
    } else {
        row_of(key)
    }
}

/// What a segment alone says of an edge: an insert wins over a delete.
pub open spec fn said(segment: DeltaSegmentView, key: EdgeKey) -> Option<DurableEdgeState> {
    let row = row_for(segment.header.direction, key);
    if !(segment.header.kind is Edge) {
        None
    } else if segment.edge_inserts.contains(row) {
        Some(DurableEdgeState::Present(layered::weight_in(segment.edge_weights, row)))
    } else if segment.edge_deletes.contains(row) {
        Some(DurableEdgeState::Deleted)
    } else {
        None
    }
}

/// What a map of durable edges says of an edge.
pub open spec fn lookup(edges: Map<EdgeKey, DurableEdgeState>, key: EdgeKey) -> Option<
    DurableEdgeState,
> {
    if edges.contains_key(key) {
        Some(edges[key])
    } else {
        None
    }
}

/// What segments together say of an edge.
pub open spec fn stated(segments: Seq<DeltaSegmentView>, key: EdgeKey) -> Option<
    DurableEdgeState,
> {
    lookup(layered::with_segments(layered::blank_state(), segments).out_edges, key)
}

pub proof fn lemma_contains_last<A>(items: Seq<A>, item: A)
    requires
        items.len() > 0,
    ensures
        items.contains(item) <==> items.drop_last().contains(item) || items.last() == item,
{
    let init = items.drop_last();
    if items.contains(item) {
        let i = choose|i: int| 0 <= i < items.len() && items[i] == item;
        if i < init.len() {
            assert(init[i] == item);
        }
    }
    if init.contains(item) {
        let i = choose|i: int| 0 <= i < init.len() && init[i] == item;
        assert(items[i] == item);
    }
    assert(items[items.len() - 1] == items.last());
}

proof fn lemma_row_for(direction: TraversalDirection, row: SegmentEdge, key: EdgeKey)
    ensures
        layered::directed(direction, row) == key <==> row == row_for(direction, key),
{
}

proof fn lemma_deletes_say(
    state: LayeredState,
    direction: TraversalDirection,
    edges: Seq<SegmentEdge>,
    key: EdgeKey,
)
    ensures
        lookup(layered::with_deletes(state, direction, edges).out_edges, key) == (
        if edges.contains(row_for(direction, key)) {
            Some(DurableEdgeState::Deleted)
        } else {
            lookup(state.out_edges, key)
        }),
    decreases edges.len(),
{
    if edges.len() > 0 {
        lemma_deletes_say(state, direction, edges.drop_last(), key);
        lemma_contains_last(edges, row_for(direction, key));
        lemma_row_for(direction, edges.last(), key);
    }
}

proof fn lemma_inserts_say(
    state: LayeredState,
    direction: TraversalDirection,
    edges: Seq<SegmentEdge>,
    weights: Seq<SegmentEdgeWeight>,
    key: EdgeKey,
)
    ensures
        lookup(layered::with_inserts(state, direction, edges, weights).out_edges, key) == (
        if edges.contains(row_for(direction, key)) {
            Some(
                DurableEdgeState::Present(layered::weight_in(weights, row_for(direction, key))),
            )
        } else {
            lookup(state.out_edges, key)
        }),
    decreases edges.len(),
{
    if edges.len() > 0 {
        lemma_inserts_say(state, direction, edges.drop_last(), weights, key);
        lemma_contains_last(edges, row_for(direction, key));
        lemma_row_for(direction, edges.last(), key);
    }
}

/// A segment changes what is said of the edges that it speaks of, and of no other.
pub proof fn lemma_segment_lookup(
    state: LayeredState,
    segment: DeltaSegmentView,
    key: EdgeKey,
)
    ensures
        lookup(layered::with_segment(state, segment).out_edges, key) == (match said(segment, key) {
            Some(found) => Some(found),
            None => lookup(state.out_edges, key),
        }),
{
    if segment.header.kind is Edge {
        let direction = segment.header.direction;
        lemma_deletes_say(state, direction, segment.edge_deletes, key);
        lemma_inserts_say(
            layered::with_deletes(state, direction, segment.edge_deletes),
            direction,
            segment.edge_inserts,
            segment.edge_weights,
            key,
        );
    }
}

pub proof fn lemma_segment_says(segment: DeltaSegmentView, key: EdgeKey)
    ensures
        ({
            let after = layered::with_segment(layered::blank_state(), segment).out_edges;
            &&& after.contains_key(key) <==> said(segment, key) is Some
            &&& after.contains_key(key) ==> after[key] == said(segment, key)->Some_0
        }),
{
    lemma_segment_lookup(layered::blank_state(), segment, key);
}

/// The weight of an edge row is the one that all weight rows for it give.
pub proof fn lemma_weight_in(
    weights: Seq<SegmentEdgeWeight>,
    row: SegmentEdge,
    expected: Option<u32>,
)
    requires
        forall|weight: SegmentEdgeWeight|
            layered::weighs(weight, row) && #[trigger] weights.contains(weight) ==> expected
                == Some(weight.weight),
        expected is Some ==> exists|weight: SegmentEdgeWeight|
            layered::weighs(weight, row) && #[trigger] weights.contains(weight),
    ensures
        layered::weight_in(weights, row) == expected,
    decreases weights.len(),
{
    if weights.len() == 0 {
        if expected is Some {
            let weight = choose|weight: SegmentEdgeWeight|
                layered::weighs(weight, row) && #[trigger] weights.contains(weight);
            assert(weights.contains(weight));
        }
    } else if layered::weighs(weights.last(), row) {
        assert(weights[weights.len() - 1] == weights.last());
        assert(weights.contains(weights.last()));
    } else {
        let init = weights.drop_last();
        assert forall|weight: SegmentEdgeWeight|
            layered::weighs(weight, row) && #[trigger] init.contains(weight) implies expected
            == Some(weight.weight) by {
            lemma_contains_last(weights, weight);
            assert(weights.contains(weight));
        }
        if expected is Some {
            let weight = choose|weight: SegmentEdgeWeight|
                layered::weighs(weight, row) && #[trigger] weights.contains(weight);
            lemma_contains_last(weights, weight);
            assert(init.contains(weight));
        }
        lemma_weight_in(init, row, expected);
    }
}

// ---------------------------------------------------------------------------
// Several segments
// ---------------------------------------------------------------------------

/// Segments in order are the segments.
pub proof fn lemma_in_order_members(segments: Seq<DeltaSegmentView>, segment: DeltaSegmentView)
    requires
        segments.len() <= usize::MAX,
    ensures
        replay::in_order(segments).contains(segment) <==> segments.contains(segment),
{
    replay::lemma_apply_order(segments);
    let positions = layered::apply_order(segments);
    let ordered = replay::in_order(segments);
    if ordered.contains(segment) {
        let i = choose|i: int| 0 <= i < ordered.len() && ordered[i] == segment;
        assert(positions[i].index < segments.len());
        assert(segments[positions[i].index as int] == segment);
    }
    if segments.contains(segment) {
        let i = choose|i: int| 0 <= i < segments.len() && segments[i] == segment;
        let place = layered::position_of(segments, i);
        assert(positions.contains(place));
        let j = choose|j: int| 0 <= j < positions.len() && positions[j] == place;
        assert(ordered[j] == segment);
    }
}

proof fn lemma_replay_agrees(
    segments: Seq<DeltaSegmentView>,
    key: EdgeKey,
    agreed: DurableEdgeState,
)
    requires
        forall|i: int|
            0 <= i < segments.len() ==> said(#[trigger] segments[i], key) is None || said(
                segments[i],
                key,
            ) == Some(agreed),
    ensures
        lookup(replay::replayed(layered::blank_state(), segments).out_edges, key) == (if exists|
            i: int,
        |
            0 <= i < segments.len() && said(#[trigger] segments[i], key) is Some {
            Some(agreed)
        } else {
            None
        }),
    decreases segments.len(),
{
    if segments.len() > 0 {
        let init = segments.drop_last();
        let last = segments.len() - 1;
        assert forall|i: int| 0 <= i < init.len() implies said(#[trigger] init[i], key) is None
            || said(init[i], key) == Some(agreed) by {
            assert(init[i] == segments[i]);
        }
        lemma_replay_agrees(init, key, agreed);
        lemma_segment_lookup(
            replay::replayed(layered::blank_state(), init),
            segments.last(),
            key,
        );
        assert(segments[last] == segments.last());
        if exists|i: int| 0 <= i < init.len() && said(#[trigger] init[i], key) is Some {
            let i = choose|i: int| 0 <= i < init.len() && said(#[trigger] init[i], key) is Some;
            assert(said(segments[i], key) is Some);
        }
        if exists|i: int| 0 <= i < segments.len() && said(#[trigger] segments[i], key) is Some {
            let i = choose|i: int|
                0 <= i < segments.len() && said(#[trigger] segments[i], key) is Some;
            if i < last {
                assert(said(init[i], key) is Some);
            }
        }
    }
}

/// Where all segments that speak of an edge say the same, that is what they say
/// together.
pub proof fn lemma_segments_agree(
    segments: Seq<DeltaSegmentView>,
    key: EdgeKey,
    agreed: DurableEdgeState,
)
    requires
        segments.len() <= usize::MAX,
        forall|i: int|
            0 <= i < segments.len() ==> said(#[trigger] segments[i], key) is None || said(
                segments[i],
                key,
            ) == Some(agreed),
    ensures
        stated(segments, key) == (if exists|i: int|
            0 <= i < segments.len() && said(#[trigger] segments[i], key) is Some {
            Some(agreed)
        } else {
            None
        }),
{
    replay::lemma_with_segments(segments, layered::blank_state());
    replay::lemma_apply_order(segments);
    let ordered = replay::in_order(segments);
    assert forall|i: int| 0 <= i < ordered.len() implies said(#[trigger] ordered[i], key) is None
        || said(ordered[i], key) == Some(agreed) by {
        assert(ordered.contains(ordered[i]));
        lemma_in_order_members(segments, ordered[i]);
        let j = choose|j: int| 0 <= j < segments.len() && segments[j] == ordered[i];
        assert(said(segments[j], key) is None || said(segments[j], key) == Some(agreed));
    }
    lemma_replay_agrees(ordered, key, agreed);
    if exists|i: int| 0 <= i < ordered.len() && said(#[trigger] ordered[i], key) is Some {
        let i = choose|i: int| 0 <= i < ordered.len() && said(#[trigger] ordered[i], key) is Some;
        assert(ordered.contains(ordered[i]));
        lemma_in_order_members(segments, ordered[i]);
        let j = choose|j: int| 0 <= j < segments.len() && segments[j] == ordered[i];
        assert(said(segments[j], key) is Some);
    }
    if exists|i: int| 0 <= i < segments.len() && said(#[trigger] segments[i], key) is Some {
        let i = choose|i: int| 0 <= i < segments.len() && said(#[trigger] segments[i], key) is Some;
        assert(segments.contains(segments[i]));
        lemma_in_order_members(segments, segments[i]);
        let j = choose|j: int| 0 <= j < ordered.len() && ordered[j] == segments[i];
        assert(said(ordered[j], key) is Some);
    }
}

proof fn lemma_replay_filter(
    segments: Seq<DeltaSegmentView>,
    keep: spec_fn(DeltaSegmentView) -> bool,
    key: EdgeKey,
)
    requires
        forall|i: int|
            0 <= i < segments.len() ==> keep(#[trigger] segments[i]) || said(segments[i], key) is None,
    ensures
        lookup(replay::replayed(layered::blank_state(), segments).out_edges, key) == lookup(
            replay::replayed(layered::blank_state(), segments.filter(keep)).out_edges,
            key,
        ),
    decreases segments.len(),
{
    reveal(Seq::filter);
    if segments.len() > 0 {
        let init = segments.drop_last();
        let last = segments.last();
        assert forall|i: int| 0 <= i < init.len() implies keep(#[trigger] init[i]) || said(
            init[i],
            key,
        ) is None by {
            assert(init[i] == segments[i]);
        }
        lemma_replay_filter(init, keep, key);
        assert(segments[segments.len() - 1] == last);
        let blank = layered::blank_state();
        lemma_segment_lookup(replay::replayed(blank, init), last, key);
        if keep(last) {
            assert(segments.filter(keep).drop_last() =~= init.filter(keep));
            lemma_segment_lookup(replay::replayed(blank, init.filter(keep)), last, key);
        }
    }
}

/// Segments that say nothing of an edge can be left out.
pub proof fn lemma_stated_filter(
    segments: Seq<DeltaSegmentView>,
    keep: spec_fn(DeltaSegmentView) -> bool,
    key: EdgeKey,
)
    requires
        segments.len() <= usize::MAX,
        forall|i: int|
            0 <= i < segments.len() ==> keep(#[trigger] segments[i]) || said(segments[i], key) is None,
    ensures
        stated(segments, key) == stated(segments.filter(keep), key),
{
    let kept = segments.filter(keep);
    segments.lemma_filter_len(keep);
    replay::lemma_with_segments(segments, layered::blank_state());
    replay::lemma_with_segments(kept, layered::blank_state());
    replay::lemma_order_filter(segments, keep);
    let ordered = replay::in_order(segments);
    assert forall|i: int| 0 <= i < ordered.len() implies keep(#[trigger] ordered[i]) || said(
        ordered[i],
        key,
    ) is None by {
        assert(ordered.contains(ordered[i]));
        lemma_in_order_members(segments, ordered[i]);
        let j = choose|j: int| 0 <= j < segments.len() && segments[j] == ordered[i];
        assert(keep(segments[j]) || said(segments[j], key) is None);
    }
    lemma_replay_filter(ordered, keep, key);
}

/// One more segment comes last, or leaves the last one where it is.
proof fn lemma_last_in_order(segments: Seq<DeltaSegmentView>, more: DeltaSegmentView)
    requires
        segments.len() < usize::MAX,
    ensures
        replay::in_order(segments.push(more)).len() > 0,
        replay::in_order(segments.push(more)).last() == more || (segments.len() > 0
            && replay::in_order(segments.push(more)).last() == replay::in_order(segments).last()),
{
    let all = segments.push(more);
    replay::lemma_apply_order(segments);
    replay::lemma_apply_order(all);
    let positions = layered::apply_order(segments);
    let places = layered::apply_order(all);
    let last = places.last();
    assert(places.contains(places[places.len() - 1]));
    let at = choose|i: int| 0 <= i < all.len() && #[trigger] layered::position_of(all, i) == last;
    assert(last.index == at);
    if at < segments.len() {
        assert(layered::position_of(segments, at) == last);
        assert(positions.contains(last));
        let i = choose|i: int| 0 <= i < positions.len() && positions[i] == last;
        let end = positions.len() - 1;
        if i < end {
            let later = positions[end];
            assert(positions.contains(later));
            let j = choose|j: int|
                0 <= j < segments.len() && #[trigger] layered::position_of(segments, j) == later;
            assert(layered::position_of(all, j) == later);
            assert(places.contains(later));
            let k = choose|k: int| 0 <= k < places.len() && places[k] == later;
            assert(order::before(positions[i].rank(), positions[end].rank()));
            if k < places.len() - 1 {
                assert(order::before(places[k].rank(), places[places.len() - 1].rank()));
                order::lemma_before_transitive(last.rank(), later.rank(), last.rank());
            }
            order::lemma_before_irreflexive(last.rank());
        }
        assert(i == end);
    }
}

proof fn lemma_last_says(segments: Seq<DeltaSegmentView>, key: EdgeKey)
    requires
        segments.len() > 0,
        said(segments.last(), key) is Some,
    ensures
        lookup(replay::replayed(layered::blank_state(), segments).out_edges, key) == said(
            segments.last(),
            key,
        ),
{
    lemma_segment_lookup(
        replay::replayed(layered::blank_state(), segments.drop_last()),
        segments.last(),
        key,
    );
}

/// One more segment decides what is said of an edge, or changes nothing.
pub proof fn lemma_one_more(segments: Seq<DeltaSegmentView>, more: DeltaSegmentView, key: EdgeKey)
    requires
        segments.len() < usize::MAX,
    ensures
        stated(segments.push(more), key) == said(more, key) || stated(segments.push(more), key)
            == stated(segments, key),
        said(more, key) is None ==> stated(segments.push(more), key) == stated(segments, key),
        stated(segments, key) is None ==> stated(segments.push(more), key) == said(more, key),
{
    let keep = |segment: DeltaSegmentView| said(segment, key) is Some;
    let all = segments.push(more);
    let speaking = segments.filter(keep);
    segments.lemma_filter_len(keep);
    lemma_stated_filter(segments, keep, key);
    lemma_stated_filter(all, keep, key);
    assert(all.filter(keep) =~= (if keep(more) {
        speaking.push(more)
    } else {
        speaking
    })) by {
        reveal(Seq::filter);
        assert(all.drop_last() =~= segments);
    }
    if keep(more) {
        let blank = layered::blank_state();
        replay::lemma_with_segments(speaking, blank);
        replay::lemma_with_segments(speaking.push(more), blank);
        lemma_last_in_order(speaking, more);
        let ordered = replay::in_order(speaking.push(more));
        let earlier = replay::in_order(speaking);
        if ordered.last() == more {
            lemma_last_says(ordered, key);
        } else {
            replay::lemma_apply_order(speaking);
            assert(earlier.contains(earlier[earlier.len() - 1]));
            lemma_in_order_members(speaking, earlier.last());
            let i = choose|i: int| 0 <= i < speaking.len() && speaking[i] == earlier.last();
            segments.lemma_filter_pred(keep, i);
            lemma_last_says(ordered, key);
            lemma_last_says(earlier, key);
        }
    }
}

/// What segments say of an edge by its target is what they say of it by its source.
pub proof fn lemma_stated_incoming(segments: Seq<DeltaSegmentView>, key: EdgeKey)
    ensures
        lookup(
            layered::with_segments(layered::blank_state(), segments).in_edges,
            layered::mirrored(key),
        ) == stated(segments, key),
{
    let state = layered::with_segments(layered::blank_state(), segments);
    layered::lemma_segments_mirror(segments, segments.len() as int);
    assert(layered::is_mirror(state));
    assert(state.out_edges.contains_key(key) <==> state.in_edges.contains_key(
        layered::mirrored(key),
    ));
}

proof fn lemma_silent_tail(segments: Seq<DeltaSegmentView>, count: int, key: EdgeKey)
    requires
        0 <= count <= segments.len(),
        forall|i: int| count <= i < segments.len() ==> said(#[trigger] segments[i], key) is None,
    ensures
        lookup(replay::replayed(layered::blank_state(), segments).out_edges, key) == lookup(
            replay::replayed(layered::blank_state(), segments.take(count)).out_edges,
            key,
        ),
    decreases segments.len() - count,
{
    if count == segments.len() {
        assert(segments.take(count) =~= segments);
    } else {
        lemma_silent_tail(segments, count + 1, key);
        let more = segments.take(count + 1);
        assert(more.drop_last() =~= segments.take(count));
        assert(more.last() == segments[count]);
        lemma_segment_lookup(
            replay::replayed(layered::blank_state(), segments.take(count)),
            segments[count],
            key,
        );
    }
}

/// Of the segments that speak of an edge, the one that is applied last decides: a
/// later insert revives an edge that an earlier segment deleted, and a later delete
/// removes one that an earlier segment inserted.
pub proof fn lemma_latest_segment_decides(
    segments: Seq<DeltaSegmentView>,
    at: int,
    key: EdgeKey,
)
    requires
        segments.len() <= usize::MAX,
        0 <= at < segments.len(),
        said(segments[at], key) is Some,
        forall|i: int|
            0 <= i < segments.len() && i != at && said(#[trigger] segments[i], key) is Some
                ==> order::before(
                layered::position_of(segments, i).rank(),
                layered::position_of(segments, at).rank(),
            ),
    ensures
        stated(segments, key) == said(segments[at], key),
{
    replay::lemma_with_segments(segments, layered::blank_state());
    replay::lemma_apply_order(segments);
    let positions = layered::apply_order(segments);
    let ordered = replay::in_order(segments);
    let place = layered::position_of(segments, at);
    assert(positions.contains(place));
    let p = choose|p: int| 0 <= p < positions.len() && positions[p] == place;
    assert forall|i: int| p + 1 <= i < ordered.len() implies said(
        #[trigger] ordered[i],
        key,
    ) is None by {
        let index = positions[i].index as int;
        assert(positions[i].index < segments.len());
        assert(positions.contains(positions[i]));
        let j = choose|j: int|
            0 <= j < segments.len() && #[trigger] layered::position_of(segments, j) == positions[i];
        assert(j == index);
        assert(order::before(positions[p].rank(), positions[i].rank()));
        order::lemma_before_irreflexive(place.rank());
        if said(segments[index], key) is Some && index != at {
            order::lemma_before_asymmetric(positions[p].rank(), positions[i].rank());
        }
    }
    lemma_silent_tail(ordered, p + 1, key);
    let head = ordered.take(p + 1);
    assert(head.last() == segments[at]);
    lemma_last_says(head, key);
}

} // verus!
