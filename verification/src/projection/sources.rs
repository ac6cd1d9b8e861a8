//! The sources at which the layers of a read name outgoing edges.
use std::collections::HashMap;
use vstd::prelude::*;

use crate::edge_store::EdgeKey;
use crate::order::{self, sort_ranked, Ranked};
use crate::ordered_map::{self, OrderedMap};
use crate::projection::layered::{self, LayeredNeighbors, NeighborKey};
use crate::projection::neighbors;
use crate::types::TraversalDirection;

verus! {

impl Ranked for u32 {
    open spec fn rank(&self) -> Seq<int> {
        seq![*self as int]
    }

    fn precedes(&self, other: &u32) -> (found: bool) {
        proof {
            reveal_with_fuel(order::ranks_before, 2);
        }
        *self < *other
    }
}

/// Whether edges have one that starts at a source.
pub open spec fn starts_at<V>(edges: Map<EdgeKey, V>, source: u32) -> bool {
    exists|key: EdgeKey| #[trigger] edges.contains_key(key) && key.source == source
}

/// Whether base, base chunks, segments, the committed overlay or the transaction
/// name an edge that starts at a source.
pub open spec fn names_source(layered: LayeredNeighbors, source: u32) -> bool {
    ||| starts_at(layered.base.edges@, source)
    ||| starts_at(layered.base_chunk_out@, source)
    ||| starts_at(layered.durable_out@, source)
    ||| layered.committed_out_inserts@.contains_key(source)
    ||| layered.transaction matches Some(delta) && delta@.added_edges.contains_key(source)
}

/// Whether every source is below all later ones.
pub open spec fn rising(sources: Seq<u32>) -> bool {
    forall|i: int, j: int| 0 <= i < j < sources.len() ==> #[trigger] sources[i] < #[trigger] sources[j]
}

/// A source that no layer names has no outgoing edges.
pub proof fn lemma_unnamed_source(layered: LayeredNeighbors, source: u32)
    requires
        !names_source(layered, source),
    ensures
        layered.with_base(Map::empty(), TraversalDirection::Out, source) == Map::<
            NeighborKey,
            Option<u32>,
        >::empty(),
        layered.rows(TraversalDirection::Out, source).len() == 0,
{
    let direction = TraversalDirection::Out;
    let none = Map::<NeighborKey, Option<u32>>::empty();
    assert forall|key: NeighborKey| #![auto]
        !layered::leads_to(layered.base.edges@, source).contains_key(key) && !layered::leads_to(
            layered.base_chunk_out@,
            source,
        ).contains_key(key) && !layered::leads_to(layered.durable_out@, source).contains_key(
            key,
        ) by {
        let edge = layered::edge_to(source, key);
        assert(edge.source == source);
        assert(!layered.base.edges@.contains_key(edge));
        assert(!layered.base_chunk_out@.contains_key(edge));
        assert(!layered.durable_out@.contains_key(edge));
    }
    assert(layered.with_base(none, direction, source) =~= none);
    assert(layered.with_segments_of(none, direction, source) =~= none);
    let inserted = neighbors::listed(layered.committed_out_inserts@, source);
    assert forall|key: NeighborKey| #[trigger] layered::names(inserted, key) == false by {}
    assert(layered.with_out_overlay(none, source) =~= none);
    if let Some(delta) = layered.transaction {
        assert(layered::without_deleted(none, delta@.deleted_edges, direction, source) =~= none);
        assert(layered::with_added(none, delta@.added_edges, direction, source) =~= none);
    }
    assert(layered.merged(direction, source) == none);
    let entries = Seq::<(NeighborKey, Option<u32>)>::empty();
    ordered_map::lemma_no_entries(entries);
    ordered_map::lemma_sorted_entries(entries);
    entries.lemma_filter_len(
        |entry: (NeighborKey, Option<u32>)| layered.visible(entry.0.target),
    );
    if layered.visible(source) {
        let shown = |target: u32| layered.visible(target);
        entries.lemma_filter_len(|entry: (NeighborKey, Option<u32>)| shown(entry.0.target));
    }
}

fn push_starts<V: Copy>(edges: &OrderedMap<EdgeKey, V>, sources: &mut Vec<u32>)
    requires
        edges.wf(),
    ensures
        forall|source: u32| #[trigger]
            final(sources)@.contains(source) <==> old(sources)@.contains(source) || starts_at(
                edges@,
                source,
            ),
{
    let ghost start = sources@;
    for i in 0..edges.entries.len()
        invariant
            edges.wf(),
            forall|source: u32| #[trigger]
                sources@.contains(source) <==> start.contains(source) || exists|j: int|
                    0 <= j < i && (#[trigger] edges.entries@[j]).0.source == source,
    {
        let source: u32 = edges.entries[i].0.source;
        let ghost before = sources@;
        if i == 0 || edges.entries[i - 1].0.source != source {
            sources.push(source);
            proof {
                lemma_push_contains(before, source);
            }
        } else {
            assert(edges.entries@[i - 1].0.source == source);
            assert(sources@.contains(source));
        }
        assert forall|other: u32| #[trigger]
            sources@.contains(other) <==> start.contains(other) || exists|j: int|
                0 <= j < i + 1 && (#[trigger] edges.entries@[j]).0.source == other by {
            assert(sources@.contains(other) <==> before.contains(other) || other == source);
            if exists|j: int| 0 <= j < i + 1 && (#[trigger] edges.entries@[j]).0.source == other {
                let j = choose|j: int|
                    0 <= j < i + 1 && (#[trigger] edges.entries@[j]).0.source == other;
                if j < i {
                    assert(before.contains(other));
                }
            }
            if other == source {
                assert(edges.entries@[i as int].0.source == other);
            }
        }
    }
    proof {
        let count = edges.entries@.len();
        assert forall|source: u32| #[trigger]
            starts_at(edges@, source) <==> exists|j: int|
                0 <= j < count && (#[trigger] edges.entries@[j]).0.source == source by {
            if starts_at(edges@, source) {
                let key = choose|key: EdgeKey| #[trigger]
                    edges@.contains_key(key) && key.source == source;
                let j = choose|j: int| ordered_map::entry_at(edges.entries@, key, j);
                assert(ordered_map::entry_at(edges.entries@, key, j));
                assert(edges.entries@[j].0.source == source);
            }
            if exists|j: int| 0 <= j < count && (#[trigger] edges.entries@[j]).0.source == source {
                let j = choose|j: int|
                    0 <= j < count && (#[trigger] edges.entries@[j]).0.source == source;
                ordered_map::lemma_entry(edges.entries@, j);
                assert(edges@.contains_key(edges.entries@[j].0));
            }
        }
    }
}

proof fn lemma_push_contains<A>(items: Seq<A>, item: A)
    ensures
        forall|other: A| #[trigger]
            items.push(item).contains(other) <==> items.contains(other) || other == item,
{
    let more = items.push(item);
    assert forall|other: A| #[trigger] more.contains(other) <==> items.contains(other) || other
        == item by {
        if items.contains(other) {
            let i = choose|i: int| 0 <= i < items.len() && items[i] == other;
            assert(more[i] == other);
        }
        assert(more[items.len() as int] == item);
    }
}

fn push_keys<V>(map: &HashMap<u32, V>, sources: &mut Vec<u32>)
    ensures
        forall|source: u32| #[trigger]
            final(sources)@.contains(source) <==> old(sources)@.contains(source)
                || map@.contains_key(source),
{
    broadcast use vstd::std_specs::hash::group_hash_axioms;

    let ghost start = sources@;
    for key in keys: map.keys()
        invariant
            forall|source: u32| #[trigger]
                sources@.contains(source) <==> start.contains(source) || exists|j: int|
                    0 <= j < keys.index() && #[trigger] keys.seq().unref()[j] == source,
            keys.seq().unref().to_set() == map@.dom(),
    {
        let ghost before = sources@;
        let ghost index: int = keys.index() as int;
        let ghost all = keys.seq().unref();
        sources.push(*key);
        proof {
            lemma_push_contains(before, *key);
            assert(all[index] == *key);
            assert forall|other: u32| #[trigger]
                sources@.contains(other) <==> start.contains(other) || exists|j: int|
                    0 <= j < index + 1 && #[trigger] all[j] == other by {
                assert(sources@.contains(other) <==> before.contains(other) || other == *key);
                if exists|j: int| 0 <= j < index + 1 && #[trigger] all[j] == other {
                    let j = choose|j: int| 0 <= j < index + 1 && #[trigger] all[j] == other;
                    if j < index {
                        assert(before.contains(other));
                    }
                }
            }
        }
    }
    assert forall|source: u32| #[trigger]
        sources@.contains(source) <==> start.contains(source) || map@.contains_key(source) by {
        assert(map@.contains_key(source) <==> map@.dom().contains(source));
    }
}

/// Sources in order, none twice.
fn put_in_order(sources: Vec<u32>) -> (result: Vec<u32>)
    ensures
        rising(result@),
        forall|source: u32| #[trigger] result@.contains(source) <==> sources@.contains(source),
{
    let ghost given = sources@;
    let sorted: Vec<u32> = sort_ranked(sources);
    proof {
        broadcast use vstd::seq_lib::group_to_multiset_ensures;

        assert forall|source: u32| #[trigger] sorted@.contains(source) <==> given.contains(
            source,
        ) by {
            assert(sorted@.to_multiset().count(source) == given.to_multiset().count(source));
        }
        assert forall|i: int, j: int| 0 <= i < j < sorted@.len() implies sorted@[i]
            <= sorted@[j] by {
            reveal_with_fuel(order::ranks_before, 2);
            assert(!order::before(sorted@[j].rank(), sorted@[i].rank()));
        }
    }
    let mut result: Vec<u32> = Vec::new();
    for i in 0..sorted.len()
        invariant
            forall|a: int, b: int| 0 <= a < b < sorted@.len() ==> sorted@[a] <= sorted@[b],
            rising(result@),
            result@.len() > 0 <==> i > 0,
            i > 0 ==> result@.last() == sorted@[i - 1],
            forall|source: u32| #[trigger]
                result@.contains(source) <==> sorted@.take(i as int).contains(source),
    {
        let source: u32 = sorted[i];
        let ghost before = result@;
        let ghost fewer = sorted@.take(i as int);
        proof {
            assert(sorted@.take(i + 1) =~= fewer.push(source));
            lemma_push_contains(fewer, source);
            lemma_push_contains(before, source);
        }
        if i == 0 || sorted[i - 1] != source {
            proof {
                assert forall|a: int| 0 <= a < before.len() implies #[trigger] before[a]
                    < source by {
                    assert(a < before.len() - 1 ==> before[a] < before[before.len() - 1]);
                    assert(sorted@[i - 1] <= sorted@[i as int]);
                }
            }
            result.push(source);
        } else {
            assert(before.last() == source);
            assert(before.contains(source));
        }
    }
    assert(sorted@.take(sorted@.len() as int) =~= sorted@);
    result
}

/// The sources that the layers of a read name, in order.
pub fn named_sources(layered: &LayeredNeighbors) -> (sources: Vec<u32>)
    requires
        layered.wf(),
    ensures
        rising(sources@),
        forall|source: u32| #[trigger]
            sources@.contains(source) <==> names_source(*layered, source),
{
    let mut sources: Vec<u32> = Vec::new();
    push_starts(&layered.base.edges, &mut sources);
    push_starts(&layered.base_chunk_out, &mut sources);
    push_starts(&layered.durable_out, &mut sources);
    push_keys(&layered.committed_out_inserts, &mut sources);
    match layered.transaction {
        Some(delta) => push_keys(&delta.added_edges, &mut sources),
        None => {},
    }
    put_in_order(sources)
}

/// The place of the first source that is not below `least`.
pub fn first_from(sources: &Vec<u32>, least: u32) -> (at: usize)
    requires
        rising(sources@),
    ensures
        at <= sources@.len(),
        forall|i: int| 0 <= i < at ==> #[trigger] sources@[i] < least,
        forall|i: int| at <= i < sources@.len() ==> #[trigger] sources@[i] >= least,
{
    let mut low: usize = 0;
    let mut high: usize = sources.len();
    while low < high
        invariant
            rising(sources@),
            low <= high <= sources@.len(),
            forall|i: int| 0 <= i < low ==> #[trigger] sources@[i] < least,
            forall|i: int| high <= i < sources@.len() ==> #[trigger] sources@[i] >= least,
        decreases high - low,
    {
        let mid: usize = low + (high - low) / 2;
        if sources[mid] < least {
            low = mid + 1;
        } else {
            high = mid;
        }
    }
    low
}

} // verus!
