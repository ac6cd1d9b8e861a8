//! Immutable edge storage ordered by source node.
use vstd::prelude::*;
use vstd::slice::slice_subrange;

use crate::order::{self, Ranked};
use crate::ordered_map::{MapKey, OrderedMap};

verus! {

/// Edge handed to the store.
#[derive(Debug, Clone, Copy, PartialEq, Eq)]
pub struct RawEdge {
    /// Source node index.
    pub source: u32,
    /// Target node index.
    pub target: u32,
    /// Edge type identifier.
    pub type_id: u8,
    /// Optional edge weight.
    pub weight: Option<u32>,
    /// Whether this edge row is a synthetic reverse of the schema edge.
    pub schema_reversed: bool,
}

/// Identity of an edge.
#[derive(Debug, Clone, Copy, PartialEq, Eq, Structural)]
pub struct EdgeKey {
    /// Source node index.
    pub source: u32,
    /// Target node index.
    pub target: u32,
    /// Edge type identifier.
    pub type_id: u8,
    /// Whether this edge row is a synthetic reverse of the schema edge.
    pub schema_reversed: bool,
}

pub open spec fn flag_rank(flag: bool) -> int {
    if flag { 1 } else { 0 }
}

impl Ranked for EdgeKey {
    open spec fn rank(&self) -> Seq<int> {
        seq![
            self.source as int,
            self.target as int,
            self.type_id as int,
            flag_rank(self.schema_reversed),
        ]
    }

    fn precedes(&self, other: &EdgeKey) -> (found: bool) {
        proof {
            reveal_with_fuel(order::ranks_before, 5);
        }
        if self.source != other.source {
            self.source < other.source
        } else if self.target != other.target {
            self.target < other.target
        } else if self.type_id != other.type_id {
            self.type_id < other.type_id
        } else {
            !self.schema_reversed && other.schema_reversed
        }
    }
}

impl MapKey for EdgeKey {
    proof fn rank_unique(a: EdgeKey, b: EdgeKey) {
        let x = a.rank();
        let y = b.rank();
        assert(x[0] == y[0] && x[1] == y[1] && x[2] == y[2] && x[3] == y[3]);
    }
}

/// The identity of a raw edge.
pub open spec fn raw_key(edge: RawEdge) -> EdgeKey {
    EdgeKey {
        source: edge.source,
        target: edge.target,
        type_id: edge.type_id,
        schema_reversed: edge.schema_reversed,
    }
}

/// Edges of a graph with their weights.
#[derive(Debug, Clone, PartialEq, Eq)]
pub struct EdgeStore {
    /// Number of nodes; edges start at nodes below it.
    pub node_count: u32,
    /// Whether edges carry weights.
    pub weighted: bool,
    /// Edges in order, with their weights.
    pub edges: OrderedMap<EdgeKey, Option<u32>>,
}

/// The edges that a store built from `edges` holds. Edges that start outside
/// the node range are left out, and of equal edges the first is kept.
pub open spec fn stored_edges(edges: Seq<RawEdge>, node_count: u32, weighted: bool) -> Map<
    EdgeKey,
    Option<u32>,
>
    decreases edges.len(),
{
    if edges.len() == 0 {
        Map::empty()
    } else {
        let earlier = stored_edges(edges.drop_last(), node_count, weighted);
        let edge = edges.last();
        if edge.source < node_count && !earlier.contains_key(raw_key(edge)) {
            earlier.insert(
                raw_key(edge),
                if weighted {
                    edge.weight
                } else {
                    None
                },
            )
        } else {
            earlier
        }
    }
}

/// The entries of a sequence whose edges start at `node`.
pub open spec fn rows_from(
    entries: Seq<(EdgeKey, Option<u32>)>,
    node: u32,
) -> Seq<(EdgeKey, Option<u32>)> {
    entries.filter(|entry: (EdgeKey, Option<u32>)| entry.0.source == node)
}

/// A filter whose items lie in one run keeps that run.
pub proof fn lemma_filter_run<A>(items: Seq<A>, keep: spec_fn(A) -> bool, start: int, end: int)
    requires
        0 <= start <= end <= items.len(),
        forall|i: int| 0 <= i < items.len() ==> (keep(#[trigger] items[i]) <==> start <= i < end),
    ensures
        items.filter(keep) == items.subrange(start, end),
    decreases items.len(),
{
    reveal(Seq::filter);
    if items.len() == 0 {
        assert(items.filter(keep) =~= items.subrange(start, end));
    } else {
        let init = items.drop_last();
        let last = items.len() - 1;
        assert forall|i: int| 0 <= i < init.len() implies (keep(#[trigger] init[i]) <==> start <= i
            < (if end > last { last } else { end })) by {
            assert(init[i] == items[i]);
        }
        if start <= last {
            lemma_filter_run(init, keep, start, if end > last { last } else { end });
        } else {
            assert(start == end);
            assert forall|i: int| 0 <= i < init.len() implies (keep(#[trigger] init[i]) <==> 0 <= i
                < 0) by {
                assert(init[i] == items[i]);
            }
            lemma_filter_run(init, keep, 0, 0);
        }
        assert(keep(items[last]) <==> start <= last < end);
        assert(items.filter(keep) =~= items.subrange(start, end));
    }
}

impl EdgeStore {
    /// Whether the edges are in order and start inside the node range.
    pub open spec fn wf(&self) -> bool {
        &&& self.edges.wf()
        &&& forall|key: EdgeKey| #[trigger]
            self.edges@.contains_key(key) ==> key.source < self.node_count
        &&& !self.weighted ==> forall|key: EdgeKey| #[trigger]
            self.edges@.contains_key(key) ==> self.edges@[key] is None
    }

    /// The edges that start at `node`, in order.
    pub open spec fn rows(&self, node: u32) -> Seq<(EdgeKey, Option<u32>)> {
        rows_from(self.edges.entries@, node)
    }

    /// Build a store from raw edges.
    pub fn from_edges(node_count: u32, edges: Vec<RawEdge>, weighted: bool) -> (store: EdgeStore)
        ensures
            store.wf(),
            store.node_count == node_count,
            store.weighted == weighted,
            store.edges@ == stored_edges(edges@, node_count, weighted),
    {
        let mut map: OrderedMap<EdgeKey, Option<u32>> = OrderedMap::new();
        for i in 0..edges.len()
            invariant
                map.wf(),
                map@ == stored_edges(edges@.take(i as int), node_count, weighted),
                forall|key: EdgeKey| #[trigger] map@.contains_key(key) ==> key.source < node_count,
                !weighted ==> forall|key: EdgeKey| #[trigger]
                    map@.contains_key(key) ==> map@[key] is None,
        {
            let edge: RawEdge = edges[i];
            assert(edges@.take(i + 1).drop_last() =~= edges@.take(i as int));
            let key: EdgeKey = EdgeKey {
                source: edge.source,
                target: edge.target,
                type_id: edge.type_id,
                schema_reversed: edge.schema_reversed,
            };
            if edge.source < node_count && !map.contains(&key) {
                let weight: Option<u32> = if weighted {
                    edge.weight
                } else {
                    None
                };
                map.insert(key, weight);
            }
        }
        assert(edges@.take(edges@.len() as int) =~= edges@);
        EdgeStore { node_count, weighted, edges: map }
    }

    /// The number of nodes.
    pub fn node_count(&self) -> (count: u32)
        ensures
            count == self.node_count,
    {
        self.node_count
    }

    /// Whether edges carry weights.
    pub fn has_weights(&self) -> (weighted: bool)
        ensures
            weighted == self.weighted,
    {
        self.weighted
    }

    /// The edges that start at `node`, in order.
    pub fn neighbors(&self, node: u32) -> (rows: &[(EdgeKey, Option<u32>)])
        requires
            self.wf(),
        ensures
            rows@ == self.rows(node),
    {
        edges_from(&self.edges, node)
    }
}

/// The entries of an edge map that start at `node`, in order.
pub fn edges_from<'a, V: Copy>(map: &'a OrderedMap<EdgeKey, V>, node: u32) -> (rows: &'a [(
    EdgeKey,
    V,
)])
    requires
        map.wf(),
    ensures
        rows@ == map.entries@.filter(|entry: (EdgeKey, V)| entry.0.source == node),
{
    let entries: &[(EdgeKey, V)] = map.entries.as_slice();
    let first: EdgeKey = EdgeKey { source: node, target: 0, type_id: 0, schema_reversed: false };
    let start: usize = map.position(&first);
    proof {
        reveal_with_fuel(order::ranks_before, 5);
    }
    if node == u32::MAX {
        proof {
            let keep = |entry: (EdgeKey, V)| entry.0.source == node;
            assert forall|i: int| 0 <= i < entries@.len() implies (keep(#[trigger] entries@[i])
                <==> start <= i < entries@.len()) by {
                assert(entries@[i].0.rank()[0] == entries@[i].0.source);
            }
            lemma_filter_run(entries@, keep, start as int, entries@.len() as int);
        }
        slice_subrange(entries, start, entries.len())
    } else {
        let next: EdgeKey = EdgeKey {
            source: node + 1,
            target: 0,
            type_id: 0,
            schema_reversed: false,
        };
        let end: usize = map.position(&next);
        proof {
            let keep = |entry: (EdgeKey, V)| entry.0.source == node;
            if end < start {
                assert(order::before(entries@[end as int].0.rank(), first.rank()));
                assert(!order::before(entries@[end as int].0.rank(), next.rank()));
                assert(false);
            }
            assert forall|i: int| 0 <= i < entries@.len() implies (keep(#[trigger] entries@[i])
                <==> start <= i < end) by {
                assert(entries@[i].0.rank()[0] == entries@[i].0.source);
            }
            lemma_filter_run(entries@, keep, start as int, end as int);
        }
        slice_subrange(entries, start, end)
    }
}

} // verus!
