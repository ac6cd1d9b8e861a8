//! Overlay-aware neighbor iteration for graph algorithms.
//!
//! The committed edge store remains the fast path. Pending sync and mutable
//! projection deltas are layered as insert/delete lists without materializing a
//! per-node neighbor vector for clean reads.
use std::collections::HashMap;
use vstd::prelude::*;

use crate::edge_store::{EdgeKey, EdgeStore};

verus! {

/// Pending edge inserts keyed by source node.
pub type OverlayInserts = HashMap<u32, Vec<(u32, u8)>>;

/// Pending edge deletes keyed by source node.
pub type OverlayDeletes = HashMap<u32, Vec<(u32, u8)>>;

/// Insert and delete overlay maps for one edge orientation.
pub type EdgeOverlay = (OverlayInserts, OverlayDeletes);

/// Neighbor stream item.
#[derive(Debug, Clone, Copy, PartialEq, Eq, Structural)]
pub struct Neighbor {
    /// Target node index.
    pub target: u32,
    /// Edge type identifier.
    pub type_id: u8,
    /// Whether the edge is a synthetic reverse of the schema edge.
    pub schema_reversed: bool,
}

/// Neighbor with the weight of the edge that leads to it.
#[derive(Debug, Clone, Copy, PartialEq, Eq, Structural)]
pub struct WeightedNeighbor {
    /// Target node index.
    pub target: u32,
    /// Edge type identifier.
    pub type_id: u8,
    /// Whether the edge is a synthetic reverse of the schema edge.
    pub schema_reversed: bool,
    /// Edge weight.
    pub weight: u32,
}

/// The neighbor that a stored edge leads to.
pub open spec fn neighbor_of(entry: (EdgeKey, Option<u32>)) -> Neighbor {
    Neighbor {
        target: entry.0.target,
        type_id: entry.0.type_id,
        schema_reversed: entry.0.schema_reversed,
    }
}

/// The neighbors that stored edges lead to, in order.
pub open spec fn neighbors_of(rows: Seq<(EdgeKey, Option<u32>)>) -> Seq<Neighbor> {
    rows.map_values(|entry: (EdgeKey, Option<u32>)| neighbor_of(entry))
}

/// The edges that an overlay lists for `node`.
pub open spec fn listed(overlay: Map<u32, Vec<(u32, u8)>>, node: u32) -> Seq<(u32, u8)> {
    if overlay.contains_key(node) {
        overlay[node]@
    } else {
        Seq::empty()
    }
}

/// The neighbors that the deletes leave.
pub open spec fn kept(base: Seq<Neighbor>, deleted: Seq<(u32, u8)>) -> Seq<Neighbor> {
    base.filter(|neighbor: Neighbor| !deleted.contains((neighbor.target, neighbor.type_id)))
}

/// Whether an insert adds a neighbor: neither the base nor an earlier insert
/// has it.
pub open spec fn is_fresh(base: Seq<Neighbor>, inserted: Seq<(u32, u8)>, at: int) -> bool {
    &&& !exists|i: int|
        0 <= i < base.len() && (#[trigger] base[i]).target == inserted[at].0 && base[i].type_id
            == inserted[at].1
    &&& !exists|i: int| 0 <= i < at && #[trigger] inserted[i] == inserted[at]
}

/// The neighbor that an insert adds.
pub open spec fn inserted_neighbor(edge: (u32, u8)) -> Neighbor {
    Neighbor { target: edge.0, type_id: edge.1, schema_reversed: false }
}

/// The neighbors that the inserts from `start` up to `end` add, in order.
pub open spec fn added(
    base: Seq<Neighbor>,
    inserted: Seq<(u32, u8)>,
    start: int,
    end: int,
) -> Seq<Neighbor>
    decreases end - start,
{
    if start >= end {
        Seq::empty()
    } else if is_fresh(base, inserted, start) {
        seq![inserted_neighbor(inserted[start])] + added(base, inserted, start + 1, end)
    } else {
        added(base, inserted, start + 1, end)
    }
}

/// Base neighbors that are not deleted, followed by the neighbors that the
/// inserts add.
pub open spec fn overlaid(
    base: Seq<Neighbor>,
    inserted: Seq<(u32, u8)>,
    deleted: Seq<(u32, u8)>,
) -> Seq<Neighbor> {
    kept(base, deleted) + added(base, inserted, 0, inserted.len() as int)
}

/// An overlay without edges leaves the neighbors as they are.
pub proof fn lemma_clean_overlay(base: Seq<Neighbor>)
    ensures
        overlaid(base, Seq::empty(), Seq::empty()) == base,
{
    let none = Seq::<(u32, u8)>::empty();
    lemma_keep_all(base, |neighbor: Neighbor| !none.contains((neighbor.target, neighbor.type_id)));
    assert(overlaid(base, none, none) =~= base);
}

proof fn lemma_keep_all<A>(items: Seq<A>, keep: spec_fn(A) -> bool)
    requires
        forall|i: int| 0 <= i < items.len() ==> keep(#[trigger] items[i]),
    ensures
        items.filter(keep) == items,
    decreases items.len(),
{
    reveal(Seq::filter);
    if items.len() > 0 {
        assert forall|i: int| 0 <= i < items.drop_last().len() implies keep(
            #[trigger] items.drop_last()[i],
        ) by {
            assert(items.drop_last()[i] == items[i]);
        }
        lemma_keep_all(items.drop_last(), keep);
        assert(keep(items[items.len() - 1]));
        assert(items.filter(keep) =~= items);
    } else {
        assert(items.filter(keep) =~= items);
    }
}

/// A filter looks at the first item, then at the rest.
pub proof fn lemma_filter_first<A>(items: Seq<A>, keep: spec_fn(A) -> bool)
    requires
        items.len() > 0,
    ensures
        items.filter(keep) == (if keep(items[0]) {
            seq![items[0]]
        } else {
            Seq::empty()
        }) + items.drop_first().filter(keep),
    decreases items.len(),
{
    reveal(Seq::filter);
    if items.len() == 1 {
        assert(items.drop_last() =~= Seq::<A>::empty());
        assert(items.drop_first() =~= Seq::<A>::empty());
        assert(items.filter(keep) =~= (if keep(items[0]) {
            seq![items[0]]
        } else {
            Seq::empty()
        }) + items.drop_first().filter(keep));
    } else {
        let init = items.drop_last();
        lemma_filter_first(init, keep);
        assert(init.drop_first() =~= items.drop_first().drop_last());
        assert(items.filter(keep) =~= (if keep(items[0]) {
            seq![items[0]]
        } else {
            Seq::empty()
        }) + items.drop_first().filter(keep));
    }
}

/// Iterator over the neighbors of stored edges, in either direction.
pub struct CsrNeighborIter<'a> {
    pub rows: &'a [(EdgeKey, Option<u32>)],
    pub pos: usize,
    pub reversed: bool,
}

/// What a call of `next` does: it hands out the first neighbor that remains.
pub open spec fn stepped(
    before: Seq<Neighbor>,
    after: Seq<Neighbor>,
    item: Option<Neighbor>,
) -> bool {
    if before.len() == 0 {
        item is None && after == before
    } else {
        item == Some(before[0]) && after == before.drop_first()
    }
}

impl<'a> CsrNeighborIter<'a> {
    pub open spec fn wf(&self) -> bool {
        self.pos <= self.rows@.len()
    }

    /// The neighbors that are still to come.
    pub open spec fn remaining(&self) -> Seq<Neighbor> {
        if self.reversed {
            neighbors_of(self.rows@.take(self.pos as int)).reverse()
        } else {
            neighbors_of(self.rows@.skip(self.pos as int))
        }
    }

    pub fn forward(rows: &'a [(EdgeKey, Option<u32>)]) -> (iter: CsrNeighborIter<'a>)
        ensures
            iter.wf(),
            iter.remaining() == neighbors_of(rows@),
            iter.rows@ == rows@,
    {
        assert(rows@.skip(0) =~= rows@);
        CsrNeighborIter { rows, pos: 0, reversed: false }
    }

    pub fn reversed(rows: &'a [(EdgeKey, Option<u32>)]) -> (iter: CsrNeighborIter<'a>)
        ensures
            iter.wf(),
            iter.remaining() == neighbors_of(rows@).reverse(),
            iter.rows@ == rows@,
    {
        assert(rows@.take(rows@.len() as int) =~= rows@);
        CsrNeighborIter { rows, pos: rows.len(), reversed: true }
    }

    pub fn next(&mut self) -> (item: Option<Neighbor>)
        requires
            old(self).wf(),
        ensures
            final(self).wf(),
            final(self).rows == old(self).rows,
            stepped(old(self).remaining(), final(self).remaining(), item),
    {
        let ghost before = self.remaining();
        let at: usize = if self.reversed {
            if self.pos == 0 {
                return None;
            }
            self.pos = self.pos - 1;
            self.pos
        } else {
            if self.pos >= self.rows.len() {
                return None;
            }
            let at: usize = self.pos;
            self.pos = self.pos + 1;
            at
        };
        let key: EdgeKey = self.rows[at].0;
        assert(self.remaining() =~= before.drop_first());
        Some(
            Neighbor {
                target: key.target,
                type_id: key.type_id,
                schema_reversed: key.schema_reversed,
            },
        )
    }
}

/// Which part of an overlay iteration comes next.
#[derive(Clone, Copy, PartialEq, Eq, Structural)]
pub enum OverlayPhase {
    Base,
    Inserts,
}

/// Iterator over stored edges and the overlay on them.
pub struct OverlayNeighborIter<'a> {
    pub rows: &'a [(EdgeKey, Option<u32>)],
    pub deleted: &'a [(u32, u8)],
    pub inserted: &'a [(u32, u8)],
    pub base: CsrNeighborIter<'a>,
    pub insert_pos: usize,
    pub phase: OverlayPhase,
    pub reversed: bool,
}

impl<'a> OverlayNeighborIter<'a> {
    pub open spec fn wf(&self) -> bool {
        &&& self.base.wf()
        &&& self.insert_pos <= self.inserted@.len()
    }

    /// Base neighbors that are still to come.
    pub open spec fn base_remaining(&self) -> Seq<Neighbor> {
        kept(self.base.remaining(), self.deleted@)
    }

    /// Inserted neighbors that are still to come.
    pub open spec fn inserts_remaining(&self) -> Seq<Neighbor> {
        if self.reversed {
            added(neighbors_of(self.rows@), self.inserted@, 0, self.insert_pos as int).reverse()
        } else {
            added(
                neighbors_of(self.rows@),
                self.inserted@,
                self.insert_pos as int,
                self.inserted@.len() as int,
            )
        }
    }

    /// The neighbors that are still to come.
    pub open spec fn remaining(&self) -> Seq<Neighbor> {
        match self.phase {
            OverlayPhase::Base => self.base_remaining() + self.inserts_remaining(),
            OverlayPhase::Inserts => self.inserts_remaining() + self.base_remaining(),
        }
    }

    pub fn forward(
        rows: &'a [(EdgeKey, Option<u32>)],
        inserted: &'a [(u32, u8)],
        deleted: &'a [(u32, u8)],
    ) -> (iter: OverlayNeighborIter<'a>)
        ensures
            iter.wf(),
            iter.remaining() == overlaid(neighbors_of(rows@), inserted@, deleted@),
    {
        OverlayNeighborIter {
            rows,
            deleted,
            inserted,
            base: CsrNeighborIter::forward(rows),
            insert_pos: 0,
            phase: OverlayPhase::Base,
            reversed: false,
        }
    }

    pub fn reversed(
        rows: &'a [(EdgeKey, Option<u32>)],
        inserted: &'a [(u32, u8)],
        deleted: &'a [(u32, u8)],
    ) -> (iter: OverlayNeighborIter<'a>)
        ensures
            iter.wf(),
            iter.remaining() == overlaid(neighbors_of(rows@), inserted@, deleted@).reverse(),
    {
        let iter: OverlayNeighborIter<'a> = OverlayNeighborIter {
            rows,
            deleted,
            inserted,
            base: CsrNeighborIter::reversed(rows),
            insert_pos: inserted.len(),
            phase: OverlayPhase::Inserts,
            reversed: true,
        };
        proof {
            let base = neighbors_of(rows@);
            lemma_filter_reverse(
                base,
                |neighbor: Neighbor| !deleted@.contains((neighbor.target, neighbor.type_id)),
            );
            assert(iter.remaining() =~= overlaid(base, inserted@, deleted@).reverse());
        }
        iter
    }

    /// Whether the base has an edge of this type to this target.
    pub fn base_contains(&self, target: u32, type_id: u8) -> (found: bool)
        ensures
            found == (exists|i: int|
                0 <= i < neighbors_of(self.rows@).len() && (#[trigger] neighbors_of(
                    self.rows@,
                )[i]).target == target && neighbors_of(self.rows@)[i].type_id == type_id),
    {
        let ghost base = neighbors_of(self.rows@);
        for i in 0..self.rows.len()
            invariant
                base == neighbors_of(self.rows@),
                forall|j: int|
                    0 <= j < i ==> (#[trigger] base[j]).target != target || base[j].type_id
                        != type_id,
        {
            let key: EdgeKey = self.rows[i].0;
            assert(base[i as int] == neighbor_of(self.rows@[i as int]));
            if key.target == target && key.type_id == type_id {
                return true;
            }
        }
        false
    }

    /// Whether the insert at `pos` repeats an earlier one.
    pub fn inserted_duplicate(&self, pos: usize, target: u32, type_id: u8) -> (found: bool)
        requires
            pos <= self.inserted.len(),
        ensures
            found == (exists|i: int|
                0 <= i < pos && #[trigger] self.inserted@[i] == (target, type_id)),
    {
        for i in 0..pos
            invariant
                pos <= self.inserted.len(),
                forall|j: int| 0 <= j < i ==> #[trigger] self.inserted@[j] != (target, type_id),
        {
            let edge: (u32, u8) = self.inserted[i];
            if edge.0 == target && edge.1 == type_id {
                assert(self.inserted@[i as int] == (target, type_id));
                return true;
            }
        }
        false
    }

    pub fn next_base(&mut self) -> (item: Option<Neighbor>)
        requires
            old(self).wf(),
        ensures
            final(self).wf(),
            final(self).rows == old(self).rows,
            final(self).deleted == old(self).deleted,
            final(self).inserted == old(self).inserted,
            final(self).insert_pos == old(self).insert_pos,
            final(self).phase == old(self).phase,
            final(self).reversed == old(self).reversed,
            stepped(old(self).base_remaining(), final(self).base_remaining(), item),
    {
        let ghost start = self.base_remaining();
        loop
            invariant
                self.wf(),
                self.rows == old(self).rows,
                self.deleted == old(self).deleted,
                self.inserted == old(self).inserted,
                self.insert_pos == old(self).insert_pos,
                self.phase == old(self).phase,
                self.reversed == old(self).reversed,
                start == old(self).base_remaining(),
                self.base_remaining() == start,
            decreases self.base.remaining().len(),
        {
            let ghost before = self.base.remaining();
            let ghost keep = |neighbor: Neighbor|
                !self.deleted@.contains((neighbor.target, neighbor.type_id));
            let item: Option<Neighbor> = self.base.next();
            match item {
                None => {
                    proof {
                        reveal(Seq::filter);
                        assert(before.filter(keep) =~= Seq::<Neighbor>::empty());
                    }
                    return None;
                },
                Some(neighbor) => {
                    proof {
                        lemma_filter_first(before, keep);
                    }
                    if !edge_listed(self.deleted, neighbor.target, neighbor.type_id) {
                        assert(self.base_remaining() =~= start.drop_first());
                        return Some(neighbor);
                    }
                    assert(self.base_remaining() =~= start);
                },
            }
        }
    }

    pub fn next_insert(&mut self) -> (item: Option<Neighbor>)
        requires
            old(self).wf(),
        ensures
            final(self).wf(),
            final(self).rows == old(self).rows,
            final(self).deleted == old(self).deleted,
            final(self).inserted == old(self).inserted,
            final(self).base == old(self).base,
            final(self).phase == old(self).phase,
            final(self).reversed == old(self).reversed,
            stepped(old(self).inserts_remaining(), final(self).inserts_remaining(), item),
    {
        let ghost start = self.inserts_remaining();
        let ghost base = neighbors_of(self.rows@);
        loop
            invariant
                self.wf(),
                self.rows == old(self).rows,
                self.deleted == old(self).deleted,
                self.inserted == old(self).inserted,
                self.base == old(self).base,
                self.phase == old(self).phase,
                self.reversed == old(self).reversed,
                start == old(self).inserts_remaining(),
                base == neighbors_of(self.rows@),
                self.inserts_remaining() == start,
            decreases
                (if self.reversed {
                    self.insert_pos as int
                } else {
                    self.inserted@.len() - self.insert_pos
                }),
        {
            let at: usize = if self.reversed {
                if self.insert_pos == 0 {
                    return None;
                }
                self.insert_pos = self.insert_pos - 1;
                self.insert_pos
            } else {
                if self.insert_pos >= self.inserted.len() {
                    return None;
                }
                let at: usize = self.insert_pos;
                self.insert_pos = self.insert_pos + 1;
                at
            };
            let edge: (u32, u8) = self.inserted[at];
            let repeated: bool = self.base_contains(edge.0, edge.1) || self.inserted_duplicate(
                at,
                edge.0,
                edge.1,
            );
            assert(repeated == !is_fresh(base, self.inserted@, at as int));
            proof {
                if self.reversed {
                    lemma_added_last(base, self.inserted@, 0, at as int);
                }
            }
            if !repeated {
                assert(self.inserts_remaining() =~= start.drop_first());
                return Some(
                    Neighbor { target: edge.0, type_id: edge.1, schema_reversed: false },
                );
            }
            assert(self.inserts_remaining() =~= start);
        }
    }

    pub fn next(&mut self) -> (item: Option<Neighbor>)
        requires
            old(self).wf(),
        ensures
            final(self).wf(),
            stepped(old(self).remaining(), final(self).remaining(), item),
    {
        let ghost before = self.remaining();
        match self.phase {
            OverlayPhase::Base => {
                let item: Option<Neighbor> = self.next_base();
                match item {
                    Some(neighbor) => {
                        assert(self.remaining() =~= before.drop_first());
                        Some(neighbor)
                    },
                    None => {
                        self.phase = OverlayPhase::Inserts;
                        let item: Option<Neighbor> = self.next_insert();
                        assert(before.len() > 0 ==> self.remaining() =~= before.drop_first());
                        assert(before.len() == 0 ==> self.remaining() =~= before);
                        item
                    },
                }
            },
            OverlayPhase::Inserts => {
                let item: Option<Neighbor> = self.next_insert();
                match item {
                    Some(neighbor) => {
                        assert(self.remaining() =~= before.drop_first());
                        Some(neighbor)
                    },
                    None => {
                        self.phase = OverlayPhase::Base;
                        let item: Option<Neighbor> = self.next_base();
                        assert(before.len() > 0 ==> self.remaining() =~= before.drop_first());
                        assert(before.len() == 0 ==> self.remaining() =~= before);
                        item
                    },
                }
            },
        }
    }
}

fn edge_listed(edges: &[(u32, u8)], target: u32, type_id: u8) -> (found: bool)
    ensures
        found == edges@.contains((target, type_id)),
{
    for i in 0..edges.len()
        invariant
            forall|j: int| 0 <= j < i ==> #[trigger] edges@[j] != (target, type_id),
    {
        let edge: (u32, u8) = edges[i];
        if edge.0 == target && edge.1 == type_id {
            assert(edges@[i as int] == (target, type_id));
            return true;
        }
    }
    false
}

/// The last insert of a range adds its neighbor at the end.
proof fn lemma_added_last(base: Seq<Neighbor>, inserted: Seq<(u32, u8)>, start: int, end: int)
    requires
        start <= end,
    ensures
        added(base, inserted, start, end + 1) == added(base, inserted, start, end) + (if is_fresh(
            base,
            inserted,
            end,
        ) {
            seq![inserted_neighbor(inserted[end])]
        } else {
            Seq::empty()
        }),
    decreases end - start,
{
    if start < end {
        lemma_added_last(base, inserted, start + 1, end);
        assert(added(base, inserted, start, end + 1) =~= added(base, inserted, start, end) + (
        if is_fresh(base, inserted, end) {
            seq![inserted_neighbor(inserted[end])]
        } else {
            Seq::empty()
        }));
    } else {
        assert(added(base, inserted, end + 1, end + 1) =~= Seq::<Neighbor>::empty());
        assert(added(base, inserted, start, end + 1) =~= added(base, inserted, start, end) + (
        if is_fresh(base, inserted, end) {
            seq![inserted_neighbor(inserted[end])]
        } else {
            Seq::empty()
        }));
    }
}

/// Filtering and reversing can be done in either order.
proof fn lemma_filter_reverse<A>(items: Seq<A>, keep: spec_fn(A) -> bool)
    ensures
        items.reverse().filter(keep) == items.filter(keep).reverse(),
    decreases items.len(),
{
    reveal(Seq::filter);
    if items.len() == 0 {
        assert(items.reverse() =~= items);
        assert(items.reverse().filter(keep) =~= items.filter(keep).reverse());
    } else {
        let init = items.drop_last();
        lemma_filter_reverse(init, keep);
        lemma_filter_first(items.reverse(), keep);
        assert(items.reverse().drop_first() =~= init.reverse());
        assert(items.reverse()[0] == items.last());
        assert(items.reverse().filter(keep) =~= items.filter(keep).reverse());
    }
}

/// Iterator over a list of neighbors.
pub struct OwnedNeighborIter {
    pub items: Vec<Neighbor>,
    pub pos: usize,
}

/// Neighbor iterator for clean, overlay-backed and layered sources.
pub enum NeighborIter<'a> {
    Csr(CsrNeighborIter<'a>),
    Overlay(OverlayNeighborIter<'a>),
    Owned(OwnedNeighborIter),
}

impl<'a> NeighborIter<'a> {
    pub open spec fn wf(&self) -> bool {
        match self {
            NeighborIter::Csr(iter) => iter.wf(),
            NeighborIter::Overlay(iter) => iter.wf(),
            NeighborIter::Owned(iter) => iter.pos <= iter.items@.len(),
        }
    }

    /// The neighbors that are still to come.
    pub open spec fn remaining(&self) -> Seq<Neighbor> {
        match self {
            NeighborIter::Csr(iter) => iter.remaining(),
            NeighborIter::Overlay(iter) => iter.remaining(),
            NeighborIter::Owned(iter) => iter.items@.skip(iter.pos as int),
        }
    }

    /// Iterate over a list of neighbors.
    pub fn owned(items: Vec<Neighbor>) -> (iter: NeighborIter<'a>)
        ensures
            iter.wf(),
            iter.remaining() == items@,
    {
        assert(items@.skip(0) =~= items@);
        NeighborIter::Owned(OwnedNeighborIter { items, pos: 0 })
    }

    pub fn next(&mut self) -> (item: Option<Neighbor>)
        requires
            old(self).wf(),
        ensures
            final(self).wf(),
            stepped(old(self).remaining(), final(self).remaining(), item),
    {
        match self {
            NeighborIter::Csr(iter) => iter.next(),
            NeighborIter::Overlay(iter) => iter.next(),
            NeighborIter::Owned(iter) => {
                let ghost before = iter.items@.skip(iter.pos as int);
                if iter.pos >= iter.items.len() {
                    None
                } else {
                    let item: Neighbor = iter.items[iter.pos];
                    iter.pos = iter.pos + 1;
                    assert(iter.items@.skip(iter.pos as int) =~= before.drop_first());
                    Some(item)
                }
            },
        }
    }

    /// The neighbors that are still to come, as a list.
    pub fn collect(self) -> (items: Vec<Neighbor>)
        requires
            self.wf(),
        ensures
            items@ == self.remaining(),
    {
        let mut iter: NeighborIter<'a> = self;
        let mut items: Vec<Neighbor> = Vec::new();
        let ghost all = iter.remaining();
        loop
            invariant
                iter.wf(),
                all == items@ + iter.remaining(),
            ensures
                items@ == all,
            decreases iter.remaining().len(),
        {
            let ghost before = iter.remaining();
            let item: Option<Neighbor> = iter.next();
            match item {
                Some(neighbor) => {
                    items.push(neighbor);
                    assert(items@ + iter.remaining() =~= all);
                },
                None => {
                    assert(items@ =~= all);
                    break;
                },
            }
        }
        items
    }
}

/// Source of graph neighbors for algorithms that must work over clean stores and
/// overlay-augmented projections.
pub trait NeighborSource {
    /// Whether the source can be read.
    spec fn source_wf(&self) -> bool;

    /// The neighbors of a node, in order.
    spec fn neighbor_list(&self, node_idx: u32) -> Seq<Neighbor>;

    /// Iterate neighbors in base order followed by non-duplicate inserts.
    fn neighbors(&self, node_idx: u32) -> (iter: NeighborIter<'_>)
        requires
            self.source_wf(),
        ensures
            iter.wf(),
            iter.remaining() == self.neighbor_list(node_idx),
    ;

    /// Iterate neighbors in reverse expansion order for DFS stack pushes.
    fn neighbors_reversed(&self, node_idx: u32) -> (iter: NeighborIter<'_>)
        requires
            self.source_wf(),
        ensures
            iter.wf(),
            iter.remaining() == self.neighbor_list(node_idx).reverse(),
    ;
}

/// Clean neighbor source.
pub struct CsrNeighbors<'a> {
    pub edge_store: &'a EdgeStore,
}

impl<'a> CsrNeighbors<'a> {
    /// Borrow an [`EdgeStore`] as a clean neighbor source.
    pub fn new(edge_store: &'a EdgeStore) -> (source: CsrNeighbors<'a>)
        ensures
            source.edge_store == edge_store,
    {
        CsrNeighbors { edge_store }
    }
}

impl<'b> NeighborSource for CsrNeighbors<'b> {
    open spec fn source_wf(&self) -> bool {
        self.edge_store.wf()
    }

    open spec fn neighbor_list(&self, node_idx: u32) -> Seq<Neighbor> {
        neighbors_of(self.edge_store.rows(node_idx))
    }

    fn neighbors(&self, node_idx: u32) -> (iter: NeighborIter<'_>) {
        NeighborIter::Csr(CsrNeighborIter::forward(self.edge_store.neighbors(node_idx)))
    }

    fn neighbors_reversed(&self, node_idx: u32) -> (iter: NeighborIter<'_>) {
        NeighborIter::Csr(CsrNeighborIter::reversed(self.edge_store.neighbors(node_idx)))
    }
}

/// Store plus pending edge overlay source.
pub struct OverlayNeighbors<'a> {
    pub edge_store: &'a EdgeStore,
    pub inserts: &'a OverlayInserts,
    pub deletes: &'a OverlayDeletes,
}

/// The edges that an overlay lists for `node`, as a slice.
pub fn listed_edges<'a>(overlay: &'a HashMap<u32, Vec<(u32, u8)>>, node: u32) -> (edges: &'a [(
    u32,
    u8,
)])
    ensures
        edges@ == listed(overlay@, node),
{
    broadcast use vstd::std_specs::hash::group_hash_axioms;

    match overlay.get(&node) {
        Some(edges) => edges.as_slice(),
        None => {
            let none: &'a [(u32, u8)] = &[];
            assert(none@ =~= Seq::<(u32, u8)>::empty());
            none
        },
    }
}

impl<'a> OverlayNeighbors<'a> {
    /// Borrow a base store and orientation-specific overlay maps.
    pub fn new(
        edge_store: &'a EdgeStore,
        inserts: &'a OverlayInserts,
        deletes: &'a OverlayDeletes,
    ) -> (source: OverlayNeighbors<'a>)
        ensures
            source.edge_store == edge_store,
            source.inserts == inserts,
            source.deletes == deletes,
    {
        OverlayNeighbors { edge_store, inserts, deletes }
    }
}

impl<'b> NeighborSource for OverlayNeighbors<'b> {
    open spec fn source_wf(&self) -> bool {
        self.edge_store.wf()
    }

    open spec fn neighbor_list(&self, node_idx: u32) -> Seq<Neighbor> {
        overlaid(
            neighbors_of(self.edge_store.rows(node_idx)),
            listed(self.inserts@, node_idx),
            listed(self.deletes@, node_idx),
        )
    }

    fn neighbors(&self, node_idx: u32) -> (iter: NeighborIter<'_>) {
        NeighborIter::Overlay(
            OverlayNeighborIter::forward(
                self.edge_store.neighbors(node_idx),
                listed_edges(self.inserts, node_idx),
                listed_edges(self.deletes, node_idx),
            ),
        )
    }

    fn neighbors_reversed(&self, node_idx: u32) -> (iter: NeighborIter<'_>) {
        NeighborIter::Overlay(
            OverlayNeighborIter::reversed(
                self.edge_store.neighbors(node_idx),
                listed_edges(self.inserts, node_idx),
                listed_edges(self.deletes, node_idx),
            ),
        )
    }
}

} // verus!
