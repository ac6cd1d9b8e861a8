//! Single steps along the edges of a graph.
use vstd::prelude::*;

use crate::order::{self, Ranked};
use crate::ordered_map::{self, MapKey, OrderedMap};
use crate::projection::neighbors::{
    self, CsrNeighbors, EdgeOverlay, Neighbor, NeighborIter, NeighborSource, OverlayNeighbors,
};
use crate::edge_store::EdgeStore;
use crate::query::engine::Engine;
use crate::query::logical_plan::BoundDirection;

verus! {

/// Whether a step follows its edge or runs against it.
#[derive(Debug, Clone, Copy, PartialEq, Eq, Structural)]
pub enum EdgeOrientation {
    Forward,
    Reverse,
}

/// Where a step leads.
#[derive(Debug, Clone, Copy, PartialEq, Eq, Structural)]
pub struct GqlStepTarget {
    pub node_idx: u32,
    pub orientation: EdgeOrientation,
    pub type_id: u8,
}

/// The rank of an orientation.
pub open spec fn orientation_rank(orientation: EdgeOrientation) -> int {
    match orientation {
        EdgeOrientation::Forward => 0,
        EdgeOrientation::Reverse => 1,
    }
}

impl Ranked for GqlStepTarget {
    open spec fn rank(&self) -> Seq<int> {
        seq![self.node_idx as int, orientation_rank(self.orientation), self.type_id as int]
    }

    fn precedes(&self, other: &GqlStepTarget) -> (found: bool) {
        proof {
            reveal_with_fuel(order::ranks_before, 4);
        }
        if self.node_idx != other.node_idx {
            self.node_idx < other.node_idx
        } else if self.orientation != other.orientation {
            self.orientation == EdgeOrientation::Forward
        } else {
            self.type_id < other.type_id
        }
    }
}

impl MapKey for GqlStepTarget {
    proof fn rank_unique(a: GqlStepTarget, b: GqlStepTarget) {
        let x = a.rank();
        let y = b.rank();
        assert(x[0] == y[0] && x[1] == y[1] && x[2] == y[2]);
    }
}

// ---------------------------------------------------------------------------
// Neighbors
// ---------------------------------------------------------------------------

/// The neighbors of a node in a store with an optional overlay.
pub open spec fn store_neighbors(store: EdgeStore, overlay: Option<EdgeOverlay>, node_idx: u32) -> Seq<
    Neighbor,
> {
    let base = neighbors::neighbors_of(store.rows(node_idx));
    match overlay {
        None => base,
        Some((inserts, deletes)) => neighbors::overlaid(
            base,
            neighbors::listed(inserts@, node_idx),
            neighbors::listed(deletes@, node_idx),
        ),
    }
}

/// The neighbors that edges of a node lead to.
pub open spec fn out_neighbors(engine: Engine, node_idx: u32) -> Seq<Neighbor> {
    store_neighbors(
        engine.edge_store,
        match engine.edge_overlay {
            Some((out, _)) => Some(out),
            None => None,
        },
        node_idx,
    )
}

/// The neighbors whose edges lead to a node.
pub open spec fn in_neighbors(engine: Engine, node_idx: u32) -> Seq<Neighbor> {
    store_neighbors(
        engine.reverse_edge_store,
        match engine.edge_overlay {
            Some((_, back)) => Some(back),
            None => None,
        },
        node_idx,
    )
}

/// Whether neighbors hold a target by an edge type.
pub open spec fn leads_to(found: Seq<Neighbor>, node_idx: u32, type_id: u8) -> bool {
    exists|i: int|
        0 <= i < found.len() && (#[trigger] found[i]).target == node_idx && found[i].type_id
            == type_id
}

/// Whether a step runs from a node: along an edge where the direction is not
/// against it, against an edge where the direction is not along it, by an edge of
/// the wanted type.
pub open spec fn is_step(
    engine: Engine,
    direction: BoundDirection,
    node_idx: u32,
    wanted: Option<u8>,
    step: GqlStepTarget,
) -> bool {
    &&& wanted matches Some(type_id) ==> step.type_id == type_id
    &&& match step.orientation {
        EdgeOrientation::Forward => !(direction is In) && leads_to(
            out_neighbors(engine, node_idx),
            step.node_idx,
            step.type_id,
        ),
        EdgeOrientation::Reverse => !(direction is Out) && leads_to(
            in_neighbors(engine, node_idx),
            step.node_idx,
            step.type_id,
        ),
    }
}

/// The steps from a node, as a set.
pub open spec fn step_map(
    engine: Engine,
    direction: BoundDirection,
    node_idx: u32,
    wanted: Option<u8>,
) -> Map<GqlStepTarget, ()> {
    Map::new(
        |step: GqlStepTarget| is_step(engine, direction, node_idx, wanted, step),
        |step: GqlStepTarget| (),
    )
}

/// The steps from a node, by target, orientation and edge type, each once.
pub open spec fn steps(
    engine: Engine,
    direction: BoundDirection,
    node_idx: u32,
    wanted: Option<u8>,
) -> Seq<GqlStepTarget> {
    ordered_map::sorted_entries(step_map(engine, direction, node_idx, wanted)).map_values(
        |entry: (GqlStepTarget, ())| entry.0,
    )
}

/// The steps from a node are those that run from it, each once.
pub proof fn lemma_steps(
    engine: Engine,
    direction: BoundDirection,
    node_idx: u32,
    wanted: Option<u8>,
)
    ensures
        forall|step: GqlStepTarget| #[trigger]
            steps(engine, direction, node_idx, wanted).contains(step) <==> is_step(
                engine,
                direction,
                node_idx,
                wanted,
                step,
            ),
        steps(engine, direction, node_idx, wanted).no_duplicates(),
{
    let map = step_map(engine, direction, node_idx, wanted);
    let forward = out_neighbors(engine, node_idx);
    let backward = in_neighbors(engine, node_idx);
    let ahead = |found: Neighbor|
        GqlStepTarget {
            node_idx: found.target,
            orientation: EdgeOrientation::Forward,
            type_id: found.type_id,
        };
    let back = |found: Neighbor|
        GqlStepTarget {
            node_idx: found.target,
            orientation: EdgeOrientation::Reverse,
            type_id: found.type_id,
        };
    let candidates = forward.map_values(ahead) + backward.map_values(back);
    assert forall|step: GqlStepTarget| #[trigger] map.dom().contains(step) implies candidates.to_set().contains(
        step,
    ) by {
        if step.orientation is Forward {
            let i = choose|i: int|
                0 <= i < forward.len() && (#[trigger] forward[i]).target == step.node_idx
                    && forward[i].type_id == step.type_id;
            assert(candidates[i] == step);
        } else {
            let i = choose|i: int|
                0 <= i < backward.len() && (#[trigger] backward[i]).target == step.node_idx
                    && backward[i].type_id == step.type_id;
            assert(candidates[forward.len() + i] == step);
        }
    }
    vstd::seq_lib::seq_to_set_is_finite(candidates);
    vstd::set_lib::lemma_set_subset_finite(candidates.to_set(), map.dom());
    ordered_map::lemma_entries_exist(map);
    let entries = ordered_map::sorted_entries(map);
    let all = steps(engine, direction, node_idx, wanted);
    assert forall|step: GqlStepTarget| #[trigger] all.contains(step) <==> is_step(
        engine,
        direction,
        node_idx,
        wanted,
        step,
    ) by {
        if all.contains(step) {
            let i = choose|i: int| 0 <= i < all.len() && all[i] == step;
            ordered_map::lemma_entry(entries, i);
            assert(map.contains_key(step));
        }
        if is_step(engine, direction, node_idx, wanted, step) {
            assert(map.contains_key(step));
            let i = choose|i: int| ordered_map::entry_at(entries, step, i);
            assert(ordered_map::entry_at(entries, step, i));
            assert(all[i] == step);
        }
    }
    assert forall|i: int, j: int| 0 <= i < all.len() && 0 <= j < all.len() && i != j implies all[i]
        != all[j] by {
        if i < j {
            order::lemma_before_irreflexive(entries[i].0.rank());
            assert(order::before(entries[i].0.rank(), entries[j].0.rank()));
        } else {
            order::lemma_before_irreflexive(entries[j].0.rank());
            assert(order::before(entries[j].0.rank(), entries[i].0.rank()));
        }
    }
}

/// Neighbors of a graph for query execution.
pub struct GqlNeighbors<'a> {
    pub engine: &'a Engine,
}

/// The steps that the first `count` neighbors give.
spec fn steps_by(
    found: Seq<Neighbor>,
    count: int,
    wanted: Option<u8>,
    orientation: EdgeOrientation,
    step: GqlStepTarget,
) -> bool {
    &&& step.orientation == orientation
    &&& wanted matches Some(type_id) ==> step.type_id == type_id
    &&& exists|i: int|
        0 <= i < count && (#[trigger] found[i]).target == step.node_idx && found[i].type_id
            == step.type_id
}

fn append_neighbors(
    found: Vec<Neighbor>,
    wanted: Option<u8>,
    orientation: EdgeOrientation,
    out: &mut OrderedMap<GqlStepTarget, ()>,
)
    requires
        old(out).wf(),
    ensures
        final(out).wf(),
        forall|step: GqlStepTarget| #[trigger]
            final(out)@.contains_key(step) <==> old(out)@.contains_key(step) || steps_by(
                found@,
                found@.len() as int,
                wanted,
                orientation,
                step,
            ),
{
    let ghost before = out@;
    for i in 0..found.len()
        invariant
            out.wf(),
            forall|step: GqlStepTarget| #[trigger]
                out@.contains_key(step) <==> before.contains_key(step) || steps_by(
                    found@,
                    i as int,
                    wanted,
                    orientation,
                    step,
                ),
    {
        let neighbor: Neighbor = found[i];
        let accepted: bool = match wanted {
            Some(type_id) => neighbor.type_id == type_id,
            None => true,
        };
        let ghost earlier = out@;
        let step: GqlStepTarget = GqlStepTarget {
            node_idx: neighbor.target,
            orientation,
            type_id: neighbor.type_id,
        };
        if accepted {
            out.insert(step, ());
        }
        proof {
            assert forall|other: GqlStepTarget| #[trigger]
                out@.contains_key(other) <==> before.contains_key(other) || steps_by(
                    found@,
                    i + 1,
                    wanted,
                    orientation,
                    other,
                ) by {
                if steps_by(found@, i + 1, wanted, orientation, other) {
                    let k = choose|k: int|
                        0 <= k < i + 1 && (#[trigger] found@[k]).target == other.node_idx
                            && found@[k].type_id == other.type_id;
                    if k < i {
                        assert(steps_by(found@, i as int, wanted, orientation, other));
                        assert(earlier.contains_key(other));
                    } else {
                        assert(other == step);
                    }
                }
                if other == step && accepted {
                    assert(found@[i as int].target == other.node_idx);
                    assert(steps_by(found@, i + 1, wanted, orientation, other));
                }
                if steps_by(found@, i as int, wanted, orientation, other) {
                    assert(steps_by(found@, i + 1, wanted, orientation, other));
                }
            }
        }
    }
}

fn read_neighbors(store: &EdgeStore, overlay: Option<&EdgeOverlay>, node_idx: u32) -> (found: Vec<
    Neighbor,
>)
    requires
        store.wf(),
    ensures
        found@ == store_neighbors(
            *store,
            match overlay {
                Some(overlay) => Some(*overlay),
                None => None,
            },
            node_idx,
        ),
{
    match overlay {
        None => {
            let source: CsrNeighbors = CsrNeighbors::new(store);
            let iter: NeighborIter = source.neighbors(node_idx);
            iter.collect()
        },
        Some(overlay) => {
            let source: OverlayNeighbors = OverlayNeighbors::new(store, &overlay.0, &overlay.1);
            let iter: NeighborIter = source.neighbors(node_idx);
            iter.collect()
        },
    }
}

impl<'a> GqlNeighbors<'a> {
    /// The neighbors of a graph.
    pub fn new(engine: &'a Engine) -> (neighbors: GqlNeighbors<'a>)
        ensures
            neighbors.engine == engine,
    {
        GqlNeighbors { engine }
    }

    fn step_targets(&self, direction: BoundDirection, node_idx: u32, wanted: Option<u8>) -> (found:
        Vec<GqlStepTarget>)
        requires
            self.engine.wf(),
        ensures
            found@ == steps(*self.engine, direction, node_idx, wanted),
    {
        let mut map: OrderedMap<GqlStepTarget, ()> = OrderedMap::new();
        let ghost engine = *self.engine;
        let ghost forward = out_neighbors(engine, node_idx);
        let ghost backward = in_neighbors(engine, node_idx);
        if direction != BoundDirection::In {
            let overlay: Option<&EdgeOverlay> = match &self.engine.edge_overlay {
                Some((out, _)) => Some(out),
                None => None,
            };
            let found: Vec<Neighbor> = read_neighbors(&self.engine.edge_store, overlay, node_idx);
            append_neighbors(found, wanted, EdgeOrientation::Forward, &mut map);
        }
        if direction != BoundDirection::Out {
            let overlay: Option<&EdgeOverlay> = match &self.engine.edge_overlay {
                Some((_, back)) => Some(back),
                None => None,
            };
            let found: Vec<Neighbor> = read_neighbors(
                &self.engine.reverse_edge_store,
                overlay,
                node_idx,
            );
            append_neighbors(found, wanted, EdgeOrientation::Reverse, &mut map);
        }
        let ghost wanted_map = step_map(engine, direction, node_idx, wanted);
        proof {
            assert forall|step: GqlStepTarget| #[trigger]
                map@.contains_key(step) <==> wanted_map.contains_key(step) by {
                assert(steps_by(
                    forward,
                    forward.len() as int,
                    wanted,
                    EdgeOrientation::Forward,
                    step,
                ) <==> step.orientation is Forward && (wanted matches Some(type_id)
                    ==> step.type_id == type_id) && leads_to(forward, step.node_idx, step.type_id));
                assert(steps_by(
                    backward,
                    backward.len() as int,
                    wanted,
                    EdgeOrientation::Reverse,
                    step,
                ) <==> step.orientation is Reverse && (wanted matches Some(type_id)
                    ==> step.type_id == type_id) && leads_to(
                    backward,
                    step.node_idx,
                    step.type_id,
                ));
            }
            assert(map@ =~= wanted_map);
            ordered_map::lemma_sorted_entries(map.entries@);
        }
        let mut found: Vec<GqlStepTarget> = Vec::new();
        let ghost all = map.entries@.map_values(|entry: (GqlStepTarget, ())| entry.0);
        for i in 0..map.entries.len()
            invariant
                all == map.entries@.map_values(|entry: (GqlStepTarget, ())| entry.0),
                found@ == all.take(i as int),
        {
            found.push(map.entries[i].0);
            assert(all.take(i + 1) =~= all.take(i as int).push(all[i as int]));
        }
        assert(all.take(all.len() as int) =~= all);
        found
    }

    /// The steps from a node by edges of one type.
    pub fn for_direction(&self, direction: BoundDirection, node_idx: u32, rel_type_id: u8) -> (found:
        Vec<GqlStepTarget>)
        requires
            self.engine.wf(),
        ensures
            found@ == steps(*self.engine, direction, node_idx, Some(rel_type_id)),
    {
        self.step_targets(direction, node_idx, Some(rel_type_id))
    }

    /// The steps from a node by edges of any type.
    pub fn for_direction_any(&self, direction: BoundDirection, node_idx: u32) -> (found: Vec<
        GqlStepTarget,
    >)
        requires
            self.engine.wf(),
        ensures
            found@ == steps(*self.engine, direction, node_idx, None),
    {
        self.step_targets(direction, node_idx, None)
    }
}

} // verus!
