//! What transactions may record.
use vstd::prelude::*;

use crate::projection::tx_delta::{self, TxDeltaLimits, TxDeltaStats, TxGraphDeltaView};
use crate::types::TraversalDirection;

verus! {

/// A write is allowed exactly where the nodes, the edges and the memory of the transaction
/// stay within their limits with it and no subtransaction is open. Nodes and edges that
/// are deleted count as those that are added.
pub proof fn lemma_writes_stay_within_limits(
    stats: TxDeltaStats,
    limits: TxDeltaLimits,
    depth: u32,
    additional_nodes: usize,
    additional_edges: usize,
    additional_memory_bytes: usize,
)
    requires
        limits.max_nodes < usize::MAX,
        limits.max_edges < usize::MAX,
        limits.max_memory_bytes < usize::MAX,
    ensures
        tx_delta::capacity_error(
            stats,
            limits,
            depth,
            additional_nodes,
            additional_edges,
            additional_memory_bytes,
        ) is None <==> {
            &&& stats.added_nodes + stats.deleted_nodes + additional_nodes <= limits.max_nodes
            &&& stats.added_edges + stats.deleted_edges + additional_edges <= limits.max_edges
            &&& stats.memory_bytes + additional_memory_bytes <= limits.max_memory_bytes
            &&& depth == 0
        },
{
}

/// A transaction is dirty exactly where it has recorded something.
pub proof fn lemma_dirty_transactions(delta: TxGraphDeltaView, memory_bytes: usize)
    ensures
        ({
            let stats = tx_delta::stats_with(delta, memory_bytes);
            &&& delta.added_nodes.len() > 0 ==> stats.dirty
            &&& (exists|node_idx: u32| delta.deleted_nodes.contains(node_idx)) ==> stats.dirty
            &&& (exists|source: u32| delta.added_edges.contains_key(source)) ==> stats.dirty
            &&& !stats.dirty ==> stats.added_nodes == 0 && stats.deleted_nodes == 0
                && stats.deleted_edges == 0
            &&& stats.memory_bytes == memory_bytes
            &&& delta.added_nodes.len() <= usize::MAX ==> stats.added_nodes
                == delta.added_nodes.len()
            &&& delta.deleted_nodes.len() <= usize::MAX ==> stats.deleted_nodes
                == delta.deleted_nodes.len()
            &&& delta.deleted_edges.len() <= usize::MAX ==> stats.deleted_edges
                == delta.deleted_edges.len()
        }),
{
    let clean = tx_delta::clean_delta();
    assert(clean.added_nodes.len() == 0);
    assert(clean.deleted_nodes.len() == 0);
    assert(clean.deleted_edges.len() == 0);
}

/// An edge that is seen against its direction has its ends swapped; in any other
/// direction it keeps them.
pub proof fn lemma_oriented_edges(direction: TraversalDirection, source: u32, target: u32)
    ensures
        direction is In ==> tx_delta::oriented(direction, source, target) == (target, source),
        !(direction is In) ==> tx_delta::oriented(direction, source, target) == (source, target),
{
}

} // verus!
