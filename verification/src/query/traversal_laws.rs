//! What plans find in a graph.
use vstd::prelude::*;

use crate::edge_store::{EdgeKey, EdgeStore};
use crate::projection::layered;
use crate::projection::neighbors::{self, EdgeOverlay, Neighbor};
use crate::projection::tx_delta::{self, AddedNodeView, TxGraphDeltaView};
use crate::query::engine::{self, Engine};
use crate::query::execute;
use crate::query::execute_join::{self, JoinRules};
use crate::query::execute_wildcard::{self, WildcardRules};
use crate::query::expand::{self, GqlRelationshipStep, PathView, TargetView};
use crate::query::logical_plan::BoundDirection;
use crate::query::physical_plan::{
    PhysicalNodeScanView, PhysicalPlanView, PhysicalWildcardPathSegmentView,
};
use crate::query::rows::{self, CoordinateView, JoinView, PathRelationshipView};
use crate::query::steps::{self, GqlStepTarget};

verus! {

// ---------------------------------------------------------------------------
// Steps
// ---------------------------------------------------------------------------

/// Whether a store holds an edge of a type between two nodes.
pub open spec fn holds_edge(store: EdgeStore, from: u32, to: u32, type_id: u8) -> bool {
    exists|i: int|
        0 <= i < store.edges.entries@.len() && (#[trigger] store.edges.entries@[i]).0.source == from
            && store.edges.entries@[i].0.target == to && store.edges.entries@[i].0.type_id
            == type_id
}

/// Whether pending edges of a node lead to another.
pub open spec fn is_pending(
    overlay: Map<u32, Vec<(u32, u8)>>,
    from: u32,
    to: u32,
    type_id: u8,
) -> bool {
    overlay.contains_key(from) && overlay[from]@.contains((to, type_id))
}

/// Whether an edge is there: one that is stored and not deleted since, or one that is
/// not stored and inserted since.
pub open spec fn is_there(
    store: EdgeStore,
    overlay: Option<EdgeOverlay>,
    from: u32,
    to: u32,
    type_id: u8,
) -> bool {
    match overlay {
        None => holds_edge(store, from, to, type_id),
        Some((inserted, deleted)) => if holds_edge(store, from, to, type_id) {
            !is_pending(deleted@, from, to, type_id)
        } else {
            is_pending(inserted@, from, to, type_id)
        },
    }
}

proof fn lemma_stored(store: EdgeStore, from: u32, to: u32, type_id: u8)
    ensures
        steps::leads_to(neighbors::neighbors_of(store.rows(from)), to, type_id) <==> holds_edge(
            store,
            from,
            to,
            type_id,
        ),
{
    let entries = store.edges.entries@;
    let keep = |entry: (EdgeKey, Option<u32>)| entry.0.source == from;
    let rows = store.rows(from);
    let found = neighbors::neighbors_of(rows);
    if steps::leads_to(found, to, type_id) {
        let i = choose|i: int|
            0 <= i < found.len() && (#[trigger] found[i]).target == to && found[i].type_id
                == type_id;
        entries.lemma_filter_pred(keep, i);
        layered::lemma_filter_member(entries, keep, i);
        let j = choose|j: int| 0 <= j < entries.len() && entries[j] == rows[i];
        assert(entries[j].0.source == from);
    }
    if holds_edge(store, from, to, type_id) {
        let j = choose|j: int|
            0 <= j < entries.len() && (#[trigger] entries[j]).0.source == from
                && entries[j].0.target == to && entries[j].0.type_id == type_id;
        entries.lemma_filter_contains(keep, j);
        let i = choose|i: int| 0 <= i < rows.len() && rows[i] == entries[j];
        assert(found[i].target == to);
    }
}

proof fn lemma_kept(base: Seq<Neighbor>, deleted: Seq<(u32, u8)>, to: u32, type_id: u8)
    ensures
        steps::leads_to(neighbors::kept(base, deleted), to, type_id) <==> steps::leads_to(
            base,
            to,
            type_id,
        ) && !deleted.contains((to, type_id)),
{
    let keep = |neighbor: Neighbor| !deleted.contains((neighbor.target, neighbor.type_id));
    let kept = neighbors::kept(base, deleted);
    if steps::leads_to(kept, to, type_id) {
        let i = choose|i: int|
            0 <= i < kept.len() && (#[trigger] kept[i]).target == to && kept[i].type_id == type_id;
        base.lemma_filter_pred(keep, i);
        layered::lemma_filter_member(base, keep, i);
        let j = choose|j: int| 0 <= j < base.len() && base[j] == kept[i];
        assert(base[j].target == to);
    }
    if steps::leads_to(base, to, type_id) && !deleted.contains((to, type_id)) {
        let j = choose|j: int|
            0 <= j < base.len() && (#[trigger] base[j]).target == to && base[j].type_id == type_id;
        assert(keep(base[j]));
        base.lemma_filter_contains(keep, j);
        let i = choose|i: int| 0 <= i < kept.len() && kept[i] == base[j];
        assert(kept[i].target == to);
    }
}

/// Whether insert `at` is the first of an edge.
spec fn first_listed(inserted: Seq<(u32, u8)>, edge: (u32, u8), at: int) -> bool {
    &&& 0 <= at < inserted.len()
    &&& inserted[at] == edge
    &&& forall|i: int| 0 <= i < at ==> #[trigger] inserted[i] != edge
}

proof fn lemma_first_listed(inserted: Seq<(u32, u8)>, edge: (u32, u8), i: int) -> (at: int)
    requires
        0 <= i < inserted.len(),
        inserted[i] == edge,
    ensures
        first_listed(inserted, edge, at),
    decreases i,
{
    if exists|j: int| 0 <= j < i && #[trigger] inserted[j] == edge {
        let j = choose|j: int| 0 <= j < i && #[trigger] inserted[j] == edge;
        lemma_first_listed(inserted, edge, j)
    } else {
        i
    }
}

proof fn lemma_added_from(
    base: Seq<Neighbor>,
    inserted: Seq<(u32, u8)>,
    start: int,
    to: u32,
    type_id: u8,
)
    requires
        0 <= start <= inserted.len(),
    ensures
        steps::leads_to(
            neighbors::added(base, inserted, start, inserted.len() as int),
            to,
            type_id,
        ) <==> exists|at: int|
            start <= at && #[trigger] first_listed(inserted, (to, type_id), at)
                && !steps::leads_to(base, to, type_id),
    decreases inserted.len() - start,
{
    let end = inserted.len() as int;
    let edge = (to, type_id);
    if start < end {
        lemma_added_from(base, inserted, start + 1, to, type_id);
        let later = neighbors::added(base, inserted, start + 1, end);
        let all = neighbors::added(base, inserted, start, end);
        let fresh = neighbors::is_fresh(base, inserted, start);
        assert(inserted[start] == edge ==> (fresh <==> first_listed(inserted, edge, start)
            && !steps::leads_to(base, to, type_id))) by {
            if inserted[start] == edge {
                if fresh {
                    assert forall|i: int| 0 <= i < start implies #[trigger] inserted[i] != edge by {}
                }
            }
        }
        if fresh {
            assert(all =~= seq![neighbors::inserted_neighbor(inserted[start])] + later);
            if steps::leads_to(later, to, type_id) {
                let i = choose|i: int|
                    0 <= i < later.len() && (#[trigger] later[i]).target == to && later[i].type_id
                        == type_id;
                assert(all[i + 1] == later[i]);
            }
            if inserted[start] == edge {
                assert(all[0].target == to && all[0].type_id == type_id);
            }
            if steps::leads_to(all, to, type_id) && inserted[start] != edge {
                let i = choose|i: int|
                    0 <= i < all.len() && (#[trigger] all[i]).target == to && all[i].type_id
                        == type_id;
                assert(i > 0);
                assert(later[i - 1] == all[i]);
            }
        }
        if steps::leads_to(all, to, type_id) {
            if fresh && inserted[start] == edge {
                assert(first_listed(inserted, edge, start));
            }
        }
    }
}

proof fn lemma_reached(
    store: EdgeStore,
    overlay: Option<EdgeOverlay>,
    from: u32,
    to: u32,
    type_id: u8,
)
    ensures
        steps::leads_to(steps::store_neighbors(store, overlay, from), to, type_id) <==> is_there(
            store,
            overlay,
            from,
            to,
            type_id,
        ),
{
    lemma_stored(store, from, to, type_id);
    if let Some((inserts, deletes)) = overlay {
        let base = neighbors::neighbors_of(store.rows(from));
        let inserted = neighbors::listed(inserts@, from);
        let deleted = neighbors::listed(deletes@, from);
        let kept = neighbors::kept(base, deleted);
        let added = neighbors::added(base, inserted, 0, inserted.len() as int);
        let all = neighbors::overlaid(base, inserted, deleted);
        lemma_kept(base, deleted, to, type_id);
        lemma_added_from(base, inserted, 0, to, type_id);
        if inserted.contains((to, type_id)) {
            let i = choose|i: int| 0 <= i < inserted.len() && inserted[i] == (to, type_id);
            let at = lemma_first_listed(inserted, (to, type_id), i);
            assert(first_listed(inserted, (to, type_id), at));
        }
        if steps::leads_to(all, to, type_id) {
            let i = choose|i: int|
                0 <= i < all.len() && (#[trigger] all[i]).target == to && all[i].type_id == type_id;
            if i < kept.len() {
                assert(kept[i] == all[i]);
            } else {
                assert(added[i - kept.len()] == all[i]);
            }
        }
        if steps::leads_to(kept, to, type_id) {
            let i = choose|i: int|
                0 <= i < kept.len() && (#[trigger] kept[i]).target == to && kept[i].type_id
                    == type_id;
            assert(all[i] == kept[i]);
        }
        if steps::leads_to(added, to, type_id) {
            let i = choose|i: int|
                0 <= i < added.len() && (#[trigger] added[i]).target == to && added[i].type_id
                    == type_id;
            assert(all[kept.len() + i] == added[i]);
        }
    }
}

/// A step along the direction of edges follows an edge that is there, and is taken unless
/// the pattern runs only against it; a step against it follows one that is there by its
/// target, and is taken unless the pattern runs only along it. A wanted type admits no
/// other.
pub proof fn lemma_steps_follow_edges(
    engine: Engine,
    direction: BoundDirection,
    node_idx: u32,
    wanted: Option<u8>,
    step: GqlStepTarget,
)
    ensures
        ({
            let (out, back) = if let Some((out, back)) = engine.edge_overlay {
                (Some(out), Some(back))
            } else {
                (None, None)
            };
            let right_type = if let Some(type_id) = wanted {
                step.type_id == type_id
            } else {
                true
            };
            &&& step.orientation is Forward ==> (steps::is_step(
                engine,
                direction,
                node_idx,
                wanted,
                step,
            ) <==> right_type && direction != BoundDirection::In && is_there(
                engine.edge_store,
                out,
                node_idx,
                step.node_idx,
                step.type_id,
            ))
            &&& step.orientation is Reverse ==> (steps::is_step(
                engine,
                direction,
                node_idx,
                wanted,
                step,
            ) <==> right_type && direction != BoundDirection::Out && is_there(
                engine.reverse_edge_store,
                back,
                node_idx,
                step.node_idx,
                step.type_id,
            ))
        }),
{
    let (out, back) = if let Some((out, back)) = engine.edge_overlay {
        (Some(out), Some(back))
    } else {
        (None, None)
    };
    lemma_reached(engine.edge_store, out, node_idx, step.node_idx, step.type_id);
    lemma_reached(engine.reverse_edge_store, back, node_idx, step.node_idx, step.type_id);
}

/// A relationship plan expands its own pattern: its direction, number of steps and
/// target table, under the scope it is run in.
pub proof fn lemma_plan_expands_its_pattern(
    engine: Engine,
    plan: PhysicalPlanView,
    type_id: u8,
    deleted: Set<u32>,
    tenant: Option<Seq<char>>,
)
    ensures
        ({
            let rules = expand::plan_rules(engine, plan, type_id, deleted, tenant);
            &&& rules.engine == engine && rules.deleted == deleted && rules.tenant == tenant
            &&& rules.direction == plan.direction
            &&& rules.hops == plan.hops
            &&& rules.target_table_oid == plan.target_table_oid
            &&& rules.type_id == type_id
            &&& rules.returns_relationship <==> exists|i: int|
                0 <= i < plan.returns.len() && (#[trigger] plan.returns[i]) is Relationship
        }),
{
}

// ---------------------------------------------------------------------------
// Scope
// ---------------------------------------------------------------------------

/// Whether a tenant is listed with a node.
pub open spec fn belongs(engine: Engine, node_idx: u32, tenant: Seq<char>) -> bool {
    exists|i: int, j: int|
        0 <= i < engine.tenant_membership@.len() && 0 <= j
            < engine.tenant_membership@[i].nodes@.len() && engine.tenant_membership@[i].tenant@
            == tenant && #[trigger] engine.tenant_membership@[i].nodes@[j] == node_idx
}

/// Only live nodes are visible, and none that the transaction has deleted. A tenant scope
/// narrows what is visible: of tables with tenants to the nodes of that tenant, of other
/// tables not at all.
pub proof fn lemma_scope_of_nodes(
    engine: Engine,
    deleted: Set<u32>,
    node_idx: u32,
    tenant: Seq<char>,
)
    ensures
        ({
            let free = engine.visible(deleted, node_idx, None);
            let scoped = engine.visible(deleted, node_idx, Some(tenant));
            let table_oid = engine.nodes@[node_idx as int].table_oid;
            &&& node_idx >= engine.nodes@.len() ==> !free
            &&& node_idx < engine.nodes@.len() && !engine.nodes@[node_idx as int].active ==> !free
            &&& deleted.contains(node_idx) ==> !free
            &&& node_idx < engine.nodes@.len() && engine.nodes@[node_idx as int].active
                && !deleted.contains(node_idx) ==> free
            &&& scoped ==> free
            &&& free && !engine.tenanted_table_oids@.contains(table_oid) ==> scoped
            &&& free && engine.tenanted_table_oids@.contains(table_oid) ==> (scoped <==> belongs(
                engine,
                node_idx,
                tenant,
            ))
        }),
{
    if engine::tenant_has(engine.tenant_membership@, tenant, node_idx) {
        let i = choose|i: int|
            0 <= i < engine.tenant_membership@.len() && (
            #[trigger] engine.tenant_membership@[i]).tenant@ == tenant
                && engine.tenant_membership@[i].nodes@.contains(node_idx);
        let nodes = engine.tenant_membership@[i].nodes@;
        let j = choose|j: int| 0 <= j < nodes.len() && nodes[j] == node_idx;
        assert(engine.tenant_membership@[i].nodes@[j] == node_idx);
    }
    if belongs(engine, node_idx, tenant) {
        let (i, j) = choose|i: int, j: int|
            0 <= i < engine.tenant_membership@.len() && 0 <= j
                < engine.tenant_membership@[i].nodes@.len() && engine.tenant_membership@[i].tenant@
                == tenant && #[trigger] engine.tenant_membership@[i].nodes@[j] == node_idx;
        assert(engine.tenant_membership@[i].nodes@.contains(node_idx));
    }
}

/// A node ends a match in a table exactly where it is visible without deletions and of
/// that table.
pub proof fn lemma_target_table(
    engine: Engine,
    node_idx: u32,
    table_oid: u32,
    tenant: Option<Seq<char>>,
)
    ensures
        engine.matches_table(node_idx, table_oid, tenant) <==> engine.visible(
            Set::empty(),
            node_idx,
            tenant,
        ) && engine.nodes@[node_idx as int].table_oid == table_oid,
{
}

proof fn lemma_nodes_of(nodes: Seq<engine::GraphNode>, table_oid: u32, count: int, node_idx: u32)
    requires
        0 <= count <= nodes.len(),
        nodes.len() <= u32::MAX,
    ensures
        engine::nodes_of_table(nodes, table_oid, count).contains(node_idx) <==> node_idx < count
            && nodes[node_idx as int].table_oid == table_oid,
    decreases count,
{
    if count > 0 {
        lemma_nodes_of(nodes, table_oid, count - 1, node_idx);
        let earlier = engine::nodes_of_table(nodes, table_oid, count - 1);
        let all = engine::nodes_of_table(nodes, table_oid, count);
        if nodes[count - 1].table_oid == table_oid {
            assert(all[earlier.len() as int] == (count - 1) as u32);
            if earlier.contains(node_idx) {
                let i = choose|i: int| 0 <= i < earlier.len() && earlier[i] == node_idx;
                assert(all[i] == node_idx);
            }
            if all.contains(node_idx) && node_idx != count - 1 {
                let i = choose|i: int| 0 <= i < all.len() && all[i] == node_idx;
                assert(earlier[i] == node_idx);
            }
        }
    }
}

proof fn lemma_unlisted(
    entries: Seq<engine::TableMembership>,
    table_oid: u32,
    from: int,
)
    requires
        0 <= from,
        forall|i: int| 0 <= i < entries.len() ==> (#[trigger] entries[i]).table_oid != table_oid,
    ensures
        engine::first_table(entries, table_oid, from) is None,
    decreases entries.len() - from,
{
    if from < entries.len() {
        lemma_unlisted(entries, table_oid, from + 1);
    }
}

/// Where no nodes are listed for a table, a plan starts at all nodes of that table that
/// the tenant scope allows.
pub proof fn lemma_sources_are_the_nodes_of_the_table(
    engine: Engine,
    table_oid: u32,
    tenant: Option<Seq<char>>,
    node_idx: u32,
)
    requires
        engine.nodes@.len() <= u32::MAX,
        forall|i: int|
            0 <= i < engine.table_membership@.len() ==> (
            #[trigger] engine.table_membership@[i]).table_oid != table_oid,
    ensures
        engine.sources(table_oid, tenant).contains(node_idx) <==> node_idx < engine.nodes@.len()
            && engine.nodes@[node_idx as int].table_oid == table_oid && engine.allows(
            node_idx,
            tenant,
        ),
{
    lemma_unlisted(engine.table_membership@, table_oid, 0);
    lemma_nodes_of(engine.nodes@, table_oid, engine.nodes@.len() as int, node_idx);
    let all = engine.table_nodes(table_oid);
    let keep = |node_idx: u32| engine.allows(node_idx, tenant);
    lemma_filtered(all, keep, node_idx);
}

proof fn lemma_filtered(items: Seq<u32>, keep: spec_fn(u32) -> bool, item: u32)
    ensures
        items.filter(keep).contains(item) <==> items.contains(item) && keep(item),
{
    let kept = items.filter(keep);
    if kept.contains(item) {
        let i = choose|i: int| 0 <= i < kept.len() && kept[i] == item;
        items.lemma_filter_pred(keep, i);
        layered::lemma_filter_member(items, keep, i);
    }
    if items.contains(item) && keep(item) {
        let i = choose|i: int| 0 <= i < items.len() && items[i] == item;
        items.lemma_filter_contains(keep, i);
    }
}

// ---------------------------------------------------------------------------
// Scans
// ---------------------------------------------------------------------------

/// Whether a node of the graph has a key and is seen by a scan.
pub open spec fn scan_sees(
    engine: Engine,
    plan: PhysicalNodeScanView,
    delta: TxGraphDeltaView,
    tenant: Option<Seq<char>>,
    node_idx: u32,
    key: Seq<char>,
) -> bool {
    &&& engine.sources(plan.table_oid, tenant).contains(node_idx)
    &&& engine.visible(delta.deleted_nodes, node_idx, None)
    &&& engine.nodes@[node_idx as int].primary_key@ == key
}

/// Whether a scan sees an added node: it is of the table and, where the table has
/// tenants, of the tenant that the scan is scoped to.
pub open spec fn scan_sees_added(
    engine: Engine,
    plan: PhysicalNodeScanView,
    tenant: Option<Seq<char>>,
    node: AddedNodeView,
    key: Seq<char>,
) -> bool {
    &&& node.table_oid == plan.table_oid
    &&& node.primary_key == key
    &&& tenant is None || !engine.tenanted_table_oids@.contains(plan.table_oid) || node.tenant
        == tenant
}

/// A scan finds exactly the keys of the nodes that it sees in the graph and among those
/// that the transaction has added.
pub proof fn lemma_scan_keys(
    engine: Engine,
    plan: PhysicalNodeScanView,
    delta: TxGraphDeltaView,
    tenant: Option<Seq<char>>,
    key: Seq<char>,
)
    ensures
        execute::scan_keys(engine, plan, delta, tenant).contains(key) <==> {
            ||| exists|node_idx: u32| #[trigger]
                scan_sees(engine, plan, delta, tenant, node_idx, key)
            ||| exists|i: int|
                0 <= i < delta.added_nodes.len() && scan_sees_added(
                    engine,
                    plan,
                    tenant,
                    #[trigger] delta.added_nodes[i],
                    key,
                )
        },
{
    let sources = engine.sources(plan.table_oid, tenant);
    let tenanted = engine.tenanted_table_oids@.contains(plan.table_oid);
    let keep = |node_idx: u32|
        engine.live(node_idx) && !delta.deleted_nodes.contains(node_idx);
    let kept = sources.filter(keep);
    let live = execute::live_keys(engine, delta.deleted_nodes, sources);
    let nodes = delta.added_nodes;
    let seen = |node: AddedNodeView|
        tx_delta::added_node_visible(node, plan.table_oid, tenant, tenanted);
    let shown = nodes.filter(seen);
    let added = tx_delta::visible_node_keys(
        nodes,
        plan.table_oid,
        tenant,
        tenanted,
    );
    let all = execute::scan_keys(engine, plan, delta, tenant);
    if all.contains(key) {
        let k = choose|k: int| 0 <= k < all.len() && all[k] == key;
        if k < live.len() {
            sources.lemma_filter_pred(keep, k);
            layered::lemma_filter_member(sources, keep, k);
            assert(scan_sees(engine, plan, delta, tenant, kept[k], key));
        } else {
            let m = k - live.len();
            nodes.lemma_filter_pred(seen, m);
            layered::lemma_filter_member(nodes, seen, m);
            let i = choose|i: int| 0 <= i < nodes.len() && nodes[i] == shown[m];
            assert(scan_sees_added(engine, plan, tenant, nodes[i], key));
        }
    }
    if exists|node_idx: u32| #[trigger] scan_sees(engine, plan, delta, tenant, node_idx, key) {
        let node_idx = choose|node_idx: u32| #[trigger]
            scan_sees(engine, plan, delta, tenant, node_idx, key);
        let j = choose|j: int| 0 <= j < sources.len() && sources[j] == node_idx;
        assert(keep(sources[j]));
        sources.lemma_filter_contains(keep, j);
        let k = choose|k: int| 0 <= k < kept.len() && kept[k] == node_idx;
        assert(all[k] == key);
    }
    if exists|i: int|
        0 <= i < nodes.len() && scan_sees_added(engine, plan, tenant, #[trigger] nodes[i], key) {
        let i = choose|i: int|
            0 <= i < nodes.len() && scan_sees_added(engine, plan, tenant, #[trigger] nodes[i], key);
        assert(seen(nodes[i]));
        nodes.lemma_filter_contains(seen, i);
        let k = choose|k: int| 0 <= k < shown.len() && shown[k] == nodes[i];
        assert(all[live.len() + k] == key);
    }
}

// ---------------------------------------------------------------------------
// Rows
// ---------------------------------------------------------------------------

/// Whether a coordinate is that of a node.
pub open spec fn locates(engine: Engine, node_idx: u32, coordinate: CoordinateView) -> bool {
    &&& coordinate.table_oid == engine.nodes@[node_idx as int].table_oid
    &&& coordinate.node_id == engine.nodes@[node_idx as int].primary_key@
}

/// Whether a relationship is that of a step: it starts where its edge starts, which is
/// where the step leads to where it runs against it.
pub open spec fn relates(
    engine: Engine,
    step: GqlRelationshipStep,
    relationship: PathRelationshipView,
) -> bool {
    &&& step.type_id < engine.edge_type_registry@.len()
    &&& relationship.rel_type == engine.edge_type_registry@[step.type_id as int]@
    &&& step.orientation is Forward ==> locates(engine, step.from_idx, relationship.start)
        && locates(engine, step.to_idx, relationship.end)
    &&& step.orientation is Reverse ==> locates(engine, step.to_idx, relationship.start)
        && locates(engine, step.from_idx, relationship.end)
}

proof fn lemma_relationships_from(
    engine: Engine,
    steps: Seq<GqlRelationshipStep>,
    from: int,
    done: Seq<PathRelationshipView>,
)
    requires
        done.len() == from,
        from <= steps.len(),
        forall|k: int| 0 <= k < done.len() ==> relates(engine, steps[k], #[trigger] done[k]),
    ensures
        rows::relationships_from(engine, steps, from, done) matches Ok(found) ==> {
            &&& found.len() == steps.len()
            &&& forall|k: int| 0 <= k < found.len() ==> relates(engine, steps[k], #[trigger] found[k])
        },
    decreases steps.len() - from,
{
    if from < steps.len() {
        if let Ok(relationship) = rows::relationship_of(engine, steps[from]) {
            assert(relates(engine, steps[from], relationship));
            lemma_relationships_from(engine, steps, from + 1, done.push(relationship));
        }
    }
}

/// The row of a match has the coordinates of its source and target, the ends of its last
/// relationship in the direction of the edge, and the nodes and relationships of its
/// path.
pub proof fn lemma_rows_locate_matches(engine: Engine, source_idx: u32, target: TargetView)
    ensures
        rows::row_of(engine, source_idx, target) matches Ok(row) ==> {
            &&& locates(engine, source_idx, row.source)
            &&& row.target matches Some(found) && locates(engine, target.step.node_idx, found)
            &&& row.rel_start is Some && row.rel_end is Some
            &&& target.step.orientation is Forward ==> locates(
                engine,
                source_idx,
                row.rel_start->0,
            ) && locates(engine, target.step.node_idx, row.rel_end->0)
            &&& target.step.orientation is Reverse ==> locates(
                engine,
                target.step.node_idx,
                row.rel_start->0,
            ) && locates(engine, source_idx, row.rel_end->0)
            &&& row.path_nodes.len() == target.path.nodes.len()
            &&& forall|k: int|
                0 <= k < row.path_nodes.len() ==> locates(
                    engine,
                    target.path.nodes[k],
                    #[trigger] row.path_nodes[k],
                )
            &&& row.path_relationships.len() == target.path.relationships.len()
            &&& forall|k: int|
                0 <= k < row.path_relationships.len() ==> relates(
                    engine,
                    target.path.relationships[k],
                    #[trigger] row.path_relationships[k],
                )
        },
        ({
            let row = rows::optional_row_of(engine, source_idx);
            &&& locates(engine, source_idx, row.source)
            &&& row.target is None && row.rel_start is None && row.rel_end is None
            &&& row.path_nodes.len() == 0 && row.path_relationships.len() == 0
        }),
{
    lemma_relationships_from(engine, target.path.relationships, 0, Seq::empty());
}

/// The row of a join has the coordinates of the nodes of its slots, in their order, of
/// which the first and the last are its source and target, and the relationships of its
/// patterns.
pub proof fn lemma_join_rows_locate_slots(engine: Engine, state: JoinView)
    ensures
        rows::join_row_of(engine, state) is Ok ==> state.node_slots.len() > 0 && forall|i: int|
            0 <= i < state.node_slots.len() ==> (#[trigger] state.node_slots[i]) is Some,
        rows::join_row_of(engine, state) matches Ok(row) ==> {
            &&& locates(engine, state.node_slots[0]->0, row.source)
            &&& row.target matches Some(found) && locates(
                engine,
                state.node_slots[state.node_slots.len() - 1]->0,
                found,
            )
            &&& row.rel_start is None && row.rel_end is None
            &&& row.path_nodes.len() == state.node_slots.len()
            &&& forall|k: int|
                0 <= k < row.path_nodes.len() ==> locates(
                    engine,
                    state.node_slots[k]->0,
                    #[trigger] row.path_nodes[k],
                )
            &&& row.path_relationships.len() == state.relationships.len()
            &&& forall|k: int|
                0 <= k < row.path_relationships.len() ==> relates(
                    engine,
                    state.relationships[k],
                    #[trigger] row.path_relationships[k],
                )
        },
{
    lemma_relationships_from(engine, state.relationships, 0, Seq::empty());
}

/// The row of a path has the coordinates of its nodes, of which the first and the last are
/// its source and target, the relationships of its steps, and the ends of the first.
pub proof fn lemma_path_rows_locate_nodes(engine: Engine, path: PathView)
    ensures
        rows::wildcard_row_of(engine, path) matches Ok(row) ==> {
            &&& path.nodes.len() > 0
            &&& locates(engine, path.nodes[0], row.source)
            &&& row.target matches Some(found) && locates(
                engine,
                path.nodes[path.nodes.len() - 1],
                found,
            )
            &&& row.path_nodes.len() == path.nodes.len()
            &&& forall|k: int|
                0 <= k < row.path_nodes.len() ==> locates(
                    engine,
                    path.nodes[k],
                    #[trigger] row.path_nodes[k],
                )
            &&& row.path_relationships.len() == path.relationships.len()
            &&& forall|k: int|
                0 <= k < row.path_relationships.len() ==> relates(
                    engine,
                    path.relationships[k],
                    #[trigger] row.path_relationships[k],
                )
            &&& row.path_relationships.len() == 0 ==> row.rel_start is None && row.rel_end is None
            &&& row.path_relationships.len() > 0 ==> row.rel_start == Some(
                row.path_relationships[0].start,
            ) && row.rel_end == Some(row.path_relationships[0].end)
        },
{
    lemma_relationships_from(engine, path.relationships, 0, Seq::empty());
}

/// A slot of a join takes exactly the visible nodes of its table; a segment of a path
/// ends at exactly the visible nodes, of its table where it has one.
pub proof fn lemma_slots_take_visible_nodes(
    join: JoinRules,
    slot: usize,
    path: WildcardRules,
    segment: PhysicalWildcardPathSegmentView,
    node_idx: u32,
)
    ensures
        execute_join::slot_takes(join, slot, node_idx) <==> join.engine.visible(
            join.deleted,
            node_idx,
            join.tenant,
        ) && join.engine.nodes@[node_idx as int].table_oid
            == join.plan.node_slots[slot as int].table_oid,
        execute_wildcard::ends_segment(path, segment, node_idx) <==> path.engine.visible(
            path.deleted,
            node_idx,
            path.tenant,
        ) && (segment.target_table_filter is None || segment.target_table_filter == Some(
            path.engine.nodes@[node_idx as int].table_oid,
        )),
{
}

/// Whether steps take the same edge: between the same nodes, whichever way, by the same
/// type.
pub open spec fn same_edge(a: GqlRelationshipStep, b: GqlRelationshipStep) -> bool {
    &&& a.type_id == b.type_id
    &&& a.orientation == b.orientation ==> a.from_idx == b.from_idx && a.to_idx == b.to_idx
    &&& a.orientation != b.orientation ==> a.from_idx == b.to_idx && a.to_idx == b.from_idx
}

/// Paths are told apart by the edges that they take.
pub proof fn lemma_paths_are_told_apart_by_edges(
    a: Seq<GqlRelationshipStep>,
    b: Seq<GqlRelationshipStep>,
)
    ensures
        execute_wildcard::path_key(a) == execute_wildcard::path_key(b) <==> {
            &&& a.len() == b.len()
            &&& forall|i: int| 0 <= i < a.len() ==> same_edge(#[trigger] a[i], b[i])
        },
{
    let x = execute_wildcard::path_key(a);
    let y = execute_wildcard::path_key(b);
    if x == y {
        assert(a.len() == x.len() && b.len() == y.len());
        assert forall|i: int| 0 <= i < a.len() implies same_edge(#[trigger] a[i], b[i]) by {
            assert(x[i] == y[i]);
        }
    }
    if a.len() == b.len() && forall|i: int| 0 <= i < a.len() ==> same_edge(#[trigger] a[i], b[i]) {
        assert forall|i: int| 0 <= i < x.len() implies x[i] == y[i] by {
            assert(same_edge(a[i], b[i]));
        }
        assert(x =~= y);
    }
}

// ---------------------------------------------------------------------------
// Types
// ---------------------------------------------------------------------------

proof fn lemma_position(registry: Seq<String>, rel_type: Seq<char>, from: int, at: int)
    requires
        0 <= from <= at < registry.len(),
        registry[at]@ == rel_type,
        forall|i: int| from <= i < at ==> (#[trigger] registry[i])@ != rel_type,
    ensures
        engine::type_position(registry, rel_type, from) == Some(at),
    decreases at - from,
{
    if from < at {
        assert(registry[from]@ != rel_type);
        lemma_position(registry, rel_type, from + 1, at);
    }
}

/// A relationship type is identified by where it first stands among the types of the
/// graph, and an identifier names the type that stands there.
pub proof fn lemma_types_are_positions(registry: Seq<String>, at: int)
    requires
        0 <= at < registry.len(),
        at <= 255,
        registry[at]@.len() > 0,
        forall|i: int| 0 <= i < at ==> (#[trigger] registry[i])@ != registry[at]@,
    ensures
        engine::type_id_of(registry, registry[at]@) matches Ok(id) && id == at,
        engine::type_label(registry, at as u8) matches Ok(label) && label == registry[at]@,
{
    lemma_position(registry, registry[at]@, 0, at);
}

} // verus!
