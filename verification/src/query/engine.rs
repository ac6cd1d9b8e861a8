//! Built graphs that queries execute against.
use vstd::prelude::*;
use vstd::string::StrSliceExecFns;

use crate::edge_store::EdgeStore;
use crate::projection::neighbors::EdgeOverlay;
use crate::projection::tx_delta::{self, TxState};
use crate::safety::{GraphError, GraphErrorView, GraphResult};
use crate::text::{self, concat3, decimal_text, same_text};

verus! {

/// A node of a built graph.
#[derive(Debug, Clone, PartialEq, Eq)]
pub struct GraphNode {
    /// Backing source table OID.
    pub table_oid: u32,
    /// Source row primary-key text.
    pub primary_key: String,
    /// Whether the node is live.
    pub active: bool,
}

/// Nodes of one table.
#[derive(Debug, Clone, PartialEq, Eq)]
pub struct TableMembership {
    pub table_oid: u32,
    /// Node indexes, ascending.
    pub nodes: Vec<u32>,
}

/// Nodes of one tenant.
#[derive(Debug, Clone, PartialEq, Eq)]
pub struct TenantMembership {
    pub tenant: String,
    /// Node indexes, ascending.
    pub nodes: Vec<u32>,
}

/// A built graph.
pub struct Engine {
    /// Whether the graph has been built.
    pub built: bool,
    /// Nodes by index.
    pub nodes: Vec<GraphNode>,
    /// Relationship types by type identifier.
    pub edge_type_registry: Vec<String>,
    /// Nodes by table; a table without an entry is found by scanning the nodes.
    pub table_membership: Vec<TableMembership>,
    /// Tables whose rows belong to tenants.
    pub tenanted_table_oids: Vec<u32>,
    /// Nodes by tenant.
    pub tenant_membership: Vec<TenantMembership>,
    /// Edges by source.
    pub edge_store: EdgeStore,
    /// Edges by target.
    pub reverse_edge_store: EdgeStore,
    /// Pending edges by source and by target, where there are any.
    pub edge_overlay: Option<(EdgeOverlay, EdgeOverlay)>,
}

// ---------------------------------------------------------------------------
// What a graph holds
// ---------------------------------------------------------------------------

/// The first entry from `from` on for a table.
pub open spec fn first_table(entries: Seq<TableMembership>, table_oid: u32, from: int) -> Option<
    Seq<u32>,
>
    decreases entries.len() - from,
{
    if from >= entries.len() {
        None
    } else if entries[from].table_oid == table_oid {
        Some(entries[from].nodes@)
    } else {
        first_table(entries, table_oid, from + 1)
    }
}

/// Whether a tenant has a node.
pub open spec fn tenant_has(entries: Seq<TenantMembership>, tenant: Seq<char>, node_idx: u32) -> bool {
    exists|i: int|
        0 <= i < entries.len() && (#[trigger] entries[i]).tenant@ == tenant
            && entries[i].nodes@.contains(node_idx)
}

/// The node indexes below `count` whose nodes are of a table.
pub open spec fn nodes_of_table(nodes: Seq<GraphNode>, table_oid: u32, count: int) -> Seq<u32>
    decreases count,
{
    if count <= 0 {
        Seq::empty()
    } else {
        let earlier = nodes_of_table(nodes, table_oid, count - 1);
        if nodes[count - 1].table_oid == table_oid {
            earlier.push((count - 1) as u32)
        } else {
            earlier
        }
    }
}

impl Engine {
    /// Whether the stores are ordered and all listed nodes exist.
    pub open spec fn wf(&self) -> bool {
        &&& self.nodes@.len() <= u32::MAX
        &&& self.edge_store.wf()
        &&& self.reverse_edge_store.wf()
        &&& forall|i: int, j: int|
            0 <= i < self.table_membership@.len() && 0 <= j
                < self.table_membership@[i].nodes@.len() ==> #[trigger] self.table_membership@[i].nodes@[j]
                < self.nodes@.len()
    }

    /// Whether a node index is that of a live node.
    pub open spec fn live(&self, node_idx: u32) -> bool {
        node_idx < self.nodes@.len() && self.nodes@[node_idx as int].active
    }

    /// Whether a tenant scope allows a node: nodes of tables without tenants are
    /// open to all.
    pub open spec fn allows(&self, node_idx: u32, tenant: Option<Seq<char>>) -> bool {
        match tenant {
            None => true,
            Some(tenant) => !self.tenanted_table_oids@.contains(
                self.nodes@[node_idx as int].table_oid,
            ) || tenant_has(self.tenant_membership@, tenant, node_idx),
        }
    }

    /// Whether a node is live, not deleted in the transaction and in the tenant
    /// scope.
    pub open spec fn visible(
        &self,
        deleted: Set<u32>,
        node_idx: u32,
        tenant: Option<Seq<char>>,
    ) -> bool {
        self.live(node_idx) && !deleted.contains(node_idx) && self.allows(node_idx, tenant)
    }

    /// Whether a node is live, of a table and in the tenant scope.
    pub open spec fn matches_table(
        &self,
        node_idx: u32,
        table_oid: u32,
        tenant: Option<Seq<char>>,
    ) -> bool {
        self.live(node_idx) && self.nodes@[node_idx as int].table_oid == table_oid && self.allows(
            node_idx,
            tenant,
        )
    }

    /// The nodes listed for a table.
    pub open spec fn table_nodes(&self, table_oid: u32) -> Seq<u32> {
        match first_table(self.table_membership@, table_oid, 0) {
            Some(nodes) => nodes,
            None => nodes_of_table(self.nodes@, table_oid, self.nodes@.len() as int),
        }
    }

    /// The nodes listed for a table that a tenant scope allows.
    pub open spec fn sources(&self, table_oid: u32, tenant: Option<Seq<char>>) -> Seq<u32> {
        self.table_nodes(table_oid).filter(|node_idx: u32| self.allows(node_idx, tenant))
    }
}

proof fn lemma_first_table(entries: Seq<TableMembership>, table_oid: u32, from: int, count: nat)
    requires
        0 <= from,
        forall|i: int, j: int|
            0 <= i < entries.len() && 0 <= j < entries[i].nodes@.len()
                ==> #[trigger] entries[i].nodes@[j] < count,
        first_table(entries, table_oid, from) is Some,
    ensures
        forall|j: int|
            0 <= j < first_table(entries, table_oid, from)->0.len()
                ==> #[trigger] first_table(entries, table_oid, from)->0[j] < count,
    decreases entries.len() - from,
{
    if from < entries.len() && entries[from].table_oid != table_oid {
        lemma_first_table(entries, table_oid, from + 1, count);
    }
}

proof fn lemma_nodes_of_table(nodes: Seq<GraphNode>, table_oid: u32, count: int)
    requires
        0 <= count <= nodes.len() <= u32::MAX,
    ensures
        forall|j: int|
            0 <= j < nodes_of_table(nodes, table_oid, count).len()
                ==> #[trigger] nodes_of_table(nodes, table_oid, count)[j] < count,
    decreases count,
{
    if count > 0 {
        lemma_nodes_of_table(nodes, table_oid, count - 1);
        let earlier = nodes_of_table(nodes, table_oid, count - 1);
        let all = nodes_of_table(nodes, table_oid, count);
        assert forall|j: int| 0 <= j < all.len() implies #[trigger] all[j] < count by {
            if j < earlier.len() {
                assert(all[j] == earlier[j]);
            }
        }
    }
}

/// The nodes listed for a table exist.
pub proof fn lemma_table_nodes_exist(engine: &Engine, table_oid: u32)
    requires
        engine.wf(),
    ensures
        forall|j: int|
            0 <= j < engine.table_nodes(table_oid).len()
                ==> #[trigger] engine.table_nodes(table_oid)[j] < engine.nodes@.len(),
{
    if first_table(engine.table_membership@, table_oid, 0) is Some {
        lemma_first_table(engine.table_membership@, table_oid, 0, engine.nodes@.len());
    } else {
        lemma_nodes_of_table(engine.nodes@, table_oid, engine.nodes@.len() as int);
    }
}

/// The sources of a table exist.
pub proof fn lemma_sources_exist(engine: &Engine, table_oid: u32, tenant: Option<Seq<char>>)
    requires
        engine.wf(),
    ensures
        forall|j: int|
            0 <= j < engine.sources(table_oid, tenant).len()
                ==> #[trigger] engine.sources(table_oid, tenant)[j] < engine.nodes@.len()
                && engine.allows(engine.sources(table_oid, tenant)[j], tenant),
{
    lemma_table_nodes_exist(engine, table_oid);
    let all = engine.table_nodes(table_oid);
    let keep = |node_idx: u32| engine.allows(node_idx, tenant);
    assert forall|j: int| 0 <= j < engine.sources(table_oid, tenant).len() implies #[trigger] engine.sources(
        table_oid,
        tenant,
    )[j] < engine.nodes@.len() && engine.allows(engine.sources(table_oid, tenant)[j], tenant) by {
        let x = all.filter(keep)[j];
        all.lemma_filter_pred(keep, j);
        crate::projection::layered::lemma_filter_member(all, keep, j);
        let i = choose|i: int| 0 <= i < all.len() && all[i] == x;
        assert(all[i] < engine.nodes@.len());
    }
}

// ---------------------------------------------------------------------------
// Building
// ---------------------------------------------------------------------------

impl Engine {
    /// A graph without nodes, not yet built.
    pub fn new() -> (engine: Engine)
        ensures
            engine.wf(),
            !engine.built,
            engine.nodes@.len() == 0,
            engine.edge_type_registry@.len() == 0,
            engine.table_membership@.len() == 0,
            engine.tenanted_table_oids@.len() == 0,
            engine.tenant_membership@.len() == 0,
            engine.edge_overlay is None,
    {
        Engine {
            built: false,
            nodes: Vec::new(),
            edge_type_registry: Vec::new(),
            table_membership: Vec::new(),
            tenanted_table_oids: Vec::new(),
            tenant_membership: Vec::new(),
            edge_store: EdgeStore::from_edges(0, Vec::new(), false),
            reverse_edge_store: EdgeStore::from_edges(0, Vec::new(), false),
            edge_overlay: None,
        }
    }

    /// Add a live node. Returns its index.
    pub fn add_node(&mut self, table_oid: u32, primary_key: String) -> (node_idx: u32)
        requires
            old(self).wf(),
            old(self).nodes@.len() < u32::MAX,
        ensures
            final(self).wf(),
            node_idx == old(self).nodes@.len(),
            final(self).nodes@ == old(self).nodes@.push(
                GraphNode { table_oid, primary_key, active: true },
            ),
            final(self).built == old(self).built,
            final(self).edge_type_registry == old(self).edge_type_registry,
            final(self).table_membership == old(self).table_membership,
            final(self).tenanted_table_oids == old(self).tenanted_table_oids,
            final(self).tenant_membership == old(self).tenant_membership,
            final(self).edge_store == old(self).edge_store,
            final(self).reverse_edge_store == old(self).reverse_edge_store,
            final(self).edge_overlay == old(self).edge_overlay,
    {
        let node_idx: u32 = self.nodes.len() as u32;
        self.nodes.push(GraphNode { table_oid, primary_key, active: true });
        node_idx
    }
}

// ---------------------------------------------------------------------------
// Reading
// ---------------------------------------------------------------------------

/// An optional text as a character sequence.
pub open spec fn scope_of(tenant: Option<&str>) -> Option<Seq<char>> {
    tx_delta::text_of(tenant)
}

/// Whether a list has a number.
pub fn lists_number(numbers: &Vec<u32>, wanted: u32) -> (found: bool)
    ensures
        found == numbers@.contains(wanted),
{
    for i in 0..numbers.len()
        invariant
            forall|j: int| 0 <= j < i ==> numbers@[j] != wanted,
    {
        if numbers[i] == wanted {
            assert(numbers@[i as int] == wanted);
            return true;
        }
    }
    false
}

/// The position of a relationship type from `from` on.
pub open spec fn type_position(registry: Seq<String>, rel_type: Seq<char>, from: int) -> Option<int>
    decreases registry.len() - from,
{
    if from >= registry.len() {
        None
    } else if registry[from]@ == rel_type {
        Some(from)
    } else {
        type_position(registry, rel_type, from + 1)
    }
}

/// The identifier of a relationship type: its position, in one byte.
pub open spec fn type_id_of(registry: Seq<String>, rel_type: Seq<char>) -> Result<u8, GraphErrorView> {
    match type_position(registry, rel_type, 0) {
        Some(at) => Ok((at % 256) as u8),
        None => Err(
            GraphErrorView::GqlExecution {
                reason: "relationship type `"@ + rel_type + "` is not present in the built graph"@,
            },
        ),
    }
}

/// The label of a type identifier.
pub open spec fn type_label(registry: Seq<String>, type_id: u8) -> Result<Seq<char>, GraphErrorView> {
    if type_id < registry.len() && registry[type_id as int]@.len() > 0 {
        Ok(registry[type_id as int]@)
    } else {
        Err(
            GraphErrorView::GqlExecution {
                reason: "relationship type id `"@ + text::decimal(type_id as nat)
                    + "` is not present in the built graph"@,
            },
        )
    }
}

/// The identifier of a relationship type: its position, in one byte.
pub fn edge_type_id(engine: &Engine, rel_type: &str) -> (result: GraphResult<u8>)
    ensures
        match type_id_of(engine.edge_type_registry@, rel_type@) {
            Ok(id) => result == Ok::<u8, GraphError>(id),
            Err(error) => result matches Err(given) && given@ == error,
        },
{
    for i in 0..engine.edge_type_registry.len()
        invariant
            type_position(engine.edge_type_registry@, rel_type@, i as int) == type_position(
                engine.edge_type_registry@,
                rel_type@,
                0,
            ),
    {
        if same_text(engine.edge_type_registry[i].as_str(), rel_type) {
            return Ok((i % 256) as u8);
        }
    }
    Err(
        GraphError::GqlExecution {
            reason: concat3(
                "relationship type `",
                rel_type,
                "` is not present in the built graph",
            ),
        },
    )
}

/// The label of a type identifier.
pub fn edge_type_label(engine: &Engine, type_id: u8) -> (result: GraphResult<String>)
    ensures
        crate::safety::outcome(result) == type_label(engine.edge_type_registry@, type_id),
{
    let at: usize = type_id as usize;
    if at < engine.edge_type_registry.len() {
        let label: &String = &engine.edge_type_registry[at];
        if label.as_str().unicode_len() > 0 {
            return Ok(label.clone());
        }
    }
    Err(
        GraphError::GqlExecution {
            reason: concat3(
                "relationship type id `",
                decimal_text(type_id as u64).as_str(),
                "` is not present in the built graph",
            ),
        },
    )
}

impl Engine {
    /// Whether a node index is that of a live node.
    pub fn is_active(&self, node_idx: u32) -> (active: bool)
        ensures
            active == self.live(node_idx),
    {
        (node_idx as usize) < self.nodes.len() && self.nodes[node_idx as usize].active
    }
}

/// Whether a tenant has a node.
fn tenant_lists(entries: &Vec<TenantMembership>, tenant: &str, node_idx: u32) -> (found: bool)
    ensures
        found == tenant_has(entries@, tenant@, node_idx),
{
    for i in 0..entries.len()
        invariant
            forall|j: int|
                0 <= j < i ==> !((#[trigger] entries@[j]).tenant@ == tenant@
                    && entries@[j].nodes@.contains(node_idx)),
    {
        if same_text(entries[i].tenant.as_str(), tenant) && lists_number(
            &entries[i].nodes,
            node_idx,
        ) {
            assert(entries@[i as int].tenant@ == tenant@);
            return true;
        }
    }
    false
}

/// Whether a tenant scope allows a node.
pub fn tenant_allows_node(engine: &Engine, node_idx: u32, tenant: Option<&str>) -> (allowed: bool)
    requires
        node_idx < engine.nodes@.len(),
    ensures
        allowed == engine.allows(node_idx, scope_of(tenant)),
{
    match tenant {
        None => true,
        Some(tenant) => {
            let table_oid: u32 = engine.nodes[node_idx as usize].table_oid;
            !lists_number(&engine.tenanted_table_oids, table_oid) || tenant_lists(
                &engine.tenant_membership,
                tenant,
                node_idx,
            )
        },
    }
}

/// Whether a node is live, of a table and in the tenant scope.
pub fn target_matches(engine: &Engine, target_idx: u32, table_oid: u32, tenant: Option<&str>) -> (matched:
    bool)
    ensures
        matched == engine.matches_table(target_idx, table_oid, scope_of(tenant)),
{
    engine.is_active(target_idx) && engine.nodes[target_idx as usize].table_oid == table_oid
        && tenant_allows_node(engine, target_idx, tenant)
}

/// Whether a node is live, not deleted in the transaction and in the tenant
/// scope.
pub fn wildcard_node_visible(engine: &Engine, tx: &TxState, target_idx: u32, tenant: Option<&str>) -> (visible:
    bool)
    ensures
        visible == engine.visible(tx.recorded().deleted_nodes, target_idx, scope_of(tenant)),
{
    engine.is_active(target_idx) && !tx_delta::node_deleted(tx, target_idx) && tenant_allows_node(
        engine,
        target_idx,
        tenant,
    )
}

fn table_node_list(engine: &Engine, table_oid: u32) -> (nodes: Vec<u32>)
    requires
        engine.wf(),
    ensures
        nodes@ == engine.table_nodes(table_oid),
{
    for i in 0..engine.table_membership.len()
        invariant
            first_table(engine.table_membership@, table_oid, i as int) == first_table(
                engine.table_membership@,
                table_oid,
                0,
            ),
    {
        if engine.table_membership[i].table_oid == table_oid {
            let listed: &Vec<u32> = &engine.table_membership[i].nodes;
            let mut nodes: Vec<u32> = Vec::new();
            for j in 0..listed.len()
                invariant
                    nodes@ == listed@.take(j as int),
            {
                nodes.push(listed[j]);
                assert(listed@.take(j + 1) =~= listed@.take(j as int).push(listed@[j as int]));
            }
            assert(listed@.take(listed@.len() as int) =~= listed@);
            return nodes;
        }
    }
    let mut nodes: Vec<u32> = Vec::new();
    for i in 0..engine.nodes.len()
        invariant
            engine.nodes@.len() <= u32::MAX,
            nodes@ == nodes_of_table(engine.nodes@, table_oid, i as int),
    {
        if engine.nodes[i].table_oid == table_oid {
            nodes.push(i as u32);
        }
    }
    nodes
}

/// The nodes listed for a table that a tenant scope allows.
pub fn source_nodes(engine: &Engine, table_oid: u32, tenant: Option<&str>) -> (nodes: Vec<u32>)
    requires
        engine.wf(),
    ensures
        nodes@ == engine.sources(table_oid, scope_of(tenant)),
{
    let listed: Vec<u32> = table_node_list(engine, table_oid);
    let mut nodes: Vec<u32> = Vec::new();
    let ghost keep = |node_idx: u32| engine.allows(node_idx, scope_of(tenant));
    proof {
        lemma_table_nodes_exist(engine, table_oid);
        reveal(Seq::filter);
        assert(nodes@ =~= listed@.take(0).filter(keep));
    }
    for i in 0..listed.len()
        invariant
            keep == (|node_idx: u32| engine.allows(node_idx, scope_of(tenant))),
            forall|j: int| 0 <= j < listed@.len() ==> #[trigger] listed@[j] < engine.nodes@.len(),
            nodes@ == listed@.take(i as int).filter(keep),
    {
        proof {
            reveal(Seq::filter);
            assert(listed@.take(i + 1).drop_last() =~= listed@.take(i as int));
        }
        if tenant_allows_node(engine, listed[i], tenant) {
            nodes.push(listed[i]);
        }
    }
    assert(listed@.take(listed@.len() as int) =~= listed@);
    nodes
}

} // verus!
