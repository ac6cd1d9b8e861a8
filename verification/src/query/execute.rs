//! Execution of relationship plans and node scans.
use vstd::prelude::*;

use crate::projection::tx_delta::{self, TxState};
use crate::query::engine::{self, edge_type_id, source_nodes, Engine};
use crate::query::expand::{self, expand_targets, ExpandRules, GqlTarget, TargetView};
use crate::query::names::NameSet;
use crate::query::physical_plan::{
    self, PhysicalNodeScan, PhysicalNodeScanView, PhysicalPlan, PhysicalPlanView,
};
use crate::query::rows::{
    self, cap_error, project_optional_row, project_row, Collector, CoordinateView,
    GqlNodeCoordinate, GqlNodeRow, GqlRow, RowView,
};
use crate::query::steps::GqlNeighbors;
use crate::query::walks;
use crate::safety::{GraphError, GraphErrorView, GraphResult};
use crate::views;

verus! {

// ---------------------------------------------------------------------------
// Relationship plans
// ---------------------------------------------------------------------------

/// A match of a source node.
pub enum SourceMatch {
    /// The source of an optional pattern without a match.
    Missing { source_idx: u32 },
    /// A source with its target.
    Found { source_idx: u32, target: TargetView },
}

/// The row of a match of a source node.
pub open spec fn match_row(engine: Engine, found: SourceMatch) -> Result<RowView, GraphErrorView> {
    match found {
        SourceMatch::Missing { source_idx } => Ok(rows::optional_row_of(engine, source_idx)),
        SourceMatch::Found { source_idx, target } => rows::row_of(engine, source_idx, target),
    }
}

/// How the matches of a plan become rows.
pub open spec fn plan_collector(engine: Engine, plan: PhysicalPlanView) -> Collector<
    SourceMatch,
    (),
    RowView,
> {
    Collector {
        cap: physical_plan::row_cap(plan.row_shape()) as nat,
        cap_is_error: physical_plan::cap_is_error(plan.row_shape()),
        key: |found: SourceMatch| None,
        project: |found: SourceMatch| match_row(engine, found),
    }
}

/// The matches of a source with targets.
pub open spec fn found_matches(source_idx: u32, targets: Seq<TargetView>) -> Seq<SourceMatch> {
    targets.map_values(|target: TargetView| SourceMatch::Found { source_idx, target })
}

/// The matches of one source: none where it is not live or deleted in the
/// transaction, and one without a target where an optional pattern finds none.
pub open spec fn source_matches(rules: ExpandRules, optional: bool, source_idx: u32) -> Seq<
    SourceMatch,
> {
    if !rules.engine.live(source_idx) || rules.deleted.contains(source_idx) {
        Seq::empty()
    } else {
        let targets = expand::matches_from(rules, source_idx);
        if targets.len() == 0 && optional {
            seq![SourceMatch::Missing { source_idx }]
        } else {
            found_matches(source_idx, targets)
        }
    }
}

/// The matches of the sources from `from` on.
pub open spec fn matches_of_sources(
    rules: ExpandRules,
    optional: bool,
    sources: Seq<u32>,
    from: int,
) -> Seq<SourceMatch>
    decreases sources.len() - from,
{
    if from >= sources.len() {
        Seq::empty()
    } else {
        source_matches(rules, optional, sources[from]) + matches_of_sources(
            rules,
            optional,
            sources,
            from + 1,
        )
    }
}

/// The rows of a relationship plan.
pub open spec fn executed(
    engine: Engine,
    plan: PhysicalPlanView,
    deleted: Set<u32>,
    tenant: Option<Seq<char>>,
) -> Result<Seq<RowView>, GraphErrorView> {
    if !engine.built {
        Err(GraphErrorView::NotBuilt)
    } else {
        match engine::type_id_of(engine.edge_type_registry@, plan.rel_type) {
            Err(error) => Err(error),
            Ok(type_id) => plan_collector(engine, plan).rows(
                matches_of_sources(
                    expand::plan_rules(engine, plan, type_id, deleted, tenant),
                    plan.optional,
                    engine.sources(plan.source_table_oid, tenant),
                    0,
                ),
            ),
        }
    }
}

/// The nodes of a match exist.
pub proof fn lemma_match_exists(rules: ExpandRules, source_idx: u32, target: TargetView)
    requires
        walks::is_match(rules, source_idx, target),
        source_idx < rules.engine.nodes@.len(),
    ensures
        rows::path_exists(rules.engine, target.path),
        target.step.node_idx < rules.engine.nodes@.len(),
{
    let path = target.path;
    let count = path.relationships.len();
    assert forall|i: int| 0 <= i < path.nodes.len() implies #[trigger] path.nodes[i]
        < rules.engine.nodes@.len() by {
        if i > 0 {
            assert(walks::walks_at(rules, path, i - 1));
        }
    }
    assert forall|i: int| 0 <= i < path.relationships.len() implies (
    #[trigger] path.relationships[i]).from_idx < rules.engine.nodes@.len()
        && path.relationships[i].to_idx < rules.engine.nodes@.len() by {
        assert(walks::walks_at(rules, path, i));
        assert(path.nodes[i] < rules.engine.nodes@.len());
    }
    assert(walks::walks_at(rules, path, count - 1));
}

fn collect_targets(
    engine: &Engine,
    Ghost(rules): Ghost<ExpandRules>,
    Ghost(collector): Ghost<Collector<SourceMatch, (), RowView>>,
    source_idx: u32,
    targets: &Vec<GqlTarget>,
    cap: usize,
    cap_is_error: bool,
    found: &mut Vec<GqlRow>,
) -> (result: GraphResult<()>)
    requires
        *engine == rules.engine,
        source_idx < engine.nodes@.len(),
        collector.cap == cap,
        collector.cap_is_error == cap_is_error,
        collector.key == (|m: SourceMatch| None::<()>),
        collector.project == (|m: SourceMatch| match_row(*engine, m)),
        views::views(targets@) == expand::matches_from(rules, source_idx),
    ensures
        match collector.after(
            found_matches(source_idx, views::views(targets@)),
            0,
            views::views(old(found)@),
            Set::empty(),
        ) {
            Ok((rows, _)) => result is Ok && views::views(final(found)@) == rows,
            Err(error) => result matches Err(given) && given@ == error,
        },
{
    let ghost all = found_matches(source_idx, views::views(targets@));
    let ghost start = views::views(found@);
    for i in 0..targets.len()
        invariant
            *engine == rules.engine,
            source_idx < engine.nodes@.len(),
            collector.cap == cap,
            collector.cap_is_error == cap_is_error,
            collector.key == (|m: SourceMatch| None::<()>),
            collector.project == (|m: SourceMatch| match_row(*engine, m)),
            views::views(targets@) == expand::matches_from(rules, source_idx),
            all == found_matches(source_idx, views::views(targets@)),
            start == views::views(old(found)@),
            collector.after(all, i as int, views::views(found@), Set::empty()) == collector.after(
                all,
                0,
                start,
                Set::empty(),
            ),
    {
        if found.len() >= cap {
            if cap_is_error {
                return Err(cap_error(cap));
            }
            return Ok(());
        }
        let ghost earlier = found@;
        proof {
            walks::lemma_matches_are_walks(rules, source_idx);
            assert(views::views(targets@)[i as int] == targets@[i as int]@);
            assert(walks::is_match(rules, source_idx, targets@[i as int]@));
            lemma_match_exists(rules, source_idx, targets@[i as int]@);
            assert(all[i as int] == SourceMatch::Found { source_idx, target: targets@[i as int]@ });
        }
        let row: GqlRow = project_row(engine, source_idx, &targets[i])?;
        found.push(row);
        proof {
            views::lemma_push(earlier, row);
        }
    }
    Ok(())
}

fn collect_source(
    neighbors: &GqlNeighbors,
    engine: &Engine,
    tx: &TxState,
    plan: &PhysicalPlan,
    Ghost(rules): Ghost<ExpandRules>,
    source_idx: u32,
    rel_type_id: u8,
    tenant: Option<&str>,
    found: &mut Vec<GqlRow>,
) -> (result: GraphResult<()>)
    requires
        engine.wf(),
        neighbors.engine == engine,
        source_idx < engine.nodes@.len(),
        rules == expand::plan_rules(
            *engine,
            plan@,
            rel_type_id,
            tx.recorded().deleted_nodes,
            engine::scope_of(tenant),
        ),
    ensures
        match plan_collector(*engine, plan@).after(
            source_matches(rules, plan.optional, source_idx),
            0,
            views::views(old(found)@),
            Set::empty(),
        ) {
            Ok((rows, _)) => result is Ok && views::views(final(found)@) == rows,
            Err(error) => result matches Err(given) && given@ == error,
        },
{
    let ghost collector = plan_collector(*engine, plan@);
    let cap: usize = plan.execution_row_cap();
    let cap_is_error: bool = plan.cap_exhaustion_is_error();
    if !engine.is_active(source_idx) || tx_delta::node_deleted(tx, source_idx) {
        return Ok(());
    }
    let targets: Vec<GqlTarget> = expand_targets(
        neighbors,
        engine,
        tx,
        plan,
        source_idx,
        rel_type_id,
        tenant,
    );
    if targets.len() == 0 && plan.optional {
        proof {
            reveal_with_fuel(Collector::<SourceMatch, (), RowView>::after, 2);
        }
        if found.len() >= cap {
            if cap_is_error {
                return Err(cap_error(cap));
            }
            return Ok(());
        }
        let ghost earlier = found@;
        let row: GqlRow = project_optional_row(engine, source_idx);
        found.push(row);
        proof {
            views::lemma_push(earlier, row);
        }
        return Ok(());
    }
    collect_targets(
        engine,
        Ghost(rules),
        Ghost(collector),
        source_idx,
        &targets,
        cap,
        cap_is_error,
        found,
    )
}

/// Execute a relationship plan.
pub fn execute(
    engine: &Engine,
    tx: &TxState,
    plan: &PhysicalPlan,
    tenant: Option<&str>,
) -> (result: GraphResult<Vec<GqlRow>>)
    requires
        engine.wf(),
    ensures
        match executed(*engine, plan@, tx.recorded().deleted_nodes, engine::scope_of(tenant)) {
            Ok(rows) => result matches Ok(given) && views::views(given@) == rows,
            Err(error) => result matches Err(given) && given@ == error,
        },
{
    if !engine.built {
        return Err(GraphError::NotBuilt);
    }
    let rel_type_id: u8 = edge_type_id(engine, plan.rel_type.as_str())?;
    let neighbors: GqlNeighbors = GqlNeighbors::new(engine);
    let mut found: Vec<GqlRow> = Vec::new();
    let sources: Vec<u32> = source_nodes(engine, plan.source_table_oid, tenant);
    let ghost scope = engine::scope_of(tenant);
    let ghost rules = expand::plan_rules(
        *engine,
        plan@,
        rel_type_id,
        tx.recorded().deleted_nodes,
        scope,
    );
    let ghost collector = plan_collector(*engine, plan@);
    proof {
        engine::lemma_sources_exist(engine, plan.source_table_oid, scope);
        assert(views::views(found@) =~= Seq::empty());
    }
    let cap: usize = plan.execution_row_cap();
    let cap_is_error: bool = plan.cap_exhaustion_is_error();
    for i in 0..sources.len()
        invariant
            engine.wf(),
            engine.built,
            engine::type_id_of(engine.edge_type_registry@, plan@.rel_type) == Ok::<
                u8,
                GraphErrorView,
            >(rel_type_id),
            neighbors.engine == engine,
            collector == plan_collector(*engine, plan@),
            collector.cap == cap,
            collector.cap_is_error == cap_is_error,
            scope == engine::scope_of(tenant),
            sources@ == engine.sources(plan.source_table_oid, scope),
            rules == expand::plan_rules(
                *engine,
                plan@,
                rel_type_id,
                tx.recorded().deleted_nodes,
                scope,
            ),
            forall|j: int| 0 <= j < sources@.len() ==> #[trigger] sources@[j] < engine.nodes@.len(),
            rows::goes_on(
                collector,
                matches_of_sources(rules, plan.optional, sources@, i as int),
                views::views(found@),
                Set::empty(),
            ) == collector.rows(matches_of_sources(rules, plan.optional, sources@, 0)),
    {
        let ghost here = source_matches(rules, plan.optional, sources@[i as int]);
        let ghost rest = matches_of_sources(rules, plan.optional, sources@, i + 1);
        let ghost before = views::views(found@);
        proof {
            rows::lemma_collect_both(collector, here, rest, 0, before, Set::empty());
            rows::lemma_no_keys(collector, here, 0, before);
        }
        collect_source(
            &neighbors,
            engine,
            tx,
            plan,
            Ghost(rules),
            sources[i],
            rel_type_id,
            tenant,
            &mut found,
        )?;
        if found.len() >= cap && !cap_is_error {
            return Ok(found);
        }
    }
    Ok(found)
}

// ---------------------------------------------------------------------------
// Node scans
// ---------------------------------------------------------------------------

/// How the keys of a node scan become rows: each key once.
pub open spec fn scan_collector(plan: PhysicalNodeScanView) -> Collector<
    Seq<char>,
    Seq<char>,
    CoordinateView,
> {
    Collector {
        cap: physical_plan::row_cap(plan.row_shape()) as nat,
        cap_is_error: physical_plan::cap_is_error(plan.row_shape()),
        key: |key: Seq<char>| Some(key),
        project: |key: Seq<char>|
            Ok(CoordinateView { table_oid: plan.table_oid, node_id: key }),
    }
}

/// The primary keys of the nodes that are live and not deleted.
pub open spec fn live_keys(engine: Engine, deleted: Set<u32>, nodes: Seq<u32>) -> Seq<Seq<char>> {
    nodes.filter(
        |node_idx: u32| engine.live(node_idx) && !deleted.contains(node_idx),
    ).map_values(|node_idx: u32| engine.nodes@[node_idx as int].primary_key@)
}

/// The primary keys that a node scan finds: those of the graph, and after them
/// those that the transaction has added.
pub open spec fn scan_keys(
    engine: Engine,
    plan: PhysicalNodeScanView,
    delta: tx_delta::TxGraphDeltaView,
    tenant: Option<Seq<char>>,
) -> Seq<Seq<char>> {
    live_keys(engine, delta.deleted_nodes, engine.sources(plan.table_oid, tenant))
        + tx_delta::visible_node_keys(
        delta.added_nodes,
        plan.table_oid,
        tenant,
        engine.tenanted_table_oids@.contains(plan.table_oid),
    )
}

/// The rows of a node scan.
pub open spec fn executed_scan(
    engine: Engine,
    plan: PhysicalNodeScanView,
    delta: tx_delta::TxGraphDeltaView,
    tenant: Option<Seq<char>>,
) -> Result<Seq<CoordinateView>, GraphErrorView> {
    if !engine.built {
        Err(GraphErrorView::NotBuilt)
    } else {
        scan_collector(plan).rows(scan_keys(engine, plan, delta, tenant))
    }
}

fn source_keys(engine: &Engine, tx: &TxState, nodes: &Vec<u32>) -> (keys: Vec<String>)
    ensures
        tx_delta::texts(keys@) == live_keys(*engine, tx.recorded().deleted_nodes, nodes@),
{
    let mut keys: Vec<String> = Vec::new();
    let ghost deleted = tx.recorded().deleted_nodes;
    let ghost keep = |node_idx: u32| engine.live(node_idx) && !deleted.contains(node_idx);
    proof {
        reveal(Seq::filter);
        assert(tx_delta::texts(keys@) =~= live_keys(*engine, deleted, nodes@.take(0)));
    }
    for i in 0..nodes.len()
        invariant
            deleted == tx.recorded().deleted_nodes,
            keep == (|node_idx: u32| engine.live(node_idx) && !deleted.contains(node_idx)),
            tx_delta::texts(keys@) == live_keys(*engine, deleted, nodes@.take(i as int)),
    {
        let ghost earlier = keys@;
        proof {
            reveal(Seq::filter);
            assert(nodes@.take(i + 1).drop_last() =~= nodes@.take(i as int));
        }
        let node_idx: u32 = nodes[i];
        if engine.is_active(node_idx) && !tx_delta::node_deleted(tx, node_idx) {
            let key: String = engine.nodes[node_idx as usize].primary_key.clone();
            keys.push(key);
            proof {
                assert(tx_delta::texts(keys@) =~= tx_delta::texts(earlier).push(key@));
                assert(live_keys(*engine, deleted, nodes@.take(i + 1)) =~= live_keys(
                    *engine,
                    deleted,
                    nodes@.take(i as int),
                ).push(key@));
            }
        } else {
            assert(live_keys(*engine, deleted, nodes@.take(i + 1)) =~= live_keys(
                *engine,
                deleted,
                nodes@.take(i as int),
            ));
        }
    }
    assert(nodes@.take(nodes@.len() as int) =~= nodes@);
    keys
}

fn collect_keys(
    plan: &PhysicalNodeScan,
    keys: &Vec<String>,
    seen: &mut NameSet,
    found: &mut Vec<GqlNodeRow>,
) -> (result: GraphResult<()>)
    requires
        old(seen).wf(),
    ensures
        match scan_collector(plan@).after(
            tx_delta::texts(keys@),
            0,
            views::views(old(found)@),
            old(seen)@.to_set(),
        ) {
            Ok((rows, keys)) => {
                &&& result is Ok
                &&& views::views(final(found)@) == rows
                &&& final(seen)@.to_set() == keys
                &&& final(seen).wf()
            },
            Err(error) => result matches Err(given) && given@ == error,
        },
{
    let ghost collector = scan_collector(plan@);
    let ghost all = tx_delta::texts(keys@);
    let cap: usize = plan.execution_row_cap();
    let cap_is_error: bool = plan.cap_exhaustion_is_error();
    for i in 0..keys.len()
        invariant
            collector == scan_collector(plan@),
            collector.cap == cap,
            collector.cap_is_error == cap_is_error,
            all == tx_delta::texts(keys@),
            seen.wf(),
            collector.after(all, i as int, views::views(found@), seen@.to_set())
                == collector.after(all, 0, views::views(old(found)@), old(seen)@.to_set()),
    {
        if found.len() >= cap && !cap_is_error {
            return Ok(());
        }
        let key: &String = &keys[i];
        proof {
            assert(all[i as int] == key@);
            if seen@.contains(key@) {
                assert(seen@.to_set() =~= seen@.to_set().insert(key@));
            }
        }
        if seen.insert(key.as_str()) {
            if found.len() >= cap {
                return Err(cap_error(cap));
            }
            let ghost earlier = found@;
            let row: GqlNodeRow = GqlNodeRow {
                node: GqlNodeCoordinate { table_oid: plan.table_oid, node_id: key.clone() },
            };
            found.push(row);
            proof {
                views::lemma_push(earlier, row);
            }
        }
    }
    Ok(())
}

/// Execute a node scan.
pub fn execute_node_scan(
    engine: &Engine,
    tx: &TxState,
    plan: &PhysicalNodeScan,
    tenant: Option<&str>,
) -> (result: GraphResult<Vec<GqlNodeRow>>)
    requires
        engine.wf(),
    ensures
        match executed_scan(*engine, plan@, tx.recorded(), engine::scope_of(tenant)) {
            Ok(rows) => result matches Ok(given) && views::views(given@) == rows,
            Err(error) => result matches Err(given) && given@ == error,
        },
{
    if !engine.built {
        return Err(GraphError::NotBuilt);
    }
    let sources: Vec<u32> = source_nodes(engine, plan.table_oid, tenant);
    let live: Vec<String> = source_keys(engine, tx, &sources);
    let table_is_tenanted: bool = engine::lists_number(
        &engine.tenanted_table_oids,
        plan.table_oid,
    );
    let added: Vec<String> = tx_delta::added_node_keys(
        tx,
        plan.table_oid,
        tenant,
        table_is_tenanted,
    );
    let mut seen: NameSet = NameSet::new();
    let mut found: Vec<GqlNodeRow> = Vec::new();
    proof {
        assert(views::views(found@) =~= Seq::empty());
        assert(seen@.to_set() =~= Set::<Seq<char>>::empty());
        rows::lemma_collect_both(
            scan_collector(plan@),
            tx_delta::texts(live@),
            tx_delta::texts(added@),
            0,
            Seq::empty(),
            Set::empty(),
        );
    }
    collect_keys(plan, &live, &mut seen, &mut found)?;
    collect_keys(plan, &added, &mut seen, &mut found)?;
    Ok(found)
}

} // verus!
