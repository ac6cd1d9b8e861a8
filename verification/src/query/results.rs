//! What the rows of executed plans are.
use vstd::prelude::*;

use crate::projection::tx_delta;
use crate::query::engine::{self, Engine};
use crate::query::execute::{self, SourceMatch};
use crate::query::execute_join;
use crate::query::execute_wildcard;
use crate::query::expand::{self, ExpandRules, TargetView};
use crate::query::physical_plan::{
    self, PhysicalJoinPlanView, PhysicalNodeScanView, PhysicalPlanView,
    PhysicalWildcardPathPlanView,
};
use crate::query::rows::{self, CoordinateView, RowView};
use crate::query::walks;
use crate::safety::GraphErrorView;

verus! {

// ---------------------------------------------------------------------------
// Caps
// ---------------------------------------------------------------------------

/// No plan returns more rows than its cap.
pub proof fn lemma_results_within_cap(
    engine: Engine,
    plan: PhysicalPlanView,
    scan: PhysicalNodeScanView,
    join: PhysicalJoinPlanView,
    path: PhysicalWildcardPathPlanView,
    delta: tx_delta::TxGraphDeltaView,
    tenant: Option<Seq<char>>,
)
    ensures
        execute::executed(engine, plan, delta.deleted_nodes, tenant) matches Ok(found)
            ==> found.len() <= physical_plan::row_cap(plan.row_shape()),
        execute::executed_scan(engine, scan, delta, tenant) matches Ok(found) ==> found.len()
            <= physical_plan::row_cap(scan.row_shape()),
        execute_join::executed_join(engine, join, delta.deleted_nodes, tenant) matches Ok(found)
            ==> found.len() <= physical_plan::row_cap(join.row_shape()),
        execute_wildcard::executed_wildcard(
            engine,
            path,
            delta.deleted_nodes,
            tenant,
        ) matches Ok(found) ==> found.len() <= physical_plan::row_cap(path.row_shape()),
{
    let deleted = delta.deleted_nodes;
    if execute::executed(engine, plan, deleted, tenant) is Ok {
        let type_id = engine::type_id_of(engine.edge_type_registry@, plan.rel_type)->Ok_0;
        rows::lemma_rows_within_cap(
            execute::plan_collector(engine, plan),
            execute::matches_of_sources(
                expand::plan_rules(engine, plan, type_id, deleted, tenant),
                plan.optional,
                engine.sources(plan.source_table_oid, tenant),
                0,
            ),
        );
    }
    if execute::executed_scan(engine, scan, delta, tenant) is Ok {
        rows::lemma_rows_within_cap(
            execute::scan_collector(scan),
            execute::scan_keys(engine, scan, delta, tenant),
        );
    }
    if execute_join::executed_join(engine, join, deleted, tenant) is Ok {
        let type_ids = execute_join::type_ids_from(engine, join.patterns, 0, Seq::empty())->Ok_0;
        rows::lemma_rows_within_cap(
            execute_join::join_collector(engine, join),
            execute_join::join_matches(
                execute_join::JoinRules { engine, deleted, tenant, plan: join, type_ids },
                0,
                execute_join::unbound(join),
            ),
        );
    }
    if execute_wildcard::executed_wildcard(engine, path, deleted, tenant) is Ok {
        let filters = execute_wildcard::filters_from(
            engine,
            path.segments,
            0,
            Seq::empty(),
        )->Ok_0;
        rows::lemma_rows_within_cap(
            execute_wildcard::wildcard_collector(engine, path),
            execute_wildcard::matches_of_tables(
                execute_wildcard::WildcardRules {
                    engine,
                    deleted,
                    tenant,
                    segments: path.segments,
                    filters,
                },
                execute_wildcard::scanned_tables(path),
                0,
            ),
        );
    }
}

// ---------------------------------------------------------------------------
// Relationship plans
// ---------------------------------------------------------------------------

/// Whether a row is the result of a source: that of a match, or of none where the
/// pattern is optional.
pub open spec fn is_result(
    rules: ExpandRules,
    optional: bool,
    source_idx: u32,
    row: RowView,
) -> bool {
    ||| exists|target: TargetView| #[trigger]
        walks::is_match(rules, source_idx, target) && rows::row_of(
            rules.engine,
            source_idx,
            target,
        ) == Ok::<RowView, GraphErrorView>(row)
    ||| optional && expand::matches_from(rules, source_idx).len() == 0 && row
        == rows::optional_row_of(rules.engine, source_idx)
}

spec fn match_is_sound(
    rules: ExpandRules,
    optional: bool,
    sources: Seq<u32>,
    found: SourceMatch,
) -> bool {
    let source_idx = match found {
        SourceMatch::Missing { source_idx } => source_idx,
        SourceMatch::Found { source_idx, .. } => source_idx,
    };
    &&& sources.contains(source_idx)
    &&& rules.engine.live(source_idx) && !rules.deleted.contains(source_idx)
    &&& match found {
        SourceMatch::Missing { .. } => optional && expand::matches_from(rules, source_idx).len()
            == 0,
        SourceMatch::Found { target, .. } => walks::is_match(rules, source_idx, target),
    }
}

proof fn lemma_matches_sound(
    rules: ExpandRules,
    optional: bool,
    sources: Seq<u32>,
    from: int,
)
    requires
        0 <= from,
    ensures
        forall|i: int|
            0 <= i < execute::matches_of_sources(rules, optional, sources, from).len()
                ==> match_is_sound(
                rules,
                optional,
                sources,
                #[trigger] execute::matches_of_sources(rules, optional, sources, from)[i],
            ),
    decreases sources.len() - from,
{
    if from < sources.len() {
        lemma_matches_sound(rules, optional, sources, from + 1);
        walks::lemma_matches_are_walks(rules, sources[from]);
        let here = execute::source_matches(rules, optional, sources[from]);
        let rest = execute::matches_of_sources(rules, optional, sources, from + 1);
        let all = execute::matches_of_sources(rules, optional, sources, from);
        let targets = expand::matches_from(rules, sources[from]);
        assert forall|i: int| 0 <= i < all.len() implies match_is_sound(
            rules,
            optional,
            sources,
            #[trigger] all[i],
        ) by {
            if i < here.len() {
                assert(all[i] == here[i]);
                if targets.len() > 0 {
                    assert(here[i] == SourceMatch::Found {
                        source_idx: sources[from],
                        target: targets[i],
                    });
                }
            } else {
                assert(all[i] == rest[i - here.len()]);
            }
        }
    }
}

/// Every row of a relationship plan starts at a live node of the source table that
/// the tenant scope allows and the transaction has not deleted, and is that of a
/// match from it, or of none where the pattern is optional.
pub proof fn lemma_plan_rows_are_matches(
    engine: Engine,
    plan: PhysicalPlanView,
    deleted: Set<u32>,
    tenant: Option<Seq<char>>,
    at: int,
)
    requires
        engine.wf(),
        execute::executed(engine, plan, deleted, tenant) is Ok,
        0 <= at < execute::executed(engine, plan, deleted, tenant)->Ok_0.len(),
    ensures
        exists|source_idx: u32| #[trigger]
            engine.visible(deleted, source_idx, tenant) && engine.sources(
                plan.source_table_oid,
                tenant,
            ).contains(source_idx) && is_result(
                expand::plan_rules(
                    engine,
                    plan,
                    engine::type_id_of(engine.edge_type_registry@, plan.rel_type)->Ok_0,
                    deleted,
                    tenant,
                ),
                plan.optional,
                source_idx,
                execute::executed(engine, plan, deleted, tenant)->Ok_0[at],
            ),
{
    let type_id = engine::type_id_of(engine.edge_type_registry@, plan.rel_type)->Ok_0;
    let rules = expand::plan_rules(engine, plan, type_id, deleted, tenant);
    let sources = engine.sources(plan.source_table_oid, tenant);
    let matches = execute::matches_of_sources(rules, plan.optional, sources, 0);
    let collector = execute::plan_collector(engine, plan);
    let row = execute::executed(engine, plan, deleted, tenant)->Ok_0[at];
    rows::lemma_rows_come_from_matches(collector, matches);
    assert(rows::is_row_of(collector, matches, row));
    let found = choose|found: SourceMatch| #[trigger]
        matches.contains(found) && (collector.project)(found) == Ok::<RowView, GraphErrorView>(row);
    lemma_matches_sound(rules, plan.optional, sources, 0);
    let i = choose|i: int| 0 <= i < matches.len() && matches[i] == found;
    assert(match_is_sound(rules, plan.optional, sources, matches[i]));
    engine::lemma_sources_exist(&engine, plan.source_table_oid, tenant);
    match found {
        SourceMatch::Missing { source_idx } => {
            let j = choose|j: int| 0 <= j < sources.len() && sources[j] == source_idx;
            assert(engine.allows(sources[j], tenant));
            assert(engine.visible(deleted, source_idx, tenant));
        },
        SourceMatch::Found { source_idx, target } => {
            let j = choose|j: int| 0 <= j < sources.len() && sources[j] == source_idx;
            assert(engine.allows(sources[j], tenant));
            assert(walks::is_match(rules, source_idx, target));
            assert(engine.visible(deleted, source_idx, tenant));
        },
    }
}

// ---------------------------------------------------------------------------
// Node scans
// ---------------------------------------------------------------------------

spec fn rows_of_keys(
    table_oid: u32,
    found: Seq<CoordinateView>,
    seen: Set<Seq<char>>,
) -> bool {
    &&& found.no_duplicates()
    &&& forall|i: int|
        0 <= i < found.len() ==> (#[trigger] found[i]).table_oid == table_oid && seen.contains(
            found[i].node_id,
        )
    &&& forall|key: Seq<char>| #[trigger]
        seen.contains(key) ==> found.contains(CoordinateView { table_oid, node_id: key })
}

proof fn lemma_scan_after(
    plan: PhysicalNodeScanView,
    keys: Seq<Seq<char>>,
    from: int,
    found: Seq<CoordinateView>,
    seen: Set<Seq<char>>,
)
    requires
        0 <= from,
        rows_of_keys(plan.table_oid, found, seen),
        execute::scan_collector(plan).after(keys, from, found, seen) is Ok,
    ensures
        ({
            let collector = execute::scan_collector(plan);
            let done = collector.after(keys, from, found, seen)->Ok_0;
            &&& rows_of_keys(plan.table_oid, done.0, done.1)
            &&& forall|key: Seq<char>| #[trigger] seen.contains(key) ==> done.1.contains(key)
            &&& collector.cap_is_error || done.0.len() < collector.cap ==> forall|i: int|
                from <= i < keys.len() ==> done.1.contains(#[trigger] keys[i])
        }),
    decreases keys.len() - from,
{
    let collector = execute::scan_collector(plan);
    if from < keys.len() && !(found.len() >= collector.cap && !collector.cap_is_error) {
        let key = keys[from];
        if seen.contains(key) {
            lemma_scan_after(plan, keys, from + 1, found, seen);
            let done = collector.after(keys, from, found, seen)->Ok_0;
            assert(done == collector.after(keys, from + 1, found, seen)->Ok_0);
            assert(done.1.contains(key));
        } else if found.len() < collector.cap {
            let row = CoordinateView { table_oid: plan.table_oid, node_id: key };
            let more = found.push(row);
            let now_seen = seen.insert(key);
            assert(rows_of_keys(plan.table_oid, more, now_seen)) by {
                assert forall|i: int, j: int|
                    0 <= i < more.len() && 0 <= j < more.len() && i != j implies more[i]
                    != more[j] by {
                    if i < found.len() && j < found.len() {
                        assert(found[i] != found[j]);
                    } else if i < found.len() {
                        assert(seen.contains(found[i].node_id));
                    } else {
                        assert(seen.contains(found[j].node_id));
                    }
                }
                assert(more[found.len() as int] == row);
                assert forall|k: Seq<char>| #[trigger] now_seen.contains(k) implies more.contains(
                    CoordinateView { table_oid: plan.table_oid, node_id: k },
                ) by {
                    if k != key {
                        let wanted = CoordinateView { table_oid: plan.table_oid, node_id: k };
                        assert(found.contains(wanted));
                        let i = choose|i: int| 0 <= i < found.len() && found[i] == wanted;
                        assert(more[i] == wanted);
                    }
                }
            }
            lemma_scan_after(plan, keys, from + 1, more, now_seen);
            let done = collector.after(keys, from, found, seen)->Ok_0;
            assert(done == collector.after(keys, from + 1, more, now_seen)->Ok_0);
            assert(now_seen.contains(key));
            assert(done.1.contains(key));
            assert forall|k: Seq<char>| #[trigger] seen.contains(k) implies done.1.contains(k) by {
                assert(now_seen.contains(k));
            }
        }
    }
}

/// A node scan returns no node twice. Where its cap does not cut it off, it returns
/// every live node of its table that the tenant scope allows and the transaction
/// has not deleted, and every one that the transaction has added.
pub proof fn lemma_scan_finds_each_node_once(
    engine: Engine,
    plan: PhysicalNodeScanView,
    delta: tx_delta::TxGraphDeltaView,
    tenant: Option<Seq<char>>,
)
    requires
        execute::executed_scan(engine, plan, delta, tenant) is Ok,
    ensures
        execute::executed_scan(engine, plan, delta, tenant)->Ok_0.no_duplicates(),
        physical_plan::cap_is_error(plan.row_shape()) || execute::executed_scan(
            engine,
            plan,
            delta,
            tenant,
        )->Ok_0.len() < physical_plan::row_cap(plan.row_shape()) ==> forall|i: int|
            0 <= i < execute::scan_keys(engine, plan, delta, tenant).len()
                ==> execute::executed_scan(engine, plan, delta, tenant)->Ok_0.contains(
                CoordinateView {
                    table_oid: plan.table_oid,
                    node_id: #[trigger] execute::scan_keys(engine, plan, delta, tenant)[i],
                },
            ),
{
    let keys = execute::scan_keys(engine, plan, delta, tenant);
    assert(rows_of_keys(plan.table_oid, Seq::empty(), Set::empty()));
    lemma_scan_after(plan, keys, 0, Seq::empty(), Set::empty());
}

} // verus!
