//! That plans leave nothing out.
use vstd::prelude::*;

use crate::query::engine::{self, Engine};
use crate::query::execute::{self, SourceMatch};
use crate::query::execute_join;
use crate::query::execute_wildcard::{self, WildcardRules};
use crate::query::expand::{self, ExpandRules, PathView, TargetView};
use crate::query::join_laws;
use crate::query::physical_plan::{
    self, PhysicalJoinPlanView, PhysicalPlanView, PhysicalWildcardPathPlanView,
};
use crate::query::rows::{self, Collector, JoinView};
use crate::query::wildcard_laws;
use crate::safety::GraphErrorView;

verus! {

// ---------------------------------------------------------------------------
// Collected rows
// ---------------------------------------------------------------------------

proof fn lemma_rows_from<M, K, R>(
    collector: Collector<M, K, R>,
    matches: Seq<M>,
    from: int,
    rows: Seq<R>,
    seen: Set<K>,
)
    requires
        forall|m: M| (#[trigger] (collector.key)(m)) is None,
        0 <= from <= matches.len(),
        rows.len() == from,
        from <= collector.cap,
        forall|i: int|
            0 <= i < from ==> (collector.project)(matches[i]) == Ok::<_, GraphErrorView>(
                #[trigger] rows[i],
            ),
        collector.after(matches, from, rows, seen) is Ok,
    ensures
        ({
            let found = collector.after(matches, from, rows, seen)->Ok_0.0;
            &&& found.len() == (if matches.len() <= collector.cap {
                matches.len()
            } else {
                collector.cap
            })
            &&& collector.cap_is_error ==> matches.len() <= collector.cap
            &&& forall|i: int|
                0 <= i < found.len() ==> (collector.project)(matches[i]) == Ok::<_, GraphErrorView>(
                    #[trigger] found[i],
                )
        }),
    decreases matches.len() - from,
{
    if from < matches.len() && !(rows.len() >= collector.cap && !collector.cap_is_error) {
        assert((collector.key)(matches[from]) is None);
        if rows.len() < collector.cap {
            if let Ok(row) = (collector.project)(matches[from]) {
                lemma_rows_from(collector, matches, from + 1, rows.push(row), seen);
            }
        }
    }
}

/// Where matches are not told apart, the rows are those of the matches, one by one and in
/// their order, up to the cap; where exceeding the cap is an error, there is none beyond.
pub proof fn lemma_every_match_has_its_row<M, K, R>(
    collector: Collector<M, K, R>,
    matches: Seq<M>,
)
    requires
        forall|m: M| (#[trigger] (collector.key)(m)) is None,
        collector.rows(matches) is Ok,
    ensures
        ({
            let found = collector.rows(matches)->Ok_0;
            &&& found.len() == (if matches.len() <= collector.cap {
                matches.len()
            } else {
                collector.cap
            })
            &&& collector.cap_is_error ==> matches.len() <= collector.cap
            &&& forall|i: int|
                0 <= i < found.len() ==> (collector.project)(matches[i]) == Ok::<_, GraphErrorView>(
                    #[trigger] found[i],
                )
        }),
{
    lemma_rows_from(collector, matches, 0, Seq::empty(), Set::empty());
}

/// Whether a row is that of a match with a key.
pub open spec fn has_row_of_key<M, K, R>(
    collector: Collector<M, K, R>,
    matches: Seq<M>,
    found: Seq<R>,
    key: Option<K>,
) -> bool {
    exists|i: int, r: int|
        0 <= i < matches.len() && 0 <= r < found.len() && (collector.key)(
            #[trigger] matches[i],
        ) == key && (collector.project)(matches[i]) == Ok::<_, GraphErrorView>(#[trigger] found[r])
}

proof fn lemma_more_rows<M, K, R>(
    collector: Collector<M, K, R>,
    matches: Seq<M>,
    found: Seq<R>,
    row: R,
    key: Option<K>,
)
    requires
        has_row_of_key(collector, matches, found, key),
    ensures
        has_row_of_key(collector, matches, found.push(row), key),
{
    let (i, r) = choose|i: int, r: int|
        0 <= i < matches.len() && 0 <= r < found.len() && (collector.key)(
            #[trigger] matches[i],
        ) == key && (collector.project)(matches[i]) == Ok::<_, GraphErrorView>(
            #[trigger] found[r],
        );
    let more = found.push(row);
    assert(more[r] == found[r]);
    assert((collector.key)(matches[i]) == key);
}

proof fn lemma_keys_from<M, K, R>(
    collector: Collector<M, K, R>,
    matches: Seq<M>,
    from: int,
    found: Seq<R>,
    seen: Set<K>,
    at: int,
)
    requires
        0 <= from <= matches.len(),
        0 <= at < matches.len(),
        (collector.key)(matches[at]) is Some,
        at < from ==> seen.contains((collector.key)(matches[at])->0),
        seen.contains((collector.key)(matches[at])->0) ==> has_row_of_key(
            collector,
            matches,
            found,
            (collector.key)(matches[at]),
        ),
        collector.after(matches, from, found, seen) is Ok,
        collector.cap_is_error || collector.after(matches, from, found, seen)->Ok_0.0.len()
            < collector.cap,
    ensures
        has_row_of_key(
            collector,
            matches,
            collector.after(matches, from, found, seen)->Ok_0.0,
            (collector.key)(matches[at]),
        ),
    decreases matches.len() - from,
{
    let wanted = (collector.key)(matches[at]);
    if from < matches.len() && !(found.len() >= collector.cap && !collector.cap_is_error) {
        let key = (collector.key)(matches[from]);
        if key is Some && seen.contains(key->0) {
            lemma_keys_from(collector, matches, from + 1, found, seen, at);
        } else if found.len() < collector.cap {
            let now_seen = if key is Some {
                seen.insert(key->0)
            } else {
                seen
            };
            if let Ok(row) = (collector.project)(matches[from]) {
                let more = found.push(row);
                if key == wanted {
                    assert(more[found.len() as int] == row);
                    assert((collector.key)(matches[from]) == wanted);
                    assert(has_row_of_key(collector, matches, more, wanted));
                } else if seen.contains(wanted->0) {
                    lemma_more_rows(collector, matches, found, row, wanted);
                }
                lemma_keys_from(collector, matches, from + 1, more, now_seen, at);
            }
        }
    }
}

/// Where matches are told apart by a key and the cap does not cut them off, every match
/// has a row: that of a match with the same key.
pub proof fn lemma_every_key_has_a_row<M, K, R>(
    collector: Collector<M, K, R>,
    matches: Seq<M>,
    at: int,
)
    requires
        0 <= at < matches.len(),
        (collector.key)(matches[at]) is Some,
        collector.rows(matches) is Ok,
        collector.cap_is_error || collector.rows(matches)->Ok_0.len() < collector.cap,
    ensures
        has_row_of_key(
            collector,
            matches,
            collector.rows(matches)->Ok_0,
            (collector.key)(matches[at]),
        ),
{
    lemma_keys_from(collector, matches, 0, Seq::empty(), Set::empty(), at);
}

// ---------------------------------------------------------------------------
// Relationship plans
// ---------------------------------------------------------------------------

proof fn lemma_sources_from(
    rules: ExpandRules,
    optional: bool,
    sources: Seq<u32>,
    from: int,
    at: int,
    found: SourceMatch,
)
    requires
        0 <= from <= at < sources.len(),
        execute::source_matches(rules, optional, sources[at]).contains(found),
    ensures
        execute::matches_of_sources(rules, optional, sources, from).contains(found),
    decreases sources.len() - from,
{
    let here = execute::source_matches(rules, optional, sources[from]);
    let rest = execute::matches_of_sources(rules, optional, sources, from + 1);
    let all = execute::matches_of_sources(rules, optional, sources, from);
    if from == at {
        let i = choose|i: int| 0 <= i < here.len() && here[i] == found;
        assert(all[i] == found);
    } else {
        lemma_sources_from(rules, optional, sources, from + 1, at, found);
        let i = choose|i: int| 0 <= i < rest.len() && rest[i] == found;
        assert(all[here.len() + i] == found);
    }
}

/// A relationship plan that its cap does not cut off returns a row for every match of
/// every source that is live and not deleted in the transaction; and where the pattern is
/// optional, one for every such source without a match.
pub proof fn lemma_plan_returns_every_match(
    engine: Engine,
    plan: PhysicalPlanView,
    deleted: Set<u32>,
    tenant: Option<Seq<char>>,
    source_idx: u32,
    target: TargetView,
)
    requires
        execute::executed(engine, plan, deleted, tenant) is Ok,
        physical_plan::cap_is_error(plan.row_shape()) || execute::executed(
            engine,
            plan,
            deleted,
            tenant,
        )->Ok_0.len() < physical_plan::row_cap(plan.row_shape()),
        engine.sources(plan.source_table_oid, tenant).contains(source_idx),
        engine.live(source_idx),
        !deleted.contains(source_idx),
    ensures
        ({
            let found = execute::executed(engine, plan, deleted, tenant)->Ok_0;
            let targets = expand::matches_from(
                expand::plan_rules(
                    engine,
                    plan,
                    engine::type_id_of(engine.edge_type_registry@, plan.rel_type)->Ok_0,
                    deleted,
                    tenant,
                ),
                source_idx,
            );
            &&& targets.contains(target) ==> exists|r: int|
                0 <= r < found.len() && rows::row_of(engine, source_idx, target) == Ok::<
                    _,
                    GraphErrorView,
                >(#[trigger] found[r])
            &&& plan.optional && targets.len() == 0 ==> found.contains(
                rows::optional_row_of(engine, source_idx),
            )
        }),
{
    let type_id = engine::type_id_of(engine.edge_type_registry@, plan.rel_type)->Ok_0;
    let rules = expand::plan_rules(engine, plan, type_id, deleted, tenant);
    let sources = engine.sources(plan.source_table_oid, tenant);
    let matches = execute::matches_of_sources(rules, plan.optional, sources, 0);
    let collector = execute::plan_collector(engine, plan);
    let found = execute::executed(engine, plan, deleted, tenant)->Ok_0;
    let targets = expand::matches_from(rules, source_idx);
    let at = choose|at: int| 0 <= at < sources.len() && sources[at] == source_idx;
    let here = execute::source_matches(rules, plan.optional, source_idx);
    lemma_every_match_has_its_row(collector, matches);
    if targets.contains(target) {
        let wanted = SourceMatch::Found { source_idx, target };
        let i = choose|i: int| 0 <= i < targets.len() && targets[i] == target;
        assert(here[i] == wanted);
        lemma_sources_from(rules, plan.optional, sources, 0, at, wanted);
        let r = choose|r: int| 0 <= r < matches.len() && matches[r] == wanted;
        assert(rows::row_of(engine, source_idx, target) == Ok::<_, GraphErrorView>(found[r]));
    }
    if plan.optional && targets.len() == 0 {
        let wanted = SourceMatch::Missing { source_idx };
        assert(here[0] == wanted);
        lemma_sources_from(rules, plan.optional, sources, 0, at, wanted);
        let r = choose|r: int| 0 <= r < matches.len() && matches[r] == wanted;
        assert(Ok::<_, GraphErrorView>(rows::optional_row_of(engine, source_idx)) == Ok::<
            _,
            GraphErrorView,
        >(found[r]));
    }
}

// ---------------------------------------------------------------------------
// Joins
// ---------------------------------------------------------------------------

/// A join that its cap does not cut off returns a row for every way to bind its patterns
/// to steps between nodes that are listed for their tables.
pub proof fn lemma_join_returns_every_binding(
    engine: Engine,
    plan: PhysicalJoinPlanView,
    deleted: Set<u32>,
    tenant: Option<Seq<char>>,
    full: JoinView,
)
    requires
        execute_join::slots_exist(plan),
        execute_join::executed_join(engine, plan, deleted, tenant) is Ok,
        physical_plan::cap_is_error(plan.row_shape()) || execute_join::executed_join(
            engine,
            plan,
            deleted,
            tenant,
        )->Ok_0.len() < physical_plan::row_cap(plan.row_shape()),
        join_laws::binds_patterns(
            join_laws::rules_of(engine, plan, deleted, tenant),
            full,
            plan.patterns.len(),
        ),
        join_laws::nodes_are_listed(join_laws::rules_of(engine, plan, deleted, tenant), full),
    ensures
        exists|r: int|
            0 <= r < execute_join::executed_join(engine, plan, deleted, tenant)->Ok_0.len()
                && rows::join_row_of(engine, full) == Ok::<_, GraphErrorView>(
                #[trigger] execute_join::executed_join(engine, plan, deleted, tenant)->Ok_0[r],
            ),
{
    let rules = join_laws::rules_of(engine, plan, deleted, tenant);
    let matches = execute_join::join_matches(rules, 0, execute_join::unbound(plan));
    let collector = execute_join::join_collector(engine, plan);
    let found = execute_join::executed_join(engine, plan, deleted, tenant)->Ok_0;
    join_laws::lemma_type_ids(engine, plan.patterns, 0, Seq::empty());
    join_laws::lemma_join_finds_bindings(rules, full);
    lemma_every_match_has_its_row(collector, matches);
    let r = choose|r: int| 0 <= r < matches.len() && matches[r] == full;
    assert(rows::join_row_of(engine, full) == Ok::<_, GraphErrorView>(found[r]));
}

// ---------------------------------------------------------------------------
// Paths
// ---------------------------------------------------------------------------

proof fn lemma_path_sources(rules: WildcardRules, sources: Seq<u32>, from: nat, at: int, path: PathView)
    requires
        from <= at < sources.len(),
        rules.engine.live(sources[at]),
        !rules.deleted.contains(sources[at]),
        execute_wildcard::path_matches(rules, 0, expand::path_start(sources[at])).contains(path),
    ensures
        execute_wildcard::matches_of_sources(rules, sources, from).contains(path),
    decreases sources.len() - from,
{
    let source_idx = sources[from as int];
    let here = if rules.engine.live(source_idx) && !rules.deleted.contains(source_idx) {
        execute_wildcard::path_matches(rules, 0, expand::path_start(source_idx))
    } else {
        Seq::empty()
    };
    let rest = execute_wildcard::matches_of_sources(rules, sources, from + 1);
    let all = execute_wildcard::matches_of_sources(rules, sources, from);
    if from == at {
        let i = choose|i: int| 0 <= i < here.len() && here[i] == path;
        assert(all[i] == path);
    } else {
        lemma_path_sources(rules, sources, from + 1, at, path);
        let i = choose|i: int| 0 <= i < rest.len() && rest[i] == path;
        assert(all[here.len() + i] == path);
    }
}

proof fn lemma_path_tables(
    rules: WildcardRules,
    table_oids: Seq<u32>,
    from: nat,
    at: int,
    path: PathView,
)
    requires
        from <= at < table_oids.len(),
        execute_wildcard::matches_of_sources(
            rules,
            rules.engine.sources(table_oids[at], rules.tenant),
            0,
        ).contains(path),
    ensures
        execute_wildcard::matches_of_tables(rules, table_oids, from).contains(path),
    decreases table_oids.len() - from,
{
    let here = execute_wildcard::matches_of_sources(
        rules,
        rules.engine.sources(table_oids[from as int], rules.tenant),
        0,
    );
    let rest = execute_wildcard::matches_of_tables(rules, table_oids, from + 1);
    let all = execute_wildcard::matches_of_tables(rules, table_oids, from);
    if from == at {
        let i = choose|i: int| 0 <= i < here.len() && here[i] == path;
        assert(all[i] == path);
    } else {
        lemma_path_tables(rules, table_oids, from + 1, at, path);
        let i = choose|i: int| 0 <= i < rest.len() && rest[i] == path;
        assert(all[here.len() + i] == path);
    }
}

/// Whether a table is one that a path starts from: the table of its first node's label,
/// or any of the labelled tables where it has none.
pub open spec fn starts_from(plan: PhysicalWildcardPathPlanView, table_oid: u32) -> bool {
    if let Some(only) = plan.source_table_filter {
        table_oid == only
    } else {
        plan.required_node_table_oids.contains(table_oid)
    }
}

/// Whether two paths take the same relationships, whichever way.
pub open spec fn same_relationships(a: PathView, b: PathView) -> bool {
    execute_wildcard::path_key(a.relationships) == execute_wildcard::path_key(b.relationships)
}

/// A path that its cap does not cut off returns a row for every walk that takes its
/// segments from a live node of a table that it starts from: the row of that walk, or of
/// one by the same relationships.
pub proof fn lemma_path_returns_every_walk(
    engine: Engine,
    plan: PhysicalWildcardPathPlanView,
    deleted: Set<u32>,
    tenant: Option<Seq<char>>,
    table_oid: u32,
    path: PathView,
)
    requires
        execute_wildcard::executed_wildcard(engine, plan, deleted, tenant) is Ok,
        physical_plan::cap_is_error(plan.row_shape()) || execute_wildcard::executed_wildcard(
            engine,
            plan,
            deleted,
            tenant,
        )->Ok_0.len() < physical_plan::row_cap(plan.row_shape()),
        wildcard_laws::is_wildcard_match(
            wildcard_laws::rules_of(engine, plan, deleted, tenant),
            path,
        ),
        starts_from(plan, table_oid),
        engine.sources(table_oid, tenant).contains(path.nodes[0]),
        engine.live(path.nodes[0]),
        !deleted.contains(path.nodes[0]),
    ensures
        exists|other: PathView, r: int|
            0 <= r < execute_wildcard::executed_wildcard(
                engine,
                plan,
                deleted,
                tenant,
            )->Ok_0.len() && #[trigger] same_relationships(other, path) && rows::wildcard_row_of(
                engine,
                other,
            ) == Ok::<_, GraphErrorView>(
                #[trigger] execute_wildcard::executed_wildcard(
                    engine,
                    plan,
                    deleted,
                    tenant,
                )->Ok_0[r],
            ),
{
    let rules = wildcard_laws::rules_of(engine, plan, deleted, tenant);
    let table_oids = execute_wildcard::scanned_tables(plan);
    let matches = execute_wildcard::matches_of_tables(rules, table_oids, 0);
    let collector = execute_wildcard::wildcard_collector(engine, plan);
    let found = execute_wildcard::executed_wildcard(engine, plan, deleted, tenant)->Ok_0;
    wildcard_laws::lemma_filters(engine, plan.segments, 0, Seq::empty());
    wildcard_laws::lemma_wildcard_finds_walks(rules, path);
    let sources = engine.sources(table_oid, tenant);
    let at = choose|at: int| 0 <= at < sources.len() && sources[at] == path.nodes[0];
    lemma_path_sources(rules, sources, 0, at, path);
    if plan.source_table_filter is Some {
        assert(table_oids[0] == table_oid);
    }
    assert(table_oids.contains(table_oid));
    let t = choose|t: int| 0 <= t < table_oids.len() && table_oids[t] == table_oid;
    lemma_path_tables(rules, table_oids, 0, t, path);
    let i = choose|i: int| 0 <= i < matches.len() && matches[i] == path;
    assert((collector.key)(matches[i]) is Some);
    lemma_every_key_has_a_row(collector, matches, i);
    let (j, r) = choose|j: int, r: int|
        0 <= j < matches.len() && 0 <= r < found.len() && (collector.key)(
            #[trigger] matches[j],
        ) == (collector.key)(matches[i]) && (collector.project)(matches[j]) == Ok::<
            _,
            GraphErrorView,
        >(#[trigger] found[r]);
    assert(same_relationships(matches[j], path));
}

} // verus!
