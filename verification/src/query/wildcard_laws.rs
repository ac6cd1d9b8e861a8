//! What holds of every wildcard path.
use vstd::prelude::*;

use crate::query::engine::{self, Engine};
use crate::query::execute_wildcard::{self, WildcardRules};
use crate::query::expand::{self, PathView};
use crate::query::physical_plan::{PhysicalWildcardPathPlanView, PhysicalWildcardPathSegmentView};
use crate::query::rows::{self, RowView};
use crate::query::steps::{self, GqlStepTarget};
use crate::query::walks;
use crate::safety::GraphErrorView;

verus! {

// ---------------------------------------------------------------------------
// Paths that take the segments
// ---------------------------------------------------------------------------

/// Whether relationship `i` of a path is a step of segment `at` to a visible node.
pub open spec fn step_taken(rules: WildcardRules, path: PathView, at: int, i: int) -> bool {
    &&& path.relationships[i].from_idx == path.nodes[i]
    &&& path.relationships[i].to_idx == path.nodes[i + 1]
    &&& steps::is_step(
        rules.engine,
        rules.segments[at].direction,
        path.nodes[i],
        rules.filters[at],
        walks::step_of(path.relationships[i]),
    )
    &&& rules.engine.visible(rules.deleted, path.nodes[i + 1], rules.tenant)
}

/// Whether the relationships of a path from `start` on to before `end` take segment
/// `at`: as many as it allows, to a node that ends it.
pub open spec fn segment_taken(
    rules: WildcardRules,
    path: PathView,
    at: int,
    start: int,
    end: int,
) -> bool {
    let segment = rules.segments[at];
    &&& 0 <= start <= end <= path.relationships.len()
    &&& segment.hops.min <= end - start <= segment.hops.max
    &&& execute_wildcard::ends_segment(rules, segment, path.nodes[end])
    &&& forall|i: int| start <= i < end ==> #[trigger] step_taken(rules, path, at, i)
}

/// Whether a path takes the first `count` segments, cut at the given places.
pub open spec fn takes_segments(
    rules: WildcardRules,
    path: PathView,
    cuts: Seq<int>,
    count: nat,
) -> bool {
    &&& path.nodes.len() == path.relationships.len() + 1
    &&& path.node_idx == path.nodes.last()
    &&& cuts.len() == count + 1
    &&& cuts[0] == 0
    &&& forall|at: int|
        0 <= at < count ==> #[trigger] segment_taken(rules, path, at, cuts[at], cuts[at + 1])
}

/// Whether a path is a walk over visible nodes that takes all segments, one after
/// the other.
pub open spec fn is_wildcard_match(rules: WildcardRules, path: PathView) -> bool {
    exists|cuts: Seq<int>| #[trigger]
        takes_segments(rules, path, cuts, rules.segments.len()) && cuts.last()
            == path.relationships.len()
}

spec fn all_match(rules: WildcardRules, source_idx: u32, found: Seq<PathView>) -> bool {
    forall|i: int|
        0 <= i < found.len() ==> is_wildcard_match(rules, #[trigger] found[i])
            && found[i].nodes[0] == source_idx
}

proof fn lemma_both_match(
    rules: WildcardRules,
    source_idx: u32,
    here: Seq<PathView>,
    rest: Seq<PathView>,
)
    requires
        all_match(rules, source_idx, here),
        all_match(rules, source_idx, rest),
    ensures
        all_match(rules, source_idx, here + rest),
{
    let all = here + rest;
    assert forall|i: int| 0 <= i < all.len() implies is_wildcard_match(rules, #[trigger] all[i])
        && all[i].nodes[0] == source_idx by {
        if i < here.len() {
            assert(all[i] == here[i]);
        } else {
            assert(all[i] == rest[i - here.len()]);
        }
    }
}

/// Whether a path that has taken the first `at` segments goes on with the next.
spec fn goes_on(rules: WildcardRules, path: PathView, cuts: Seq<int>, at: nat) -> bool {
    &&& takes_segments(rules, path, cuts, at)
    &&& 0 <= cuts.last() <= path.relationships.len()
    &&& forall|i: int|
        cuts.last() <= i < path.relationships.len() ==> #[trigger] step_taken(
            rules,
            path,
            at as int,
            i,
        )
}

/// A longer path has taken what the path before it has.
proof fn lemma_longer(
    rules: WildcardRules,
    path: PathView,
    cuts: Seq<int>,
    at: nat,
    step: GqlStepTarget,
)
    requires
        at < rules.segments.len(),
        at < rules.filters.len(),
        goes_on(rules, path, cuts, at),
        execute_wildcard::step_passes(rules, at, step),
        steps::is_step(
            rules.engine,
            rules.segments[at as int].direction,
            path.node_idx,
            None,
            step,
        ),
    ensures
        goes_on(rules, path.then_step(step), cuts, at),
        path.then_step(step).nodes[0] == path.nodes[0],
{
    let longer = path.then_step(step);
    let len = path.relationships.len() as int;
    assert forall|k: int| 0 <= k < at implies #[trigger] segment_taken(
        rules,
        longer,
        k,
        cuts[k],
        cuts[k + 1],
    ) by {
        assert(segment_taken(rules, path, k, cuts[k], cuts[k + 1]));
        assert(longer.nodes[cuts[k + 1]] == path.nodes[cuts[k + 1]]);
        assert forall|i: int| cuts[k] <= i < cuts[k + 1] implies #[trigger] step_taken(
            rules,
            longer,
            k,
            i,
        ) by {
            assert(step_taken(rules, path, k, i));
            assert(longer.relationships[i] == path.relationships[i]);
            assert(longer.nodes[i] == path.nodes[i] && longer.nodes[i + 1] == path.nodes[i + 1]);
        }
    }
    assert forall|i: int| cuts.last() <= i < longer.relationships.len() implies #[trigger] step_taken(
        rules,
        longer,
        at as int,
        i,
    ) by {
        if i < len {
            assert(step_taken(rules, path, at as int, i));
            assert(longer.relationships[i] == path.relationships[i]);
            assert(longer.nodes[i] == path.nodes[i] && longer.nodes[i + 1] == path.nodes[i + 1]);
        } else {
            assert(longer.nodes[i] == path.nodes.last());
            assert(walks::step_of(longer.relationships[i]) == step);
        }
    }
}

proof fn lemma_paths_match(rules: WildcardRules, at: nat, path: PathView, cuts: Seq<int>)
    requires
        rules.filters.len() == rules.segments.len(),
        at <= rules.segments.len(),
        takes_segments(rules, path, cuts, at),
        cuts.last() == path.relationships.len(),
    ensures
        all_match(rules, path.nodes[0], execute_wildcard::path_matches(rules, at, path)),
    decreases rules.segments.len() - at, u32::MAX as nat + 2, 0nat, 0nat,
{
    if at < rules.segments.len() {
        lemma_hops_match(rules, at, path, 0, cuts);
    }
}

proof fn lemma_hops_match(
    rules: WildcardRules,
    at: nat,
    path: PathView,
    hops: nat,
    cuts: Seq<int>,
)
    requires
        rules.filters.len() == rules.segments.len(),
        at < rules.segments.len(),
        hops <= rules.segments[at as int].hops.max,
        goes_on(rules, path, cuts, at),
        cuts.last() + hops == path.relationships.len(),
    ensures
        all_match(rules, path.nodes[0], execute_wildcard::matches_by_hops(rules, at, path, hops)),
    decreases
            rules.segments.len() - at,
            (if hops <= rules.segments[at as int].hops.max {
                rules.segments[at as int].hops.max + 1 - hops
            } else {
                0
            }),
            1nat,
            0nat,
{
    let segment = rules.segments[at as int];
    let ended = if hops >= segment.hops.min && execute_wildcard::ends_segment(
        rules,
        segment,
        path.node_idx,
    ) {
        let more = cuts.push(path.relationships.len() as int);
        assert(takes_segments(rules, path, more, at + 1)) by {
            assert forall|k: int| 0 <= k < at + 1 implies #[trigger] segment_taken(
                rules,
                path,
                k,
                more[k],
                more[k + 1],
            ) by {
                if k < at {
                    assert(segment_taken(rules, path, k, cuts[k], cuts[k + 1]));
                    assert(more[k] == cuts[k] && more[k + 1] == cuts[k + 1]);
                } else {
                    assert(more[k] == cuts.last());
                }
            }
        }
        lemma_paths_match(rules, at + 1, path, more);
        execute_wildcard::path_matches(rules, at + 1, path)
    } else {
        Seq::empty()
    };
    let longer = if hops >= segment.hops.max {
        Seq::empty()
    } else {
        let taken = steps::steps(rules.engine, segment.direction, path.node_idx, None);
        steps::lemma_steps(rules.engine, segment.direction, path.node_idx, None);
        lemma_steps_match(rules, at, path, hops, taken, 0, cuts);
        execute_wildcard::matches_by_step(rules, at, path, hops, taken, 0)
    };
    lemma_both_match(rules, path.nodes[0], ended, longer);
}

proof fn lemma_steps_match(
    rules: WildcardRules,
    at: nat,
    path: PathView,
    hops: nat,
    taken: Seq<GqlStepTarget>,
    from: nat,
    cuts: Seq<int>,
)
    requires
        rules.filters.len() == rules.segments.len(),
        at < rules.segments.len(),
        hops < rules.segments[at as int].hops.max,
        goes_on(rules, path, cuts, at),
        cuts.last() + hops == path.relationships.len(),
        forall|step: GqlStepTarget| #[trigger]
            taken.contains(step) ==> steps::is_step(
                rules.engine,
                rules.segments[at as int].direction,
                path.node_idx,
                None,
                step,
            ),
    ensures
        all_match(
            rules,
            path.nodes[0],
            execute_wildcard::matches_by_step(rules, at, path, hops, taken, from),
        ),
    decreases
            rules.segments.len() - at,
            (if hops <= rules.segments[at as int].hops.max {
                rules.segments[at as int].hops.max + 1 - hops
            } else {
                0
            }),
            0nat,
            taken.len() - from,
{
    if from < taken.len() {
        let step = taken[from as int];
        lemma_steps_match(rules, at, path, hops, taken, from + 1, cuts);
        let here = if execute_wildcard::step_passes(rules, at, step) {
            assert(taken.contains(step));
            lemma_longer(rules, path, cuts, at, step);
            lemma_hops_match(rules, at, path.then_step(step), hops + 1, cuts);
            execute_wildcard::matches_by_hops(rules, at, path.then_step(step), hops + 1)
        } else {
            Seq::empty()
        };
        lemma_both_match(
            rules,
            path.nodes[0],
            here,
            execute_wildcard::matches_by_step(rules, at, path, hops, taken, from + 1),
        );
    }
}

/// Every match of a wildcard path from a node is a walk from it, over visible
/// nodes, that takes each segment by as many steps of its type and direction as the
/// segment allows, to a node of the table that the segment asks for.
pub proof fn lemma_wildcard_matches_are_walks(rules: WildcardRules, source_idx: u32)
    requires
        rules.filters.len() == rules.segments.len(),
    ensures
        forall|i: int|
            0 <= i < execute_wildcard::path_matches(rules, 0, expand::path_start(source_idx)).len()
                ==> is_wildcard_match(
                rules,
                #[trigger] execute_wildcard::path_matches(
                    rules,
                    0,
                    expand::path_start(source_idx),
                )[i],
            ) && execute_wildcard::path_matches(
                rules,
                0,
                expand::path_start(source_idx),
            )[i].nodes[0] == source_idx,
{
    let start = expand::path_start(source_idx);
    assert(takes_segments(rules, start, seq![0int], 0));
    lemma_paths_match(rules, 0, start, seq![0int]);
}

// ---------------------------------------------------------------------------
// Every such path is found
// ---------------------------------------------------------------------------

spec fn prefix(path: PathView, count: int) -> PathView {
    PathView {
        node_idx: path.nodes[count],
        nodes: path.nodes.take(count + 1),
        relationships: path.relationships.take(count),
    }
}

/// A wildcard path finds every walk that takes its segments.
pub proof fn lemma_wildcard_finds_walks(rules: WildcardRules, path: PathView)
    requires
        rules.filters.len() == rules.segments.len(),
        is_wildcard_match(rules, path),
    ensures
        execute_wildcard::path_matches(rules, 0, expand::path_start(path.nodes[0])).contains(path),
{
    let cuts = choose|cuts: Seq<int>| #[trigger]
        takes_segments(rules, path, cuts, rules.segments.len()) && cuts.last()
            == path.relationships.len();
    lemma_walk_found(rules, path, cuts, 0);
    let start = expand::path_start(path.nodes[0]);
    assert(prefix(path, 0).nodes =~= start.nodes);
    assert(prefix(path, 0).relationships =~= start.relationships);
}

proof fn lemma_part_found(here: Seq<PathView>, rest: Seq<PathView>, path: PathView)
    requires
        here.contains(path) || rest.contains(path),
    ensures
        (here + rest).contains(path),
{
    let all = here + rest;
    if here.contains(path) {
        let i = choose|i: int| 0 <= i < here.len() && here[i] == path;
        assert(all[i] == path);
    } else {
        let i = choose|i: int| 0 <= i < rest.len() && rest[i] == path;
        assert(all[here.len() + i] == path);
    }
}

proof fn lemma_walk_found(rules: WildcardRules, path: PathView, cuts: Seq<int>, at: nat)
    requires
        rules.filters.len() == rules.segments.len(),
        at <= rules.segments.len(),
        takes_segments(rules, path, cuts, rules.segments.len()),
        cuts.last() == path.relationships.len(),
    ensures
        execute_wildcard::path_matches(rules, at, prefix(path, cuts[at as int])).contains(path),
    decreases rules.segments.len() - at, 1nat, 0nat,
{
    if at >= rules.segments.len() {
        let whole = prefix(path, cuts[at as int]);
        assert(whole.nodes =~= path.nodes);
        assert(whole.relationships =~= path.relationships);
        assert(execute_wildcard::path_matches(rules, at, whole)[0] == path);
    } else {
        assert(segment_taken(rules, path, at as int, cuts[at as int], cuts[at as int + 1]));
        lemma_hops_found(rules, path, cuts, at, 0);
    }
}

proof fn lemma_hops_found(
    rules: WildcardRules,
    path: PathView,
    cuts: Seq<int>,
    at: nat,
    hops: nat,
)
    requires
        rules.filters.len() == rules.segments.len(),
        at < rules.segments.len(),
        takes_segments(rules, path, cuts, rules.segments.len()),
        cuts.last() == path.relationships.len(),
        hops <= cuts[at as int + 1] - cuts[at as int],
    ensures
        execute_wildcard::matches_by_hops(
            rules,
            at,
            prefix(path, cuts[at as int] + hops),
            hops,
        ).contains(path),
    decreases rules.segments.len() - at, 0nat, cuts[at as int + 1] - cuts[at as int] - hops,
{
    let segment = rules.segments[at as int];
    let here = cuts[at as int] + hops;
    let now = prefix(path, here);
    assert(segment_taken(rules, path, at as int, cuts[at as int], cuts[at as int + 1]));
    let ended = if hops >= segment.hops.min && execute_wildcard::ends_segment(
        rules,
        segment,
        now.node_idx,
    ) {
        execute_wildcard::path_matches(rules, at + 1, now)
    } else {
        Seq::empty()
    };
    let longer = if hops >= segment.hops.max {
        Seq::empty()
    } else {
        execute_wildcard::matches_by_step(
            rules,
            at,
            now,
            hops,
            steps::steps(rules.engine, segment.direction, now.node_idx, None),
            0,
        )
    };
    if hops == cuts[at as int + 1] - cuts[at as int] {
        lemma_walk_found(rules, path, cuts, at + 1);
        assert(ended.contains(path));
    } else {
        assert(step_taken(rules, path, at as int, here));
        let step = walks::step_of(path.relationships[here]);
        let taken = steps::steps(rules.engine, segment.direction, now.node_idx, None);
        steps::lemma_steps(rules.engine, segment.direction, now.node_idx, None);
        assert(steps::is_step(rules.engine, segment.direction, now.node_idx, None, step));
        assert(taken.contains(step));
        let t = choose|t: int| 0 <= t < taken.len() && taken[t] == step;
        let next = now.then_step(step);
        let wanted = prefix(path, here + 1);
        assert(next.nodes =~= wanted.nodes);
        assert(next.relationships =~= wanted.relationships);
        lemma_hops_found(rules, path, cuts, at, hops + 1);
        assert(execute_wildcard::step_passes(rules, at, step));
        lemma_step_found(rules, at, now, hops, taken, 0, t, path);
        assert(longer.contains(path));
    }
    lemma_part_found(ended, longer, path);
}

proof fn lemma_step_found(
    rules: WildcardRules,
    at: nat,
    now: PathView,
    hops: nat,
    taken: Seq<GqlStepTarget>,
    from: nat,
    wanted: int,
    path: PathView,
)
    requires
        at < rules.segments.len(),
        hops < rules.segments[at as int].hops.max,
        from <= wanted < taken.len(),
        execute_wildcard::step_passes(rules, at, taken[wanted]),
        execute_wildcard::matches_by_hops(
            rules,
            at,
            now.then_step(taken[wanted]),
            hops + 1,
        ).contains(path),
    ensures
        execute_wildcard::matches_by_step(rules, at, now, hops, taken, from).contains(path),
    decreases taken.len() - from,
{
    let here = if execute_wildcard::step_passes(rules, at, taken[from as int]) {
        execute_wildcard::matches_by_hops(rules, at, now.then_step(taken[from as int]), hops + 1)
    } else {
        Seq::empty()
    };
    let rest = execute_wildcard::matches_by_step(rules, at, now, hops, taken, from + 1);
    if from < wanted {
        lemma_step_found(rules, at, now, hops, taken, from + 1, wanted, path);
    }
    lemma_part_found(here, rest, path);
}

// ---------------------------------------------------------------------------
// Sources
// ---------------------------------------------------------------------------

/// Whether a path starts at a visible node that is listed for one of the tables.
pub open spec fn starts_in(rules: WildcardRules, table_oids: Seq<u32>, path: PathView) -> bool {
    &&& rules.engine.visible(rules.deleted, path.nodes[0], rules.tenant)
    &&& exists|i: int|
        0 <= i < table_oids.len() && rules.engine.sources(
            #[trigger] table_oids[i],
            rules.tenant,
        ).contains(path.nodes[0])
}

spec fn all_start_in(
    rules: WildcardRules,
    table_oids: Seq<u32>,
    found: Seq<PathView>,
) -> bool {
    forall|i: int|
        0 <= i < found.len() ==> is_wildcard_match(rules, #[trigger] found[i]) && starts_in(
            rules,
            table_oids,
            found[i],
        )
}

proof fn lemma_both_start_in(
    rules: WildcardRules,
    table_oids: Seq<u32>,
    here: Seq<PathView>,
    rest: Seq<PathView>,
)
    requires
        all_start_in(rules, table_oids, here),
        all_start_in(rules, table_oids, rest),
    ensures
        all_start_in(rules, table_oids, here + rest),
{
    let all = here + rest;
    assert forall|i: int| 0 <= i < all.len() implies is_wildcard_match(rules, #[trigger] all[i])
        && starts_in(rules, table_oids, all[i]) by {
        if i < here.len() {
            assert(all[i] == here[i]);
        } else {
            assert(all[i] == rest[i - here.len()]);
        }
    }
}

proof fn lemma_sources_start_in(
    rules: WildcardRules,
    table_oids: Seq<u32>,
    at: int,
    from: nat,
)
    requires
        rules.engine.wf(),
        rules.filters.len() == rules.segments.len(),
        0 <= at < table_oids.len(),
    ensures
        all_start_in(
            rules,
            table_oids,
            execute_wildcard::matches_of_sources(
                rules,
                rules.engine.sources(table_oids[at], rules.tenant),
                from,
            ),
        ),
    decreases rules.engine.sources(table_oids[at], rules.tenant).len() - from,
{
    let sources = rules.engine.sources(table_oids[at], rules.tenant);
    if from < sources.len() {
        let source_idx = sources[from as int];
        lemma_sources_start_in(rules, table_oids, at, from + 1);
        let here = if rules.engine.live(source_idx) && !rules.deleted.contains(source_idx) {
            lemma_wildcard_matches_are_walks(rules, source_idx);
            engine::lemma_sources_exist(&rules.engine, table_oids[at], rules.tenant);
            let found = execute_wildcard::path_matches(rules, 0, expand::path_start(source_idx));
            assert forall|i: int| 0 <= i < found.len() implies is_wildcard_match(
                rules,
                #[trigger] found[i],
            ) && starts_in(rules, table_oids, found[i]) by {
                assert(found[i].nodes[0] == source_idx);
                assert(sources.contains(source_idx));
                assert(table_oids[at] == table_oids[at]);
            }
            found
        } else {
            Seq::empty()
        };
        lemma_both_start_in(
            rules,
            table_oids,
            here,
            execute_wildcard::matches_of_sources(rules, sources, from + 1),
        );
    }
}

proof fn lemma_tables_start_in(rules: WildcardRules, table_oids: Seq<u32>, from: nat)
    requires
        rules.engine.wf(),
        rules.filters.len() == rules.segments.len(),
    ensures
        all_start_in(
            rules,
            table_oids,
            execute_wildcard::matches_of_tables(rules, table_oids, from),
        ),
    decreases table_oids.len() - from,
{
    if from < table_oids.len() {
        lemma_tables_start_in(rules, table_oids, from + 1);
        lemma_sources_start_in(rules, table_oids, from as int, 0);
        lemma_both_start_in(
            rules,
            table_oids,
            execute_wildcard::matches_of_sources(
                rules,
                rules.engine.sources(table_oids[from as int], rules.tenant),
                0,
            ),
            execute_wildcard::matches_of_tables(rules, table_oids, from + 1),
        );
    }
}

// ---------------------------------------------------------------------------
// Rows
// ---------------------------------------------------------------------------

/// Every segment has a type filter.
pub proof fn lemma_filters(
    engine: Engine,
    segments: Seq<PhysicalWildcardPathSegmentView>,
    from: int,
    done: Seq<Option<u8>>,
)
    requires
        0 <= from <= segments.len(),
    ensures
        execute_wildcard::filters_from(engine, segments, from, done) matches Ok(filters)
            ==> filters.len() == done.len() + segments.len() - from,
    decreases segments.len() - from,
{
    if from < segments.len() {
        match segments[from].rel_type_filter {
            None => lemma_filters(engine, segments, from + 1, done.push(None)),
            Some(rel_type) => match engine::type_id_of(engine.edge_type_registry@, rel_type) {
                Ok(id) => lemma_filters(engine, segments, from + 1, done.push(Some(id))),
                Err(_) => {},
            },
        }
    }
}

/// What decides the matches of an executed wildcard path.
pub open spec fn rules_of(
    engine: Engine,
    plan: PhysicalWildcardPathPlanView,
    deleted: Set<u32>,
    tenant: Option<Seq<char>>,
) -> WildcardRules {
    WildcardRules {
        engine,
        deleted,
        tenant,
        segments: plan.segments,
        filters: execute_wildcard::filters_from(engine, plan.segments, 0, Seq::empty())->Ok_0,
    }
}

/// Every row of an executed wildcard path is that of a walk over visible nodes that
/// takes its segments, from a node of a scanned table.
pub proof fn lemma_wildcard_rows_are_walks(
    engine: Engine,
    plan: PhysicalWildcardPathPlanView,
    deleted: Set<u32>,
    tenant: Option<Seq<char>>,
    at: int,
)
    requires
        engine.wf(),
        execute_wildcard::executed_wildcard(engine, plan, deleted, tenant) is Ok,
        0 <= at < execute_wildcard::executed_wildcard(engine, plan, deleted, tenant)->Ok_0.len(),
    ensures
        exists|path: PathView| #[trigger]
            is_wildcard_match(rules_of(engine, plan, deleted, tenant), path) && starts_in(
                rules_of(engine, plan, deleted, tenant),
                execute_wildcard::scanned_tables(plan),
                path,
            ) && rows::wildcard_row_of(engine, path) == Ok::<RowView, GraphErrorView>(
                execute_wildcard::executed_wildcard(engine, plan, deleted, tenant)->Ok_0[at],
            ),
{
    let rules = rules_of(engine, plan, deleted, tenant);
    let table_oids = execute_wildcard::scanned_tables(plan);
    let matches = execute_wildcard::matches_of_tables(rules, table_oids, 0);
    let collector = execute_wildcard::wildcard_collector(engine, plan);
    let row = execute_wildcard::executed_wildcard(engine, plan, deleted, tenant)->Ok_0[at];
    lemma_filters(engine, plan.segments, 0, Seq::empty());
    lemma_tables_start_in(rules, table_oids, 0);
    rows::lemma_rows_come_from_matches(collector, matches);
    assert(rows::is_row_of(collector, matches, row));
    let path = choose|path: PathView| #[trigger]
        matches.contains(path) && (collector.project)(path) == Ok::<RowView, GraphErrorView>(row);
    let i = choose|i: int| 0 <= i < matches.len() && matches[i] == path;
    assert(is_wildcard_match(rules, matches[i]));
}

} // verus!
