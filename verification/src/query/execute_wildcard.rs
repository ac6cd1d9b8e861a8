//! Execution of wildcard paths.
use vstd::prelude::*;

use crate::projection::tx_delta::{self, TxState};
use crate::query::engine::{self, edge_type_id, source_nodes, wildcard_node_visible, Engine};
use crate::query::expand::{self, copy_vec, GqlRelationshipStep, PathState, PathView};
use crate::query::physical_plan::{
    self, PhysicalWildcardPathPlan, PhysicalWildcardPathPlanView, PhysicalWildcardPathSegment,
    PhysicalWildcardPathSegmentView,
};
use crate::query::rows::{
    self, cap_error, ends_of, project_wildcard_path_state, Collector, GqlRow, RowView,
};
use crate::query::steps::{self, GqlNeighbors, GqlStepTarget};
use crate::safety::{GraphError, GraphErrorView, GraphResult};
use crate::views;

verus! {

// ---------------------------------------------------------------------------
// Matches
// ---------------------------------------------------------------------------

/// What decides the matches of a wildcard path.
pub struct WildcardRules {
    pub engine: Engine,
    /// Nodes deleted in the transaction.
    pub deleted: Set<u32>,
    pub tenant: Option<Seq<char>>,
    pub segments: Seq<PhysicalWildcardPathSegmentView>,
    /// Relationship type identifiers of the segments that have a type.
    pub filters: Seq<Option<u8>>,
}

/// Whether a node ends a segment.
pub open spec fn ends_segment(
    rules: WildcardRules,
    segment: PhysicalWildcardPathSegmentView,
    node_idx: u32,
) -> bool {
    rules.engine.visible(rules.deleted, node_idx, rules.tenant) && (
    segment.target_table_filter matches Some(table_oid)
        ==> rules.engine.nodes@[node_idx as int].table_oid == table_oid)
}

/// Whether a step goes on with segment `at`: by its type, to a visible node.
pub open spec fn step_passes(rules: WildcardRules, at: nat, step: GqlStepTarget) -> bool {
    (rules.filters[at as int] matches Some(type_id) ==> step.type_id == type_id)
        && rules.engine.visible(rules.deleted, step.node_idx, rules.tenant)
}

/// The paths that take the segments from `at` on.
pub open spec fn path_matches(rules: WildcardRules, at: nat, path: PathView) -> Seq<PathView>
    decreases rules.segments.len() - at, u32::MAX as nat + 2, 0nat, 0nat,
{
    if at >= rules.segments.len() {
        seq![path]
    } else {
        matches_by_hops(rules, at, path, 0)
    }
}

/// The paths that go on with segment `at` after some of its hops.
pub open spec fn matches_by_hops(rules: WildcardRules, at: nat, path: PathView, hops: nat) -> Seq<
    PathView,
>
    decreases
            rules.segments.len() - at,
            (if hops <= rules.segments[at as int].hops.max {
                rules.segments[at as int].hops.max + 1 - hops
            } else {
                0
            }),
            1nat,
            0nat,
{
    if at >= rules.segments.len() {
        Seq::empty()
    } else {
        let segment = rules.segments[at as int];
        let ended = if hops >= segment.hops.min && ends_segment(rules, segment, path.node_idx) {
            path_matches(rules, at + 1, path)
        } else {
            Seq::empty()
        };
        let longer = if hops >= segment.hops.max {
            Seq::empty()
        } else {
            matches_by_step(
                rules,
                at,
                path,
                hops,
                steps::steps(rules.engine, segment.direction, path.node_idx, None),
                0,
            )
        };
        ended + longer
    }
}

/// The paths that go on with segment `at` by the steps from `from` on.
pub open spec fn matches_by_step(
    rules: WildcardRules,
    at: nat,
    path: PathView,
    hops: nat,
    taken: Seq<GqlStepTarget>,
    from: nat,
) -> Seq<PathView>
    decreases
            rules.segments.len() - at,
            (if hops <= rules.segments[at as int].hops.max {
                rules.segments[at as int].hops.max + 1 - hops
            } else {
                0
            }),
            0nat,
            taken.len() - from,
{
    if at >= rules.segments.len() || hops >= rules.segments[at as int].hops.max || from
        >= taken.len() {
        Seq::empty()
    } else {
        let here = if step_passes(rules, at, taken[from as int]) {
            matches_by_hops(rules, at, path.then_step(taken[from as int]), hops + 1)
        } else {
            Seq::empty()
        };
        here + matches_by_step(rules, at, path, hops, taken, from + 1)
    }
}

/// The paths from the sources from `from` on that are live and not deleted.
pub open spec fn matches_of_sources(rules: WildcardRules, sources: Seq<u32>, from: nat) -> Seq<
    PathView,
>
    decreases sources.len() - from,
{
    if from >= sources.len() {
        Seq::empty()
    } else {
        let source_idx = sources[from as int];
        let here = if rules.engine.live(source_idx) && !rules.deleted.contains(source_idx) {
            path_matches(rules, 0, expand::path_start(source_idx))
        } else {
            Seq::empty()
        };
        here + matches_of_sources(rules, sources, from + 1)
    }
}

/// The paths from the nodes of the tables from `from` on.
pub open spec fn matches_of_tables(rules: WildcardRules, table_oids: Seq<u32>, from: nat) -> Seq<
    PathView,
>
    decreases table_oids.len() - from,
{
    if from >= table_oids.len() {
        Seq::empty()
    } else {
        matches_of_sources(rules, rules.engine.sources(table_oids[from as int], rules.tenant), 0)
            + matches_of_tables(rules, table_oids, from + 1)
    }
}

/// What tells a path from others: its relationships in the registered direction.
pub open spec fn path_key(relationships: Seq<GqlRelationshipStep>) -> Seq<(u32, u32, u8)> {
    relationships.map_values(
        |step: GqlRelationshipStep|
            {
                let ends = rows::step_ends(step.from_idx, step.to_idx, step.orientation);
                (ends.0, ends.1, step.type_id)
            },
    )
}

/// How the matches of a wildcard path become rows: of the paths with the same
/// relationships the first.
pub open spec fn wildcard_collector(engine: Engine, plan: PhysicalWildcardPathPlanView) -> Collector<
    PathView,
    Seq<(u32, u32, u8)>,
    RowView,
> {
    Collector {
        cap: physical_plan::row_cap(plan.row_shape()) as nat,
        cap_is_error: physical_plan::cap_is_error(plan.row_shape()),
        key: |path: PathView| Some(path_key(path.relationships)),
        project: |path: PathView| rows::wildcard_row_of(engine, path),
    }
}

/// The type identifiers of the segments from `from` on, after those done.
pub open spec fn filters_from(
    engine: Engine,
    segments: Seq<PhysicalWildcardPathSegmentView>,
    from: int,
    done: Seq<Option<u8>>,
) -> Result<Seq<Option<u8>>, GraphErrorView>
    decreases segments.len() - from,
{
    if from >= segments.len() {
        Ok(done)
    } else {
        match segments[from].rel_type_filter {
            None => filters_from(engine, segments, from + 1, done.push(None)),
            Some(rel_type) => match engine::type_id_of(engine.edge_type_registry@, rel_type) {
                Ok(id) => filters_from(engine, segments, from + 1, done.push(Some(id))),
                Err(error) => Err(error),
            },
        }
    }
}

/// The tables that a wildcard path starts from.
pub open spec fn scanned_tables(plan: PhysicalWildcardPathPlanView) -> Seq<u32> {
    match plan.source_table_filter {
        Some(oid) => seq![oid],
        None => plan.required_node_table_oids,
    }
}

/// The rows of a wildcard path.
pub open spec fn executed_wildcard(
    engine: Engine,
    plan: PhysicalWildcardPathPlanView,
    deleted: Set<u32>,
    tenant: Option<Seq<char>>,
) -> Result<Seq<RowView>, GraphErrorView> {
    if !engine.built {
        Err(GraphErrorView::NotBuilt)
    } else {
        match filters_from(engine, plan.segments, 0, Seq::empty()) {
            Err(error) => Err(error),
            Ok(filters) => wildcard_collector(engine, plan).rows(
                matches_of_tables(
                    WildcardRules { engine, deleted, tenant, segments: plan.segments, filters },
                    scanned_tables(plan),
                    0,
                ),
            ),
        }
    }
}

// ---------------------------------------------------------------------------
// Seen paths
// ---------------------------------------------------------------------------

/// A set of path keys.
struct PathKeys {
    keys: Vec<Vec<(u32, u32, u8)>>,
}

impl View for PathKeys {
    type V = Set<Seq<(u32, u32, u8)>>;

    closed spec fn view(&self) -> Set<Seq<(u32, u32, u8)>> {
        Set::new(
            |key: Seq<(u32, u32, u8)>|
                exists|i: int| 0 <= i < self.keys@.len() && (#[trigger] self.keys@[i])@ == key,
        )
    }
}

fn same_key(a: &Vec<(u32, u32, u8)>, b: &Vec<(u32, u32, u8)>) -> (same: bool)
    ensures
        same == (a@ == b@),
{
    if a.len() != b.len() {
        return false;
    }
    for i in 0..a.len()
        invariant
            a@.len() == b@.len(),
            forall|j: int| 0 <= j < i ==> a@[j] == b@[j],
    {
        let x: (u32, u32, u8) = a[i];
        let y: (u32, u32, u8) = b[i];
        if x.0 != y.0 || x.1 != y.1 || x.2 != y.2 {
            return false;
        }
    }
    assert(a@ =~= b@);
    true
}

impl PathKeys {
    fn new() -> (keys: PathKeys)
        ensures
            keys@ == Set::<Seq<(u32, u32, u8)>>::empty(),
    {
        let keys: PathKeys = PathKeys { keys: Vec::new() };
        assert(keys@ =~= Set::<Seq<(u32, u32, u8)>>::empty());
        keys
    }

    fn contains(&self, key: &Vec<(u32, u32, u8)>) -> (found: bool)
        ensures
            found == self@.contains(key@),
    {
        for i in 0..self.keys.len()
            invariant
                forall|j: int| 0 <= j < i ==> (#[trigger] self.keys@[j])@ != key@,
        {
            if same_key(&self.keys[i], key) {
                assert(self.keys@[i as int]@ == key@);
                return true;
            }
        }
        false
    }

    fn insert(&mut self, key: Vec<(u32, u32, u8)>)
        ensures
            final(self)@ == old(self)@.insert(key@),
    {
        let ghost before = self.keys@;
        self.keys.push(key);
        proof {
            let after = self.keys@;
            assert(after[before.len() as int]@ == key@);
            assert forall|k: Seq<(u32, u32, u8)>| #[trigger] self@.contains(k) <==> old(
                self,
            )@.insert(key@).contains(k) by {
                if old(self)@.contains(k) {
                    let i = choose|i: int| 0 <= i < before.len() && (#[trigger] before[i])@ == k;
                    assert(after[i]@ == k);
                }
                if self@.contains(k) {
                    let i = choose|i: int| 0 <= i < after.len() && (#[trigger] after[i])@ == k;
                    if i < before.len() {
                        assert(before[i]@ == k);
                    }
                }
            }
            assert(self@ =~= old(self)@.insert(key@));
        }
    }
}

fn key_of(relationships: &Vec<GqlRelationshipStep>) -> (key: Vec<(u32, u32, u8)>)
    ensures
        key@ == path_key(relationships@),
{
    let mut key: Vec<(u32, u32, u8)> = Vec::new();
    for i in 0..relationships.len()
        invariant
            key@ == path_key(relationships@).take(i as int),
    {
        let step: GqlRelationshipStep = relationships[i];
        let ends: (u32, u32) = ends_of(step.from_idx, step.to_idx, step.orientation);
        key.push((ends.0, ends.1, step.type_id));
        assert(path_key(relationships@).take(i + 1) =~= path_key(relationships@).take(
            i as int,
        ).push(path_key(relationships@)[i as int]));
    }
    assert(path_key(relationships@).take(relationships@.len() as int) =~= path_key(relationships@));
    key
}

// ---------------------------------------------------------------------------
// Execution
// ---------------------------------------------------------------------------

/// The rows and seen paths so far.
struct Gathered {
    rows: Vec<GqlRow>,
    seen: PathKeys,
}

impl Gathered {
    spec fn all_rows(&self) -> Seq<RowView> {
        views::views(self.rows@)
    }

    spec fn keys(&self) -> Set<Seq<(u32, u32, u8)>> {
        self.seen@
    }
}

/// What a wildcard path is executed with.
struct WildcardRun<'a> {
    neighbors: GqlNeighbors<'a>,
    engine: &'a Engine,
    tx: &'a TxState,
    plan: &'a PhysicalWildcardPathPlan,
    filters: &'a Vec<Option<u8>>,
    tenant: Option<&'a str>,
    cap: usize,
    cap_is_error: bool,
}

/// Whether a result is what going on with matches gives.
spec fn gathers(
    collector: Collector<PathView, Seq<(u32, u32, u8)>, RowView>,
    matches: Seq<PathView>,
    before: Gathered,
    after: Gathered,
    result: GraphResult<()>,
) -> bool {
    match collector.after(matches, 0, before.all_rows(), before.keys()) {
        Ok((rows, keys)) => result is Ok && after.all_rows() == rows && after.keys() == keys,
        Err(error) => result matches Err(given) && given@ == error,
    }
}

impl<'a> WildcardRun<'a> {
    spec fn rules(&self) -> WildcardRules {
        WildcardRules {
            engine: *self.engine,
            deleted: self.tx.recorded().deleted_nodes,
            tenant: engine::scope_of(self.tenant),
            segments: self.plan@.segments,
            filters: self.filters@,
        }
    }

    spec fn collector(&self) -> Collector<PathView, Seq<(u32, u32, u8)>, RowView> {
        wildcard_collector(*self.engine, self.plan@)
    }

    spec fn wf(&self) -> bool {
        &&& self.engine.wf()
        &&& self.neighbors.engine == self.engine
        &&& self.filters@.len() == self.plan@.segments.len()
        &&& self.cap == self.collector().cap
        &&& self.cap_is_error == self.collector().cap_is_error
    }

    spec fn holds(&self, path: PathView) -> bool {
        rows::path_exists(*self.engine, path) && path.node_idx < self.engine.nodes@.len()
    }

    fn wildcard_segment_endpoint_matches(
        &self,
        segment: &PhysicalWildcardPathSegment,
        node_idx: u32,
    ) -> (matched: bool)
        ensures
            matched == ends_segment(self.rules(), segment@, node_idx),
    {
        wildcard_node_visible(self.engine, self.tx, node_idx, self.tenant)
            && match segment.target_table_filter {
            Some(table_oid) => self.engine.nodes[node_idx as usize].table_oid == table_oid,
            None => true,
        }
    }

    fn expand_wildcard_segment(&self, state: &PathState, at: usize, found: &mut Gathered) -> (result:
        GraphResult<()>)
        requires
            self.wf(),
            self.holds(state@),
        ensures
            gathers(
                self.collector(),
                path_matches(self.rules(), at as nat, state@),
                *old(found),
                *final(found),
                result,
            ),
        decreases self.plan@.segments.len() - at, u32::MAX as nat + 2, 0nat,
    {
        if at >= self.plan.segments.len() {
            proof {
                reveal_with_fuel(
                    Collector::<PathView, Seq<(u32, u32, u8)>, RowView>::after,
                    2,
                );
                assert(path_matches(self.rules(), at as nat, state@)[0] == state@);
            }
            if found.rows.len() >= self.cap && !self.cap_is_error {
                return Ok(());
            }
            let key: Vec<(u32, u32, u8)> = key_of(&state.path_relationships);
            if found.seen.contains(&key) {
                return Ok(());
            }
            if found.rows.len() >= self.cap {
                return Err(cap_error(self.cap));
            }
            let ghost earlier = found.rows@;
            let row: GqlRow = project_wildcard_path_state(self.engine, state)?;
            found.seen.insert(key);
            found.rows.push(row);
            proof {
                views::lemma_push(earlier, row);
            }
            return Ok(());
        }
        self.expand_wildcard_segment_hops(state, at, 0, found)
    }

    fn expand_wildcard_segment_hops(
        &self,
        state: &PathState,
        at: usize,
        hops: u32,
        found: &mut Gathered,
    ) -> (result: GraphResult<()>)
        requires
            self.wf(),
            self.holds(state@),
            at < self.plan@.segments.len(),
        ensures
            gathers(
                self.collector(),
                matches_by_hops(self.rules(), at as nat, state@, hops as nat),
                *old(found),
                *final(found),
                result,
            ),
        decreases
                self.plan@.segments.len() - at,
                (if hops <= self.plan@.segments[at as int].hops.max {
                    self.plan@.segments[at as int].hops.max + 1 - hops
                } else {
                    0
                }),
                1nat,
    {
        let count: usize = self.plan.segments.len();
        let segment: &PhysicalWildcardPathSegment = &self.plan.segments[at];
        let ghost rules = self.rules();
        let ghost collector = self.collector();
        let ghost start = *found;
        let ghost ended = if hops >= segment.hops.min && ends_segment(
            rules,
            segment@,
            state@.node_idx,
        ) {
            path_matches(rules, (at + 1) as nat, state@)
        } else {
            Seq::empty()
        };
        let ghost longer = if hops >= segment.hops.max {
            Seq::empty()
        } else {
            matches_by_step(
                rules,
                at as nat,
                state@,
                hops as nat,
                steps::steps(rules.engine, segment.direction, state@.node_idx, None),
                0,
            )
        };
        proof {
            assert(segment@ == rules.segments[at as int]);
            assert(matches_by_hops(rules, at as nat, state@, hops as nat) == ended + longer);
            rows::lemma_collect_both(
                collector,
                ended,
                longer,
                0,
                found.all_rows(),
                found.keys(),
            );
        }
        if hops >= segment.hops.min && self.wildcard_segment_endpoint_matches(segment, state.node_idx) {
            self.expand_wildcard_segment(state, at + 1, found)?;
        }
        if found.rows.len() >= self.cap && !self.cap_is_error {
            return Ok(());
        }
        if hops >= segment.hops.max {
            return Ok(());
        }
        let taken: Vec<GqlStepTarget> = self.neighbors.for_direction_any(
            segment.direction,
            state.node_idx,
        );
        self.expand_steps(state, at, hops, &taken, found)
    }

    fn expand_steps(
        &self,
        state: &PathState,
        at: usize,
        hops: u32,
        taken: &Vec<GqlStepTarget>,
        found: &mut Gathered,
    ) -> (result: GraphResult<()>)
        requires
            self.wf(),
            self.holds(state@),
            at < self.plan@.segments.len(),
            hops < self.plan@.segments[at as int].hops.max,
        ensures
            gathers(
                self.collector(),
                matches_by_step(self.rules(), at as nat, state@, hops as nat, taken@, 0),
                *old(found),
                *final(found),
                result,
            ),
        decreases
                self.plan@.segments.len() - at,
                (if hops <= self.plan@.segments[at as int].hops.max {
                    self.plan@.segments[at as int].hops.max + 1 - hops
                } else {
                    0
                }),
                0nat,
    {
        let ghost rules = self.rules();
        let ghost collector = self.collector();
        for i in 0..taken.len()
            invariant
                self.wf(),
                self.holds(state@),
                at < self.plan@.segments.len(),
                hops < self.plan@.segments[at as int].hops.max,
                rules == self.rules(),
                collector == self.collector(),
                collector.after(
                    matches_by_step(rules, at as nat, state@, hops as nat, taken@, i as nat),
                    0,
                    found.all_rows(),
                    found.keys(),
                ) == collector.after(
                    matches_by_step(rules, at as nat, state@, hops as nat, taken@, 0),
                    0,
                    old(found).all_rows(),
                    old(found).keys(),
                ),
        {
            let step: GqlStepTarget = taken[i];
            let ghost rest = matches_by_step(
                rules,
                at as nat,
                state@,
                hops as nat,
                taken@,
                (i + 1) as nat,
            );
            let fits: bool = match self.filters[at] {
                Some(type_id) => step.type_id == type_id,
                None => true,
            };
            if fits && wildcard_node_visible(self.engine, self.tx, step.node_idx, self.tenant) {
                let next: PathState = state.push(step);
                proof {
                    rows::lemma_collect_both(
                        collector,
                        matches_by_hops(rules, at as nat, next@, (hops + 1) as nat),
                        rest,
                        0,
                        found.all_rows(),
                        found.keys(),
                    );
                }
                self.expand_wildcard_segment_hops(&next, at, hops + 1, found)?;
            } else {
                assert(Seq::<PathView>::empty() + rest =~= rest);
            }
            if found.rows.len() >= self.cap && !self.cap_is_error {
                return Ok(());
            }
        }
        Ok(())
    }

    fn expand_sources(&self, sources: &Vec<u32>, found: &mut Gathered) -> (result: GraphResult<()>)
        requires
            self.wf(),
            rows::nodes_exist(*self.engine, sources@),
        ensures
            gathers(
                self.collector(),
                matches_of_sources(self.rules(), sources@, 0),
                *old(found),
                *final(found),
                result,
            ),
    {
        let ghost rules = self.rules();
        let ghost collector = self.collector();
        for i in 0..sources.len()
            invariant
                self.wf(),
                rows::nodes_exist(*self.engine, sources@),
                rules == self.rules(),
                collector == self.collector(),
                collector.after(
                    matches_of_sources(rules, sources@, i as nat),
                    0,
                    found.all_rows(),
                    found.keys(),
                ) == collector.after(
                    matches_of_sources(rules, sources@, 0),
                    0,
                    old(found).all_rows(),
                    old(found).keys(),
                ),
        {
            let source_idx: u32 = sources[i];
            let ghost rest = matches_of_sources(rules, sources@, (i + 1) as nat);
            if self.engine.is_active(source_idx) && !tx_delta::node_deleted(self.tx, source_idx) {
                proof {
                    rows::lemma_collect_both(
                        collector,
                        path_matches(rules, 0, expand::path_start(source_idx)),
                        rest,
                        0,
                        found.all_rows(),
                        found.keys(),
                    );
                }
                let state: PathState = PathState::start(source_idx);
                self.expand_wildcard_segment(&state, 0, found)?;
            } else {
                assert(Seq::<PathView>::empty() + rest =~= rest);
            }
            if found.rows.len() >= self.cap && !self.cap_is_error {
                return Ok(());
            }
        }
        Ok(())
    }

    fn expand_tables(&self, table_oids: &Vec<u32>, found: &mut Gathered) -> (result: GraphResult<()>)
        requires
            self.wf(),
        ensures
            gathers(
                self.collector(),
                matches_of_tables(self.rules(), table_oids@, 0),
                *old(found),
                *final(found),
                result,
            ),
    {
        let ghost rules = self.rules();
        let ghost collector = self.collector();
        for i in 0..table_oids.len()
            invariant
                self.wf(),
                rules == self.rules(),
                collector == self.collector(),
                collector.after(
                    matches_of_tables(rules, table_oids@, i as nat),
                    0,
                    found.all_rows(),
                    found.keys(),
                ) == collector.after(
                    matches_of_tables(rules, table_oids@, 0),
                    0,
                    old(found).all_rows(),
                    old(found).keys(),
                ),
        {
            let sources: Vec<u32> = source_nodes(self.engine, table_oids[i], self.tenant);
            proof {
                engine::lemma_sources_exist(self.engine, table_oids@[i as int], rules.tenant);
                rows::lemma_collect_both(
                    collector,
                    matches_of_sources(rules, sources@, 0),
                    matches_of_tables(rules, table_oids@, (i + 1) as nat),
                    0,
                    found.all_rows(),
                    found.keys(),
                );
            }
            self.expand_sources(&sources, found)?;
            if found.rows.len() >= self.cap && !self.cap_is_error {
                return Ok(());
            }
        }
        Ok(())
    }
}

fn segment_type_ids(engine: &Engine, segments: &Vec<PhysicalWildcardPathSegment>) -> (result:
    GraphResult<Vec<Option<u8>>>)
    ensures
        match filters_from(*engine, views::views(segments@), 0, Seq::empty()) {
            Ok(ids) => result matches Ok(given) && given@ == ids && ids.len() == segments@.len(),
            Err(error) => result matches Err(given) && given@ == error,
        },
{
    let mut ids: Vec<Option<u8>> = Vec::new();
    let ghost all = views::views(segments@);
    for i in 0..segments.len()
        invariant
            all == views::views(segments@),
            ids@.len() == i,
            filters_from(*engine, all, i as int, ids@) == filters_from(
                *engine,
                all,
                0,
                Seq::empty(),
            ),
    {
        assert(all[i as int] == segments@[i as int]@);
        match &segments[i].rel_type_filter {
            Some(rel_type) => {
                let id: u8 = edge_type_id(engine, rel_type.as_str())?;
                ids.push(Some(id));
            },
            None => {
                ids.push(None);
            },
        }
    }
    Ok(ids)
}

/// Execute a wildcard path.
pub fn execute_wildcard_path(
    engine: &Engine,
    tx: &TxState,
    plan: &PhysicalWildcardPathPlan,
    tenant: Option<&str>,
) -> (result: GraphResult<Vec<GqlRow>>)
    requires
        engine.wf(),
    ensures
        match executed_wildcard(*engine, plan@, tx.recorded().deleted_nodes, engine::scope_of(tenant)) {
            Ok(rows) => result matches Ok(given) && views::views(given@) == rows,
            Err(error) => result matches Err(given) && given@ == error,
        },
{
    if !engine.built {
        return Err(GraphError::NotBuilt);
    }
    let filters: Vec<Option<u8>> = segment_type_ids(engine, &plan.segments)?;
    let run: WildcardRun = WildcardRun {
        neighbors: GqlNeighbors::new(engine),
        engine,
        tx,
        plan,
        filters: &filters,
        tenant,
        cap: plan.execution_row_cap(),
        cap_is_error: plan.cap_exhaustion_is_error(),
    };
    let table_oids: Vec<u32> = match plan.source_table_filter {
        Some(oid) => {
            let mut only: Vec<u32> = Vec::new();
            only.push(oid);
            assert(only@ =~= seq![oid]);
            only
        },
        None => copy_vec(&plan.required_node_table_oids),
    };
    let mut found: Gathered = Gathered { rows: Vec::new(), seen: PathKeys::new() };
    assert(found.all_rows() =~= Seq::empty());
    run.expand_tables(&table_oids, &mut found)?;
    Ok(found.rows)
}

} // verus!
