//! Execution of multi-pattern joins.
use vstd::prelude::*;

use crate::projection::tx_delta::{self, TxState};
use crate::query::engine::{self, edge_type_id, source_nodes, target_matches, Engine};
use crate::query::expand::{copy_vec, GqlRelationshipStep};
use crate::query::physical_plan::{
    self, PhysicalJoinPattern, PhysicalJoinPatternView, PhysicalJoinPlan, PhysicalJoinPlanView,
};
use crate::query::rows::{
    self, cap_error, project_join_state, Collector, GqlRow, JoinState, JoinView, RowView,
};
use crate::query::steps::{self, GqlNeighbors, GqlStepTarget};
use crate::safety::{GraphError, GraphErrorView, GraphResult};
use crate::views;

verus! {

// ---------------------------------------------------------------------------
// Matches
// ---------------------------------------------------------------------------

/// What decides the matches of a join.
pub struct JoinRules {
    pub engine: Engine,
    /// Nodes deleted in the transaction.
    pub deleted: Set<u32>,
    pub tenant: Option<Seq<char>>,
    pub plan: PhysicalJoinPlanView,
    /// Relationship type identifiers of the patterns.
    pub type_ids: Seq<u8>,
}

/// Whether all slots of the patterns exist.
pub open spec fn slots_exist(plan: PhysicalJoinPlanView) -> bool {
    forall|i: int|
        0 <= i < plan.patterns.len() ==> (#[trigger] plan.patterns[i]).source_slot
            < plan.node_slots.len() && plan.patterns[i].target_slot < plan.node_slots.len()
}

/// Whether a slot takes a node.
pub open spec fn slot_takes(rules: JoinRules, slot: usize, node_idx: u32) -> bool {
    rules.engine.matches_table(
        node_idx,
        rules.plan.node_slots[slot as int].table_oid,
        rules.tenant,
    ) && !rules.deleted.contains(node_idx)
}

impl JoinView {
    /// The join with a slot bound.
    pub open spec fn with_node(self, slot: usize, node_idx: u32) -> JoinView {
        JoinView {
            node_slots: self.node_slots.update(slot as int, Some(node_idx)),
            relationships: self.relationships,
        }
    }

    /// The join with a step to a slot.
    pub open spec fn with_target(self, slot: usize, source_idx: u32, step: GqlStepTarget) -> JoinView {
        JoinView {
            node_slots: self.node_slots.update(slot as int, Some(step.node_idx)),
            relationships: self.relationships.push(
                GqlRelationshipStep {
                    from_idx: source_idx,
                    to_idx: step.node_idx,
                    orientation: step.orientation,
                    type_id: step.type_id,
                },
            ),
        }
    }
}

/// The nodes to start a pattern from: the one bound to the slot, or those of its
/// table.
pub open spec fn candidates(rules: JoinRules, state: JoinView, slot: usize) -> Seq<u32> {
    match state.node_slots[slot as int] {
        Some(node_idx) => seq![node_idx],
        None => rules.engine.sources(
            rules.plan.node_slots[slot as int].table_oid,
            rules.tenant,
        ),
    }
}

/// Whether a step fits pattern `at`: by its type, to a node that the target slot
/// takes and that is the one bound to it.
pub open spec fn step_fits(rules: JoinRules, state: JoinView, at: nat, step: GqlStepTarget) -> bool {
    let slot = rules.plan.patterns[at as int].target_slot;
    &&& step.type_id == rules.type_ids[at as int]
    &&& slot_takes(rules, slot, step.node_idx)
    &&& state.node_slots[slot as int] matches Some(bound) ==> bound == step.node_idx
}

/// The joins that bind the patterns from `at` on.
pub open spec fn join_matches(rules: JoinRules, at: nat, state: JoinView) -> Seq<JoinView>
    decreases rules.plan.patterns.len() - at, 3nat, 0nat,
{
    if at >= rules.plan.patterns.len() {
        seq![state]
    } else {
        matches_by_source(
            rules,
            at,
            state,
            candidates(rules, state, rules.plan.patterns[at as int].source_slot),
            0,
        )
    }
}

/// The joins that start pattern `at` from the nodes from `from` on.
pub open spec fn matches_by_source(
    rules: JoinRules,
    at: nat,
    state: JoinView,
    nodes: Seq<u32>,
    from: nat,
) -> Seq<JoinView>
    decreases rules.plan.patterns.len() - at, 2nat, nodes.len() - from,
{
    if at >= rules.plan.patterns.len() || from >= nodes.len() {
        Seq::empty()
    } else {
        let pattern = rules.plan.patterns[at as int];
        let node_idx = nodes[from as int];
        let here = if slot_takes(rules, pattern.source_slot, node_idx) {
            matches_by_step(
                rules,
                at,
                state.with_node(pattern.source_slot, node_idx),
                node_idx,
                steps::steps(rules.engine, pattern.direction, node_idx, None),
                0,
            )
        } else {
            Seq::empty()
        };
        here + matches_by_source(rules, at, state, nodes, from + 1)
    }
}

/// The joins that take pattern `at` by the steps from `from` on.
pub open spec fn matches_by_step(
    rules: JoinRules,
    at: nat,
    state: JoinView,
    source_idx: u32,
    taken: Seq<GqlStepTarget>,
    from: nat,
) -> Seq<JoinView>
    decreases rules.plan.patterns.len() - at, 1nat, taken.len() - from,
{
    if at >= rules.plan.patterns.len() || from >= taken.len() {
        Seq::empty()
    } else {
        let slot = rules.plan.patterns[at as int].target_slot;
        let here = if step_fits(rules, state, at, taken[from as int]) {
            join_matches(rules, at + 1, state.with_target(slot, source_idx, taken[from as int]))
        } else {
            Seq::empty()
        };
        here + matches_by_step(rules, at, state, source_idx, taken, from + 1)
    }
}

/// A join without a bound slot.
pub open spec fn unbound(plan: PhysicalJoinPlanView) -> JoinView {
    JoinView {
        node_slots: Seq::new(plan.node_slots.len(), |i: int| None),
        relationships: Seq::empty(),
    }
}

/// How the matches of a join become rows.
pub open spec fn join_collector(engine: Engine, plan: PhysicalJoinPlanView) -> Collector<
    JoinView,
    (),
    RowView,
> {
    Collector {
        cap: physical_plan::row_cap(plan.row_shape()) as nat,
        cap_is_error: physical_plan::cap_is_error(plan.row_shape()),
        key: |found: JoinView| None,
        project: |found: JoinView| rows::join_row_of(engine, found),
    }
}

/// The type identifiers of the patterns from `from` on, after those done.
pub open spec fn type_ids_from(
    engine: Engine,
    patterns: Seq<PhysicalJoinPatternView>,
    from: int,
    done: Seq<u8>,
) -> Result<Seq<u8>, GraphErrorView>
    decreases patterns.len() - from,
{
    if from >= patterns.len() {
        Ok(done)
    } else {
        match engine::type_id_of(engine.edge_type_registry@, patterns[from].rel_type) {
            Ok(id) => type_ids_from(engine, patterns, from + 1, done.push(id)),
            Err(error) => Err(error),
        }
    }
}

/// The rows of a join.
pub open spec fn executed_join(
    engine: Engine,
    plan: PhysicalJoinPlanView,
    deleted: Set<u32>,
    tenant: Option<Seq<char>>,
) -> Result<Seq<RowView>, GraphErrorView> {
    if !engine.built {
        Err(GraphErrorView::NotBuilt)
    } else {
        match type_ids_from(engine, plan.patterns, 0, Seq::empty()) {
            Err(error) => Err(error),
            Ok(type_ids) => join_collector(engine, plan).rows(
                join_matches(
                    JoinRules { engine, deleted, tenant, plan, type_ids },
                    0,
                    unbound(plan),
                ),
            ),
        }
    }
}

// ---------------------------------------------------------------------------
// Execution
// ---------------------------------------------------------------------------

proof fn lemma_goes_on(
    collector: Collector<JoinView, (), RowView>,
    here: Seq<JoinView>,
    rest: Seq<JoinView>,
    rows: Seq<RowView>,
)
    requires
        forall|m: JoinView| (#[trigger] (collector.key)(m)) is None,
    ensures
        rows::goes_on(collector, here + rest, rows, Set::empty()) == (match collector.after(
            here,
            0,
            rows,
            Set::empty(),
        ) {
            Ok((more, _)) => rows::goes_on(collector, rest, more, Set::empty()),
            Err(error) => Err(error),
        }),
{
    rows::lemma_collect_both(collector, here, rest, 0, rows, Set::empty());
    rows::lemma_no_keys(collector, here, 0, rows);
}

impl JoinState {
    /// The join with a slot bound.
    pub fn with_node(&self, slot: usize, node_idx: u32) -> (next: JoinState)
        requires
            slot < self.node_slots@.len(),
        ensures
            next@ == self@.with_node(slot, node_idx),
    {
        let mut node_slots: Vec<Option<u32>> = copy_vec(&self.node_slots);
        node_slots.set(slot, Some(node_idx));
        JoinState { node_slots, relationships: copy_vec(&self.relationships) }
    }

    /// The join with a step to a slot.
    pub fn with_target(&self, slot: usize, source_idx: u32, target: GqlStepTarget) -> (next:
        JoinState)
        requires
            slot < self.node_slots@.len(),
        ensures
            next@ == self@.with_target(slot, source_idx, target),
    {
        let mut node_slots: Vec<Option<u32>> = copy_vec(&self.node_slots);
        node_slots.set(slot, Some(target.node_idx));
        let mut relationships: Vec<GqlRelationshipStep> = copy_vec(&self.relationships);
        relationships.push(
            GqlRelationshipStep {
                from_idx: source_idx,
                to_idx: target.node_idx,
                orientation: target.orientation,
                type_id: target.type_id,
            },
        );
        JoinState { node_slots, relationships }
    }
}

/// What a join is executed with.
struct JoinRun<'a> {
    neighbors: GqlNeighbors<'a>,
    engine: &'a Engine,
    tx: &'a TxState,
    plan: &'a PhysicalJoinPlan,
    type_ids: &'a Vec<u8>,
    tenant: Option<&'a str>,
    cap: usize,
    cap_is_error: bool,
}

impl<'a> JoinRun<'a> {
    spec fn rules(&self) -> JoinRules {
        JoinRules {
            engine: *self.engine,
            deleted: self.tx.recorded().deleted_nodes,
            tenant: engine::scope_of(self.tenant),
            plan: self.plan@,
            type_ids: self.type_ids@,
        }
    }

    spec fn collector(&self) -> Collector<JoinView, (), RowView> {
        join_collector(*self.engine, self.plan@)
    }

    spec fn wf(&self) -> bool {
        &&& self.engine.wf()
        &&& self.neighbors.engine == self.engine
        &&& self.type_ids@.len() == self.plan@.patterns.len()
        &&& slots_exist(self.plan@)
        &&& self.cap == self.collector().cap
        &&& self.cap_is_error == self.collector().cap_is_error
    }

    spec fn holds(&self, state: JoinView) -> bool {
        rows::join_exists(*self.engine, state) && state.node_slots.len()
            == self.plan@.node_slots.len()
    }

    fn join_node_matches(&self, slot: usize, node_idx: u32) -> (matched: bool)
        requires
            self.wf(),
            slot < self.plan@.node_slots.len(),
        ensures
            matched == slot_takes(self.rules(), slot, node_idx),
    {
        assert(self.plan@.node_slots[slot as int] == self.plan.node_slots@[slot as int]@);
        target_matches(
            self.engine,
            node_idx,
            self.plan.node_slots[slot].table_oid,
            self.tenant,
        ) && !tx_delta::node_deleted(self.tx, node_idx)
    }

    fn join_source_candidates(&self, state: &JoinState, slot: usize) -> (nodes: Vec<u32>)
        requires
            self.wf(),
            self.holds(state@),
            slot < self.plan@.node_slots.len(),
        ensures
            nodes@ == candidates(self.rules(), state@, slot),
    {
        match state.node_slots[slot] {
            Some(node_idx) => {
                let mut nodes: Vec<u32> = Vec::new();
                nodes.push(node_idx);
                assert(nodes@ =~= seq![node_idx]);
                nodes
            },
            None => {
                assert(self.plan@.node_slots[slot as int] == self.plan.node_slots@[slot as int]@);
                source_nodes(self.engine, self.plan.node_slots[slot].table_oid, self.tenant)
            },
        }
    }

    fn expand_join_pattern(&self, state: &JoinState, at: usize, found: &mut Vec<GqlRow>) -> (result:
        GraphResult<()>)
        requires
            self.wf(),
            self.holds(state@),
        ensures
            match self.collector().after(
                join_matches(self.rules(), at as nat, state@),
                0,
                views::views(old(found)@),
                Set::empty(),
            ) {
                Ok((rows, _)) => result is Ok && views::views(final(found)@) == rows,
                Err(error) => result matches Err(given) && given@ == error,
            },
        decreases self.plan@.patterns.len() - at, 3nat,
    {
        if at >= self.plan.patterns.len() {
            proof {
                reveal_with_fuel(Collector::<JoinView, (), RowView>::after, 2);
                reveal_with_fuel(join_matches, 1);
                assert(join_matches(self.rules(), at as nat, state@)[0] == state@);
            }
            if found.len() >= self.cap {
                if self.cap_is_error {
                    return Err(cap_error(self.cap));
                }
                return Ok(());
            }
            let ghost earlier = found@;
            let row: GqlRow = project_join_state(self.engine, state)?;
            found.push(row);
            proof {
                views::lemma_push(earlier, row);
            }
            return Ok(());
        }
        let slot: usize = self.plan.patterns[at].source_slot;
        assert(self.plan@.patterns[at as int] == self.plan.patterns@[at as int]@);
        let nodes: Vec<u32> = self.join_source_candidates(state, slot);
        self.expand_sources(state, at, &nodes, found)
    }

    fn expand_sources(
        &self,
        state: &JoinState,
        at: usize,
        nodes: &Vec<u32>,
        found: &mut Vec<GqlRow>,
    ) -> (result: GraphResult<()>)
        requires
            self.wf(),
            self.holds(state@),
            at < self.plan@.patterns.len(),
        ensures
            match self.collector().after(
                matches_by_source(self.rules(), at as nat, state@, nodes@, 0),
                0,
                views::views(old(found)@),
                Set::empty(),
            ) {
                Ok((rows, _)) => result is Ok && views::views(final(found)@) == rows,
                Err(error) => result matches Err(given) && given@ == error,
            },
        decreases self.plan@.patterns.len() - at, 2nat,
    {
        let pattern: &PhysicalJoinPattern = &self.plan.patterns[at];
        let ghost rules = self.rules();
        let ghost collector = self.collector();
        for i in 0..nodes.len()
            invariant
                self.wf(),
                self.holds(state@),
                at < self.plan@.patterns.len(),
                pattern@ == self.plan@.patterns[at as int],
                rules == self.rules(),
                collector == self.collector(),
                rows::goes_on(
                    collector,
                    matches_by_source(rules, at as nat, state@, nodes@, i as nat),
                    views::views(found@),
                    Set::empty(),
                ) == rows::goes_on(
                    collector,
                    matches_by_source(rules, at as nat, state@, nodes@, 0),
                    views::views(old(found)@),
                    Set::empty(),
                ),
        {
            let node_idx: u32 = nodes[i];
            let ghost rest = matches_by_source(rules, at as nat, state@, nodes@, (i + 1) as nat);
            if self.join_node_matches(pattern.source_slot, node_idx) {
                let next: JoinState = state.with_node(pattern.source_slot, node_idx);
                let taken: Vec<GqlStepTarget> = self.neighbors.for_direction_any(
                    pattern.direction,
                    node_idx,
                );
                proof {
                    lemma_goes_on(
                        collector,
                        matches_by_step(rules, at as nat, next@, node_idx, taken@, 0),
                        rest,
                        views::views(found@),
                    );
                }
                self.expand_steps(&next, at, node_idx, &taken, found)?;
            } else {
                assert(Seq::<JoinView>::empty() + rest =~= rest);
            }
            if found.len() >= self.cap && !self.cap_is_error {
                return Ok(());
            }
        }
        Ok(())
    }

    fn expand_steps(
        &self,
        state: &JoinState,
        at: usize,
        source_idx: u32,
        taken: &Vec<GqlStepTarget>,
        found: &mut Vec<GqlRow>,
    ) -> (result: GraphResult<()>)
        requires
            self.wf(),
            self.holds(state@),
            source_idx < self.engine.nodes@.len(),
            at < self.plan@.patterns.len(),
        ensures
            match self.collector().after(
                matches_by_step(self.rules(), at as nat, state@, source_idx, taken@, 0),
                0,
                views::views(old(found)@),
                Set::empty(),
            ) {
                Ok((rows, _)) => result is Ok && views::views(final(found)@) == rows,
                Err(error) => result matches Err(given) && given@ == error,
            },
        decreases self.plan@.patterns.len() - at, 1nat,
    {
        let count: usize = self.plan.patterns.len();
        let slot: usize = self.plan.patterns[at].target_slot;
        let ghost rules = self.rules();
        let ghost collector = self.collector();
        assert(self.plan@.patterns[at as int] == self.plan.patterns@[at as int]@);
        for i in 0..taken.len()
            invariant
                self.wf(),
                self.holds(state@),
                source_idx < self.engine.nodes@.len(),
                count == self.plan@.patterns.len(),
                at < count,
                slot == self.plan@.patterns[at as int].target_slot,
                rules == self.rules(),
                collector == self.collector(),
                rows::goes_on(
                    collector,
                    matches_by_step(rules, at as nat, state@, source_idx, taken@, i as nat),
                    views::views(found@),
                    Set::empty(),
                ) == rows::goes_on(
                    collector,
                    matches_by_step(rules, at as nat, state@, source_idx, taken@, 0),
                    views::views(old(found)@),
                    Set::empty(),
                ),
        {
            let step: GqlStepTarget = taken[i];
            let ghost rest = matches_by_step(
                rules,
                at as nat,
                state@,
                source_idx,
                taken@,
                (i + 1) as nat,
            );
            let free: bool = match state.node_slots[slot] {
                Some(bound) => bound == step.node_idx,
                None => true,
            };
            if step.type_id == self.type_ids[at] && self.join_node_matches(slot, step.node_idx)
                && free {
                let next: JoinState = state.with_target(slot, source_idx, step);
                proof {
                    lemma_goes_on(
                        collector,
                        join_matches(rules, (at + 1) as nat, next@),
                        rest,
                        views::views(found@),
                    );
                }
                self.expand_join_pattern(&next, at + 1, found)?;
            } else {
                assert(Seq::<JoinView>::empty() + rest =~= rest);
            }
            if found.len() >= self.cap && !self.cap_is_error {
                return Ok(());
            }
        }
        Ok(())
    }
}

fn pattern_type_ids(engine: &Engine, patterns: &Vec<PhysicalJoinPattern>) -> (result: GraphResult<
    Vec<u8>,
>)
    ensures
        match type_ids_from(*engine, views::views(patterns@), 0, Seq::empty()) {
            Ok(ids) => result matches Ok(given) && given@ == ids && ids.len() == patterns@.len(),
            Err(error) => result matches Err(given) && given@ == error,
        },
{
    let mut ids: Vec<u8> = Vec::new();
    let ghost all = views::views(patterns@);
    for i in 0..patterns.len()
        invariant
            all == views::views(patterns@),
            ids@.len() == i,
            type_ids_from(*engine, all, i as int, ids@) == type_ids_from(
                *engine,
                all,
                0,
                Seq::empty(),
            ),
    {
        assert(all[i as int] == patterns@[i as int]@);
        let id: u8 = edge_type_id(engine, patterns[i].rel_type.as_str())?;
        ids.push(id);
    }
    Ok(ids)
}

/// Execute a multi-pattern join.
pub fn execute_join(
    engine: &Engine,
    tx: &TxState,
    plan: &PhysicalJoinPlan,
    tenant: Option<&str>,
) -> (result: GraphResult<Vec<GqlRow>>)
    requires
        engine.wf(),
        slots_exist(plan@),
    ensures
        match executed_join(*engine, plan@, tx.recorded().deleted_nodes, engine::scope_of(tenant)) {
            Ok(rows) => result matches Ok(given) && views::views(given@) == rows,
            Err(error) => result matches Err(given) && given@ == error,
        },
{
    if !engine.built {
        return Err(GraphError::NotBuilt);
    }
    let type_ids: Vec<u8> = pattern_type_ids(engine, &plan.patterns)?;
    let run: JoinRun = JoinRun {
        neighbors: GqlNeighbors::new(engine),
        engine,
        tx,
        plan,
        type_ids: &type_ids,
        tenant,
        cap: plan.execution_row_cap(),
        cap_is_error: plan.cap_exhaustion_is_error(),
    };
    let mut node_slots: Vec<Option<u32>> = Vec::new();
    for i in 0..plan.node_slots.len()
        invariant
            node_slots@.len() == i,
            forall|j: int| 0 <= j < i ==> (#[trigger] node_slots@[j]) is None,
    {
        node_slots.push(None);
    }
    let state: JoinState = JoinState { node_slots, relationships: Vec::new() };
    let mut found: Vec<GqlRow> = Vec::new();
    proof {
        assert(state@ =~= unbound(plan@));
        assert(views::views(found@) =~= Seq::empty());
    }
    run.expand_join_pattern(&state, 0, &mut found)?;
    Ok(found)
}

} // verus!
