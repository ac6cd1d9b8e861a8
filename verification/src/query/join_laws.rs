//! What holds of every join.
use vstd::prelude::*;

use crate::gql::ast::{Pattern, Query};
use crate::query::catalog_snapshot::CatalogSnapshot;
use crate::query::engine::{self, Engine};
use crate::query::execute_join::{self, JoinRules};
use crate::query::joins::{self, JoinSlots};
use crate::query::logical_plan::{LogicalJoinPatternView, LogicalJoinPlanView};
use crate::query::lower;
use crate::query::physical_plan::{PhysicalJoinPatternView, PhysicalJoinPlanView};
use crate::query::rows::{self, JoinView, RowView};
use crate::query::steps::{self, GqlStepTarget};
use crate::query::walks;
use crate::safety::GraphErrorView;

verus! {

/// Whether every pattern reads and binds slots that there are.
pub open spec fn patterns_fit(patterns: Seq<LogicalJoinPatternView>, count: nat) -> bool {
    forall|i: int|
        0 <= i < patterns.len() ==> (#[trigger] patterns[i]).source_slot < count
            && patterns[i].target_slot < count
}

/// Every pattern of a join that binds reads and binds node slots that the join
/// has, once it is lowered too: such a plan can be executed. Each pattern adds two
/// slots at most, so there are slots enough for indices.
pub proof fn lemma_bound_joins_can_run<C: CatalogSnapshot>(query: Query, catalog: C)
    requires
        2 * query.match_.patterns@.len() <= usize::MAX,
        joins::bound_join(query, catalog) is Ok,
    ensures
        execute_join::slots_exist(lower::lowered_join(joins::bound_join(query, catalog)->Ok_0)),
{
    let patterns = query.match_.patterns@;
    let start = JoinSlots { slots: Seq::empty(), by_var: Map::empty() };
    lemma_joined(patterns, 0, catalog, start, Seq::empty());
    let (bound, known) = joins::joined_from(patterns, 0, catalog, start, Seq::empty())->Ok_0;
    let plan: LogicalJoinPlanView = joins::bound_join(query, catalog)->Ok_0;
    assert(plan.patterns == bound && plan.node_slots == known.slots);
    let physical = lower::lowered_join(plan);
    assert forall|i: int| 0 <= i < physical.patterns.len() implies (
    #[trigger] physical.patterns[i]).source_slot < physical.node_slots.len()
        && physical.patterns[i].target_slot < physical.node_slots.len() by {
        assert(physical.patterns[i] == lower::lowered_join_pattern(plan.patterns[i]));
        assert(physical.node_slots.len() == plan.node_slots.len());
    }
}

proof fn lemma_joined<C: CatalogSnapshot>(
    patterns: Seq<Pattern>,
    from: int,
    catalog: C,
    known: JoinSlots,
    done: Seq<LogicalJoinPatternView>,
)
    requires
        0 <= from <= patterns.len(),
        2 * patterns.len() <= usize::MAX,
        known.slots.len() <= 2 * from,
        joins::slots_exist(known.by_var, known.slots.len()),
        patterns_fit(done, known.slots.len()),
    ensures
        joins::joined_from(patterns, from, catalog, known, done) matches Ok((bound, last))
            ==> patterns_fit(bound, last.slots.len()),
    decreases patterns.len() - from,
{
    if from < patterns.len() {
        match joins::joined_pattern(patterns[from], catalog, known) {
            Err(_) => {},
            Ok((pattern, next)) => {
                let (_, target) = patterns[from].tail@[0];
                let (source_slot, middle) = joins::join_slot(
                    patterns[from].start,
                    catalog,
                    known,
                )->Ok_0;
                assert(source_slot < middle.slots.len());
                let (target_slot, _) = joins::join_slot(target, catalog, middle)->Ok_0;
                assert(target_slot < next.slots.len());
                assert(pattern.source_slot == source_slot && pattern.target_slot == target_slot);
                let longer = done.push(pattern);
                assert(patterns_fit(longer, next.slots.len())) by {
                    assert forall|i: int| 0 <= i < longer.len() implies (
                    #[trigger] longer[i]).source_slot < next.slots.len() && longer[i].target_slot
                        < next.slots.len() by {
                        if i < done.len() {
                            assert(longer[i] == done[i]);
                        }
                    }
                }
                lemma_joined(patterns, from + 1, catalog, next, longer);
            },
        }
    }
}

// ---------------------------------------------------------------------------
// The matches of a join
// ---------------------------------------------------------------------------

/// Whether pattern `at` holds in a join: its slots are bound to visible nodes of
/// their tables, and its relationship is a step of its type between them.
pub open spec fn pattern_holds(rules: JoinRules, state: JoinView, at: int) -> bool {
    let pattern = rules.plan.patterns[at];
    let relationship = state.relationships[at];
    &&& state.node_slots[pattern.source_slot as int] == Some(relationship.from_idx)
    &&& state.node_slots[pattern.target_slot as int] == Some(relationship.to_idx)
    &&& execute_join::slot_takes(rules, pattern.source_slot, relationship.from_idx)
    &&& execute_join::slot_takes(rules, pattern.target_slot, relationship.to_idx)
    &&& steps::is_step(
        rules.engine,
        pattern.direction,
        relationship.from_idx,
        Some(rules.type_ids[at]),
        walks::step_of(relationship),
    )
}

/// Whether one of the first `count` patterns reads or binds a slot.
pub open spec fn is_mentioned(rules: JoinRules, slot: int, count: nat) -> bool {
    exists|i: int|
        0 <= i < count && (#[trigger] rules.plan.patterns[i]).source_slot == slot || 0 <= i < count
            && (#[trigger] rules.plan.patterns[i]).target_slot == slot
}

/// Whether a join binds the first `count` patterns, and no slot besides theirs.
pub open spec fn binds_patterns(rules: JoinRules, state: JoinView, count: nat) -> bool {
    &&& state.node_slots.len() == rules.plan.node_slots.len()
    &&& state.relationships.len() == count
    &&& forall|i: int| 0 <= i < count ==> #[trigger] pattern_holds(rules, state, i)
    &&& forall|slot: int|
        0 <= slot < state.node_slots.len() && (#[trigger] state.node_slots[slot]) is Some
            ==> is_mentioned(rules, slot, count)
}

/// Whether the nodes of a join are listed for the tables of their slots.
pub open spec fn nodes_are_listed(rules: JoinRules, state: JoinView) -> bool {
    forall|slot: int|
        0 <= slot < state.node_slots.len() && (#[trigger] state.node_slots[slot]) is Some
            ==> rules.engine.sources(
            rules.plan.node_slots[slot].table_oid,
            rules.tenant,
        ).contains(state.node_slots[slot]->0)
}

spec fn all_bind(rules: JoinRules, found: Seq<JoinView>) -> bool {
    forall|i: int|
        0 <= i < found.len() ==> binds_patterns(
            rules,
            #[trigger] found[i],
            rules.plan.patterns.len(),
        )
}

proof fn lemma_both_bind(rules: JoinRules, here: Seq<JoinView>, rest: Seq<JoinView>)
    requires
        all_bind(rules, here),
        all_bind(rules, rest),
    ensures
        all_bind(rules, here + rest),
{
    let all = here + rest;
    assert forall|i: int| 0 <= i < all.len() implies binds_patterns(
        rules,
        #[trigger] all[i],
        rules.plan.patterns.len(),
    ) by {
        if i < here.len() {
            assert(all[i] == here[i]);
        } else {
            assert(all[i] == rest[i - here.len()]);
        }
    }
}

/// Every match of a join binds each pattern to a step of its type between nodes of
/// the tables of its slots, which the tenant scope allows and the transaction has
/// not deleted; patterns that share a variable share its node.
pub proof fn lemma_join_matches_bind_patterns(rules: JoinRules)
    requires
        execute_join::slots_exist(rules.plan),
        rules.type_ids.len() == rules.plan.patterns.len(),
    ensures
        forall|i: int|
            0 <= i < execute_join::join_matches(rules, 0, execute_join::unbound(rules.plan)).len()
                ==> binds_patterns(
                rules,
                #[trigger] execute_join::join_matches(
                    rules,
                    0,
                    execute_join::unbound(rules.plan),
                )[i],
                rules.plan.patterns.len(),
            ),
{
    lemma_matches_bind(rules, 0, execute_join::unbound(rules.plan));
}

proof fn lemma_matches_bind(rules: JoinRules, at: nat, state: JoinView)
    requires
        execute_join::slots_exist(rules.plan),
        rules.type_ids.len() == rules.plan.patterns.len(),
        at <= rules.plan.patterns.len(),
        binds_patterns(rules, state, at),
    ensures
        all_bind(rules, execute_join::join_matches(rules, at, state)),
    decreases rules.plan.patterns.len() - at, 3nat, 0nat,
{
    if at < rules.plan.patterns.len() {
        let slot = rules.plan.patterns[at as int].source_slot;
        let nodes = execute_join::candidates(rules, state, slot);
        assert(state.node_slots[slot as int] matches Some(bound) ==> forall|i: int|
            0 <= i < nodes.len() ==> #[trigger] nodes[i] == bound);
        lemma_sources_bind(rules, at, state, nodes, 0);
    }
}

proof fn lemma_sources_bind(
    rules: JoinRules,
    at: nat,
    state: JoinView,
    nodes: Seq<u32>,
    from: nat,
)
    requires
        execute_join::slots_exist(rules.plan),
        rules.type_ids.len() == rules.plan.patterns.len(),
        at < rules.plan.patterns.len(),
        binds_patterns(rules, state, at),
        state.node_slots[rules.plan.patterns[at as int].source_slot as int] matches Some(bound)
            ==> forall|i: int| 0 <= i < nodes.len() ==> #[trigger] nodes[i] == bound,
    ensures
        all_bind(rules, execute_join::matches_by_source(rules, at, state, nodes, from)),
    decreases rules.plan.patterns.len() - at, 2nat, nodes.len() - from,
{
    if from < nodes.len() {
        let pattern = rules.plan.patterns[at as int];
        let node_idx = nodes[from as int];
        lemma_sources_bind(rules, at, state, nodes, from + 1);
        let here = if execute_join::slot_takes(rules, pattern.source_slot, node_idx) {
            let next = state.with_node(pattern.source_slot, node_idx);
            let taken = steps::steps(rules.engine, pattern.direction, node_idx, None);
            steps::lemma_steps(rules.engine, pattern.direction, node_idx, None);
            lemma_keeps_patterns(rules, state, next, at);
            lemma_steps_bind(rules, at, next, node_idx, taken, 0);
            execute_join::matches_by_step(rules, at, next, node_idx, taken, 0)
        } else {
            Seq::empty()
        };
        lemma_both_bind(
            rules,
            here,
            execute_join::matches_by_source(rules, at, state, nodes, from + 1),
        );
    }
}

/// Binding a slot that is free, or bound to the same node, keeps the patterns.
proof fn lemma_keeps_patterns(rules: JoinRules, state: JoinView, next: JoinView, count: nat)
    requires
        execute_join::slots_exist(rules.plan),
        count <= rules.plan.patterns.len(),
        state.node_slots.len() == rules.plan.node_slots.len(),
        next.node_slots.len() == state.node_slots.len(),
        state.relationships.len() == count,
        next.relationships.len() >= count,
        forall|i: int| 0 <= i < count ==> #[trigger] pattern_holds(rules, state, i),
        forall|i: int|
            0 <= i < count ==> next.relationships[i] == #[trigger] state.relationships[i],
        forall|slot: int|
            0 <= slot < state.node_slots.len() && (#[trigger] state.node_slots[slot]) is Some
                ==> next.node_slots[slot] == state.node_slots[slot],
    ensures
        forall|i: int| 0 <= i < count ==> #[trigger] pattern_holds(rules, next, i),
{
    assert forall|i: int| 0 <= i < count implies #[trigger] pattern_holds(rules, next, i) by {
        assert(pattern_holds(rules, state, i));
        let pattern = rules.plan.patterns[i];
        assert(next.relationships[i] == state.relationships[i]);
        assert(state.node_slots[pattern.source_slot as int] is Some);
        assert(state.node_slots[pattern.target_slot as int] is Some);
    }
}

proof fn lemma_steps_bind(
    rules: JoinRules,
    at: nat,
    state: JoinView,
    source_idx: u32,
    taken: Seq<GqlStepTarget>,
    from: nat,
)
    requires
        execute_join::slots_exist(rules.plan),
        rules.type_ids.len() == rules.plan.patterns.len(),
        at < rules.plan.patterns.len(),
        state.node_slots.len() == rules.plan.node_slots.len(),
        state.relationships.len() == at,
        forall|i: int| 0 <= i < at ==> #[trigger] pattern_holds(rules, state, i),
        forall|slot: int|
            0 <= slot < state.node_slots.len() && (#[trigger] state.node_slots[slot]) is Some
                ==> is_mentioned(rules, slot, at) || slot
                == rules.plan.patterns[at as int].source_slot,
        state.node_slots[rules.plan.patterns[at as int].source_slot as int] == Some(source_idx),
        execute_join::slot_takes(rules, rules.plan.patterns[at as int].source_slot, source_idx),
        forall|step: GqlStepTarget| #[trigger]
            taken.contains(step) ==> steps::is_step(
                rules.engine,
                rules.plan.patterns[at as int].direction,
                source_idx,
                None,
                step,
            ),
    ensures
        all_bind(
            rules,
            execute_join::matches_by_step(rules, at, state, source_idx, taken, from),
        ),
    decreases rules.plan.patterns.len() - at, 1nat, taken.len() - from,
{
    if from < taken.len() {
        let pattern = rules.plan.patterns[at as int];
        let step = taken[from as int];
        lemma_steps_bind(rules, at, state, source_idx, taken, from + 1);
        let here = if execute_join::step_fits(rules, state, at, step) {
            let next = state.with_target(pattern.target_slot, source_idx, step);
            lemma_keeps_patterns(rules, state, next, at);
            assert(taken.contains(step));
            assert(walks::step_of(next.relationships[at as int]) == step);
            assert(pattern_holds(rules, next, at as int));
            assert(binds_patterns(rules, next, at + 1)) by {
                assert forall|slot: int|
                    0 <= slot < next.node_slots.len() && (#[trigger] next.node_slots[slot])
                        is Some implies is_mentioned(rules, slot, at + 1) by {
                    if slot == pattern.target_slot || slot == pattern.source_slot {
                        assert(rules.plan.patterns[at as int] == pattern);
                    } else {
                        assert(state.node_slots[slot] is Some);
                        assert(is_mentioned(rules, slot, at));
                        let i = choose|i: int|
                            0 <= i < at && (#[trigger] rules.plan.patterns[i]).source_slot == slot
                                || 0 <= i < at && (#[trigger] rules.plan.patterns[i]).target_slot
                                == slot;
                        assert(rules.plan.patterns[i] == rules.plan.patterns[i]);
                    }
                }
            }
            lemma_matches_bind(rules, at + 1, next);
            execute_join::join_matches(rules, at + 1, next)
        } else {
            Seq::empty()
        };
        lemma_both_bind(
            rules,
            here,
            execute_join::matches_by_step(rules, at, state, source_idx, taken, from + 1),
        );
    }
}

// ---------------------------------------------------------------------------
// Every binding is found
// ---------------------------------------------------------------------------

/// What a join binds by its first `count` patterns.
spec fn bound_so_far(rules: JoinRules, full: JoinView, count: nat) -> JoinView {
    JoinView {
        node_slots: Seq::new(
            full.node_slots.len(),
            |slot: int|
                if is_mentioned(rules, slot, count) {
                    full.node_slots[slot]
                } else {
                    None
                },
        ),
        relationships: full.relationships.take(count as int),
    }
}

/// A join finds every way to bind its patterns to steps between nodes that are
/// listed for their tables.
pub proof fn lemma_join_finds_bindings(rules: JoinRules, full: JoinView)
    requires
        execute_join::slots_exist(rules.plan),
        rules.type_ids.len() == rules.plan.patterns.len(),
        binds_patterns(rules, full, rules.plan.patterns.len()),
        nodes_are_listed(rules, full),
    ensures
        execute_join::join_matches(rules, 0, execute_join::unbound(rules.plan)).contains(full),
{
    lemma_binding_found(rules, full, 0);
    let start = bound_so_far(rules, full, 0);
    assert(start.node_slots =~= execute_join::unbound(rules.plan).node_slots);
    assert(start.relationships =~= execute_join::unbound(rules.plan).relationships);
}

proof fn lemma_binding_found(rules: JoinRules, full: JoinView, at: nat)
    requires
        execute_join::slots_exist(rules.plan),
        rules.type_ids.len() == rules.plan.patterns.len(),
        at <= rules.plan.patterns.len(),
        binds_patterns(rules, full, rules.plan.patterns.len()),
        nodes_are_listed(rules, full),
    ensures
        execute_join::join_matches(rules, at, bound_so_far(rules, full, at)).contains(full),
    decreases rules.plan.patterns.len() - at,
{
    let state = bound_so_far(rules, full, at);
    if at >= rules.plan.patterns.len() {
        assert forall|slot: int| 0 <= slot < full.node_slots.len() implies #[trigger]
            state.node_slots[slot] == full.node_slots[slot] by {
            if full.node_slots[slot] is Some {
                assert(is_mentioned(rules, slot, at));
            }
        }
        assert(state.node_slots =~= full.node_slots);
        assert(state.relationships =~= full.relationships);
        assert(execute_join::join_matches(rules, at, state)[0] == full);
    } else {
        let pattern = rules.plan.patterns[at as int];
        let relationship = full.relationships[at as int];
        assert(pattern_holds(rules, full, at as int));
        let source_idx = relationship.from_idx;
        let step = walks::step_of(relationship);
        let nodes = execute_join::candidates(rules, state, pattern.source_slot);
        assert(nodes.contains(source_idx)) by {
            assert(full.node_slots[pattern.source_slot as int] is Some);
            if state.node_slots[pattern.source_slot as int] is Some {
                assert(nodes[0] == source_idx);
            }
        }
        let next = state.with_node(pattern.source_slot, source_idx);
        let taken = steps::steps(rules.engine, pattern.direction, source_idx, None);
        steps::lemma_steps(rules.engine, pattern.direction, source_idx, None);
        assert(steps::is_step(rules.engine, pattern.direction, source_idx, None, step));
        assert(taken.contains(step));
        assert(execute_join::step_fits(rules, next, at, step));
        let after = next.with_target(pattern.target_slot, source_idx, step);
        lemma_next_binding(rules, full, at);
        lemma_binding_found(rules, full, at + 1);
        assert(execute_join::join_matches(rules, at + 1, after).contains(full));
        let n = choose|n: int| 0 <= n < nodes.len() && nodes[n] == source_idx;
        let t = choose|t: int| 0 <= t < taken.len() && taken[t] == step;
        lemma_step_found(rules, at, next, source_idx, taken, 0, t, full);
        lemma_source_found(rules, at, state, nodes, 0, n, full);
    }
}

/// Taking a pattern as a binding does leads on to what it binds next.
proof fn lemma_next_binding(rules: JoinRules, full: JoinView, at: nat)
    requires
        execute_join::slots_exist(rules.plan),
        at < rules.plan.patterns.len(),
        binds_patterns(rules, full, rules.plan.patterns.len()),
    ensures
        bound_so_far(rules, full, at).with_node(
            rules.plan.patterns[at as int].source_slot,
            full.relationships[at as int].from_idx,
        ).with_target(
            rules.plan.patterns[at as int].target_slot,
            full.relationships[at as int].from_idx,
            walks::step_of(full.relationships[at as int]),
        ) == bound_so_far(rules, full, at + 1),
{
    let pattern = rules.plan.patterns[at as int];
    let relationship = full.relationships[at as int];
    assert(pattern_holds(rules, full, at as int));
    let state = bound_so_far(rules, full, at);
    let after = state.with_node(pattern.source_slot, relationship.from_idx).with_target(
        pattern.target_slot,
        relationship.from_idx,
        walks::step_of(relationship),
    );
    let wanted = bound_so_far(rules, full, at + 1);
    assert forall|slot: int| 0 <= slot < full.node_slots.len() implies #[trigger]
        after.node_slots[slot] == wanted.node_slots[slot] by {
        if slot == pattern.source_slot || slot == pattern.target_slot {
            assert(rules.plan.patterns[at as int] == pattern);
            assert(is_mentioned(rules, slot, at + 1));
        } else {
            assert(is_mentioned(rules, slot, at) <==> is_mentioned(rules, slot, at + 1)) by {
                if is_mentioned(rules, slot, at + 1) {
                    let i = choose|i: int|
                        0 <= i < at + 1 && (#[trigger] rules.plan.patterns[i]).source_slot == slot
                            || 0 <= i < at + 1 && (
                        #[trigger] rules.plan.patterns[i]).target_slot == slot;
                    assert(i < at);
                    assert(rules.plan.patterns[i] == rules.plan.patterns[i]);
                }
                if is_mentioned(rules, slot, at) {
                    let i = choose|i: int|
                        0 <= i < at && (#[trigger] rules.plan.patterns[i]).source_slot == slot || 0
                            <= i < at && (#[trigger] rules.plan.patterns[i]).target_slot == slot;
                    assert(rules.plan.patterns[i] == rules.plan.patterns[i]);
                }
            }
        }
    }
    assert(after.node_slots =~= wanted.node_slots);
    assert(after.relationships =~= wanted.relationships);
}

proof fn lemma_part_found(here: Seq<JoinView>, rest: Seq<JoinView>, full: JoinView)
    requires
        here.contains(full) || rest.contains(full),
    ensures
        (here + rest).contains(full),
{
    let all = here + rest;
    if here.contains(full) {
        let i = choose|i: int| 0 <= i < here.len() && here[i] == full;
        assert(all[i] == full);
    } else {
        let i = choose|i: int| 0 <= i < rest.len() && rest[i] == full;
        assert(all[here.len() + i] == full);
    }
}

proof fn lemma_step_found(
    rules: JoinRules,
    at: nat,
    state: JoinView,
    source_idx: u32,
    taken: Seq<GqlStepTarget>,
    from: nat,
    wanted: int,
    full: JoinView,
)
    requires
        at < rules.plan.patterns.len(),
        from <= wanted < taken.len(),
        execute_join::step_fits(rules, state, at, taken[wanted]),
        execute_join::join_matches(
            rules,
            at + 1,
            state.with_target(
                rules.plan.patterns[at as int].target_slot,
                source_idx,
                taken[wanted],
            ),
        ).contains(full),
    ensures
        execute_join::matches_by_step(rules, at, state, source_idx, taken, from).contains(full),
    decreases taken.len() - from,
{
    let slot = rules.plan.patterns[at as int].target_slot;
    let here = if execute_join::step_fits(rules, state, at, taken[from as int]) {
        execute_join::join_matches(
            rules,
            at + 1,
            state.with_target(slot, source_idx, taken[from as int]),
        )
    } else {
        Seq::empty()
    };
    let rest = execute_join::matches_by_step(rules, at, state, source_idx, taken, from + 1);
    if from < wanted {
        lemma_step_found(rules, at, state, source_idx, taken, from + 1, wanted, full);
    }
    lemma_part_found(here, rest, full);
}

proof fn lemma_source_found(
    rules: JoinRules,
    at: nat,
    state: JoinView,
    nodes: Seq<u32>,
    from: nat,
    wanted: int,
    full: JoinView,
)
    requires
        at < rules.plan.patterns.len(),
        from <= wanted < nodes.len(),
        execute_join::slot_takes(
            rules,
            rules.plan.patterns[at as int].source_slot,
            nodes[wanted],
        ),
        execute_join::matches_by_step(
            rules,
            at,
            state.with_node(rules.plan.patterns[at as int].source_slot, nodes[wanted]),
            nodes[wanted],
            steps::steps(
                rules.engine,
                rules.plan.patterns[at as int].direction,
                nodes[wanted],
                None,
            ),
            0,
        ).contains(full),
    ensures
        execute_join::matches_by_source(rules, at, state, nodes, from).contains(full),
    decreases nodes.len() - from,
{
    let pattern = rules.plan.patterns[at as int];
    let node_idx = nodes[from as int];
    let here = if execute_join::slot_takes(rules, pattern.source_slot, node_idx) {
        execute_join::matches_by_step(
            rules,
            at,
            state.with_node(pattern.source_slot, node_idx),
            node_idx,
            steps::steps(rules.engine, pattern.direction, node_idx, None),
            0,
        )
    } else {
        Seq::empty()
    };
    let rest = execute_join::matches_by_source(rules, at, state, nodes, from + 1);
    if from < wanted {
        lemma_source_found(rules, at, state, nodes, from + 1, wanted, full);
    }
    lemma_part_found(here, rest, full);
}

// ---------------------------------------------------------------------------
// Rows
// ---------------------------------------------------------------------------

/// Every pattern has a type identifier.
pub proof fn lemma_type_ids(
    engine: Engine,
    patterns: Seq<PhysicalJoinPatternView>,
    from: int,
    done: Seq<u8>,
)
    requires
        0 <= from <= patterns.len(),
    ensures
        execute_join::type_ids_from(engine, patterns, from, done) matches Ok(ids) ==> ids.len()
            == done.len() + patterns.len() - from,
    decreases patterns.len() - from,
{
    if from < patterns.len() {
        match engine::type_id_of(engine.edge_type_registry@, patterns[from].rel_type) {
            Ok(id) => lemma_type_ids(engine, patterns, from + 1, done.push(id)),
            Err(_) => {},
        }
    }
}

/// What decides the matches of an executed join.
pub open spec fn rules_of(
    engine: Engine,
    plan: PhysicalJoinPlanView,
    deleted: Set<u32>,
    tenant: Option<Seq<char>>,
) -> JoinRules {
    JoinRules {
        engine,
        deleted,
        tenant,
        plan,
        type_ids: execute_join::type_ids_from(engine, plan.patterns, 0, Seq::empty())->Ok_0,
    }
}

/// Every row of an executed join is that of a binding of all its patterns.
pub proof fn lemma_join_rows_are_bindings(
    engine: Engine,
    plan: PhysicalJoinPlanView,
    deleted: Set<u32>,
    tenant: Option<Seq<char>>,
    at: int,
)
    requires
        execute_join::slots_exist(plan),
        execute_join::executed_join(engine, plan, deleted, tenant) is Ok,
        0 <= at < execute_join::executed_join(engine, plan, deleted, tenant)->Ok_0.len(),
    ensures
        exists|state: JoinView| #[trigger]
            binds_patterns(
                rules_of(engine, plan, deleted, tenant),
                state,
                plan.patterns.len(),
            ) && rows::join_row_of(engine, state) == Ok::<RowView, GraphErrorView>(
                execute_join::executed_join(engine, plan, deleted, tenant)->Ok_0[at],
            ),
{
    let rules = rules_of(engine, plan, deleted, tenant);
    let matches = execute_join::join_matches(rules, 0, execute_join::unbound(plan));
    let collector = execute_join::join_collector(engine, plan);
    let row = execute_join::executed_join(engine, plan, deleted, tenant)->Ok_0[at];
    lemma_type_ids(engine, plan.patterns, 0, Seq::empty());
    lemma_join_matches_bind_patterns(rules);
    rows::lemma_rows_come_from_matches(collector, matches);
    assert(rows::is_row_of(collector, matches, row));
    let state = choose|state: JoinView| #[trigger]
        matches.contains(state) && (collector.project)(state) == Ok::<RowView, GraphErrorView>(row);
    let i = choose|i: int| 0 <= i < matches.len() && matches[i] == state;
    assert(binds_patterns(rules, matches[i], plan.patterns.len()));
}

} // verus!
