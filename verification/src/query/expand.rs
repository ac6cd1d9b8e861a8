//! Expansion of relationship matches from a source node.
use vstd::prelude::*;

use crate::order::{self, Ranked};
use crate::ordered_map::{MapKey, OrderedMap};
use crate::projection::tx_delta::TxState;
use crate::query::engine::{self, target_matches, wildcard_node_visible, Engine};
use crate::query::logical_plan::{BoundDirection, HopBounds};
use crate::query::physical_plan::{PhysicalPlan, PhysicalPlanView, ReturnSlot, ReturnSlotView};
use crate::query::steps::{self, EdgeOrientation, GqlNeighbors, GqlStepTarget};
use crate::views;

verus! {

// ---------------------------------------------------------------------------
// Marks
// ---------------------------------------------------------------------------

/// A node index as a key.
#[derive(Debug, Clone, Copy, PartialEq, Eq, Structural)]
pub struct NodeMark {
    pub node_idx: u32,
}

impl Ranked for NodeMark {
    open spec fn rank(&self) -> Seq<int> {
        seq![self.node_idx as int]
    }

    fn precedes(&self, other: &NodeMark) -> (found: bool) {
        proof {
            reveal_with_fuel(order::ranks_before, 2);
        }
        self.node_idx < other.node_idx
    }
}

impl MapKey for NodeMark {
    proof fn rank_unique(a: NodeMark, b: NodeMark) {
        let x = a.rank();
        let y = b.rank();
        assert(x[0] == y[0]);
    }
}

/// A set of keys.
pub struct Marks<K> {
    pub map: OrderedMap<K, ()>,
}

impl<K: MapKey> View for Marks<K> {
    type V = Set<K>;

    open spec fn view(&self) -> Set<K> {
        self.map@.dom()
    }
}

impl<K: MapKey> Marks<K> {
    /// Whether the keys are in order.
    pub open spec fn wf(&self) -> bool {
        self.map.wf()
    }

    /// The empty set.
    pub fn new() -> (marks: Marks<K>)
        ensures
            marks.wf(),
            marks@ == Set::<K>::empty(),
    {
        let marks: Marks<K> = Marks { map: OrderedMap::new() };
        assert(marks@ =~= Set::<K>::empty());
        marks
    }

    /// Add a key. Tells whether it is new.
    pub fn insert(&mut self, key: K) -> (fresh: bool)
        requires
            old(self).wf(),
        ensures
            final(self).wf(),
            final(self)@ == old(self)@.insert(key),
            fresh == !old(self)@.contains(key),
    {
        let ghost before = self@;
        if self.map.contains(&key) {
            assert(before =~= before.insert(key));
            return false;
        }
        self.map.insert(key, ());
        assert(self@ =~= before.insert(key));
        true
    }
}

// ---------------------------------------------------------------------------
// Paths
// ---------------------------------------------------------------------------

/// One relationship of a path.
#[derive(Debug, Clone, Copy, PartialEq, Eq, Structural)]
pub struct GqlRelationshipStep {
    pub from_idx: u32,
    pub to_idx: u32,
    pub orientation: EdgeOrientation,
    pub type_id: u8,
}

/// A path that is being expanded.
#[derive(Debug, Clone, PartialEq, Eq)]
pub struct PathState {
    pub node_idx: u32,
    pub path_nodes: Vec<u32>,
    pub path_relationships: Vec<GqlRelationshipStep>,
}

/// What a path holds.
#[verifier::ext_equal]
pub struct PathView {
    /// The last node.
    pub node_idx: u32,
    /// Nodes in order.
    pub nodes: Seq<u32>,
    /// Relationships in order.
    pub relationships: Seq<GqlRelationshipStep>,
}

impl View for PathState {
    type V = PathView;

    open spec fn view(&self) -> PathView {
        PathView {
            node_idx: self.node_idx,
            nodes: self.path_nodes@,
            relationships: self.path_relationships@,
        }
    }
}

/// The path of one node.
pub open spec fn path_start(node_idx: u32) -> PathView {
    PathView { node_idx, nodes: seq![node_idx], relationships: Seq::empty() }
}

impl PathView {
    /// The path with a step added.
    pub open spec fn then_step(self, step: GqlStepTarget) -> PathView {
        PathView {
            node_idx: step.node_idx,
            nodes: self.nodes.push(step.node_idx),
            relationships: self.relationships.push(
                GqlRelationshipStep {
                    from_idx: self.node_idx,
                    to_idx: step.node_idx,
                    orientation: step.orientation,
                    type_id: step.type_id,
                },
            ),
        }
    }
}

/// A copy of a vector.
pub fn copy_vec<T: Copy>(items: &Vec<T>) -> (copy: Vec<T>)
    ensures
        copy@ == items@,
{
    let mut copy: Vec<T> = Vec::new();
    for i in 0..items.len()
        invariant
            copy@ == items@.take(i as int),
    {
        copy.push(items[i]);
        assert(items@.take(i + 1) =~= items@.take(i as int).push(items@[i as int]));
    }
    assert(items@.take(items@.len() as int) =~= items@);
    copy
}

impl PathState {
    /// The path of one node.
    pub fn start(node_idx: u32) -> (path: PathState)
        ensures
            path@ == path_start(node_idx),
    {
        let mut path_nodes: Vec<u32> = Vec::new();
        path_nodes.push(node_idx);
        let path: PathState = PathState { node_idx, path_nodes, path_relationships: Vec::new() };
        assert(path@ =~= path_start(node_idx));
        path
    }

    /// The path with a step added.
    pub fn push(&self, target: GqlStepTarget) -> (path: PathState)
        ensures
            path@ == self@.then_step(target),
    {
        let mut path_nodes: Vec<u32> = copy_vec(&self.path_nodes);
        path_nodes.push(target.node_idx);
        let mut path_relationships: Vec<GqlRelationshipStep> = copy_vec(&self.path_relationships);
        path_relationships.push(
            GqlRelationshipStep {
                from_idx: self.node_idx,
                to_idx: target.node_idx,
                orientation: target.orientation,
                type_id: target.type_id,
            },
        );
        PathState { node_idx: target.node_idx, path_nodes, path_relationships }
    }

    /// A copy of the path.
    pub fn duplicate(&self) -> (path: PathState)
        ensures
            path@ == self@,
    {
        PathState {
            node_idx: self.node_idx,
            path_nodes: copy_vec(&self.path_nodes),
            path_relationships: copy_vec(&self.path_relationships),
        }
    }
}

/// A match of a relationship pattern.
#[derive(Debug, Clone, PartialEq, Eq)]
pub struct GqlTarget {
    /// The last step.
    pub step: GqlStepTarget,
    /// The path to the target.
    pub path: PathState,
}

/// What a match holds.
pub struct TargetView {
    pub step: GqlStepTarget,
    pub path: PathView,
}

impl View for GqlTarget {
    type V = TargetView;

    open spec fn view(&self) -> TargetView {
        TargetView { step: self.step, path: self.path@ }
    }
}

// ---------------------------------------------------------------------------
// Expansion
// ---------------------------------------------------------------------------

/// What decides an expansion.
pub struct ExpandRules {
    pub engine: Engine,
    /// Nodes deleted in the transaction.
    pub deleted: Set<u32>,
    pub tenant: Option<Seq<char>>,
    pub direction: BoundDirection,
    pub type_id: u8,
    pub hops: HopBounds,
    pub target_table_oid: u32,
    /// Whether the query returns the relationship.
    pub returns_relationship: bool,
}

/// What an expansion has found so far.
#[verifier::ext_equal]
pub struct Expansion {
    pub results: Seq<TargetView>,
    /// Targets found so far.
    pub seen_nodes: Set<NodeMark>,
    /// Relationships found so far.
    pub seen_relationships: Set<GqlStepTarget>,
    /// Nodes reached so far.
    pub frontier: Set<NodeMark>,
    /// Paths to expand at the next depth.
    pub next: Seq<PathView>,
}

/// The expansion after one step. A variable-length pattern keeps every path
/// without a repeated node; a fixed one reaches each node once, and finds each
/// target once, or each relationship where the query returns it.
pub open spec fn after_step(
    rules: ExpandRules,
    depth: u32,
    path: PathView,
    step: GqlStepTarget,
    found: Expansion,
) -> Expansion {
    let mark = NodeMark { node_idx: step.node_idx };
    if !rules.engine.visible(rules.deleted, step.node_idx, rules.tenant) {
        found
    } else if rules.hops.variable && path.nodes.contains(step.node_idx) {
        found
    } else {
        let longer = path.then_step(step);
        let fits = depth >= rules.hops.min && rules.engine.matches_table(
            step.node_idx,
            rules.target_table_oid,
            rules.tenant,
        );
        let fresh = rules.hops.variable || if rules.returns_relationship {
            !found.seen_relationships.contains(step)
        } else {
            !found.seen_nodes.contains(mark)
        };
        let marks = fits && !rules.hops.variable;
        let goes_on = depth < rules.hops.max;
        Expansion {
            results: if fits && fresh {
                found.results.push(TargetView { step, path: longer })
            } else {
                found.results
            },
            seen_nodes: if marks && !rules.returns_relationship {
                found.seen_nodes.insert(mark)
            } else {
                found.seen_nodes
            },
            seen_relationships: if marks && rules.returns_relationship {
                found.seen_relationships.insert(step)
            } else {
                found.seen_relationships
            },
            frontier: if goes_on && !rules.hops.variable {
                found.frontier.insert(mark)
            } else {
                found.frontier
            },
            next: if goes_on && (rules.hops.variable || !found.frontier.contains(mark)) {
                found.next.push(longer)
            } else {
                found.next
            },
        }
    }
}

/// The expansion after the steps of a path from `from` on.
pub open spec fn after_steps(
    rules: ExpandRules,
    depth: u32,
    path: PathView,
    taken: Seq<GqlStepTarget>,
    from: int,
    found: Expansion,
) -> Expansion
    decreases taken.len() - from,
{
    if from >= taken.len() {
        found
    } else {
        after_steps(
            rules,
            depth,
            path,
            taken,
            from + 1,
            after_step(rules, depth, path, taken[from], found),
        )
    }
}

/// The steps that a path can take.
pub open spec fn steps_of(rules: ExpandRules, path: PathView) -> Seq<GqlStepTarget> {
    steps::steps(rules.engine, rules.direction, path.node_idx, Some(rules.type_id))
}

/// The expansion after the steps of paths from `from` on.
pub open spec fn after_paths(
    rules: ExpandRules,
    depth: u32,
    paths: Seq<PathView>,
    from: int,
    found: Expansion,
) -> Expansion
    decreases paths.len() - from,
{
    if from >= paths.len() {
        found
    } else {
        after_paths(
            rules,
            depth,
            paths,
            from + 1,
            after_steps(rules, depth, paths[from], steps_of(rules, paths[from]), 0, found),
        )
    }
}

/// The expansion after the depths from `depth` on.
pub open spec fn after_depths(rules: ExpandRules, depth: nat, found: Expansion) -> Expansion
    decreases rules.hops.max + 1 - depth,
{
    if depth > rules.hops.max || found.next.len() == 0 {
        found
    } else {
        after_depths(
            rules,
            depth + 1,
            after_paths(
                rules,
                depth as u32,
                found.next,
                0,
                Expansion { next: Seq::empty(), ..found },
            ),
        )
    }
}

/// The expansion before any step.
pub open spec fn at_source(source_idx: u32) -> Expansion {
    Expansion {
        results: Seq::empty(),
        seen_nodes: Set::empty(),
        seen_relationships: Set::empty(),
        frontier: Set::empty().insert(NodeMark { node_idx: source_idx }),
        next: seq![path_start(source_idx)],
    }
}

/// The matches of a relationship pattern from a source node.
pub open spec fn matches_from(rules: ExpandRules, source_idx: u32) -> Seq<TargetView> {
    after_depths(rules, 1, at_source(source_idx)).results
}

/// Whether slots return a relationship.
pub open spec fn returns_relationship(slots: Seq<ReturnSlotView>) -> bool {
    exists|i: int| 0 <= i < slots.len() && (#[trigger] slots[i]) is Relationship
}

fn has_relationship_return(slots: &Vec<ReturnSlot>) -> (found: bool)
    ensures
        found == returns_relationship(views::views(slots@)),
{
    let ghost all = views::views(slots@);
    for i in 0..slots.len()
        invariant
            all == views::views(slots@),
            forall|j: int| 0 <= j < i ==> !((#[trigger] all[j]) is Relationship),
    {
        assert(all[i as int] == slots@[i as int]@);
        match &slots[i] {
            ReturnSlot::Relationship { .. } => {
                assert(all[i as int] is Relationship);
                return true;
            },
            _ => {},
        }
    }
    false
}

/// What decides the expansion of a plan.
pub open spec fn plan_rules(
    engine: Engine,
    plan: PhysicalPlanView,
    type_id: u8,
    deleted: Set<u32>,
    tenant: Option<Seq<char>>,
) -> ExpandRules {
    ExpandRules {
        engine,
        deleted,
        tenant,
        direction: plan.direction,
        type_id,
        hops: plan.hops,
        target_table_oid: plan.target_table_oid,
        returns_relationship: returns_relationship(plan.returns),
    }
}

/// An expansion under way.
struct Expander {
    results: Vec<GqlTarget>,
    seen_nodes: Marks<NodeMark>,
    seen_relationships: Marks<GqlStepTarget>,
    frontier: Marks<NodeMark>,
    next: Vec<PathState>,
}

impl View for Expander {
    type V = Expansion;

    closed spec fn view(&self) -> Expansion {
        Expansion {
            results: views::views(self.results@),
            seen_nodes: self.seen_nodes@,
            seen_relationships: self.seen_relationships@,
            frontier: self.frontier@,
            next: views::views(self.next@),
        }
    }
}

impl Expander {
    spec fn wf(&self) -> bool {
        self.seen_nodes.wf() && self.seen_relationships.wf() && self.frontier.wf()
    }
}

/// Whether a path has a node.
fn path_has(path: &PathState, node_idx: u32) -> (found: bool)
    ensures
        found == path@.nodes.contains(node_idx),
{
    engine::lists_number(&path.path_nodes, node_idx)
}

fn take_step(
    engine: &Engine,
    tx: &TxState,
    tenant: Option<&str>,
    plan: &PhysicalPlan,
    returns_rel: bool,
    Ghost(rules): Ghost<ExpandRules>,
    depth: u32,
    path: &PathState,
    step: GqlStepTarget,
    found: &mut Expander,
)
    requires
        rules == plan_rules(
            *engine,
            plan@,
            rules.type_id,
            tx.recorded().deleted_nodes,
            engine::scope_of(tenant),
        ),
        returns_rel == rules.returns_relationship,
        old(found).wf(),
    ensures
        final(found).wf(),
        final(found)@ == after_step(rules, depth, path@, step, old(found)@),
{
    let ghost before = found@;
    let mark: NodeMark = NodeMark { node_idx: step.node_idx };
    if !wildcard_node_visible(engine, tx, step.node_idx, tenant) {
        return;
    }
    if plan.hops.variable && path_has(path, step.node_idx) {
        return;
    }
    let longer: PathState = path.push(step);
    if depth >= plan.hops.min && target_matches(
        engine,
        step.node_idx,
        plan.target_table_oid,
        tenant,
    ) {
        let fresh: bool = if plan.hops.variable {
            true
        } else if returns_rel {
            found.seen_relationships.insert(step)
        } else {
            found.seen_nodes.insert(mark)
        };
        if fresh {
            let ghost earlier = found.results@;
            let target: GqlTarget = GqlTarget { step, path: longer.duplicate() };
            found.results.push(target);
            proof {
                views::lemma_push(earlier, target);
            }
        }
    }
    if depth < plan.hops.max {
        let fresh: bool = if plan.hops.variable {
            true
        } else {
            found.frontier.insert(mark)
        };
        if fresh {
            let ghost earlier = found.next@;
            found.next.push(longer);
            proof {
                views::lemma_push(earlier, longer);
            }
        }
    }
    assert(found@ =~= after_step(rules, depth, path@, step, before));
}

fn take_paths(
    neighbors: &GqlNeighbors,
    engine: &Engine,
    tx: &TxState,
    tenant: Option<&str>,
    plan: &PhysicalPlan,
    returns_rel: bool,
    rel_type_id: u8,
    Ghost(rules): Ghost<ExpandRules>,
    depth: u32,
    paths: &Vec<PathState>,
    found: &mut Expander,
)
    requires
        engine.wf(),
        neighbors.engine == engine,
        rules.type_id == rel_type_id,
        rules == plan_rules(
            *engine,
            plan@,
            rel_type_id,
            tx.recorded().deleted_nodes,
            engine::scope_of(tenant),
        ),
        returns_rel == rules.returns_relationship,
        old(found).wf(),
    ensures
        final(found).wf(),
        final(found)@ == after_paths(rules, depth, views::views(paths@), 0, old(found)@),
{
    let ghost start = found@;
    let ghost all = views::views(paths@);
    for i in 0..paths.len()
        invariant
            engine.wf(),
            neighbors.engine == engine,
            rules.type_id == rel_type_id,
            rules == plan_rules(
                *engine,
                plan@,
                rel_type_id,
                tx.recorded().deleted_nodes,
                engine::scope_of(tenant),
            ),
            returns_rel == rules.returns_relationship,
            found.wf(),
            all == views::views(paths@),
            after_paths(rules, depth, all, i as int, found@) == after_paths(
                rules,
                depth,
                all,
                0,
                start,
            ),
    {
        let path: &PathState = &paths[i];
        assert(all[i as int] == path@);
        let taken: Vec<GqlStepTarget> = neighbors.for_direction(
            plan.direction,
            path.node_idx,
            rel_type_id,
        );
        let ghost first = found@;
        for j in 0..taken.len()
            invariant
                rules.type_id == rel_type_id,
                rules == plan_rules(
                    *engine,
                    plan@,
                    rel_type_id,
                    tx.recorded().deleted_nodes,
                    engine::scope_of(tenant),
                ),
                returns_rel == rules.returns_relationship,
                found.wf(),
                after_steps(rules, depth, path@, taken@, j as int, found@) == after_steps(
                    rules,
                    depth,
                    path@,
                    taken@,
                    0,
                    first,
                ),
        {
            take_step(
                engine,
                tx,
                tenant,
                plan,
                returns_rel,
                Ghost(rules),
                depth,
                path,
                taken[j],
                found,
            );
        }
    }
}

/// The matches of a plan from a source node.
pub fn expand_targets(
    neighbors: &GqlNeighbors,
    engine: &Engine,
    tx: &TxState,
    plan: &PhysicalPlan,
    source_idx: u32,
    rel_type_id: u8,
    tenant: Option<&str>,
) -> (results: Vec<GqlTarget>)
    requires
        engine.wf(),
        neighbors.engine == engine,
    ensures
        views::views(results@) == matches_from(
            plan_rules(
                *engine,
                plan@,
                rel_type_id,
                tx.recorded().deleted_nodes,
                engine::scope_of(tenant),
            ),
            source_idx,
        ),
{
    let returns_rel: bool = has_relationship_return(&plan.returns);
    let ghost rules = plan_rules(
        *engine,
        plan@,
        rel_type_id,
        tx.recorded().deleted_nodes,
        engine::scope_of(tenant),
    );
    let mut frontier: Marks<NodeMark> = Marks::new();
    frontier.insert(NodeMark { node_idx: source_idx });
    let mut next: Vec<PathState> = Vec::new();
    next.push(PathState::start(source_idx));
    assert(views::views(next@) =~= seq![path_start(source_idx)]);
    let mut found: Expander = Expander {
        results: Vec::new(),
        seen_nodes: Marks::new(),
        seen_relationships: Marks::new(),
        frontier,
        next,
    };
    assert(found@ =~= at_source(source_idx));
    let mut depth: u32 = 1;
    while depth <= plan.hops.max && found.next.len() > 0
        invariant_except_break
            after_depths(rules, depth as nat, found@).results == matches_from(rules, source_idx),
        invariant
            engine.wf(),
            neighbors.engine == engine,
            rules == plan_rules(
                *engine,
                plan@,
                rel_type_id,
                tx.recorded().deleted_nodes,
                engine::scope_of(tenant),
            ),
            returns_rel == rules.returns_relationship,
            found.wf(),
        ensures
            views::views(found.results@) == matches_from(rules, source_idx),
        decreases plan.hops.max + 1 - depth,
    {
        let ghost before = found@;
        let mut current: Vec<PathState> = Vec::new();
        std::mem::swap(&mut current, &mut found.next);
        assert(found@ =~= Expansion { next: Seq::empty(), ..before });
        take_paths(
            neighbors,
            engine,
            tx,
            tenant,
            plan,
            returns_rel,
            rel_type_id,
            Ghost(rules),
            depth,
            &current,
            &mut found,
        );
        if depth == u32::MAX {
            assert(after_depths(rules, (depth + 1) as nat, found@) == found@);
            break;
        }
        depth = depth + 1;
    }
    found.results
}

} // verus!
