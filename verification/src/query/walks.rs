//! What the matches of a relationship pattern are.
use vstd::prelude::*;

use crate::query::expand::{
    self, ExpandRules, Expansion, GqlRelationshipStep, NodeMark, PathView, TargetView,
};
use crate::query::steps::{self, GqlStepTarget};

verus! {

/// The step of a relationship.
pub open spec fn step_of(relationship: GqlRelationshipStep) -> GqlStepTarget {
    GqlStepTarget {
        node_idx: relationship.to_idx,
        orientation: relationship.orientation,
        type_id: relationship.type_id,
    }
}

/// Whether relationship `i` of a path is a step of the pattern to a visible node.
pub open spec fn walks_at(rules: ExpandRules, path: PathView, i: int) -> bool {
    &&& path.relationships[i].from_idx == path.nodes[i]
    &&& path.relationships[i].to_idx == path.nodes[i + 1]
    &&& steps::is_step(
        rules.engine,
        rules.direction,
        path.nodes[i],
        Some(rules.type_id),
        step_of(path.relationships[i]),
    )
    &&& rules.engine.visible(rules.deleted, path.nodes[i + 1], rules.tenant)
}

/// Whether a path is a walk of `count` steps of the pattern from a source, over
/// visible nodes, without a repeated node where the pattern is of variable length.
pub open spec fn is_walk(rules: ExpandRules, source_idx: u32, path: PathView, count: nat) -> bool {
    &&& path.nodes.len() == count + 1
    &&& path.relationships.len() == count
    &&& path.nodes[0] == source_idx
    &&& path.node_idx == path.nodes[count as int]
    &&& forall|i: int| 0 <= i < count ==> #[trigger] walks_at(rules, path, i)
    &&& rules.hops.variable ==> path.nodes.no_duplicates()
}

/// Whether a match is a walk from a source to a node of the target table, with as
/// many steps as the pattern allows.
pub open spec fn is_match(rules: ExpandRules, source_idx: u32, target: TargetView) -> bool {
    let count = target.path.relationships.len();
    &&& 1 <= count
    &&& rules.hops.min <= count <= rules.hops.max
    &&& is_walk(rules, source_idx, target.path, count)
    &&& target.step == step_of(target.path.relationships.last())
    &&& rules.engine.matches_table(
        target.path.node_idx,
        rules.target_table_oid,
        rules.tenant,
    )
}

// ---------------------------------------------------------------------------
// Every match is a walk
// ---------------------------------------------------------------------------

spec fn all_walks(rules: ExpandRules, source_idx: u32, paths: Seq<PathView>, count: nat) -> bool {
    forall|i: int| 0 <= i < paths.len() ==> is_walk(rules, source_idx, #[trigger] paths[i], count)
}

spec fn all_match(rules: ExpandRules, source_idx: u32, targets: Seq<TargetView>) -> bool {
    forall|i: int| 0 <= i < targets.len() ==> is_match(rules, source_idx, #[trigger] targets[i])
}

spec fn sound(rules: ExpandRules, source_idx: u32, found: Expansion, count: nat) -> bool {
    all_match(rules, source_idx, found.results) && all_walks(rules, source_idx, found.next, count)
}

proof fn lemma_longer_walk(
    rules: ExpandRules,
    source_idx: u32,
    path: PathView,
    count: nat,
    step: GqlStepTarget,
)
    requires
        is_walk(rules, source_idx, path, count),
        steps::is_step(
            rules.engine,
            rules.direction,
            path.node_idx,
            Some(rules.type_id),
            step,
        ),
        rules.engine.visible(rules.deleted, step.node_idx, rules.tenant),
        rules.hops.variable ==> !path.nodes.contains(step.node_idx),
    ensures
        is_walk(rules, source_idx, path.then_step(step), count + 1),
        path.then_step(step).relationships.last() == (GqlRelationshipStep {
            from_idx: path.node_idx,
            to_idx: step.node_idx,
            orientation: step.orientation,
            type_id: step.type_id,
        }),
{
    let longer = path.then_step(step);
    assert forall|i: int| 0 <= i < count + 1 implies #[trigger] walks_at(rules, longer, i) by {
        if i < count {
            assert(walks_at(rules, path, i));
        } else {
            assert(step_of(longer.relationships[i]) == step);
        }
    }
}

proof fn lemma_step_sound(
    rules: ExpandRules,
    source_idx: u32,
    depth: u32,
    path: PathView,
    step: GqlStepTarget,
    found: Expansion,
)
    requires
        1 <= depth <= rules.hops.max,
        is_walk(rules, source_idx, path, (depth - 1) as nat),
        steps::is_step(
            rules.engine,
            rules.direction,
            path.node_idx,
            Some(rules.type_id),
            step,
        ),
        sound(rules, source_idx, found, depth as nat),
    ensures
        sound(
            rules,
            source_idx,
            expand::after_step(rules, depth, path, step, found),
            depth as nat,
        ),
{
    let more = expand::after_step(rules, depth, path, step, found);
    if rules.engine.visible(rules.deleted, step.node_idx, rules.tenant) && !(rules.hops.variable
        && path.nodes.contains(step.node_idx)) {
        lemma_longer_walk(rules, source_idx, path, (depth - 1) as nat, step);
        assert forall|i: int| 0 <= i < more.results.len() implies is_match(
            rules,
            source_idx,
            #[trigger] more.results[i],
        ) by {
            if i < found.results.len() {
                assert(more.results[i] == found.results[i]);
            }
        }
        assert forall|i: int| 0 <= i < more.next.len() implies is_walk(
            rules,
            source_idx,
            #[trigger] more.next[i],
            depth as nat,
        ) by {
            if i < found.next.len() {
                assert(more.next[i] == found.next[i]);
            }
        }
    }
}

proof fn lemma_steps_sound(
    rules: ExpandRules,
    source_idx: u32,
    depth: u32,
    path: PathView,
    taken: Seq<GqlStepTarget>,
    from: int,
    found: Expansion,
)
    requires
        0 <= from,
        1 <= depth <= rules.hops.max,
        is_walk(rules, source_idx, path, (depth - 1) as nat),
        forall|i: int|
            0 <= i < taken.len() ==> steps::is_step(
                rules.engine,
                rules.direction,
                path.node_idx,
                Some(rules.type_id),
                #[trigger] taken[i],
            ),
        sound(rules, source_idx, found, depth as nat),
    ensures
        sound(
            rules,
            source_idx,
            expand::after_steps(rules, depth, path, taken, from, found),
            depth as nat,
        ),
    decreases taken.len() - from,
{
    if from < taken.len() {
        lemma_step_sound(rules, source_idx, depth, path, taken[from], found);
        lemma_steps_sound(
            rules,
            source_idx,
            depth,
            path,
            taken,
            from + 1,
            expand::after_step(rules, depth, path, taken[from], found),
        );
    }
}

proof fn lemma_steps_of(rules: ExpandRules, path: PathView)
    ensures
        forall|step: GqlStepTarget| #[trigger]
            expand::steps_of(rules, path).contains(step) <==> steps::is_step(
                rules.engine,
                rules.direction,
                path.node_idx,
                Some(rules.type_id),
                step,
            ),
        forall|i: int|
            0 <= i < expand::steps_of(rules, path).len() ==> steps::is_step(
                rules.engine,
                rules.direction,
                path.node_idx,
                Some(rules.type_id),
                #[trigger] expand::steps_of(rules, path)[i],
            ),
{
    steps::lemma_steps(rules.engine, rules.direction, path.node_idx, Some(rules.type_id));
    let taken = expand::steps_of(rules, path);
    assert forall|i: int| 0 <= i < taken.len() implies steps::is_step(
        rules.engine,
        rules.direction,
        path.node_idx,
        Some(rules.type_id),
        #[trigger] taken[i],
    ) by {
        assert(taken.contains(taken[i]));
    }
}

proof fn lemma_paths_sound(
    rules: ExpandRules,
    source_idx: u32,
    depth: u32,
    paths: Seq<PathView>,
    from: int,
    found: Expansion,
)
    requires
        0 <= from,
        1 <= depth <= rules.hops.max,
        all_walks(rules, source_idx, paths, (depth - 1) as nat),
        sound(rules, source_idx, found, depth as nat),
    ensures
        sound(
            rules,
            source_idx,
            expand::after_paths(rules, depth, paths, from, found),
            depth as nat,
        ),
    decreases paths.len() - from,
{
    if from < paths.len() {
        let taken = expand::steps_of(rules, paths[from]);
        lemma_steps_of(rules, paths[from]);
        lemma_steps_sound(rules, source_idx, depth, paths[from], taken, 0, found);
        lemma_paths_sound(
            rules,
            source_idx,
            depth,
            paths,
            from + 1,
            expand::after_steps(rules, depth, paths[from], taken, 0, found),
        );
    }
}

proof fn lemma_depths_sound(
    rules: ExpandRules,
    source_idx: u32,
    depth: nat,
    found: Expansion,
)
    requires
        1 <= depth,
        sound(rules, source_idx, found, (depth - 1) as nat),
    ensures
        all_match(rules, source_idx, expand::after_depths(rules, depth, found).results),
    decreases rules.hops.max + 1 - depth,
{
    if depth <= rules.hops.max && found.next.len() > 0 {
        let cleared = Expansion { next: Seq::empty(), ..found };
        lemma_paths_sound(rules, source_idx, depth as u32, found.next, 0, cleared);
        lemma_depths_sound(
            rules,
            source_idx,
            depth + 1,
            expand::after_paths(rules, depth as u32, found.next, 0, cleared),
        );
    }
}

/// Every match of a relationship pattern is a walk from the source, over visible
/// nodes, to a node of the target table; its number of steps is within the bounds
/// of the pattern, and where these vary it repeats no node.
pub proof fn lemma_matches_are_walks(rules: ExpandRules, source_idx: u32)
    ensures
        forall|i: int|
            0 <= i < expand::matches_from(rules, source_idx).len() ==> is_match(
                rules,
                source_idx,
                #[trigger] expand::matches_from(rules, source_idx)[i],
            ),
{
    let start = expand::at_source(source_idx);
    assert(is_walk(rules, source_idx, start.next[0], 0));
    lemma_depths_sound(rules, source_idx, 1, start);
}

// ---------------------------------------------------------------------------
// Every walk of a pattern of variable length is a match
// ---------------------------------------------------------------------------

spec fn grows(a: Expansion, b: Expansion) -> bool {
    &&& forall|target: TargetView| #[trigger] a.results.contains(target) ==> b.results.contains(target)
    &&& forall|path: PathView| #[trigger] a.next.contains(path) ==> b.next.contains(path)
}

proof fn lemma_push_contains<T>(items: Seq<T>, item: T)
    ensures
        items.push(item).contains(item),
        forall|other: T| #[trigger] items.contains(other) ==> items.push(item).contains(other),
{
    assert(items.push(item)[items.len() as int] == item);
    assert forall|other: T| #[trigger] items.contains(other) implies items.push(item).contains(
        other,
    ) by {
        let i = choose|i: int| 0 <= i < items.len() && items[i] == other;
        assert(items.push(item)[i] == other);
    }
}

proof fn lemma_step_grows(
    rules: ExpandRules,
    depth: u32,
    path: PathView,
    step: GqlStepTarget,
    found: Expansion,
)
    ensures
        grows(found, expand::after_step(rules, depth, path, step, found)),
        rules.engine.visible(rules.deleted, step.node_idx, rules.tenant) && rules.hops.variable
            && !path.nodes.contains(step.node_idx) ==> {
            let more = expand::after_step(rules, depth, path, step, found);
            let longer = path.then_step(step);
            &&& depth >= rules.hops.min && rules.engine.matches_table(
                step.node_idx,
                rules.target_table_oid,
                rules.tenant,
            ) ==> more.results.contains(TargetView { step, path: longer })
            &&& depth < rules.hops.max ==> more.next.contains(longer)
        },
{
    let longer = path.then_step(step);
    lemma_push_contains(found.results, TargetView { step, path: longer });
    lemma_push_contains(found.next, longer);
}

proof fn lemma_steps_grow(
    rules: ExpandRules,
    depth: u32,
    path: PathView,
    taken: Seq<GqlStepTarget>,
    from: int,
    found: Expansion,
)
    requires
        0 <= from,
    ensures
        grows(found, expand::after_steps(rules, depth, path, taken, from, found)),
    decreases taken.len() - from,
{
    if from < taken.len() {
        lemma_step_grows(rules, depth, path, taken[from], found);
        lemma_steps_grow(
            rules,
            depth,
            path,
            taken,
            from + 1,
            expand::after_step(rules, depth, path, taken[from], found),
        );
    }
}

spec fn has_step(rules: ExpandRules, depth: u32, path: PathView, step: GqlStepTarget, found: Expansion) -> bool {
    let longer = path.then_step(step);
    &&& depth >= rules.hops.min && rules.engine.matches_table(
        step.node_idx,
        rules.target_table_oid,
        rules.tenant,
    ) ==> found.results.contains(TargetView { step, path: longer })
    &&& depth < rules.hops.max ==> found.next.contains(longer)
}

proof fn lemma_steps_complete(
    rules: ExpandRules,
    depth: u32,
    path: PathView,
    taken: Seq<GqlStepTarget>,
    from: int,
    found: Expansion,
    at: int,
)
    requires
        rules.hops.variable,
        0 <= from <= at < taken.len(),
        rules.engine.visible(rules.deleted, taken[at].node_idx, rules.tenant),
        !path.nodes.contains(taken[at].node_idx),
    ensures
        has_step(
            rules,
            depth,
            path,
            taken[at],
            expand::after_steps(rules, depth, path, taken, from, found),
        ),
    decreases taken.len() - from,
{
    let more = expand::after_step(rules, depth, path, taken[from], found);
    lemma_step_grows(rules, depth, path, taken[from], found);
    if from == at {
        lemma_steps_grow(rules, depth, path, taken, from + 1, more);
    } else {
        lemma_steps_complete(rules, depth, path, taken, from + 1, more, at);
    }
}

proof fn lemma_paths_grow(
    rules: ExpandRules,
    depth: u32,
    paths: Seq<PathView>,
    from: int,
    found: Expansion,
)
    requires
        0 <= from,
    ensures
        grows(found, expand::after_paths(rules, depth, paths, from, found)),
    decreases paths.len() - from,
{
    if from < paths.len() {
        let taken = expand::steps_of(rules, paths[from]);
        lemma_steps_grow(rules, depth, paths[from], taken, 0, found);
        lemma_paths_grow(
            rules,
            depth,
            paths,
            from + 1,
            expand::after_steps(rules, depth, paths[from], taken, 0, found),
        );
    }
}

proof fn lemma_paths_complete(
    rules: ExpandRules,
    depth: u32,
    paths: Seq<PathView>,
    from: int,
    found: Expansion,
    at: int,
    step: GqlStepTarget,
)
    requires
        rules.hops.variable,
        0 <= from <= at < paths.len(),
        expand::steps_of(rules, paths[at]).contains(step),
        rules.engine.visible(rules.deleted, step.node_idx, rules.tenant),
        !paths[at].nodes.contains(step.node_idx),
    ensures
        has_step(
            rules,
            depth,
            paths[at],
            step,
            expand::after_paths(rules, depth, paths, from, found),
        ),
    decreases paths.len() - from,
{
    let taken = expand::steps_of(rules, paths[from]);
    let more = expand::after_steps(rules, depth, paths[from], taken, 0, found);
    if from == at {
        let j = choose|j: int| 0 <= j < taken.len() && taken[j] == step;
        lemma_steps_complete(rules, depth, paths[at], taken, 0, found, j);
        lemma_paths_grow(rules, depth, paths, from + 1, more);
    } else {
        lemma_paths_complete(rules, depth, paths, from + 1, more, at, step);
    }
}

/// The first `count` steps of a path.
pub open spec fn first_steps(path: PathView, count: int) -> PathView {
    PathView {
        node_idx: path.nodes[count],
        nodes: path.nodes.take(count + 1),
        relationships: path.relationships.take(count),
    }
}

proof fn lemma_first_steps(
    rules: ExpandRules,
    source_idx: u32,
    path: PathView,
    count: nat,
    fewer: nat,
)
    requires
        is_walk(rules, source_idx, path, count),
        fewer <= count,
    ensures
        is_walk(rules, source_idx, first_steps(path, fewer as int), fewer),
{
    let start = first_steps(path, fewer as int);
    assert forall|i: int| 0 <= i < fewer implies #[trigger] walks_at(rules, start, i) by {
        assert(walks_at(rules, path, i));
        assert(start.nodes[i] == path.nodes[i]);
        assert(start.nodes[i + 1] == path.nodes[i + 1]);
        assert(start.relationships[i] == path.relationships[i]);
    }
    if rules.hops.variable {
        assert forall|i: int, j: int|
            0 <= i < start.nodes.len() && 0 <= j < start.nodes.len() && i != j implies start.nodes[i]
            != start.nodes[j] by {
            assert(path.nodes[i] != path.nodes[j]);
        }
    }
}

spec fn complete(rules: ExpandRules, source_idx: u32, found: Expansion, count: nat) -> bool {
    &&& forall|path: PathView| #[trigger]
        is_walk(rules, source_idx, path, count) && (count == 0 || count < rules.hops.max)
            ==> found.next.contains(path)
    &&& forall|target: TargetView| #[trigger]
        is_match(rules, source_idx, target) && target.path.relationships.len() <= count
            ==> found.results.contains(target)
}

proof fn lemma_depth_complete(
    rules: ExpandRules,
    source_idx: u32,
    depth: u32,
    found: Expansion,
)
    requires
        rules.hops.variable,
        1 <= depth <= rules.hops.max,
        complete(rules, source_idx, found, (depth - 1) as nat),
    ensures
        complete(
            rules,
            source_idx,
            expand::after_paths(
                rules,
                depth,
                found.next,
                0,
                Expansion { next: Seq::empty(), ..found },
            ),
            depth as nat,
        ),
{
    let cleared = Expansion { next: Seq::empty(), ..found };
    let more = expand::after_paths(rules, depth, found.next, 0, cleared);
    lemma_paths_grow(rules, depth, found.next, 0, cleared);
    assert forall|path: PathView| #[trigger]
        is_walk(rules, source_idx, path, depth as nat) implies has_step(
        rules,
        depth,
        first_steps(path, depth - 1),
        step_of(path.relationships[depth - 1]),
        more,
    ) && first_steps(path, depth - 1).then_step(step_of(path.relationships[depth - 1])) == path by {
        let start = first_steps(path, depth - 1);
        let step = step_of(path.relationships[depth - 1]);
        lemma_first_steps(rules, source_idx, path, depth as nat, (depth - 1) as nat);
        assert(walks_at(rules, path, depth - 1));
        lemma_steps_of(rules, start);
        assert(found.next.contains(start));
        let at = choose|at: int| 0 <= at < found.next.len() && found.next[at] == start;
        assert(!start.nodes.contains(step.node_idx)) by {
            if start.nodes.contains(step.node_idx) {
                let i = choose|i: int| 0 <= i < start.nodes.len() && start.nodes[i] == step.node_idx;
                assert(path.nodes[i] == path.nodes[depth as int]);
            }
        }
        assert(expand::steps_of(rules, start).contains(step));
        lemma_paths_complete(rules, depth, found.next, 0, cleared, at, step);
        assert(start.then_step(step).nodes =~= path.nodes);
        assert(start.then_step(step).relationships =~= path.relationships);
        assert(start.then_step(step) =~= path);
    }
    assert forall|target: TargetView| #[trigger]
        is_match(rules, source_idx, target) && target.path.relationships.len()
            <= depth implies more.results.contains(target) by {
        if target.path.relationships.len() == depth {
            assert(is_walk(rules, source_idx, target.path, depth as nat));
            assert(walks_at(rules, target.path, depth - 1));
            assert(target.path.relationships.last() == target.path.relationships[depth - 1]);
            assert(target == TargetView { step: target.step, path: target.path });
        } else {
            assert(found.results.contains(target));
            assert(cleared.results.contains(target));
        }
    }
}

proof fn lemma_depths_complete(
    rules: ExpandRules,
    source_idx: u32,
    depth: nat,
    found: Expansion,
)
    requires
        rules.hops.variable,
        1 <= depth,
        complete(rules, source_idx, found, (depth - 1) as nat),
    ensures
        forall|target: TargetView| #[trigger]
            is_match(rules, source_idx, target) ==> expand::after_depths(
                rules,
                depth,
                found,
            ).results.contains(target),
    decreases rules.hops.max + 1 - depth,
{
    if depth > rules.hops.max {
    } else if found.next.len() == 0 {
        assert forall|target: TargetView| #[trigger]
            is_match(rules, source_idx, target) implies found.results.contains(target) by {
            let count = target.path.relationships.len();
            if count >= depth {
                lemma_first_steps(rules, source_idx, target.path, count, (depth - 1) as nat);
                assert(found.next.contains(first_steps(target.path, depth - 1)));
            }
        }
    } else {
        lemma_depth_complete(rules, source_idx, depth as u32, found);
        lemma_depths_complete(
            rules,
            source_idx,
            depth + 1,
            expand::after_paths(
                rules,
                depth as u32,
                found.next,
                0,
                Expansion { next: Seq::empty(), ..found },
            ),
        );
    }
}

/// A relationship pattern of variable length matches every walk over visible nodes
/// without a repeated node to a node of the target table, of as many steps as the
/// pattern allows.
pub proof fn lemma_variable_pattern_finds_walks(
    rules: ExpandRules,
    source_idx: u32,
    target: TargetView,
)
    requires
        rules.hops.variable,
        is_match(rules, source_idx, target),
    ensures
        expand::matches_from(rules, source_idx).contains(target),
{
    let start = expand::at_source(source_idx);
    assert forall|path: PathView| #[trigger]
        is_walk(rules, source_idx, path, 0) implies start.next.contains(path) by {
        assert(path.nodes =~= seq![source_idx]);
        assert(path.relationships =~= Seq::empty());
        assert(path =~= start.next[0]);
    }
    lemma_depths_complete(rules, source_idx, 1, start);
}

// ---------------------------------------------------------------------------
// Every target of a pattern of one step is found
// ---------------------------------------------------------------------------

/// Whether matches hold a relationship.
pub open spec fn finds_step(targets: Seq<TargetView>, step: GqlStepTarget) -> bool {
    exists|i: int| 0 <= i < targets.len() && (#[trigger] targets[i]).step == step
}

/// Whether matches hold a target node.
pub open spec fn finds_node(targets: Seq<TargetView>, node_idx: u32) -> bool {
    exists|i: int| 0 <= i < targets.len() && (#[trigger] targets[i]).step.node_idx == node_idx
}

/// Whether matches hold a target: the relationship itself where the query returns
/// it, and else the node.
pub open spec fn finds(rules: ExpandRules, targets: Seq<TargetView>, step: GqlStepTarget) -> bool {
    if rules.returns_relationship {
        finds_step(targets, step)
    } else {
        finds_node(targets, step.node_idx)
    }
}

spec fn marked(rules: ExpandRules, found: Expansion) -> bool {
    &&& forall|step: GqlStepTarget| #[trigger]
        found.seen_relationships.contains(step) ==> finds_step(found.results, step)
    &&& forall|mark: NodeMark| #[trigger]
        found.seen_nodes.contains(mark) ==> finds_node(found.results, mark.node_idx)
}

spec fn finds_more(a: Seq<TargetView>, b: Seq<TargetView>) -> bool {
    &&& forall|step: GqlStepTarget| #[trigger] finds_step(a, step) ==> finds_step(b, step)
    &&& forall|node_idx: u32| #[trigger] finds_node(a, node_idx) ==> finds_node(b, node_idx)
}

proof fn lemma_finds_push(targets: Seq<TargetView>, target: TargetView)
    ensures
        finds_step(targets.push(target), target.step),
        finds_node(targets.push(target), target.step.node_idx),
        finds_more(targets, targets.push(target)),
{
    let more = targets.push(target);
    assert(more[targets.len() as int].step == target.step);
    assert forall|step: GqlStepTarget| #[trigger] finds_step(targets, step) implies finds_step(
        more,
        step,
    ) by {
        let i = choose|i: int| 0 <= i < targets.len() && (#[trigger] targets[i]).step == step;
        assert(more[i] == targets[i]);
    }
    assert forall|node_idx: u32| #[trigger] finds_node(targets, node_idx) implies finds_node(
        more,
        node_idx,
    ) by {
        let i = choose|i: int|
            0 <= i < targets.len() && (#[trigger] targets[i]).step.node_idx == node_idx;
        assert(more[i] == targets[i]);
    }
}

spec fn reachable(rules: ExpandRules, step: GqlStepTarget) -> bool {
    &&& rules.hops.min <= 1
    &&& rules.engine.visible(rules.deleted, step.node_idx, rules.tenant)
    &&& rules.engine.matches_table(step.node_idx, rules.target_table_oid, rules.tenant)
}

proof fn lemma_fixed_step(
    rules: ExpandRules,
    path: PathView,
    step: GqlStepTarget,
    found: Expansion,
)
    requires
        !rules.hops.variable,
        marked(rules, found),
    ensures
        marked(rules, expand::after_step(rules, 1, path, step, found)),
        finds_more(found.results, expand::after_step(rules, 1, path, step, found).results),
        reachable(rules, step) ==> finds(
            rules,
            expand::after_step(rules, 1, path, step, found).results,
            step,
        ),
{
    let next = expand::after_step(rules, 1, path, step, found);
    let mark = NodeMark { node_idx: step.node_idx };
    lemma_finds_push(found.results, TargetView { step, path: path.then_step(step) });
    assert(finds_more(found.results, next.results));
    if reachable(rules, step) {
        if rules.returns_relationship {
            if found.seen_relationships.contains(step) {
                assert(finds_step(found.results, step));
            }
            assert(finds_step(next.results, step));
        } else {
            if found.seen_nodes.contains(mark) {
                assert(finds_node(found.results, mark.node_idx));
            }
            assert(finds_node(next.results, step.node_idx));
        }
    }
    assert forall|other: GqlStepTarget| #[trigger]
        next.seen_relationships.contains(other) implies finds_step(next.results, other) by {
        if found.seen_relationships.contains(other) {
            assert(finds_step(found.results, other));
        }
    }
    assert forall|other: NodeMark| #[trigger] next.seen_nodes.contains(other) implies finds_node(
        next.results,
        other.node_idx,
    ) by {
        if found.seen_nodes.contains(other) {
            assert(finds_node(found.results, other.node_idx));
        }
    }
}

proof fn lemma_fixed_steps(
    rules: ExpandRules,
    path: PathView,
    taken: Seq<GqlStepTarget>,
    from: int,
    found: Expansion,
    at: int,
)
    requires
        !rules.hops.variable,
        0 <= from,
        marked(rules, found),
    ensures
        finds_more(
            found.results,
            expand::after_steps(rules, 1, path, taken, from, found).results,
        ),
        from <= at < taken.len() && reachable(rules, taken[at]) ==> finds(
            rules,
            expand::after_steps(rules, 1, path, taken, from, found).results,
            taken[at],
        ),
    decreases taken.len() - from,
{
    if from < taken.len() {
        lemma_fixed_step(rules, path, taken[from], found);
        lemma_fixed_steps(
            rules,
            path,
            taken,
            from + 1,
            expand::after_step(rules, 1, path, taken[from], found),
            at,
        );
    }
}

/// A relationship pattern of one step finds every node of the target table that a
/// step from the source reaches, as far as it is visible; where the query returns
/// the relationship, it finds every such relationship.
pub proof fn lemma_single_step_finds_targets(
    rules: ExpandRules,
    source_idx: u32,
    step: GqlStepTarget,
)
    requires
        !rules.hops.variable,
        rules.hops.min <= 1,
        rules.hops.max == 1,
        steps::is_step(rules.engine, rules.direction, source_idx, Some(rules.type_id), step),
        rules.engine.visible(rules.deleted, step.node_idx, rules.tenant),
        rules.engine.matches_table(step.node_idx, rules.target_table_oid, rules.tenant),
    ensures
        finds(rules, expand::matches_from(rules, source_idx), step),
{
    let start = expand::at_source(source_idx);
    let path = start.next[0];
    let taken = expand::steps_of(rules, path);
    let cleared = Expansion { next: Seq::empty(), ..start };
    lemma_steps_of(rules, path);
    assert(taken.contains(step));
    let at = choose|at: int| 0 <= at < taken.len() && taken[at] == step;
    lemma_fixed_steps(rules, path, taken, 0, cleared, at);
    let more = expand::after_steps(rules, 1, path, taken, 0, cleared);
    reveal_with_fuel(expand::after_paths, 2);
    reveal_with_fuel(expand::after_depths, 2);
    assert(expand::after_paths(rules, 1, start.next, 0, cleared) == more);
    assert(expand::matches_from(rules, source_idx) == more.results);
}

} // verus!
