//! What holds of every statement that binds.
use vstd::prelude::*;

use crate::gql::ast::{
    Ident, MergeQuery, Operand, Query, RemoveQuery, ReturnItem, SetQuery, WithClause,
};
use crate::gql::errors::GqlErrorView;
use crate::query::catalog_snapshot::CatalogSnapshot;
use crate::query::joins::{self, JoinSlots};
use crate::query::logical_plan::{self, BoundNodeView, CreatePropertyView, ReturnBindingView};
use crate::query::scope::{self, ScopeView};
use crate::query::semantics;

verus! {

// ---------------------------------------------------------------------------
// Returned names
// ---------------------------------------------------------------------------

/// Whether no two items are returned under the same name.
pub open spec fn names_differ(bindings: Seq<ReturnBindingView>) -> bool {
    forall|i: int, j: int|
        0 <= i < j < bindings.len() ==> logical_plan::return_name(#[trigger] bindings[i])
            != logical_plan::return_name(#[trigger] bindings[j])
}

spec fn outcome_differs(outcome: Result<Seq<ReturnBindingView>, GqlErrorView>) -> bool {
    outcome matches Ok(bindings) ==> names_differ(bindings)
}

spec fn names_follow(
    items: Seq<ReturnItem>,
    outcome: Result<Seq<ReturnBindingView>, GqlErrorView>,
) -> bool {
    outcome matches Ok(bindings) ==> {
        &&& names_differ(bindings)
        &&& bindings.len() == items.len()
        &&& forall|i: int|
            0 <= i < items.len() ==> logical_plan::return_name(#[trigger] bindings[i])
                == scope::item_name(items[i])
    }
}

proof fn lemma_one_more_name(done: Seq<ReturnBindingView>, binding: ReturnBindingView)
    requires
        names_differ(done),
        !scope::returns_name(done, logical_plan::return_name(binding)),
    ensures
        names_differ(done.push(binding)),
{
    let more = done.push(binding);
    assert forall|i: int, j: int| 0 <= i < j < more.len() implies logical_plan::return_name(
        #[trigger] more[i],
    ) != logical_plan::return_name(#[trigger] more[j]) by {
        assert(more[i] == done[i]);
        if j < done.len() {
            assert(more[j] == done[j]);
        }
    }
}

proof fn lemma_names_differ(
    items: Seq<ReturnItem>,
    from: int,
    names: ScopeView,
    source: BoundNodeView,
    target: BoundNodeView,
    done: Seq<ReturnBindingView>,
)
    requires
        0 <= from <= items.len(),
        done.len() == from,
        names_differ(done),
        forall|i: int|
            0 <= i < from ==> logical_plan::return_name(#[trigger] done[i]) == scope::item_name(
                items[i],
            ),
    ensures
        names_follow(items, scope::returns_from(items, from, names, source, target, done)),
    decreases items.len() - from,
{
    if from < items.len() {
        match scope::item_binding(items[from], names, source, target) {
            Err(_) => {},
            Ok(binding) => {
                assert(logical_plan::return_name(binding) == scope::item_name(items[from]));
                if !scope::returns_name(done, scope::item_name(items[from])) {
                    lemma_one_more_name(done, binding);
                    lemma_names_differ(items, from + 1, names, source, target, done.push(binding));
                }
            },
        }
    }
}

/// A query that binds returns every item of its `RETURN` clause, in order, under its
/// alias or the text it projects, and no name twice.
pub proof fn lemma_returned_names_differ<C: CatalogSnapshot>(query: Query, catalog: C)
    ensures
        semantics::bound_plan(query, catalog) matches Ok(plan) ==> {
            &&& names_differ(plan.returns)
            &&& plan.returns.len() == query.return_.items@.len()
            &&& forall|i: int|
                0 <= i < plan.returns.len() ==> logical_plan::return_name(
                    #[trigger] plan.returns[i],
                ) == scope::item_name(query.return_.items@[i])
        },
        semantics::bound_scan(query, catalog) matches Ok(plan) ==> names_differ(plan.returns),
        joins::bound_join(query, catalog) matches Ok(plan) ==> names_differ(plan.returns),
{
    let items = query.return_.items@;
    assert forall|names: ScopeView, source: BoundNodeView, target: BoundNodeView|
        names_follow(
            items,
            #[trigger] scope::returns_from(items, 0, names, source, target, Seq::empty()),
        ) by {
        lemma_names_differ(items, 0, names, source, target, Seq::empty());
    }
    assert forall|known: JoinSlots|
        outcome_differs(#[trigger] joins::join_returns_from(items, 0, known, Seq::empty())) by {
        lemma_join_names_differ(items, 0, known, Seq::empty());
    }
}

proof fn lemma_join_names_differ(
    items: Seq<ReturnItem>,
    from: int,
    known: JoinSlots,
    done: Seq<ReturnBindingView>,
)
    requires
        0 <= from <= items.len(),
        names_differ(done),
    ensures
        outcome_differs(joins::join_returns_from(items, from, known, done)),
    decreases items.len() - from,
{
    if from < items.len() {
        match joins::join_return(items[from], known) {
            Err(_) => {},
            Ok(binding) => {
                if !scope::returns_name(done, logical_plan::return_name(binding)) {
                    lemma_one_more_name(done, binding);
                    lemma_join_names_differ(items, from + 1, known, done.push(binding));
                }
            },
        }
    }
}

// ---------------------------------------------------------------------------
// Scopes
// ---------------------------------------------------------------------------

/// Whether one of the items projects a name.
pub open spec fn projects_name(items: Seq<ReturnItem>, count: int, name: Seq<char>) -> bool {
    exists|i: int| 0 <= i < count && scope::item_name(#[trigger] items[i]) == name
}

proof fn lemma_projected_names(
    items: Seq<ReturnItem>,
    from: int,
    names: ScopeView,
    source: BoundNodeView,
    target: BoundNodeView,
    done: ScopeView,
)
    requires
        0 <= from <= items.len(),
        forall|name: Seq<char>| #[trigger]
            done.contains_key(name) <==> projects_name(items, from, name),
    ensures
        scope::projected_from(items, from, names, source, target, done) matches Ok(next)
            ==> forall|name: Seq<char>| #[trigger]
            next.contains_key(name) <==> projects_name(items, items.len() as int, name),
    decreases items.len() - from,
{
    if from < items.len() {
        match scope::item_value(items[from], names, source, target) {
            Err(_) => {},
            Ok(binding) => {
                let key = scope::item_name(items[from]);
                let more = done.insert(key, binding);
                assert forall|name: Seq<char>| #[trigger]
                    more.contains_key(name) <==> projects_name(items, from + 1, name) by {
                    if projects_name(items, from, name) {
                        let i = choose|i: int|
                            0 <= i < from && scope::item_name(#[trigger] items[i]) == name;
                        assert(scope::item_name(items[i]) == name);
                    }
                    if name == key {
                        assert(scope::item_name(items[from]) == name);
                    }
                    if projects_name(items, from + 1, name) && name != key {
                        let i = choose|i: int|
                            0 <= i < from + 1 && scope::item_name(#[trigger] items[i]) == name;
                        assert(i < from);
                    }
                }
                if !done.contains_key(key) {
                    lemma_projected_names(items, from + 1, names, source, target, more);
                }
            },
        }
    }
}

/// After `WITH` clauses the names in scope are those that the last of them projects:
/// no variable that it leaves out can be used any more.
pub proof fn lemma_with_hides_other_names(
    clauses: Seq<WithClause>,
    names: ScopeView,
    source: BoundNodeView,
    target: BoundNodeView,
)
    requires
        clauses.len() > 0,
    ensures
        scope::after_with(clauses, 0, names, Seq::empty(), source, target) matches Ok((next, _))
            ==> forall|name: Seq<char>| #[trigger]
            next.contains_key(name) <==> projects_name(
                clauses.last().items@,
                clauses.last().items@.len() as int,
                name,
            ),
{
    lemma_after_with(clauses, 0, names, Seq::empty(), source, target);
}

proof fn lemma_after_with(
    clauses: Seq<WithClause>,
    from: int,
    names: ScopeView,
    stages: Seq<Seq<ReturnBindingView>>,
    source: BoundNodeView,
    target: BoundNodeView,
)
    requires
        0 <= from < clauses.len(),
    ensures
        scope::after_with(clauses, from, names, stages, source, target) matches Ok((next, _))
            ==> forall|name: Seq<char>| #[trigger]
            next.contains_key(name) <==> projects_name(
                clauses.last().items@,
                clauses.last().items@.len() as int,
                name,
            ),
    decreases clauses.len() - from,
{
    let items = clauses[from].items@;
    lemma_projected_names(items, 0, names, source, target, Map::empty());
    if scope::after_with(clauses, from, names, stages, source, target) is Ok {
        let more = if clauses[from].distinct {
            stages.push(scope::stage_from(items, 0, names, source, target, Seq::empty())->Ok_0)
        } else {
            stages
        };
        let next = scope::projected_from(items, 0, names, source, target, Map::empty())->Ok_0;
        if from + 1 < clauses.len() {
            lemma_after_with(clauses, from + 1, next, more, source, target);
        } else {
            assert(scope::after_with(clauses, from + 1, next, more, source, target) == Ok::<
                (ScopeView, Seq<Seq<ReturnBindingView>>),
                GqlErrorView,
            >((next, more)));
        }
    }
}

// ---------------------------------------------------------------------------
// Writes
// ---------------------------------------------------------------------------

/// Whether every written property is one of the node's, is no path into a column and
/// is written once.
pub open spec fn writes_known_columns_once(
    written: Seq<CreatePropertyView>,
    known: Seq<Seq<char>>,
) -> bool {
    &&& forall|i: int|
        0 <= i < written.len() ==> known.contains((#[trigger] written[i]).property)
            && !written[i].property.contains('.')
    &&& forall|i: int, j: int|
        0 <= i < j < written.len() ==> (#[trigger] written[i]).property != (
        #[trigger] written[j]).property
}

/// A property map that binds writes known columns, each once.
pub proof fn lemma_written_properties_are_known(
    props: Seq<(Ident, Operand)>,
    known: Seq<Seq<char>>,
)
    ensures
        semantics::written_from(props, 0, known, Seq::empty()) matches Ok(written)
            ==> writes_known_columns_once(written, known),
{
    lemma_written(props, 0, known, Seq::empty());
}

proof fn lemma_written(
    props: Seq<(Ident, Operand)>,
    from: int,
    known: Seq<Seq<char>>,
    done: Seq<CreatePropertyView>,
)
    requires
        0 <= from <= props.len(),
        writes_known_columns_once(done, known),
    ensures
        semantics::written_from(props, from, known, done) matches Ok(written)
            ==> writes_known_columns_once(written, known),
    decreases props.len() - from,
{
    if from < props.len() {
        let (key, value) = props[from];
        match semantics::written_value(value) {
            Err(_) => {},
            Ok(value) => {
                if known.contains(key.text@) && !key.text@.contains('.')
                    && !semantics::writes_name(done, key.text@) {
                    let more = done.push(CreatePropertyView { property: key.text@, value });
                    assert forall|i: int, j: int| 0 <= i < j < more.len() implies (
                    #[trigger] more[i]).property != (#[trigger] more[j]).property by {
                        assert(more[i] == done[i]);
                        if j < done.len() {
                            assert(more[j] == done[j]);
                        }
                    }
                    assert forall|i: int| 0 <= i < more.len() implies known.contains(
                        (#[trigger] more[i]).property,
                    ) && !more[i].property.contains('.') by {
                        if i < done.len() {
                            assert(more[i] == done[i]);
                        }
                    }
                    lemma_written(props, from + 1, known, more);
                }
            },
        }
    }
}

/// A statement that binds changes no property but one that the catalog lists as
/// writable for the label of its node.
pub proof fn lemma_only_writable_properties_change<C: CatalogSnapshot>(
    set: SetQuery,
    remove: RemoveQuery,
    merge: MergeQuery,
    catalog: C,
)
    ensures
        semantics::bound_set(set, catalog) matches Ok(plan) ==> {
            &&& semantics::writable_of_start(set.match_.pattern.start, catalog) is Ok
            &&& semantics::writable_of_start(
                set.match_.pattern.start,
                catalog,
            )->Ok_0.contains(plan.property)
        },
        semantics::bound_remove(remove, catalog) matches Ok(plan) ==> {
            &&& semantics::writable_of_start(remove.match_.pattern.start, catalog) is Ok
            &&& semantics::writable_of_start(
                remove.match_.pattern.start,
                catalog,
            )->Ok_0.contains(plan.property)
        },
        semantics::bound_merge(merge, catalog) matches Ok(plan) ==> {
            let writable = semantics::writable_of(
                plan.node.label,
                catalog,
                merge.merge.node.span,
            );
            &&& writable is Ok
            &&& plan.on_create matches Some(property) ==> writable->Ok_0.contains(
                property.property,
            )
            &&& plan.on_match matches Some(property) ==> writable->Ok_0.contains(
                property.property,
            )
        },
{
}

// ---------------------------------------------------------------------------
// Hops
// ---------------------------------------------------------------------------

/// A relationship that binds takes at least one hop and no more than the bound that
/// the binder sets.
pub proof fn lemma_hops_are_bounded<C: CatalogSnapshot>(query: Query, catalog: C)
    ensures
        semantics::bound_plan(query, catalog) matches Ok(plan) ==> 1 <= plan.relationship.hops.min
            && plan.relationship.hops.max <= semantics::MAX_BOUND_HOPS,
{
}

} // verus!
