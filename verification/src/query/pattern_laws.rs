//! What bound joins and paths have of their text.
use vstd::prelude::*;

use crate::gql::ast::{
    Expr, Ident, Literal, NodePat, Operand, Pattern, Query, RelPat, ReturnExpr, ReturnItem,
    SortItem, SortKey,
};
use crate::query::catalog_snapshot::CatalogSnapshot;
use crate::query::evaluate::{self, ValueSources};
use crate::query::hydrate;
use crate::query::joins::{self, JoinSlots};
use crate::query::json::{self, JsonView};
use crate::query::logical_plan::{
    BindingSide, LogicalJoinNodeSlotView, LogicalJoinPatternView, LogicalWildcardPathSegmentView,
    ReturnBindingView, SortBindingKeyView, SortBindingView,
};
use crate::query::predicates;
use crate::query::rows::RowView;
use crate::query::scope;
use crate::query::statement_laws::{self, compares, is_direction_of, is_name_of, literal_value, projected_name};
use crate::query::wildcard;
use crate::safety::GraphErrorView;

verus! {

// ---------------------------------------------------------------------------
// Patterns of a join
// ---------------------------------------------------------------------------

/// Whether every variable has the slot of its own name.
spec fn in_step(known: JoinSlots) -> bool {
    &&& known.slots.len() <= usize::MAX
    &&& forall|var: Seq<char>| #[trigger]
        known.by_var.contains_key(var) ==> known.by_var[var] < known.slots.len()
            && known.slots[known.by_var[var] as int].var == var
    &&& forall|i: int|
        0 <= i < known.slots.len() ==> known.by_var.contains_key((#[trigger] known.slots[i]).var)
            && known.by_var[known.slots[i].var] == i
}

/// Whether slots are kept as they are, and more may follow.
spec fn keeps(before: JoinSlots, after: JoinSlots) -> bool {
    &&& before.slots.len() <= after.slots.len()
    &&& forall|i: int|
        0 <= i < before.slots.len() ==> #[trigger] after.slots[i] == before.slots[i]
}

/// Whether a node pattern is bound to a slot: that of its variable, of the table of its
/// label.
pub open spec fn is_slot_of<C: CatalogSnapshot>(
    pat: NodePat,
    catalog: C,
    slots: Seq<LogicalJoinNodeSlotView>,
    slot: usize,
) -> bool {
    &&& slot < slots.len()
    &&& pat.var matches Some(var) && slots[slot as int].var == var.text@
    &&& pat.props@.len() == 0
    &&& pat.label matches Some(label) ==> (catalog.label_info(label.text@, label.span) matches Ok(
        info,
    ) && info.table_oid == slots[slot as int].table_oid)
}

proof fn lemma_slot<C: CatalogSnapshot>(pat: NodePat, catalog: C, known: JoinSlots)
    requires
        in_step(known),
        known.slots.len() < usize::MAX,
    ensures
        joins::join_slot(pat, catalog, known) matches Ok((slot, after)) ==> {
            &&& in_step(after)
            &&& keeps(known, after)
            &&& after.slots.len() <= known.slots.len() + 1
            &&& is_slot_of(pat, catalog, after.slots, slot)
        },
{
    if let Ok((slot, after)) = joins::join_slot(pat, catalog, known) {
        let var = pat.var->0.text@;
        if !known.by_var.contains_key(var) {
            assert forall|other: Seq<char>| #[trigger] after.by_var.contains_key(
                other,
            ) implies after.by_var[other] < after.slots.len()
                && after.slots[after.by_var[other] as int].var == other by {
                if other != var {
                    assert(known.by_var.contains_key(other));
                }
            }
            assert forall|i: int| 0 <= i < after.slots.len() implies after.by_var.contains_key(
                (#[trigger] after.slots[i]).var,
            ) && after.by_var[after.slots[i].var] == i by {
                if i < known.slots.len() {
                    assert(known.slots[i] == after.slots[i]);
                    assert(known.by_var.contains_key(known.slots[i].var));
                }
            }
        }
    }
}

/// Whether a bound pattern is the written one: it leads between the slots of its nodes, in
/// its direction and by its type.
pub open spec fn is_pattern_of<C: CatalogSnapshot>(
    written: Pattern,
    catalog: C,
    slots: Seq<LogicalJoinNodeSlotView>,
    bound: LogicalJoinPatternView,
) -> bool {
    &&& written.tail@.len() == 1
    &&& is_slot_of(written.start, catalog, slots, bound.source_slot)
    &&& is_slot_of(written.tail@[0].1, catalog, slots, bound.target_slot)
    &&& is_direction_of(written.tail@[0].0.direction, bound.direction)
    &&& written.tail@[0].0.rel_type matches Some(rel_type) && rel_type.text@ == bound.rel_type
}

proof fn lemma_pattern<C: CatalogSnapshot>(written: Pattern, catalog: C, known: JoinSlots)
    requires
        in_step(known),
        known.slots.len() + 2 <= usize::MAX,
    ensures
        joins::joined_pattern(written, catalog, known) matches Ok((bound, after)) ==> {
            &&& in_step(after)
            &&& keeps(known, after)
            &&& after.slots.len() <= known.slots.len() + 2
            &&& is_pattern_of(written, catalog, after.slots, bound)
        },
{
    if let Ok((bound, after)) = joins::joined_pattern(written, catalog, known) {
        lemma_slot(written.start, catalog, known);
        let (source_slot, middle) = joins::join_slot(written.start, catalog, known)->Ok_0;
        lemma_slot(written.tail@[0].1, catalog, middle);
        assert(after.slots[source_slot as int] == middle.slots[source_slot as int]);
    }
}

proof fn lemma_joined<C: CatalogSnapshot>(
    patterns: Seq<Pattern>,
    from: int,
    catalog: C,
    known: JoinSlots,
    done: Seq<LogicalJoinPatternView>,
)
    requires
        0 <= from <= patterns.len(),
        2 * patterns.len() <= usize::MAX,
        known.slots.len() <= 2 * from,
        in_step(known),
        done.len() == from,
        forall|i: int|
            0 <= i < done.len() ==> is_pattern_of(
                patterns[i],
                catalog,
                known.slots,
                #[trigger] done[i],
            ),
    ensures
        joins::joined_from(patterns, from, catalog, known, done) matches Ok((bound, last)) ==> {
            &&& in_step(last)
            &&& bound.len() == patterns.len()
            &&& forall|i: int|
                0 <= i < bound.len() ==> is_pattern_of(
                    patterns[i],
                    catalog,
                    last.slots,
                    #[trigger] bound[i],
                )
        },
    decreases patterns.len() - from,
{
    if from < patterns.len() {
        lemma_pattern(patterns[from], catalog, known);
        if let Ok((bound, after)) = joins::joined_pattern(patterns[from], catalog, known) {
            let more = done.push(bound);
            assert forall|i: int| 0 <= i < more.len() implies is_pattern_of(
                patterns[i],
                catalog,
                after.slots,
                #[trigger] more[i],
            ) by {
                if i < done.len() {
                    assert(more[i] == done[i]);
                    assert(is_pattern_of(patterns[i], catalog, known.slots, done[i]));
                    assert(after.slots[done[i].source_slot as int]
                        == known.slots[done[i].source_slot as int]);
                    assert(after.slots[done[i].target_slot as int]
                        == known.slots[done[i].target_slot as int]);
                }
            }
            lemma_joined(patterns, from + 1, catalog, after, more);
        }
    }
}

/// A join binds the patterns that are written, one by one: each leads between the slots
/// of the variables of its nodes, and a variable has one slot throughout. It skips, limits
/// and deduplicates as it is written.
pub proof fn lemma_join_patterns_are_those_written<C: CatalogSnapshot>(query: Query, catalog: C)
    requires
        2 * query.match_.patterns@.len() <= usize::MAX,
        joins::bound_join(query, catalog) is Ok,
    ensures
        ({
            let plan = joins::bound_join(query, catalog)->Ok_0;
            let patterns = query.match_.patterns@;
            &&& plan.patterns.len() == patterns.len()
            &&& forall|i: int|
                0 <= i < plan.patterns.len() ==> is_pattern_of(
                    patterns[i],
                    catalog,
                    plan.node_slots,
                    #[trigger] plan.patterns[i],
                )
            &&& forall|i: int, j: int|
                0 <= i < j < plan.node_slots.len() ==> (#[trigger] plan.node_slots[i]).var != (
                #[trigger] plan.node_slots[j]).var
            &&& plan.distinct == query.return_.distinct
            &&& plan.skip == query.skip
            &&& plan.limit == query.limit
            &&& plan.predicate is None <==> query.where_ is None
            &&& !query.match_.optional && query.with_@.len() == 0
        }),
{
    let start = JoinSlots { slots: Seq::empty(), by_var: Map::empty() };
    let patterns = query.match_.patterns@;
    lemma_joined(patterns, 0, catalog, start, Seq::empty());
    let plan = joins::bound_join(query, catalog)->Ok_0;
    let (bound, known) = joins::joined_from(patterns, 0, catalog, start, Seq::empty())->Ok_0;
    assert forall|i: int, j: int| 0 <= i < j < plan.node_slots.len() implies (
    #[trigger] plan.node_slots[i]).var != (#[trigger] plan.node_slots[j]).var by {
        assert(known.by_var[known.slots[i].var] == i);
        assert(known.by_var[known.slots[j].var] == j);
    }
}

// ---------------------------------------------------------------------------
// Conditions of a join
// ---------------------------------------------------------------------------

/// What an operand of a join is for a row: a property of the node of the slot of its
/// variable, a literal, a parameter or a list of literals.
pub open spec fn slot_value(
    operand: Operand,
    slots: Seq<LogicalJoinNodeSlotView>,
    sources: ValueSources,
    row: RowView,
    value: Result<Option<JsonView>, GraphErrorView>,
) -> bool {
    match operand {
        Operand::Property { var, property, .. } => exists|slot: int| #[trigger]
            is_of_slot(var, property, slots, sources, row, value, slot),
        Operand::Literal(Literal::Value { value: literal, .. }) => value == Ok::<_, GraphErrorView>(
            Some(literal_value(literal)),
        ),
        Operand::Param { name, .. } => if sources.params.contains_key(name.text@) {
            value == Ok::<_, GraphErrorView>(Some(sources.params[name.text@]))
        } else {
            value is Err
        },
        Operand::List { values, .. } => value matches Ok(Some(JsonView::Array(items)))
            && items.len() == values@.len() && forall|i: int|
            0 <= i < items.len() ==> #[trigger] items[i] == (match values@[i] {
                Literal::Value { value: literal, .. } => literal_value(literal),
            }),
    }
}

/// Whether a value is a property of the node of a slot, which is that of a variable.
pub open spec fn is_of_slot(
    var: Ident,
    property: Ident,
    slots: Seq<LogicalJoinNodeSlotView>,
    sources: ValueSources,
    row: RowView,
    value: Result<Option<JsonView>, GraphErrorView>,
    slot: int,
) -> bool {
    &&& 0 <= slot < slots.len()
    &&& slots[slot].var == var.text@
    &&& slot >= row.path_nodes.len() ==> value == Ok::<_, GraphErrorView>(Some(JsonView::Null))
    &&& slot < row.path_nodes.len() ==> {
        let node = row.path_nodes[slot];
        let key = (node.table_oid, node.node_id);
        &&& sources.hydrated.contains_key(key) ==> value == Ok::<_, GraphErrorView>(
            hydrate::property_of(sources.hydrated[key], property.text@),
        )
        &&& !sources.hydrated.contains_key(key) ==> value is Err
    }
}

/// Whether a condition of a join holds of a row, given what each operand is.
pub open spec fn holds_by(
    expr: Expr,
    value: spec_fn(Operand) -> Result<Option<JsonView>, GraphErrorView>,
) -> Result<bool, GraphErrorView>
    decreases expr,
{
    match expr {
        Expr::And { lhs, rhs, .. } => match holds_by(*lhs, value) {
            Err(error) => Err(error),
            Ok(held) => if held {
                holds_by(*rhs, value)
            } else {
                Ok(false)
            },
        },
        Expr::Or { lhs, rhs, .. } => match holds_by(*lhs, value) {
            Err(error) => Err(error),
            Ok(held) => if held {
                Ok(true)
            } else {
                holds_by(*rhs, value)
            },
        },
        Expr::Not { expr: inner, .. } => match holds_by(*inner, value) {
            Err(error) => Err(error),
            Ok(held) => Ok(!held),
        },
        Expr::Compare { lhs, op, rhs, .. } => match value(lhs) {
            Err(error) => Err(error),
            Ok(l) => match rhs {
                None => compares(l, op, None),
                Some(rhs) => match value(rhs) {
                    Err(error) => Err(error),
                    Ok(r) => compares(l, op, Some(r)),
                },
            },
        },
    }
}

/// What the operands of a join bind to, as values for a row.
pub open spec fn bound_values(
    known: JoinSlots,
    sources: ValueSources,
    row: RowView,
) -> spec_fn(Operand) -> Result<Option<JsonView>, GraphErrorView> {
    |operand: Operand|
        match joins::join_operand(operand, known) {
            Ok(bound) => evaluate::value_of(sources, row, bound),
            Err(_) => Ok(None),
        }
}

proof fn lemma_condition(
    expr: Expr,
    known: JoinSlots,
    depth: nat,
    sources: ValueSources,
    row: RowView,
)
    requires
        predicates::bound_expr(expr, joins::join_operands(known), depth) is Ok,
    ensures
        evaluate::predicate_holds(
            sources,
            row,
            predicates::bound_expr(expr, joins::join_operands(known), depth)->Ok_0,
        ) == holds_by(expr, bound_values(known, sources, row)),
    decreases expr,
{
    let operands = joins::join_operands(known);
    match expr {
        Expr::And { lhs, rhs, .. } => {
            lemma_condition(*lhs, known, depth + 1, sources, row);
            lemma_condition(*rhs, known, depth + 1, sources, row);
        },
        Expr::Or { lhs, rhs, .. } => {
            lemma_condition(*lhs, known, depth + 1, sources, row);
            lemma_condition(*rhs, known, depth + 1, sources, row);
        },
        Expr::Not { expr: inner, .. } => {
            lemma_condition(*inner, known, depth + 1, sources, row);
        },
        Expr::Compare { lhs, op, rhs, .. } => {
            assert(operands(lhs) == joins::join_operand(lhs, known));
            if let Some(operand) = rhs {
                assert(operands(operand) == joins::join_operand(operand, known));
            }
        },
    }
}

proof fn lemma_operand(operand: Operand, known: JoinSlots, sources: ValueSources, row: RowView)
    requires
        in_step(known),
        joins::join_operand(operand, known) is Ok,
    ensures
        slot_value(
            operand,
            known.slots,
            sources,
            row,
            bound_values(known, sources, row)(operand),
        ),
{
    match operand {
        Operand::Property { var, property, .. } => {
            let slot = known.by_var[var.text@];
            let value = bound_values(known, sources, row)(operand);
            assert(is_of_slot(var, property, known.slots, sources, row, value, slot as int));
        },
        Operand::Literal(literal) => {
            statement_laws::lemma_scalar(literal);
        },
        Operand::List { values, .. } => {
            let scalars = predicates::scalars_of(values@);
            let items = json::scalars_json(scalars)->Array_0;
            assert forall|i: int| 0 <= i < items.len() implies #[trigger] items[i] == (match values@[i] {
                Literal::Value { value: literal, .. } => literal_value(literal),
            }) by {
                statement_laws::lemma_scalar(values@[i]);
                assert(scalars[i] == predicates::scalar_of(values@[i]));
            }
        },
        _ => {},
    }
}

/// Whether what each operand is fits the join.
pub open spec fn fits_operands(
    expr: Expr,
    slots: Seq<LogicalJoinNodeSlotView>,
    sources: ValueSources,
    row: RowView,
    value: spec_fn(Operand) -> Result<Option<JsonView>, GraphErrorView>,
) -> bool
    decreases expr,
{
    match expr {
        Expr::And { lhs, rhs, .. } => fits_operands(*lhs, slots, sources, row, value)
            && fits_operands(*rhs, slots, sources, row, value),
        Expr::Or { lhs, rhs, .. } => fits_operands(*lhs, slots, sources, row, value)
            && fits_operands(*rhs, slots, sources, row, value),
        Expr::Not { expr: inner, .. } => fits_operands(*inner, slots, sources, row, value),
        Expr::Compare { lhs, rhs, .. } => {
            &&& slot_value(lhs, slots, sources, row, value(lhs))
            &&& rhs matches Some(operand) ==> slot_value(
                operand,
                slots,
                sources,
                row,
                value(operand),
            )
        },
    }
}

proof fn lemma_fits(
    expr: Expr,
    known: JoinSlots,
    depth: nat,
    sources: ValueSources,
    row: RowView,
)
    requires
        in_step(known),
        predicates::bound_expr(expr, joins::join_operands(known), depth) is Ok,
    ensures
        fits_operands(expr, known.slots, sources, row, bound_values(known, sources, row)),
    decreases expr,
{
    let operands = joins::join_operands(known);
    match expr {
        Expr::And { lhs, rhs, .. } => {
            lemma_fits(*lhs, known, depth + 1, sources, row);
            lemma_fits(*rhs, known, depth + 1, sources, row);
        },
        Expr::Or { lhs, rhs, .. } => {
            lemma_fits(*lhs, known, depth + 1, sources, row);
            lemma_fits(*rhs, known, depth + 1, sources, row);
        },
        Expr::Not { expr: inner, .. } => {
            lemma_fits(*inner, known, depth + 1, sources, row);
        },
        Expr::Compare { lhs, op, rhs, .. } => {
            assert(operands(lhs) == joins::join_operand(lhs, known));
            lemma_operand(lhs, known, sources, row);
            if let Some(operand) = rhs {
                assert(operands(operand) == joins::join_operand(operand, known));
                lemma_operand(operand, known, sources, row);
            }
        },
    }
}

/// The predicate of a join holds of exactly the rows that its written condition holds of,
/// where each operand is what it names: properties of the nodes of its variables' slots.
pub proof fn lemma_join_condition_means_what_is_written<C: CatalogSnapshot>(
    query: Query,
    catalog: C,
    sources: ValueSources,
    row: RowView,
)
    requires
        2 * query.match_.patterns@.len() <= usize::MAX,
        joins::bound_join(query, catalog) is Ok,
    ensures
        query.where_ matches Some(expr) ==> exists|
            value: spec_fn(Operand) -> Result<Option<JsonView>, GraphErrorView>,
        |
            #[trigger] fits_operands(
                expr,
                joins::bound_join(query, catalog)->Ok_0.node_slots,
                sources,
                row,
                value,
            ) && evaluate::predicate_holds(
                sources,
                row,
                joins::bound_join(query, catalog)->Ok_0.predicate->0,
            ) == holds_by(expr, value),
{
    if let Some(expr) = query.where_ {
        let start = JoinSlots { slots: Seq::empty(), by_var: Map::empty() };
        let patterns = query.match_.patterns@;
        lemma_joined(patterns, 0, catalog, start, Seq::empty());
        let (bound, known) = joins::joined_from(patterns, 0, catalog, start, Seq::empty())->Ok_0;
        lemma_condition(expr, known, 0, sources, row);
        lemma_fits(expr, known, 0, sources, row);
        let plan = joins::bound_join(query, catalog)->Ok_0;
        let value = bound_values(known, sources, row);
        assert(plan.node_slots == known.slots);
        assert(fits_operands(expr, plan.node_slots, sources, row, value));
        assert(plan.predicate == Some(
            predicates::bound_expr(expr, joins::join_operands(known), 0)->Ok_0,
        ));
    }
}

// ---------------------------------------------------------------------------
// Returned items of a join
// ---------------------------------------------------------------------------

/// Whether a binding returns what is written: the node of a variable's slot, or a
/// property of it, under the written name.
pub open spec fn is_join_return_of(
    item: ReturnItem,
    slots: Seq<LogicalJoinNodeSlotView>,
    bound: ReturnBindingView,
) -> bool {
    match (item.expr, bound) {
        (
            ReturnExpr::Var { var, .. },
            ReturnBindingView::Node { side: BindingSide::PathNode(slot), name },
        ) => slot < slots.len() && slots[slot as int].var == var.text@ && name == projected_name(
            item,
        ),
        (
            ReturnExpr::Property { var, property, .. },
            ReturnBindingView::Property { side: BindingSide::PathNode(slot), property: key, name },
        ) => slot < slots.len() && slots[slot as int].var == var.text@ && key == property.text@
            && name == projected_name(item),
        _ => false,
    }
}

proof fn lemma_name(item: ReturnItem)
    ensures
        scope::item_name(item) == projected_name(item),
{
    reveal_strlit(".");
    if let ReturnExpr::Property { var, property, .. } = item.expr {
        assert("."@ =~= seq!['.']);
    }
}

proof fn lemma_join_returns(
    items: Seq<ReturnItem>,
    from: int,
    known: JoinSlots,
    done: Seq<ReturnBindingView>,
)
    requires
        in_step(known),
        done.len() == from,
        from <= items.len(),
        forall|i: int|
            0 <= i < done.len() ==> is_join_return_of(items[i], known.slots, #[trigger] done[i]),
    ensures
        joins::join_returns_from(items, from, known, done) matches Ok(bound) ==> {
            &&& bound.len() == items.len()
            &&& forall|i: int|
                0 <= i < bound.len() ==> is_join_return_of(
                    items[i],
                    known.slots,
                    #[trigger] bound[i],
                )
        },
    decreases items.len() - from,
{
    if from < items.len() {
        if let Ok(binding) = joins::join_return(items[from], known) {
            lemma_name(items[from]);
            assert(is_join_return_of(items[from], known.slots, binding));
            lemma_join_returns(items, from + 1, known, done.push(binding));
        }
    }
}

/// Whether a sort key is that of an item: the written alias or, without deduplication,
/// a property of the node of a variable's slot; the same way round.
pub open spec fn is_join_sort_of(
    item: SortItem,
    slots: Seq<LogicalJoinNodeSlotView>,
    distinct: bool,
    bound: SortBindingView,
) -> bool {
    &&& bound.desc == item.desc
    &&& match item.key {
        SortKey::Alias { alias, .. } => bound.key == SortBindingKeyView::ReturnName(alias.text@),
        SortKey::Property { var, property, .. } => if distinct {
            bound.key is ReturnName
        } else {
            bound.key matches SortBindingKeyView::Property {
                side: BindingSide::PathNode(slot),
                property: key,
            } && slot < slots.len() && slots[slot as int].var == var.text@ && key == property.text@
        },
    }
}

proof fn lemma_join_sorts(
    items: Seq<SortItem>,
    from: int,
    bindings: Seq<ReturnBindingView>,
    known: JoinSlots,
    distinct: bool,
    done: Seq<SortBindingView>,
)
    requires
        in_step(known),
        done.len() == from,
        from <= items.len(),
        forall|i: int|
            0 <= i < done.len() ==> is_join_sort_of(
                items[i],
                known.slots,
                distinct,
                #[trigger] done[i],
            ),
    ensures
        joins::join_sorts_from(items, from, bindings, known, distinct, done) matches Ok(bound)
            ==> {
            &&& bound.len() == items.len()
            &&& forall|i: int|
                0 <= i < bound.len() ==> is_join_sort_of(
                    items[i],
                    known.slots,
                    distinct,
                    #[trigger] bound[i],
                )
        },
    decreases items.len() - from,
{
    if from < items.len() {
        if let Ok(key) = joins::join_sort_key(items[from], bindings, known, distinct) {
            let next = SortBindingView { key, desc: items[from].desc };
            assert(is_join_sort_of(items[from], known.slots, distinct, next));
            lemma_join_sorts(items, from + 1, bindings, known, distinct, done.push(next));
        }
    }
}

/// A join returns and sorts by what is written, one by one.
pub proof fn lemma_join_returns_what_is_written<C: CatalogSnapshot>(query: Query, catalog: C)
    requires
        2 * query.match_.patterns@.len() <= usize::MAX,
        joins::bound_join(query, catalog) is Ok,
    ensures
        ({
            let plan = joins::bound_join(query, catalog)->Ok_0;
            &&& plan.returns.len() == query.return_.items@.len()
            &&& forall|i: int|
                0 <= i < plan.returns.len() ==> is_join_return_of(
                    query.return_.items@[i],
                    plan.node_slots,
                    #[trigger] plan.returns[i],
                )
            &&& plan.order_by.len() == query.order_by@.len()
            &&& forall|i: int|
                0 <= i < plan.order_by.len() ==> is_join_sort_of(
                    query.order_by@[i],
                    plan.node_slots,
                    query.return_.distinct,
                    #[trigger] plan.order_by[i],
                )
        }),
{
    let start = JoinSlots { slots: Seq::empty(), by_var: Map::empty() };
    let patterns = query.match_.patterns@;
    lemma_joined(patterns, 0, catalog, start, Seq::empty());
    let (bound, known) = joins::joined_from(patterns, 0, catalog, start, Seq::empty())->Ok_0;
    lemma_join_returns(query.return_.items@, 0, known, Seq::empty());
    let projected = joins::join_returns_from(
        query.return_.items@,
        0,
        known,
        Seq::empty(),
    )->Ok_0;
    lemma_join_sorts(
        query.order_by@,
        0,
        projected,
        known,
        query.return_.distinct,
        Seq::empty(),
    );
}

// ---------------------------------------------------------------------------
// Paths
// ---------------------------------------------------------------------------

/// Whether a table filter is that of a node: the table of its label, where it has one.
pub open spec fn is_filter_of<C: CatalogSnapshot>(
    pat: NodePat,
    catalog: C,
    filter: Option<u32>,
) -> bool {
    match pat.label {
        None => filter is None,
        Some(label) => catalog.label_info(label.text@, label.span) matches Ok(info) && filter
            == Some(info.table_oid),
    }
}

/// Whether a segment is that of a relationship and the node that it leads to.
pub open spec fn is_segment_of<C: CatalogSnapshot>(
    rel: RelPat,
    target: NodePat,
    catalog: C,
    segment: LogicalWildcardPathSegmentView,
) -> bool {
    &&& is_name_of(rel.var, segment.rel_var)
    &&& is_name_of(target.var, segment.target_var)
    &&& is_direction_of(rel.direction, segment.direction)
    &&& is_name_of(rel.rel_type, segment.rel_type_filter)
    &&& is_filter_of(target, catalog, segment.target_table_filter)
}

proof fn lemma_segments<C: CatalogSnapshot>(
    tail: Seq<(RelPat, NodePat)>,
    from: int,
    catalog: C,
    source_filter: Option<u32>,
    done: Seq<LogicalWildcardPathSegmentView>,
)
    requires
        done.len() == from,
        from <= tail.len(),
        forall|i: int|
            0 <= i < done.len() ==> is_segment_of(
                tail[i].0,
                tail[i].1,
                catalog,
                #[trigger] done[i],
            ),
    ensures
        wildcard::segments_from(tail, from, catalog, source_filter, done) matches Ok(segments)
            ==> {
            &&& segments.len() == tail.len()
            &&& forall|i: int|
                0 <= i < segments.len() ==> is_segment_of(
                    tail[i].0,
                    tail[i].1,
                    catalog,
                    #[trigger] segments[i],
                )
        },
    decreases tail.len() - from,
{
    if from < tail.len() {
        if let Ok(segment) = wildcard::bound_segment(
            tail[from].0,
            tail[from].1,
            catalog,
            source_filter,
            tail.len() == 1,
        ) {
            assert(is_segment_of(tail[from].0, tail[from].1, catalog, segment));
            lemma_segments(
                tail,
                from + 1,
                catalog,
                segment.target_table_filter,
                done.push(segment),
            );
        }
    }
}

/// A path binds the relationships and nodes that are written, one by one: in their
/// direction, by their type where they have one, and to the tables of their labels where
/// they have one. It skips and limits as it is written.
pub proof fn lemma_path_is_that_written<C: CatalogSnapshot>(
    query: Query,
    path_var: Seq<char>,
    catalog: C,
)
    requires
        wildcard::bound_path(query, path_var, catalog) is Ok,
    ensures
        ({
            let plan = wildcard::bound_path(query, path_var, catalog)->Ok_0;
            let tail = query.match_.pattern.tail@;
            &&& plan.path_var == path_var
            &&& is_name_of(query.match_.pattern.start.var, plan.source_var)
            &&& is_filter_of(query.match_.pattern.start, catalog, plan.source_table_filter)
            &&& plan.segments.len() == tail.len()
            &&& forall|i: int|
                0 <= i < plan.segments.len() ==> is_segment_of(
                    tail[i].0,
                    tail[i].1,
                    catalog,
                    #[trigger] plan.segments[i],
                )
            &&& plan.skip == query.skip
            &&& plan.limit == query.limit
        }),
{
    let start = query.match_.pattern.start;
    let tail = query.match_.pattern.tail@;
    let source_filter = wildcard::node_filter(start, catalog)->Ok_0;
    lemma_segments(tail, 0, catalog, source_filter, Seq::empty());
}

} // verus!
