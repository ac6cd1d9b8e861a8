//! Binding of multi-pattern joins.
use vstd::prelude::*;

use crate::gql::ast::{Expr, Ident, NodePat, Operand, Pattern, Query, RelPat, ReturnExpr, ReturnItem, SortItem, SortKey};
use crate::gql::errors::{self, GqlError, GqlErrorView, GqlResult};
use crate::query::catalog_snapshot::{CatalogSnapshot, NodeLabelInfo};
use crate::query::logical_plan::{
    self, BindingSide, LogicalJoinNodeSlot, LogicalJoinNodeSlotView, LogicalJoinPattern,
    LogicalJoinPatternView, LogicalJoinPlan, LogicalJoinPlanView, Predicate, PredicateView,
    ReturnBinding, ReturnBindingView, SortBinding, SortBindingKey, SortBindingKeyView,
    SortBindingView, ValueExpr, ValueExprView,
};
use crate::query::names::NameMap;
use crate::query::predicates::{self, bind_expr, literal_json, literals_json, OperandScope};
use crate::query::scope::{
    self, duplicate_return_name, find_property_name, has_return, has_scalar_return,
    projection_name,
};
use crate::query::semantics::{self, bind_direction, resolve_relationship, validate_row_window};
use crate::text::{concat3, concat5};
use crate::views;

verus! {

/// The slots of variables.
pub type SlotMap = Map<Seq<char>, usize>;

/// Whether every variable has a slot.
pub open spec fn slots_exist(by_var: SlotMap, count: nat) -> bool {
    forall|var: Seq<char>| #[trigger] by_var.contains_key(var) ==> by_var[var] < count
}

/// The node slots of a join, and the variables bound to them.
pub struct JoinSlots {
    pub slots: Seq<LogicalJoinNodeSlotView>,
    pub by_var: SlotMap,
}

/// What a node pattern of a join binds to: its slot and the slots after it.
pub open spec fn join_slot<C: CatalogSnapshot>(node: NodePat, catalog: C, known: JoinSlots) -> Result<
    (usize, JoinSlots),
    GqlErrorView,
> {
    if node.props@.len() > 0 {
        Err(
            errors::unsupported_error(
                node.span,
                "node properties in multi-pattern joins require a later phase"@,
            ),
        )
    } else {
        match node.var {
            None => Err(
                errors::unsupported_error(
                    node.span,
                    "anonymous nodes in multi-pattern joins require a later phase"@,
                ),
            ),
            Some(var) => if known.by_var.contains_key(var.text@) {
                let slot = known.by_var[var.text@];
                match node.label {
                    None => Ok((slot, known)),
                    Some(label) => match catalog.label_info(label.text@, label.span) {
                        Err(error) => Err(error),
                        Ok(info) => if info.table_oid != known.slots[slot as int].table_oid {
                            Err(
                                errors::bind_error(
                                    label.span,
                                    "conflicting label `"@ + label.text@
                                        + "` for previously bound variable `"@ + var.text@ + "`"@,
                                ),
                            )
                        } else {
                            Ok((slot, known))
                        },
                    },
                }
            } else {
                match node.label {
                    None => Err(
                        errors::unsupported_error(
                            node.span,
                            "new variables in multi-pattern joins require a concrete node label"@,
                        ),
                    ),
                    Some(label) => match catalog.label_info(label.text@, label.span) {
                        Err(error) => Err(error),
                        Ok(info) => {
                            let slot = known.slots.len() as usize;
                            Ok(
                                (
                                    slot,
                                    JoinSlots {
                                        slots: known.slots.push(
                                            LogicalJoinNodeSlotView {
                                                var: var.text@,
                                                table_oid: info.table_oid,
                                                label: info.label,
                                                properties: info.properties,
                                            },
                                        ),
                                        by_var: known.by_var.insert(var.text@, slot),
                                    },
                                ),
                            )
                        },
                    },
                }
            },
        }
    }
}

/// Bind a node pattern of a join to a slot.
pub fn bind_join_node_slot<C: CatalogSnapshot>(
    node: &NodePat,
    catalog: &C,
    node_slots: &mut Vec<LogicalJoinNodeSlot>,
    slot_by_var: &mut NameMap<usize>,
) -> (result: GqlResult<usize>)
    requires
        slots_exist(old(slot_by_var)@, old(node_slots)@.len()),
    ensures
        match join_slot(
            *node,
            *catalog,
            JoinSlots { slots: views::views(old(node_slots)@), by_var: old(slot_by_var)@ },
        ) {
            Ok((slot, known)) => result == Ok::<usize, GqlError>(slot) && views::views(
                final(node_slots)@,
            ) == known.slots && final(slot_by_var)@ == known.by_var && slot
                < known.slots.len() && slots_exist(known.by_var, known.slots.len()),
            Err(error) => result matches Err(given) && given@ == error,
        },
{
    if node.props.len() > 0 {
        return Err(
            GqlError::unsupported(
                node.span,
                "node properties in multi-pattern joins require a later phase",
            ),
        );
    }
    let var: &Ident = match &node.var {
        Some(var) => var,
        None => {
            return Err(
                GqlError::unsupported(
                    node.span,
                    "anonymous nodes in multi-pattern joins require a later phase",
                ),
            );
        },
    };
    let bound: Option<usize> = match slot_by_var.get(var.text.as_str()) {
        Some(slot) => Some(*slot),
        None => None,
    };
    if let Some(slot) = bound {
        match &node.label {
            Some(label) => {
                let info: NodeLabelInfo = catalog.resolve_node_label(
                    label.text.as_str(),
                    label.span,
                )?;
                if info.table_oid != node_slots[slot].table_oid {
                    return Err(
                        GqlError::bind(
                            label.span,
                            concat5(
                                "conflicting label `",
                                label.text.as_str(),
                                "` for previously bound variable `",
                                var.text.as_str(),
                                "`",
                            ).as_str(),
                        ),
                    );
                }
            },
            None => {},
        }
        return Ok(slot);
    }
    let label: &Ident = match &node.label {
        Some(label) => label,
        None => {
            return Err(
                GqlError::unsupported(
                    node.span,
                    "new variables in multi-pattern joins require a concrete node label",
                ),
            );
        },
    };
    let info: NodeLabelInfo = catalog.resolve_node_label(label.text.as_str(), label.span)?;
    let slot: usize = node_slots.len();
    let ghost earlier = node_slots@;
    let node_slot: LogicalJoinNodeSlot = LogicalJoinNodeSlot {
        var: var.text.clone(),
        table_oid: info.table_oid,
        label: info.label,
        properties: info.properties,
    };
    node_slots.push(node_slot);
    slot_by_var.insert(var.text.clone(), slot);
    proof {
        views::lemma_push(earlier, node_slot);
    }
    Ok(slot)
}

/// Why a pattern cannot be part of a join.
pub open spec fn join_pattern_error(pattern: Pattern) -> Option<GqlErrorView> {
    if pattern.path_var is Some {
        Some(
            errors::unsupported_error(
                pattern.span,
                "path variables in multi-pattern joins require a later phase"@,
            ),
        )
    } else if pattern.tail@.len() != 1 {
        Some(
            errors::unsupported_error(
                pattern.span,
                "multi-pattern joins currently support fixed single-relationship patterns"@,
            ),
        )
    } else {
        let rel = pattern.tail@[0].0;
        if rel.var is Some {
            Some(
                errors::unsupported_error(
                    rel.span,
                    "relationship variables in multi-pattern joins require a later phase"@,
                ),
            )
        } else if rel.props@.len() > 0 || rel.var_len is Some {
            Some(
                errors::unsupported_error(
                    rel.span,
                    "relationship properties and variable length in multi-pattern joins require a later phase"@,
                ),
            )
        } else if rel.rel_type is None {
            Some(
                errors::unsupported_error(
                    rel.span,
                    "anonymous relationship types in multi-pattern joins require a later phase"@,
                ),
            )
        } else {
            None
        }
    }
}

fn check_join_pattern(pattern: &Pattern) -> (result: GqlResult<(&RelPat, &Ident, &NodePat)>)
    ensures
        match join_pattern_error(*pattern) {
            Some(error) => result matches Err(given) && given@ == error,
            None => result matches Ok(parts) && pattern.tail@.len() == 1 && *parts.0
                == pattern.tail@[0].0 && Some(*parts.1) == pattern.tail@[0].0.rel_type && *parts.2
                == pattern.tail@[0].1,
        },
{
    if pattern.path_var.is_some() {
        return Err(
            GqlError::unsupported(
                pattern.span,
                "path variables in multi-pattern joins require a later phase",
            ),
        );
    }
    if pattern.tail.len() != 1 {
        return Err(
            GqlError::unsupported(
                pattern.span,
                "multi-pattern joins currently support fixed single-relationship patterns",
            ),
        );
    }
    let rel: &RelPat = &pattern.tail[0].0;
    if rel.var.is_some() {
        return Err(
            GqlError::unsupported(
                rel.span,
                "relationship variables in multi-pattern joins require a later phase",
            ),
        );
    }
    if rel.props.len() > 0 || rel.var_len.is_some() {
        return Err(
            GqlError::unsupported(
                rel.span,
                "relationship properties and variable length in multi-pattern joins require a later phase",
            ),
        );
    }
    match &rel.rel_type {
        Some(rel_type) => Ok((rel, rel_type, &pattern.tail[0].1)),
        None => Err(
            GqlError::unsupported(
                rel.span,
                "anonymous relationship types in multi-pattern joins require a later phase",
            ),
        ),
    }
}

/// What one pattern of a join binds to, and the slots after it.
pub open spec fn joined_pattern<C: CatalogSnapshot>(
    pattern: Pattern,
    catalog: C,
    known: JoinSlots,
) -> Result<(LogicalJoinPatternView, JoinSlots), GqlErrorView> {
    match join_pattern_error(pattern) {
        Some(error) => Err(error),
        None => {
            let (rel, target) = pattern.tail@[0];
            let rel_type = rel.rel_type->0;
            match join_slot(pattern.start, catalog, known) {
                Err(error) => Err(error),
                Ok((source_slot, known)) => match join_slot(target, catalog, known) {
                    Err(error) => Err(error),
                    Ok((target_slot, known)) => match semantics::resolved_rel(
                        catalog,
                        rel.direction,
                        rel_type,
                        known.slots[source_slot as int].table_oid,
                        known.slots[target_slot as int].table_oid,
                    ) {
                        Err(error) => Err(error),
                        Ok(_) => Ok(
                            (
                                LogicalJoinPatternView {
                                    source_slot,
                                    rel_type: rel_type.text@,
                                    direction: semantics::bound_direction(rel.direction),
                                    target_slot,
                                },
                                known,
                            ),
                        ),
                    },
                },
            }
        },
    }
}

/// What the patterns of a join bind to from `from` on.
pub open spec fn joined_from<C: CatalogSnapshot>(
    patterns: Seq<Pattern>,
    from: int,
    catalog: C,
    known: JoinSlots,
    done: Seq<LogicalJoinPatternView>,
) -> Result<(Seq<LogicalJoinPatternView>, JoinSlots), GqlErrorView>
    decreases patterns.len() - from,
{
    if from >= patterns.len() {
        Ok((done, known))
    } else {
        match joined_pattern(patterns[from], catalog, known) {
            Err(error) => Err(error),
            Ok((pattern, known)) => joined_from(
                patterns,
                from + 1,
                catalog,
                known,
                done.push(pattern),
            ),
        }
    }
}

// ---------------------------------------------------------------------------
// Names of a join
// ---------------------------------------------------------------------------

/// The nodes of a join.
pub struct JoinScope<'a> {
    pub node_slots: &'a Vec<LogicalJoinNodeSlot>,
    pub slot_by_var: &'a NameMap<usize>,
}

/// The error of a property that a label does not have.
pub open spec fn unknown_property(
    property: Ident,
    slot: LogicalJoinNodeSlotView,
) -> GqlErrorView {
    errors::bind_error(
        property.span,
        "unknown property `"@ + property.text@ + "` for label `"@ + slot.label + "`"@,
    )
}

/// The slot of a property of a join; the message of an unknown variable is given
/// by its start.
pub open spec fn property_slot(
    var: Ident,
    property: Ident,
    known: JoinSlots,
    unknown: Seq<char>,
) -> Result<usize, GqlErrorView> {
    if !known.by_var.contains_key(var.text@) {
        Err(errors::bind_error(var.span, unknown + var.text@ + "`"@))
    } else {
        let slot = known.by_var[var.text@];
        if known.slots[slot as int].properties.contains(property.text@) {
            Ok(slot)
        } else {
            Err(unknown_property(property, known.slots[slot as int]))
        }
    }
}

impl<'a> JoinScope<'a> {
    /// The slots and variables.
    pub open spec fn known(&self) -> JoinSlots {
        JoinSlots { slots: views::views(self.node_slots@), by_var: self.slot_by_var@ }
    }

    fn bind_property(&self, var: &Ident, property: &Ident, unknown: &str) -> (result: GqlResult<
        usize,
    >)
        requires
            self.wf(),
        ensures
            match property_slot(*var, *property, self.known(), unknown@) {
                Ok(slot) => result == Ok::<usize, GqlError>(slot),
                Err(error) => result matches Err(given) && given@ == error,
            },
    {
        let slot: usize = match self.slot_by_var.get(var.text.as_str()) {
            Some(slot) => *slot,
            None => {
                return Err(
                    GqlError::bind(var.span, concat3(unknown, var.text.as_str(), "`").as_str()),
                );
            },
        };
        let node_slot: &LogicalJoinNodeSlot = &self.node_slots[slot];
        assert(views::views(self.node_slots@)[slot as int] == node_slot@);
        if !node_slot.properties.contains(property.text.as_str()) {
            return Err(
                GqlError::bind(
                    property.span,
                    concat5(
                        "unknown property `",
                        property.text.as_str(),
                        "` for label `",
                        node_slot.label.as_str(),
                        "`",
                    ).as_str(),
                ),
            );
        }
        Ok(slot)
    }
}

/// What an operand of a join binds to.
pub open spec fn join_operand(operand: Operand, known: JoinSlots) -> Result<
    ValueExprView,
    GqlErrorView,
> {
    match operand {
        Operand::Property { var, property, .. } => match property_slot(
            var,
            property,
            known,
            "unknown variable `"@,
        ) {
            Err(error) => Err(error),
            Ok(slot) => Ok(
                ValueExprView::Property {
                    side: BindingSide::PathNode(slot),
                    property: property.text@,
                },
            ),
        },
        Operand::Literal(literal) => Ok(ValueExprView::Literal(predicates::scalar_of(literal))),
        Operand::Param { name, .. } => Ok(ValueExprView::Param(name.text@)),
        Operand::List { values, .. } => Ok(ValueExprView::List(predicates::scalars_of(values@))),
    }
}

/// What operands of a join bind to.
pub open spec fn join_operands(known: JoinSlots) -> spec_fn(Operand) -> Result<
    ValueExprView,
    GqlErrorView,
> {
    |operand: Operand| join_operand(operand, known)
}

impl<'a> OperandScope for JoinScope<'a> {
    open spec fn wf(&self) -> bool {
        slots_exist(self.slot_by_var@, self.node_slots@.len())
    }

    open spec fn operands(&self) -> spec_fn(Operand) -> Result<ValueExprView, GqlErrorView> {
        join_operands(self.known())
    }

    fn bind_operand(&self, operand: &Operand) -> (result: GqlResult<ValueExpr>) {
        match operand {
            Operand::Property { var, property, .. } => {
                let slot: usize = self.bind_property(var, property, "unknown variable `")?;
                Ok(
                    ValueExpr::Property {
                        side: BindingSide::PathNode(slot),
                        property: property.text.clone(),
                    },
                )
            },
            Operand::Literal(literal) => Ok(ValueExpr::Literal(literal_json(literal))),
            Operand::Param { name, .. } => Ok(ValueExpr::Param(name.text.clone())),
            Operand::List { values, .. } => Ok(ValueExpr::List(literals_json(values))),
        }
    }
}

/// The predicate of a join.
pub open spec fn join_predicate(where_: Option<Expr>, known: JoinSlots) -> Result<
    Option<PredicateView>,
    GqlErrorView,
> {
    match where_ {
        None => Ok(None),
        Some(expr) => match predicates::bound_expr(expr, join_operands(known), 0) {
            Ok(predicate) => Ok(Some(predicate)),
            Err(error) => Err(error),
        },
    }
}

/// Bind the predicate of a join.
pub fn bind_join_predicate(where_: &Option<Expr>, names: &JoinScope) -> (result: GqlResult<
    Option<Predicate>,
>)
    requires
        names.wf(),
    ensures
        match join_predicate(*where_, names.known()) {
            Ok(predicate) => result matches Ok(bound) && views::some_view(bound) == predicate,
            Err(error) => result matches Err(given) && given@ == error,
        },
{
    match where_ {
        None => Ok(None),
        Some(expr) => {
            let predicate: Predicate = bind_expr(expr, names, 0)?;
            Ok(Some(predicate))
        },
    }
}

// ---------------------------------------------------------------------------
// Projections of a join
// ---------------------------------------------------------------------------

/// What a `RETURN` item of a join binds to.
pub open spec fn join_return(item: ReturnItem, known: JoinSlots) -> Result<
    ReturnBindingView,
    GqlErrorView,
> {
    match item.expr {
        ReturnExpr::Var { var, .. } => if known.by_var.contains_key(var.text@) {
            Ok(
                ReturnBindingView::Node {
                    side: BindingSide::PathNode(known.by_var[var.text@]),
                    name: scope::item_name(item),
                },
            )
        } else {
            Err(errors::bind_error(var.span, "unknown return variable `"@ + var.text@ + "`"@))
        },
        ReturnExpr::Property { var, property, .. } => match property_slot(
            var,
            property,
            known,
            "unknown return variable `"@,
        ) {
            Err(error) => Err(error),
            Ok(slot) => Ok(
                ReturnBindingView::Property {
                    side: BindingSide::PathNode(slot),
                    property: property.text@,
                    name: scope::item_name(item),
                },
            ),
        },
        ReturnExpr::Aggregate { span, .. } => Err(
            errors::unsupported_error(
                span,
                "aggregates over multi-pattern joins require a later phase"@,
            ),
        ),
        ReturnExpr::Func { span, .. } => Err(
            errors::unsupported_error(
                span,
                "functions over multi-pattern joins require a later phase"@,
            ),
        ),
    }
}

fn bind_join_return(item: &ReturnItem, names: &JoinScope) -> (result: GqlResult<ReturnBinding>)
    requires
        names.wf(),
    ensures
        errors::outcome(result) == join_return(*item, names.known()),
{
    match &item.expr {
        ReturnExpr::Var { var, .. } => match names.slot_by_var.get(var.text.as_str()) {
            Some(slot) => Ok(
                ReturnBinding::Node {
                    side: BindingSide::PathNode(*slot),
                    name: projection_name(item),
                },
            ),
            None => Err(
                GqlError::bind(
                    var.span,
                    concat3("unknown return variable `", var.text.as_str(), "`").as_str(),
                ),
            ),
        },
        ReturnExpr::Property { var, property, .. } => {
            let slot: usize = names.bind_property(var, property, "unknown return variable `")?;
            Ok(
                ReturnBinding::Property {
                    side: BindingSide::PathNode(slot),
                    property: property.text.clone(),
                    name: projection_name(item),
                },
            )
        },
        ReturnExpr::Aggregate { span, .. } => Err(
            GqlError::unsupported(
                *span,
                "aggregates over multi-pattern joins require a later phase",
            ),
        ),
        ReturnExpr::Func { span, .. } => Err(
            GqlError::unsupported(
                *span,
                "functions over multi-pattern joins require a later phase",
            ),
        ),
    }
}

/// The bindings of a join's `RETURN` clause from item `from` on.
pub open spec fn join_returns_from(
    items: Seq<ReturnItem>,
    from: int,
    known: JoinSlots,
    done: Seq<ReturnBindingView>,
) -> Result<Seq<ReturnBindingView>, GqlErrorView>
    decreases items.len() - from,
{
    if from >= items.len() {
        Ok(done)
    } else {
        match join_return(items[from], known) {
            Err(error) => Err(error),
            Ok(binding) => if scope::returns_name(done, logical_plan::return_name(binding)) {
                Err(
                    scope::duplicate_return(
                        logical_plan::return_name(binding),
                        items[from].span,
                    ),
                )
            } else {
                join_returns_from(items, from + 1, known, done.push(binding))
            },
        }
    }
}

/// Bind a join's `RETURN` clause.
pub fn bind_join_returns(items: &Vec<ReturnItem>, names: &JoinScope) -> (result: GqlResult<
    Vec<ReturnBinding>,
>)
    requires
        names.wf(),
    ensures
        match join_returns_from(items@, 0, names.known(), Seq::empty()) {
            Ok(bindings) => result matches Ok(bound) && views::views(bound@) == bindings,
            Err(error) => result matches Err(given) && given@ == error,
        },
{
    let mut bindings: Vec<ReturnBinding> = Vec::new();
    assert(views::views(bindings@) =~= Seq::<ReturnBindingView>::empty());
    for i in 0..items.len()
        invariant
            names.wf(),
            join_returns_from(items@, i as int, names.known(), views::views(bindings@))
                == join_returns_from(items@, 0, names.known(), Seq::empty()),
    {
        let item: &ReturnItem = &items[i];
        let binding: ReturnBinding = bind_join_return(item, names)?;
        if has_return(&bindings, binding.name()) {
            return Err(duplicate_return_name(binding.name(), item.span));
        }
        let ghost earlier = bindings@;
        bindings.push(binding);
        proof {
            views::lemma_push(earlier, binding);
        }
    }
    Ok(bindings)
}

/// The name under which a property of a join variable is returned.
pub open spec fn returned_join_property(
    bindings: Seq<ReturnBindingView>,
    by_var: SlotMap,
    var: Seq<char>,
    property: Seq<char>,
) -> Option<Seq<char>> {
    if by_var.contains_key(var) {
        scope::property_name(bindings, BindingSide::PathNode(by_var[var]), property, 0)
    } else {
        None
    }
}

/// The name under which a property of a join variable is returned.
pub fn returned_join_property_binding(
    bindings: &Vec<ReturnBinding>,
    slot_by_var: &NameMap<usize>,
    var: &str,
    property: &str,
) -> (name: Option<String>)
    ensures
        views::some_view(name) == returned_join_property(
            views::views(bindings@),
            slot_by_var@,
            var@,
            property@,
        ),
{
    match slot_by_var.get(var) {
        Some(slot) => find_property_name(bindings, BindingSide::PathNode(*slot), property),
        None => None,
    }
}

/// What an `ORDER BY` item of a join sorts by.
pub open spec fn join_sort_key(
    item: SortItem,
    bindings: Seq<ReturnBindingView>,
    known: JoinSlots,
    distinct: bool,
) -> Result<SortBindingKeyView, GqlErrorView> {
    match item.key {
        SortKey::Alias { alias, .. } => if scope::returns_scalar(bindings, alias.text@) {
            Ok(SortBindingKeyView::ReturnName(alias.text@))
        } else if scope::returns_name(bindings, alias.text@) {
            Err(scope::alias_not_scalar(alias.span))
        } else {
            Err(errors::bind_error(alias.span, "unknown ORDER BY alias `"@ + alias.text@ + "`"@))
        },
        SortKey::Property { var, property, .. } => if distinct {
            match returned_join_property(bindings, known.by_var, var.text@, property.text@) {
                Some(name) => Ok(SortBindingKeyView::ReturnName(name)),
                None => Err(scope::distinct_order(item.span)),
            }
        } else {
            match property_slot(var, property, known, "unknown ORDER BY variable `"@) {
                Err(error) => Err(error),
                Ok(slot) => Ok(
                    SortBindingKeyView::Property {
                        side: BindingSide::PathNode(slot),
                        property: property.text@,
                    },
                ),
            }
        },
    }
}

fn bind_join_sort_key(
    item: &SortItem,
    bindings: &Vec<ReturnBinding>,
    names: &JoinScope,
    distinct: bool,
) -> (result: GqlResult<SortBindingKey>)
    requires
        names.wf(),
    ensures
        errors::outcome(result) == join_sort_key(
            *item,
            views::views(bindings@),
            names.known(),
            distinct,
        ),
{
    match &item.key {
        SortKey::Alias { alias, .. } => {
            if has_scalar_return(bindings, alias.text.as_str()) {
                Ok(SortBindingKey::ReturnName(alias.text.clone()))
            } else if has_return(bindings, alias.text.as_str()) {
                Err(
                    GqlError::unsupported(
                        alias.span,
                        "ORDER BY aliases must refer to scalar property returns",
                    ),
                )
            } else {
                Err(
                    GqlError::bind(
                        alias.span,
                        concat3("unknown ORDER BY alias `", alias.text.as_str(), "`").as_str(),
                    ),
                )
            }
        },
        SortKey::Property { var, property, .. } => {
            if distinct {
                return match returned_join_property_binding(
                    bindings,
                    names.slot_by_var,
                    var.text.as_str(),
                    property.text.as_str(),
                ) {
                    Some(name) => Ok(SortBindingKey::ReturnName(name)),
                    None => Err(
                        GqlError::unsupported(
                            item.span,
                            "DISTINCT queries must ORDER BY returned scalar expressions",
                        ),
                    ),
                };
            }
            let slot: usize = names.bind_property(var, property, "unknown ORDER BY variable `")?;
            Ok(
                SortBindingKey::Property {
                    side: BindingSide::PathNode(slot),
                    property: property.text.clone(),
                },
            )
        },
    }
}

/// The bindings of a join's `ORDER BY` clause from item `from` on.
pub open spec fn join_sorts_from(
    items: Seq<SortItem>,
    from: int,
    bindings: Seq<ReturnBindingView>,
    known: JoinSlots,
    distinct: bool,
    done: Seq<SortBindingView>,
) -> Result<Seq<SortBindingView>, GqlErrorView>
    decreases items.len() - from,
{
    if from >= items.len() {
        Ok(done)
    } else {
        match join_sort_key(items[from], bindings, known, distinct) {
            Err(error) => Err(error),
            Ok(key) => join_sorts_from(
                items,
                from + 1,
                bindings,
                known,
                distinct,
                done.push(SortBindingView { key, desc: items[from].desc }),
            ),
        }
    }
}

/// Bind a join's `ORDER BY` clause.
pub fn bind_join_sort_items(
    items: &Vec<SortItem>,
    bindings: &Vec<ReturnBinding>,
    names: &JoinScope,
    distinct: bool,
) -> (result: GqlResult<Vec<SortBinding>>)
    requires
        names.wf(),
    ensures
        match join_sorts_from(
            items@,
            0,
            views::views(bindings@),
            names.known(),
            distinct,
            Seq::empty(),
        ) {
            Ok(sorts) => result matches Ok(bound) && views::views(bound@) == sorts,
            Err(error) => result matches Err(given) && given@ == error,
        },
{
    let mut sorts: Vec<SortBinding> = Vec::new();
    assert(views::views(sorts@) =~= Seq::<SortBindingView>::empty());
    for i in 0..items.len()
        invariant
            names.wf(),
            join_sorts_from(
                items@,
                i as int,
                views::views(bindings@),
                names.known(),
                distinct,
                views::views(sorts@),
            ) == join_sorts_from(
                items@,
                0,
                views::views(bindings@),
                names.known(),
                distinct,
                Seq::empty(),
            ),
    {
        let key: SortBindingKey = bind_join_sort_key(&items[i], bindings, names, distinct)?;
        let ghost earlier = sorts@;
        let sort: SortBinding = SortBinding { key, desc: items[i].desc };
        sorts.push(sort);
        proof {
            views::lemma_push(earlier, sort);
        }
    }
    Ok(sorts)
}

// ---------------------------------------------------------------------------
// Joins
// ---------------------------------------------------------------------------

/// The tables of node slots.
pub open spec fn slot_tables(slots: Seq<LogicalJoinNodeSlotView>) -> Seq<u32> {
    slots.map_values(|slot: LogicalJoinNodeSlotView| slot.table_oid)
}

/// What a join binds to once its patterns are bound.
pub open spec fn join_of(
    query: Query,
    patterns: Seq<LogicalJoinPatternView>,
    known: JoinSlots,
) -> Result<LogicalJoinPlanView, GqlErrorView> {
    match join_predicate(query.where_, known) {
        Err(error) => Err(error),
        Ok(predicate) => match join_returns_from(
            query.return_.items@,
            0,
            known,
            Seq::empty(),
        ) {
            Err(error) => Err(error),
            Ok(projected) => match join_sorts_from(
                query.order_by@,
                0,
                projected,
                known,
                query.return_.distinct,
                Seq::empty(),
            ) {
                Err(error) => Err(error),
                Ok(order_by) => Ok(
                    LogicalJoinPlanView {
                        node_slots: known.slots,
                        patterns,
                        returns: projected,
                        distinct: query.return_.distinct,
                        predicate,
                        order_by,
                        required_table_oids: slot_tables(known.slots),
                        skip: query.skip,
                        limit: query.limit,
                    },
                ),
            },
        },
    }
}

/// What a multi-pattern query binds to.
pub open spec fn bound_join<C: CatalogSnapshot>(query: Query, catalog: C) -> Result<
    LogicalJoinPlanView,
    GqlErrorView,
> {
    if query.match_.optional {
        Err(
            errors::unsupported_error(
                query.match_.span,
                "multi-pattern OPTIONAL MATCH requires a later join phase"@,
            ),
        )
    } else if query.with_@.len() > 0 {
        Err(
            errors::unsupported_error(
                query.span,
                "WITH over multi-pattern joins requires a later phase"@,
            ),
        )
    } else {
        match semantics::window_error(query) {
            Some(error) => Err(error),
            None => match joined_from(
                query.match_.patterns@,
                0,
                catalog,
                JoinSlots { slots: Seq::empty(), by_var: Map::empty() },
                Seq::empty(),
            ) {
                Err(error) => Err(error),
                Ok((patterns, known)) => join_of(query, patterns, known),
            },
        }
    }
}

/// Bind a multi-pattern query.
pub fn bind_join_read<C: CatalogSnapshot>(query: &Query, catalog: &C) -> (result: GqlResult<
    LogicalJoinPlan,
>)
    ensures
        errors::outcome(result) == bound_join(*query, *catalog),
{
    if query.match_.optional {
        return Err(
            GqlError::unsupported(
                query.match_.span,
                "multi-pattern OPTIONAL MATCH requires a later join phase",
            ),
        );
    }
    if query.with_.len() > 0 {
        return Err(
            GqlError::unsupported(
                query.span,
                "WITH over multi-pattern joins requires a later phase",
            ),
        );
    }
    validate_row_window(query)?;
    let mut node_slots: Vec<LogicalJoinNodeSlot> = Vec::new();
    let mut slot_by_var: NameMap<usize> = NameMap::new();
    let mut patterns: Vec<LogicalJoinPattern> = Vec::new();
    let ghost start = JoinSlots { slots: Seq::empty(), by_var: Map::empty() };
    assert(views::views(node_slots@) =~= Seq::<LogicalJoinNodeSlotView>::empty());
    assert(views::views(patterns@) =~= Seq::<LogicalJoinPatternView>::empty());
    for i in 0..query.match_.patterns.len()
        invariant
            !query.match_.optional,
            query.with_@.len() == 0,
            semantics::window_error(*query) is None,
            start == (JoinSlots { slots: Seq::empty(), by_var: Map::empty() }),
            slots_exist(slot_by_var@, node_slots@.len()),
            joined_from(
                query.match_.patterns@,
                i as int,
                *catalog,
                JoinSlots { slots: views::views(node_slots@), by_var: slot_by_var@ },
                views::views(patterns@),
            ) == joined_from(query.match_.patterns@, 0, *catalog, start, Seq::empty()),
    {
        let pattern: &Pattern = &query.match_.patterns[i];
        let (rel, rel_type, target): (&RelPat, &Ident, &NodePat) = check_join_pattern(pattern)?;
        let source_slot: usize = bind_join_node_slot(
            &pattern.start,
            catalog,
            &mut node_slots,
            &mut slot_by_var,
        )?;
        let target_slot: usize = bind_join_node_slot(
            target,
            catalog,
            &mut node_slots,
            &mut slot_by_var,
        )?;
        assert(views::views(node_slots@)[source_slot as int] == node_slots@[source_slot as int]@);
        assert(views::views(node_slots@)[target_slot as int] == node_slots@[target_slot as int]@);
        resolve_relationship(
            catalog,
            rel,
            rel_type,
            node_slots[source_slot].table_oid,
            node_slots[target_slot].table_oid,
        )?;
        let ghost earlier = patterns@;
        let bound: LogicalJoinPattern = LogicalJoinPattern {
            source_slot,
            rel_type: rel_type.text.clone(),
            direction: bind_direction(rel.direction),
            target_slot,
        };
        patterns.push(bound);
        proof {
            views::lemma_push(earlier, bound);
        }
    }
    let names: JoinScope = JoinScope { node_slots: &node_slots, slot_by_var: &slot_by_var };
    let predicate: Option<Predicate> = bind_join_predicate(&query.where_, &names)?;
    let projected: Vec<ReturnBinding> = bind_join_returns(&query.return_.items, &names)?;
    let order_by: Vec<SortBinding> = bind_join_sort_items(
        &query.order_by,
        &projected,
        &names,
        query.return_.distinct,
    )?;
    let mut required_table_oids: Vec<u32> = Vec::new();
    let ghost slots = views::views(node_slots@);
    for i in 0..node_slots.len()
        invariant
            slots == views::views(node_slots@),
            required_table_oids@ == slot_tables(slots).take(i as int),
    {
        assert(slots[i as int] == node_slots@[i as int]@);
        required_table_oids.push(node_slots[i].table_oid);
        assert(slot_tables(slots).take(i + 1) =~= slot_tables(slots).take(i as int).push(
            slots[i as int].table_oid,
        ));
    }
    assert(slot_tables(slots).take(slots.len() as int) =~= slot_tables(slots));
    Ok(
        LogicalJoinPlan {
            node_slots,
            patterns,
            returns: projected,
            distinct: query.return_.distinct,
            predicate,
            order_by,
            required_table_oids,
            skip: query.skip,
            limit: query.limit,
        },
    )
}

} // verus!
