//! Semantic binding for the supported GQL subset.
use vstd::prelude::*;

use crate::gql::ast::{
    CreateQuery, DeleteQuery, DetachDeleteQuery, Direction, Ident, Literal, MatchClause, MergeQuery,
    NodePat, Operand, Query, RelPat, RemoveQuery, RemoveTarget, ReturnExpr, ReturnItem, SetClause,
    SetQuery, Statement,
};
use crate::gql::errors::{self, GqlError, GqlErrorView, GqlResult, Span};
use crate::query::catalog_snapshot::{
    CatalogSnapshot, EdgeMappingInfo, NodeLabelInfo, RelTypeInfo, RelTypeInfoView,
};
use crate::query::joins::{self, bind_join_read};
use crate::query::logical_plan::{
    self, duplicate_literal, BindingSide, BoundDirection, BoundIncidentEdge, BoundIncidentEdgeView,
    BoundMappedEdge, BoundMappedEdgeView, BoundNode, BoundNodeView, BoundRel, BoundRelView,
    CreateProperty, CreatePropertyView, CreateReturnBinding, CreateReturnBindingView, CreateValue,
    CreateValueView, HopBounds, LogicalCreateNode, LogicalCreateNodeView, LogicalDeleteEdge,
    LogicalDeleteEdgeView, LogicalDetachDeleteNode, LogicalDetachDeleteNodeView, LogicalMergeNode,
    LogicalMergeNodeView, LogicalNodeScan, LogicalNodeScanView, LogicalPlan, LogicalPlanView,
    LogicalRemoveProperty, LogicalRemovePropertyView, LogicalSetProperty, LogicalSetPropertyView,
    LogicalStatement, LogicalStatementView, Predicate, ReturnBinding, SortBinding,
};
use crate::query::names::{self, begins_with, has_char, has_reserved, NameSet};
use crate::query::physical_plan::MAX_GQL_RESULT_ROWS;
use crate::query::predicates::{self, bind_node_predicates, bind_predicates, validate_property};
use crate::query::scope::{
    self, bind_scoped_returns, bind_scoped_sort_items, bind_with_clauses, duplicate_return_name,
    has_aggregate, initial_node_scope, initial_relationship_scope, BindingScope,
    BoundWith,
};
use crate::query::wildcard::{self, bind_wildcard_path_read};
use crate::text::{concat3, concat5, same_text};
use crate::views;

verus! {

/// Greatest upper bound of a variable-length relationship.
pub const MAX_BOUND_HOPS: u32 = 64;

// ---------------------------------------------------------------------------
// Patterns
// ---------------------------------------------------------------------------

/// Why a row window is refused.
pub open spec fn window_error(query: Query) -> Option<GqlErrorView> {
    match query.limit {
        None => None,
        Some(limit) => {
            let skip = match query.skip {
                Some(skip) => skip as int,
                None => 0,
            };
            if skip + limit > MAX_GQL_RESULT_ROWS {
                Some(
                    errors::unsupported_error(
                        query.return_.span,
                        "GQL row window cannot exceed 10000"@,
                    ),
                )
            } else {
                None
            }
        },
    }
}

/// Check that the row window of a query is not too large.
pub fn validate_row_window(query: &Query) -> (result: GqlResult<()>)
    ensures
        errors::refusal(result) == window_error(*query),
{
    let limit: u64 = match query.limit {
        Some(limit) => limit,
        None => {
            return Ok(());
        },
    };
    let skip: u64 = match query.skip {
        Some(skip) => skip,
        None => 0,
    };
    let window: u64 = skip.saturating_add(limit);
    if window > MAX_GQL_RESULT_ROWS as u64 {
        return Err(
            GqlError::unsupported(query.return_.span, "GQL row window cannot exceed 10000"),
        );
    }
    Ok(())
}

/// Why a pattern is not a single relationship.
pub open spec fn hop_error(match_: MatchClause) -> Option<GqlErrorView> {
    if match_.pattern.tail@.len() != 1 {
        Some(
            errors::unsupported_error(
                match_.pattern.span,
                "Phase 1B supports exactly one relationship in MATCH"@,
            ),
        )
    } else if match_.pattern.tail@[0].0.props@.len() > 0 {
        Some(
            errors::unsupported_error(
                match_.pattern.tail@[0].0.span,
                "relationship property maps are implemented in a later read phase"@,
            ),
        )
    } else {
        None
    }
}

/// The nodes and the relationship of a pattern with a single relationship.
pub fn single_outbound_hop(match_: &MatchClause) -> (result: GqlResult<
    (&NodePat, &RelPat, &NodePat),
>)
    ensures
        match hop_error(*match_) {
            Some(error) => result matches Err(given) && given@ == error,
            None => result matches Ok(hop) && match_.pattern.tail@.len() == 1 && *hop.0
                == match_.pattern.start && *hop.1 == match_.pattern.tail@[0].0 && *hop.2
                == match_.pattern.tail@[0].1,
        },
{
    if match_.pattern.tail.len() != 1 {
        return Err(
            GqlError::unsupported(
                match_.pattern.span,
                "Phase 1B supports exactly one relationship in MATCH",
            ),
        );
    }
    let rel: &RelPat = &match_.pattern.tail[0].0;
    if rel.props.len() > 0 {
        return Err(
            GqlError::unsupported(
                rel.span,
                "relationship property maps are implemented in a later read phase",
            ),
        );
    }
    Ok((&match_.pattern.start, rel, &match_.pattern.tail[0].1))
}

/// The bound form of a direction.
pub open spec fn bound_direction(direction: Direction) -> BoundDirection {
    match direction {
        Direction::Out => BoundDirection::Out,
        Direction::In => BoundDirection::In,
        Direction::Undirected => BoundDirection::Undirected,
    }
}

/// The bound form of a direction.
pub fn bind_direction(direction: Direction) -> (bound: BoundDirection)
    ensures
        bound == bound_direction(direction),
{
    match direction {
        Direction::Out => BoundDirection::Out,
        Direction::In => BoundDirection::In,
        Direction::Undirected => BoundDirection::Undirected,
    }
}

/// The hop bounds of a relationship pattern.
pub open spec fn hop_bounds(rel: RelPat) -> Result<HopBounds, GqlErrorView> {
    match rel.var_len {
        None => Ok(HopBounds { variable: false, min: 1, max: 1 }),
        Some(var_len) => if var_len.min == 0 {
            Err(
                errors::unsupported_error(
                    var_len.span,
                    "zero-hop variable-length relationships are outside the supported GQL subset"@,
                ),
            )
        } else if var_len.max > MAX_BOUND_HOPS {
            Err(
                errors::unsupported_error(
                    var_len.span,
                    "variable-length upper bound cannot exceed 64"@,
                ),
            )
        } else {
            Ok(HopBounds { variable: true, min: var_len.min, max: var_len.max })
        },
    }
}

/// The hop bounds of a relationship pattern.
pub fn bind_hops(rel: &RelPat) -> (result: GqlResult<HopBounds>)
    ensures
        match hop_bounds(*rel) {
            Ok(hops) => result == Ok::<HopBounds, GqlError>(hops),
            Err(error) => result matches Err(given) && given@ == error,
        },
{
    match rel.var_len {
        None => Ok(HopBounds { variable: false, min: 1, max: 1 }),
        Some(var_len) => {
            if var_len.min == 0 {
                return Err(
                    GqlError::unsupported(
                        var_len.span,
                        "zero-hop variable-length relationships are outside the supported GQL subset",
                    ),
                );
            }
            if var_len.max > MAX_BOUND_HOPS {
                return Err(
                    GqlError::unsupported(
                        var_len.span,
                        "variable-length upper bound cannot exceed 64",
                    ),
                );
            }
            Ok(HopBounds { variable: true, min: var_len.min, max: var_len.max })
        },
    }
}

/// What a relationship pattern between two tables resolves to. An undirected
/// pattern may run either way.
pub open spec fn resolved_rel<C: CatalogSnapshot>(
    catalog: C,
    direction: Direction,
    rel_type: Ident,
    source_table_oid: u32,
    target_table_oid: u32,
) -> Result<RelTypeInfoView, GqlErrorView> {
    let forth = catalog.rel_info(
        rel_type.text@,
        source_table_oid,
        target_table_oid,
        rel_type.span,
    );
    let back = catalog.rel_info(
        rel_type.text@,
        target_table_oid,
        source_table_oid,
        rel_type.span,
    );
    match direction {
        Direction::Out => forth,
        Direction::In => back,
        Direction::Undirected => if forth is Ok {
            forth
        } else {
            back
        },
    }
}

/// Resolve a relationship pattern between two tables.
pub fn resolve_relationship<C: CatalogSnapshot>(
    catalog: &C,
    rel_pat: &RelPat,
    rel_type: &Ident,
    source_table_oid: u32,
    target_table_oid: u32,
) -> (result: GqlResult<RelTypeInfo>)
    ensures
        errors::outcome(result) == resolved_rel(
            *catalog,
            rel_pat.direction,
            *rel_type,
            source_table_oid,
            target_table_oid,
        ),
{
    match rel_pat.direction {
        Direction::Out => catalog.resolve_rel_type(
            rel_type.text.as_str(),
            source_table_oid,
            target_table_oid,
            rel_type.span,
        ),
        Direction::In => catalog.resolve_rel_type(
            rel_type.text.as_str(),
            target_table_oid,
            source_table_oid,
            rel_type.span,
        ),
        Direction::Undirected => match catalog.resolve_rel_type(
            rel_type.text.as_str(),
            source_table_oid,
            target_table_oid,
            rel_type.span,
        ) {
            Ok(rel) => Ok(rel),
            Err(_) => catalog.resolve_rel_type(
                rel_type.text.as_str(),
                target_table_oid,
                source_table_oid,
                rel_type.span,
            ),
        },
    }
}

/// The first name from `from` on that has a reserved segment.
pub open spec fn first_reserved(properties: Seq<Seq<char>>, from: int) -> Option<Seq<char>>
    decreases properties.len() - from,
{
    if from >= properties.len() {
        None
    } else if names::has_reserved_segment(properties[from]) {
        Some(properties[from])
    } else {
        first_reserved(properties, from + 1)
    }
}

fn find_reserved(properties: &NameSet) -> (found: Option<usize>)
    ensures
        match found {
            Some(at) => at < properties.names@.len() && first_reserved(properties@, 0) == Some(
                properties.names@[at as int]@,
            ),
            None => first_reserved(properties@, 0) is None,
        },
{
    for i in 0..properties.names.len()
        invariant
            first_reserved(properties@, i as int) == first_reserved(properties@, 0),
    {
        assert(properties@[i as int] == properties.names@[i as int]@);
        if has_reserved(properties.names[i].as_str()) {
            return Some(i);
        }
    }
    None
}

/// What a node pattern binds to.
pub open spec fn bound_node<C: CatalogSnapshot>(node: NodePat, catalog: C) -> Result<
    BoundNodeView,
    GqlErrorView,
> {
    match (node.var, node.label) {
        (None, _) => Err(
            errors::unsupported_error(
                node.span,
                "anonymous node patterns require a later phase"@,
            ),
        ),
        (Some(_), None) => Err(
            errors::unsupported_error(
                node.span,
                "unlabeled node patterns require a later phase"@,
            ),
        ),
        (Some(var), Some(label)) => match catalog.label_info(label.text@, label.span) {
            Err(error) => Err(error),
            Ok(info) => match first_reserved(info.properties, 0) {
                Some(property) => Err(
                    errors::bind_error(
                        label.span,
                        "registered property `"@ + property + "` uses a reserved GQL key"@,
                    ),
                ),
                None => Ok(
                    BoundNodeView {
                        var: var.text@,
                        label: info.label,
                        table_oid: info.table_oid,
                        properties: info.properties,
                    },
                ),
            },
        },
    }
}

/// Bind a node pattern.
pub fn bind_node<C: CatalogSnapshot>(node: &NodePat, catalog: &C) -> (result: GqlResult<BoundNode>)
    ensures
        errors::outcome(result) == bound_node(*node, *catalog),
{
    let var: &Ident = match &node.var {
        Some(var) => var,
        None => {
            return Err(
                GqlError::unsupported(
                    node.span,
                    "anonymous node patterns require a later phase",
                ),
            );
        },
    };
    let label: &Ident = match &node.label {
        Some(label) => label,
        None => {
            return Err(
                GqlError::unsupported(
                    node.span,
                    "unlabeled node patterns require a later phase",
                ),
            );
        },
    };
    let info: NodeLabelInfo = catalog.resolve_node_label(label.text.as_str(), label.span)?;
    match find_reserved(&info.properties) {
        Some(at) => {
            return Err(
                GqlError::bind(
                    label.span,
                    concat3(
                        "registered property `",
                        info.properties.names[at].as_str(),
                        "` uses a reserved GQL key",
                    ).as_str(),
                ),
            );
        },
        None => {},
    }
    Ok(
        BoundNode {
            var: var.text.clone(),
            label: info.label,
            table_oid: info.table_oid,
            properties: info.properties,
        },
    )
}

/// The error of a relationship pattern without a type.
pub open spec fn untyped_error(rel: RelPat) -> GqlErrorView {
    errors::unsupported_error(
        rel.span,
        "anonymous relationship types require a later phase"@,
    )
}

/// The relationship type of a pattern that has to have one.
fn required_type(rel: &RelPat) -> (result: GqlResult<&Ident>)
    ensures
        match rel.rel_type {
            Some(rel_type) => result matches Ok(given) && *given == rel_type,
            None => result matches Err(given) && given@ == untyped_error(*rel),
        },
{
    match &rel.rel_type {
        Some(rel_type) => Ok(rel_type),
        None => Err(
            GqlError::unsupported(
                rel.span,
                "anonymous relationship types require a later phase",
            ),
        ),
    }
}

// ---------------------------------------------------------------------------
// Reads
// ---------------------------------------------------------------------------

/// The text of an optional name.
pub open spec fn name_text(name: Option<Ident>) -> Option<Seq<char>> {
    match name {
        Some(name) => Some(name.text@),
        None => None,
    }
}

/// The text of an optional name.
pub fn ident_text(name: &Option<Ident>) -> (text: Option<String>)
    ensures
        views::some_view(text) == name_text(*name),
{
    match name {
        Some(name) => Some(name.text.clone()),
        None => None,
    }
}

/// What a query binds to once its nodes are bound and its relationship resolved.
pub open spec fn plan_of(
    query: Query,
    source: BoundNodeView,
    target: BoundNodeView,
    rel_info: RelTypeInfoView,
) -> Result<LogicalPlanView, GqlErrorView> {
    let source_pat = query.match_.pattern.start;
    let (rel_pat, target_pat) = query.match_.pattern.tail@[0];
    match predicates::match_predicate(
        query.where_,
        source_pat,
        rel_pat,
        target_pat,
        source,
        target,
    ) {
        Err(error) => Err(error),
        Ok(predicate) => match scope::relationship_scope(rel_pat, target_pat, source, target) {
            Err(error) => Err(error),
            Ok(initial) => match scope::after_with(
                query.with_@,
                0,
                initial,
                Seq::empty(),
                source,
                target,
            ) {
                Err(error) => Err(error),
                Ok((names, distinct_stages)) => match scope::returns_from(
                    query.return_.items@,
                    0,
                    names,
                    source,
                    target,
                    Seq::empty(),
                ) {
                    Err(error) => Err(error),
                    Ok(projected) => match scope::sorts_from(
                        query.order_by@,
                        0,
                        projected,
                        names,
                        source,
                        target,
                        query.return_.distinct,
                        Seq::empty(),
                    ) {
                        Err(error) => Err(error),
                        Ok(order_by) => match hop_bounds(rel_pat) {
                            Err(error) => Err(error),
                            Ok(hops) => Ok(
                                LogicalPlanView {
                                    optional: query.match_.optional,
                                    source,
                                    relationship: BoundRelView {
                                        var: name_text(rel_pat.var),
                                        rel_type: rel_info.rel_type,
                                        direction: bound_direction(rel_pat.direction),
                                        hops,
                                    },
                                    target,
                                    returns: projected,
                                    distinct_stages,
                                    distinct: query.return_.distinct,
                                    predicate,
                                    order_by,
                                    skip: query.skip,
                                    limit: query.limit,
                                },
                            ),
                        },
                    },
                },
            },
        },
    }
}

/// What a relationship query binds to.
pub open spec fn bound_plan<C: CatalogSnapshot>(query: Query, catalog: C) -> Result<
    LogicalPlanView,
    GqlErrorView,
> {
    match window_error(query) {
        Some(error) => Err(error),
        None => match hop_error(query.match_) {
            Some(error) => Err(error),
            None => {
                let (rel_pat, target_pat) = query.match_.pattern.tail@[0];
                match bound_node(query.match_.pattern.start, catalog) {
                    Err(error) => Err(error),
                    Ok(source) => match bound_node(target_pat, catalog) {
                        Err(error) => Err(error),
                        Ok(target) => match rel_pat.rel_type {
                            None => Err(untyped_error(rel_pat)),
                            Some(rel_type) => match resolved_rel(
                                catalog,
                                rel_pat.direction,
                                rel_type,
                                source.table_oid,
                                target.table_oid,
                            ) {
                                Err(error) => Err(error),
                                Ok(rel_info) => plan_of(query, source, target, rel_info),
                            },
                        },
                    },
                }
            },
        },
    }
}

/// Bind a parsed relationship query into a logical plan.
///
/// Returns an error when the query uses valid syntax outside the supported subset
/// or when labels or types cannot resolve in the catalog.
pub fn bind<C: CatalogSnapshot>(query: &Query, catalog: &C) -> (result: GqlResult<LogicalPlan>)
    ensures
        errors::outcome(result) == bound_plan(*query, *catalog),
{
    validate_row_window(query)?;
    let (source_pat, rel_pat, target_pat): (&NodePat, &RelPat, &NodePat) = single_outbound_hop(
        &query.match_,
    )?;
    let source: BoundNode = bind_node(source_pat, catalog)?;
    let target: BoundNode = bind_node(target_pat, catalog)?;
    let rel_type: &Ident = required_type(rel_pat)?;
    let rel_info: RelTypeInfo = resolve_relationship(
        catalog,
        rel_pat,
        rel_type,
        source.table_oid,
        target.table_oid,
    )?;
    let predicate: Option<Predicate> = bind_predicates(
        &query.where_,
        source_pat,
        rel_pat,
        target_pat,
        &source,
        &target,
    )?;
    let initial_scope: BindingScope = initial_relationship_scope(
        rel_pat,
        target_pat,
        &source,
        &target,
    )?;
    let bound: BoundWith = bind_with_clauses(&query.with_, initial_scope, &source, &target)?;
    let projected: Vec<ReturnBinding> = bind_scoped_returns(
        &query.return_.items,
        &bound.scope,
        &source,
        &target,
    )?;
    let order_by: Vec<SortBinding> = bind_scoped_sort_items(
        &query.order_by,
        &projected,
        &bound.scope,
        &source,
        &target,
        query.return_.distinct,
    )?;
    let hops: HopBounds = bind_hops(rel_pat)?;
    Ok(
        LogicalPlan {
            optional: query.match_.optional,
            source,
            relationship: BoundRel {
                var: ident_text(&rel_pat.var),
                rel_type: rel_info.rel_type,
                direction: bind_direction(rel_pat.direction),
                hops,
            },
            target,
            returns: projected,
            distinct_stages: bound.distinct_stages,
            distinct: query.return_.distinct,
            predicate,
            order_by,
            skip: query.skip,
            limit: query.limit,
        },
    )
}

/// What a node query binds to once its node is bound.
pub open spec fn scan_of(query: Query, node: BoundNodeView) -> Result<
    LogicalNodeScanView,
    GqlErrorView,
> {
    match predicates::node_predicate(query.where_, query.match_.pattern.start, node) {
        Err(error) => Err(error),
        Ok(predicate) => match scope::after_with(
            query.with_@,
            0,
            scope::node_scope(node),
            Seq::empty(),
            node,
            node,
        ) {
            Err(error) => Err(error),
            Ok((names, distinct_stages)) => match scope::returns_from(
                query.return_.items@,
                0,
                names,
                node,
                node,
                Seq::empty(),
            ) {
                Err(error) => Err(error),
                Ok(projected) => match scope::sorts_from(
                    query.order_by@,
                    0,
                    projected,
                    names,
                    node,
                    node,
                    query.return_.distinct,
                    Seq::empty(),
                ) {
                    Err(error) => Err(error),
                    Ok(order_by) => Ok(
                        LogicalNodeScanView {
                            node,
                            returns: projected,
                            distinct_stages,
                            distinct: query.return_.distinct,
                            predicate,
                            order_by,
                            skip: query.skip,
                            limit: query.limit,
                        },
                    ),
                },
            },
        },
    }
}

/// What a node query binds to.
pub open spec fn bound_scan<C: CatalogSnapshot>(query: Query, catalog: C) -> Result<
    LogicalNodeScanView,
    GqlErrorView,
> {
    match window_error(query) {
        Some(error) => Err(error),
        None => if query.match_.pattern.tail@.len() > 0 {
            Err(
                errors::unsupported_error(
                    query.match_.pattern.span,
                    "node scan binding requires a node-only MATCH pattern"@,
                ),
            )
        } else if query.match_.optional {
            Err(
                errors::unsupported_error(
                    query.match_.span,
                    "node-only OPTIONAL MATCH requires multi-stage row semantics from a later read phase"@,
                ),
            )
        } else {
            match bound_node(query.match_.pattern.start, catalog) {
                Err(error) => Err(error),
                Ok(node) => scan_of(query, node),
            }
        },
    }
}

/// Bind a parsed node query into a logical plan.
pub fn bind_node_scan<C: CatalogSnapshot>(query: &Query, catalog: &C) -> (result: GqlResult<
    LogicalNodeScan,
>)
    ensures
        errors::outcome(result) == bound_scan(*query, *catalog),
{
    validate_row_window(query)?;
    if query.match_.pattern.tail.len() > 0 {
        return Err(
            GqlError::unsupported(
                query.match_.pattern.span,
                "node scan binding requires a node-only MATCH pattern",
            ),
        );
    }
    if query.match_.optional {
        return Err(
            GqlError::unsupported(
                query.match_.span,
                "node-only OPTIONAL MATCH requires multi-stage row semantics from a later read phase",
            ),
        );
    }
    let node: BoundNode = bind_node(&query.match_.pattern.start, catalog)?;
    let predicate: Option<Predicate> = bind_node_predicates(
        &query.where_,
        &query.match_.pattern.start,
        &node,
    )?;
    let initial_scope: BindingScope = initial_node_scope(&node);
    let bound: BoundWith = bind_with_clauses(&query.with_, initial_scope, &node, &node)?;
    let projected: Vec<ReturnBinding> = bind_scoped_returns(
        &query.return_.items,
        &bound.scope,
        &node,
        &node,
    )?;
    let order_by: Vec<SortBinding> = bind_scoped_sort_items(
        &query.order_by,
        &projected,
        &bound.scope,
        &node,
        &node,
        query.return_.distinct,
    )?;
    Ok(
        LogicalNodeScan {
            node,
            returns: projected,
            distinct_stages: bound.distinct_stages,
            distinct: query.return_.distinct,
            predicate,
            order_by,
            skip: query.skip,
            limit: query.limit,
        },
    )
}

// ---------------------------------------------------------------------------
// Writes
// ---------------------------------------------------------------------------

/// What a written value binds to.
pub open spec fn written_value(value: Operand) -> Result<CreateValueView, GqlErrorView> {
    match value {
        Operand::Literal(Literal::Value { value, .. }) => Ok(CreateValueView::Literal(value@)),
        Operand::Param { name, .. } => Ok(CreateValueView::Param(name.text@)),
        Operand::List { span, .. } => Err(
            errors::unsupported_error(
                span,
                "write property lists are implemented in a later write phase"@,
            ),
        ),
        Operand::Property { span, .. } => Err(
            errors::unsupported_error(
                span,
                "write property references require MATCH writes from a later phase"@,
            ),
        ),
    }
}

/// Bind a written value.
pub fn bind_create_value(value: &Operand) -> (result: GqlResult<CreateValue>)
    ensures
        errors::outcome(result) == written_value(*value),
{
    match value {
        Operand::Literal(Literal::Value { value, .. }) => Ok(
            CreateValue::Literal(duplicate_literal(value)),
        ),
        Operand::Param { name, .. } => Ok(CreateValue::Param(name.text.clone())),
        Operand::List { span, .. } => Err(
            GqlError::unsupported(
                *span,
                "write property lists are implemented in a later write phase",
            ),
        ),
        Operand::Property { span, .. } => Err(
            GqlError::unsupported(
                *span,
                "write property references require MATCH writes from a later phase",
            ),
        ),
    }
}

/// Whether written properties hold a name.
pub open spec fn writes_name(properties: Seq<CreatePropertyView>, name: Seq<char>) -> bool {
    exists|i: int| 0 <= i < properties.len() && (#[trigger] properties[i]).property == name
}

fn has_written(properties: &Vec<CreateProperty>, name: &str) -> (found: bool)
    ensures
        found == writes_name(views::views(properties@), name@),
{
    let ghost all = views::views(properties@);
    for i in 0..properties.len()
        invariant
            all == views::views(properties@),
            forall|j: int| 0 <= j < i ==> (#[trigger] all[j]).property != name@,
    {
        assert(all[i as int] == properties@[i as int]@);
        if same_text(properties[i].property.as_str(), name) {
            assert(all[i as int].property == name@);
            return true;
        }
    }
    false
}

/// What a property map binds to from `from` on.
pub open spec fn written_from(
    props: Seq<(Ident, Operand)>,
    from: int,
    known: Seq<Seq<char>>,
    done: Seq<CreatePropertyView>,
) -> Result<Seq<CreatePropertyView>, GqlErrorView>
    decreases props.len() - from,
{
    if from >= props.len() {
        Ok(done)
    } else {
        let (key, value) = props[from];
        if !known.contains(key.text@) {
            Err(errors::bind_error(key.span, "unknown property `"@ + key.text@ + "`"@))
        } else if key.text@.contains('.') {
            Err(
                errors::unsupported_error(
                    key.span,
                    "writes to jsonb property paths require the Phase 4 jsonb write path"@,
                ),
            )
        } else if writes_name(done, key.text@) {
            Err(errors::bind_error(key.span, "duplicate CREATE property `"@ + key.text@ + "`"@))
        } else {
            match written_value(value) {
                Err(error) => Err(error),
                Ok(value) => written_from(
                    props,
                    from + 1,
                    known,
                    done.push(CreatePropertyView { property: key.text@, value }),
                ),
            }
        }
    }
}

/// Bind the property map of a written node.
pub fn bind_create_properties(node_pat: &NodePat, node: &BoundNode) -> (result: GqlResult<
    Vec<CreateProperty>,
>)
    ensures
        match written_from(node_pat.props@, 0, node@.properties, Seq::empty()) {
            Ok(properties) => result matches Ok(bound) && views::views(bound@) == properties,
            Err(error) => result matches Err(given) && given@ == error,
        },
{
    let mut properties: Vec<CreateProperty> = Vec::new();
    assert(views::views(properties@) =~= Seq::<CreatePropertyView>::empty());
    for i in 0..node_pat.props.len()
        invariant
            written_from(
                node_pat.props@,
                i as int,
                node@.properties,
                views::views(properties@),
            ) == written_from(node_pat.props@, 0, node@.properties, Seq::empty()),
    {
        let key: &Ident = &node_pat.props[i].0;
        if !node.properties.contains(key.text.as_str()) {
            return Err(
                GqlError::bind(
                    key.span,
                    concat3("unknown property `", key.text.as_str(), "`").as_str(),
                ),
            );
        }
        if has_char(key.text.as_str(), '.') {
            return Err(
                GqlError::unsupported(
                    key.span,
                    "writes to jsonb property paths require the Phase 4 jsonb write path",
                ),
            );
        }
        if has_written(&properties, key.text.as_str()) {
            return Err(
                GqlError::bind(
                    key.span,
                    concat3("duplicate CREATE property `", key.text.as_str(), "`").as_str(),
                ),
            );
        }
        let value: CreateValue = bind_create_value(&node_pat.props[i].1)?;
        let ghost earlier = properties@;
        let property: CreateProperty = CreateProperty { property: key.text.clone(), value };
        properties.push(property);
        proof {
            views::lemma_push(earlier, property);
        }
    }
    Ok(properties)
}

/// What a write's `RETURN` item binds to.
pub open spec fn write_return(item: ReturnItem, node: BoundNodeView, allow_jsonb_paths: bool) -> Result<
    CreateReturnBindingView,
    GqlErrorView,
> {
    match item.expr {
        ReturnExpr::Var { var, span } => if var.text@ == node.var {
            Ok(
                CreateReturnBindingView::Node {
                    name: match item.alias {
                        Some(alias) => alias.text@,
                        None => var.text@,
                    },
                },
            )
        } else {
            Err(errors::bind_error(span, "unknown return variable `"@ + var.text@ + "`"@))
        },
        ReturnExpr::Property { var, property, span } => if var.text@ == node.var {
            match predicates::property_error(
                BindingSide::Source,
                property.text@,
                node,
                node,
                property.span,
            ) {
                Some(error) => Err(error),
                None => if property.text@.contains('.') && !allow_jsonb_paths {
                    Err(
                        errors::unsupported_error(
                            property.span,
                            "write RETURN jsonb property paths require the Phase 4 jsonb write path"@,
                        ),
                    )
                } else {
                    Ok(
                        CreateReturnBindingView::Property {
                            property: property.text@,
                            name: match item.alias {
                                Some(alias) => alias.text@,
                                None => property.text@,
                            },
                        },
                    )
                },
            }
        } else {
            Err(errors::bind_error(span, "unknown return variable `"@ + var.text@ + "`"@))
        },
        ReturnExpr::Func { span, .. } => Err(
            errors::unsupported_error(
                span,
                "RETURN functions over CREATE are implemented in a later phase"@,
            ),
        ),
        ReturnExpr::Aggregate { span, .. } => Err(
            errors::unsupported_error(
                span,
                "RETURN aggregates over CREATE are implemented in a later phase"@,
            ),
        ),
    }
}

fn alias_or(alias: &Option<Ident>, name: &Ident) -> (text: String)
    ensures
        text@ == (match *alias {
            Some(alias) => alias.text@,
            None => name.text@,
        }),
{
    match alias {
        Some(alias) => alias.text.clone(),
        None => name.text.clone(),
    }
}

fn unknown_return_variable(var: &Ident, span: Span) -> (error: GqlError)
    ensures
        error@ == errors::bind_error(span, "unknown return variable `"@ + var.text@ + "`"@),
{
    GqlError::bind(span, concat3("unknown return variable `", var.text.as_str(), "`").as_str())
}

fn bind_write_return(item: &ReturnItem, node: &BoundNode, allow_jsonb_paths: bool) -> (result:
    GqlResult<CreateReturnBinding>)
    ensures
        errors::outcome(result) == write_return(*item, node@, allow_jsonb_paths),
{
    match &item.expr {
        ReturnExpr::Var { var, span } => {
            if var.text == node.var {
                Ok(CreateReturnBinding::Node { name: alias_or(&item.alias, var) })
            } else {
                Err(unknown_return_variable(var, *span))
            }
        },
        ReturnExpr::Property { var, property, span } => {
            if var.text == node.var {
                validate_property(
                    BindingSide::Source,
                    property.text.as_str(),
                    node,
                    node,
                    property.span,
                )?;
                if has_char(property.text.as_str(), '.') && !allow_jsonb_paths {
                    return Err(
                        GqlError::unsupported(
                            property.span,
                            "write RETURN jsonb property paths require the Phase 4 jsonb write path",
                        ),
                    );
                }
                Ok(
                    CreateReturnBinding::Property {
                        property: property.text.clone(),
                        name: alias_or(&item.alias, property),
                    },
                )
            } else {
                Err(unknown_return_variable(var, *span))
            }
        },
        ReturnExpr::Func { span, .. } => Err(
            GqlError::unsupported(
                *span,
                "RETURN functions over CREATE are implemented in a later phase",
            ),
        ),
        ReturnExpr::Aggregate { span, .. } => Err(
            GqlError::unsupported(
                *span,
                "RETURN aggregates over CREATE are implemented in a later phase",
            ),
        ),
    }
}

/// Whether a write's bindings return a name.
pub open spec fn write_returns_name(bindings: Seq<CreateReturnBindingView>, name: Seq<char>) -> bool {
    exists|i: int|
        0 <= i < bindings.len() && logical_plan::create_return_name(#[trigger] bindings[i]) == name
}

fn has_write_return(bindings: &Vec<CreateReturnBinding>, name: &str) -> (found: bool)
    ensures
        found == write_returns_name(views::views(bindings@), name@),
{
    let ghost all = views::views(bindings@);
    for i in 0..bindings.len()
        invariant
            all == views::views(bindings@),
            forall|j: int|
                0 <= j < i ==> logical_plan::create_return_name(#[trigger] all[j]) != name@,
    {
        assert(all[i as int] == bindings@[i as int]@);
        if same_text(bindings[i].name(), name) {
            assert(logical_plan::create_return_name(all[i as int]) == name@);
            return true;
        }
    }
    false
}

/// The bindings of a write's `RETURN` clause from item `from` on.
pub open spec fn write_returns_from(
    items: Seq<ReturnItem>,
    from: int,
    node: BoundNodeView,
    allow_jsonb_paths: bool,
    done: Seq<CreateReturnBindingView>,
) -> Result<Seq<CreateReturnBindingView>, GqlErrorView>
    decreases items.len() - from,
{
    if from >= items.len() {
        Ok(done)
    } else {
        match write_return(items[from], node, allow_jsonb_paths) {
            Err(error) => Err(error),
            Ok(binding) => {
                let name = logical_plan::create_return_name(binding);
                if write_returns_name(done, name) {
                    Err(scope::duplicate_return(name, items[from].span))
                } else {
                    write_returns_from(
                        items,
                        from + 1,
                        node,
                        allow_jsonb_paths,
                        done.push(binding),
                    )
                }
            },
        }
    }
}

/// Bind a write's `RETURN` clause.
pub fn bind_write_returns(items: &Vec<ReturnItem>, node: &BoundNode, allow_jsonb_paths: bool) -> (result:
    GqlResult<Vec<CreateReturnBinding>>)
    ensures
        match write_returns_from(items@, 0, node@, allow_jsonb_paths, Seq::empty()) {
            Ok(bindings) => result matches Ok(bound) && views::views(bound@) == bindings,
            Err(error) => result matches Err(given) && given@ == error,
        },
{
    let mut bindings: Vec<CreateReturnBinding> = Vec::new();
    assert(views::views(bindings@) =~= Seq::<CreateReturnBindingView>::empty());
    for i in 0..items.len()
        invariant
            write_returns_from(
                items@,
                i as int,
                node@,
                allow_jsonb_paths,
                views::views(bindings@),
            ) == write_returns_from(items@, 0, node@, allow_jsonb_paths, Seq::empty()),
    {
        let item: &ReturnItem = &items[i];
        let binding: CreateReturnBinding = bind_write_return(item, node, allow_jsonb_paths)?;
        if has_write_return(&bindings, binding.name()) {
            return Err(duplicate_return_name(binding.name(), item.span));
        }
        let ghost earlier = bindings@;
        bindings.push(binding);
        proof {
            views::lemma_push(earlier, binding);
        }
    }
    Ok(bindings)
}

/// What a `CREATE` query binds to.
pub open spec fn bound_create<C: CatalogSnapshot>(query: CreateQuery, catalog: C) -> Result<
    LogicalCreateNodeView,
    GqlErrorView,
> {
    if query.return_.distinct {
        Err(
            errors::unsupported_error(
                query.return_.span,
                "RETURN DISTINCT is implemented in a later phase"@,
            ),
        )
    } else {
        match bound_node(query.create.node, catalog) {
            Err(error) => Err(error),
            Ok(node) => if query.create.node.props@.len() == 0 {
                Err(
                    errors::unsupported_error(
                        query.create.node.span,
                        "CREATE requires a property map for mapped node writes"@,
                    ),
                )
            } else {
                match written_from(query.create.node.props@, 0, node.properties, Seq::empty()) {
                    Err(error) => Err(error),
                    Ok(properties) => match write_returns_from(
                        query.return_.items@,
                        0,
                        node,
                        false,
                        Seq::empty(),
                    ) {
                        Err(error) => Err(error),
                        Ok(projected) => Ok(
                            LogicalCreateNodeView { node, properties, returns: projected },
                        ),
                    },
                }
            },
        }
    }
}

/// Bind a `CREATE` query.
pub fn bind_create_node<C: CatalogSnapshot>(query: &CreateQuery, catalog: &C) -> (result: GqlResult<
    LogicalCreateNode,
>)
    ensures
        errors::outcome(result) == bound_create(*query, *catalog),
{
    if query.return_.distinct {
        return Err(
            GqlError::unsupported(
                query.return_.span,
                "RETURN DISTINCT is implemented in a later phase",
            ),
        );
    }
    let node: BoundNode = bind_node(&query.create.node, catalog)?;
    if query.create.node.props.len() == 0 {
        return Err(
            GqlError::unsupported(
                query.create.node.span,
                "CREATE requires a property map for mapped node writes",
            ),
        );
    }
    let properties: Vec<CreateProperty> = bind_create_properties(&query.create.node, &node)?;
    let projected: Vec<CreateReturnBinding> = bind_write_returns(
        &query.return_.items,
        &node,
        false,
    )?;
    Ok(LogicalCreateNode { node, properties, returns: projected })
}

/// The writable properties of a label.
pub open spec fn writable_of<C: CatalogSnapshot>(label: Seq<char>, catalog: C, span: Span) -> Result<
    Seq<Seq<char>>,
    GqlErrorView,
> {
    match catalog.label_info(label, span) {
        Ok(info) => Ok(info.writable_properties),
        Err(error) => Err(error),
    }
}

/// The writable properties of a label.
pub fn writable_properties_for_label<C: CatalogSnapshot>(label: &str, catalog: &C, span: Span) -> (result:
    GqlResult<NameSet>)
    ensures
        errors::outcome(result) == writable_of(label@, *catalog, span),
{
    let info: NodeLabelInfo = catalog.resolve_node_label(label, span)?;
    Ok(info.writable_properties)
}

/// The writable properties of a node pattern, none where it has no label.
pub open spec fn writable_of_start<C: CatalogSnapshot>(start: NodePat, catalog: C) -> Result<
    Seq<Seq<char>>,
    GqlErrorView,
> {
    match start.label {
        Some(label) => writable_of(label.text@, catalog, label.span),
        None => Ok(Seq::empty()),
    }
}

/// The writable properties of a node pattern, none where it has no label.
pub fn writable_properties_for_match_start<C: CatalogSnapshot>(start: &NodePat, catalog: &C) -> (result:
    GqlResult<NameSet>)
    ensures
        errors::outcome(result) == writable_of_start(*start, *catalog),
{
    match &start.label {
        Some(label) => writable_properties_for_label(label.text.as_str(), catalog, label.span),
        None => Ok(NameSet::new()),
    }
}

/// Why a property cannot be written: it is reserved, or no writable column.
pub open spec fn write_target_error(property: Ident, writable: Seq<Seq<char>>) -> Option<
    GqlErrorView,
> {
    if names::starts_with(property.text@, '_') {
        Some(
            errors::bind_error(
                property.span,
                "reserved GQL property key `"@ + property.text@ + "`"@,
            ),
        )
    } else if !writable.contains(property.text@) {
        Some(
            errors::bind_error(
                property.span,
                "property `"@ + property.text@ + "` is not a writable mapped column"@,
            ),
        )
    } else {
        None
    }
}

fn check_write_target(property: &Ident, writable: &NameSet) -> (result: GqlResult<()>)
    ensures
        errors::refusal(result) == write_target_error(*property, writable@),
{
    if begins_with(property.text.as_str(), '_') {
        return Err(
            GqlError::bind(
                property.span,
                concat3("reserved GQL property key `", property.text.as_str(), "`").as_str(),
            ),
        );
    }
    if !writable.contains(property.text.as_str()) {
        return Err(
            GqlError::bind(
                property.span,
                concat3(
                    "property `",
                    property.text.as_str(),
                    "` is not a writable mapped column",
                ).as_str(),
            ),
        );
    }
    Ok(())
}

/// What the `SET` clause of a `MERGE` branch binds to.
pub open spec fn merge_set(
    set: SetClause,
    node: BoundNodeView,
    writable: Seq<Seq<char>>,
    branch: Seq<char>,
) -> Result<CreatePropertyView, GqlErrorView> {
    if set.target.var.text@ != node.var {
        Err(
            errors::bind_error(
                set.target.var.span,
                "unknown MERGE "@ + branch + " variable `"@ + set.target.var.text@ + "`"@,
            ),
        )
    } else if set.target.property.text@.contains('.') {
        Err(
            errors::unsupported_error(
                set.target.property.span,
                "MERGE branch writes to jsonb property paths require a later write phase"@,
            ),
        )
    } else {
        match write_target_error(set.target.property, writable) {
            Some(error) => Err(error),
            None => match written_value(set.value) {
                Err(error) => Err(error),
                Ok(value) => Ok(
                    CreatePropertyView { property: set.target.property.text@, value },
                ),
            },
        }
    }
}

/// Bind the `SET` clause of a `MERGE` branch.
pub fn bind_merge_set_property(
    set: &SetClause,
    node: &BoundNode,
    writable_properties: &NameSet,
    branch: &str,
) -> (result: GqlResult<CreateProperty>)
    ensures
        errors::outcome(result) == merge_set(*set, node@, writable_properties@, branch@),
{
    if set.target.var.text != node.var {
        return Err(
            GqlError::bind(
                set.target.var.span,
                concat5(
                    "unknown MERGE ",
                    branch,
                    " variable `",
                    set.target.var.text.as_str(),
                    "`",
                ).as_str(),
            ),
        );
    }
    if has_char(set.target.property.text.as_str(), '.') {
        return Err(
            GqlError::unsupported(
                set.target.property.span,
                "MERGE branch writes to jsonb property paths require a later write phase",
            ),
        );
    }
    check_write_target(&set.target.property, writable_properties)?;
    let value: CreateValue = bind_create_value(&set.value)?;
    Ok(CreateProperty { property: set.target.property.text.clone(), value })
}

/// What an optional `MERGE` branch binds to.
pub open spec fn merge_branch(
    set: Option<SetClause>,
    node: BoundNodeView,
    writable: Seq<Seq<char>>,
    branch: Seq<char>,
) -> Result<Option<CreatePropertyView>, GqlErrorView> {
    match set {
        None => Ok(None),
        Some(set) => match merge_set(set, node, writable, branch) {
            Ok(property) => Ok(Some(property)),
            Err(error) => Err(error),
        },
    }
}

fn bind_merge_branch(
    set: &Option<SetClause>,
    node: &BoundNode,
    writable_properties: &NameSet,
    branch: &str,
) -> (result: GqlResult<Option<CreateProperty>>)
    ensures
        match merge_branch(*set, node@, writable_properties@, branch@) {
            Ok(property) => result matches Ok(bound) && views::some_view(bound) == property,
            Err(error) => result matches Err(given) && given@ == error,
        },
{
    match set {
        None => Ok(None),
        Some(set) => {
            let property: CreateProperty = bind_merge_set_property(
                set,
                node,
                writable_properties,
                branch,
            )?;
            Ok(Some(property))
        },
    }
}

/// Why the `ON CREATE` branch of a `MERGE` is refused: it sets a property that the
/// pattern sets too.
pub open spec fn on_create_error(
    query: MergeQuery,
    properties: Seq<CreatePropertyView>,
    on_create: Option<CreatePropertyView>,
) -> Option<GqlErrorView> {
    match (query.on_create, on_create) {
        (Some(set), Some(property)) => if writes_name(properties, property.property) {
            Some(
                errors::bind_error(
                    set.target.property.span,
                    "duplicate MERGE property `"@ + property.property + "`"@,
                ),
            )
        } else {
            None
        },
        _ => None,
    }
}

/// What a `MERGE` query binds to once its node and its map are bound.
pub open spec fn merge_of<C: CatalogSnapshot>(
    query: MergeQuery,
    catalog: C,
    node: BoundNodeView,
    properties: Seq<CreatePropertyView>,
) -> Result<LogicalMergeNodeView, GqlErrorView> {
    match writable_of(node.label, catalog, query.merge.node.span) {
        Err(error) => Err(error),
        Ok(writable) => match merge_branch(query.on_create, node, writable, "ON CREATE"@) {
            Err(error) => Err(error),
            Ok(on_create) => match merge_branch(query.on_match, node, writable, "ON MATCH"@) {
                Err(error) => Err(error),
                Ok(on_match) => match on_create_error(query, properties, on_create) {
                    Some(error) => Err(error),
                    None => match write_returns_from(
                        query.return_.items@,
                        0,
                        node,
                        false,
                        Seq::empty(),
                    ) {
                        Err(error) => Err(error),
                        Ok(projected) => Ok(
                            LogicalMergeNodeView {
                                node,
                                properties,
                                on_create,
                                on_match,
                                returns: projected,
                            },
                        ),
                    },
                },
            },
        },
    }
}

/// What a `MERGE` query binds to.
pub open spec fn bound_merge<C: CatalogSnapshot>(query: MergeQuery, catalog: C) -> Result<
    LogicalMergeNodeView,
    GqlErrorView,
> {
    if query.return_.distinct {
        Err(
            errors::unsupported_error(
                query.return_.span,
                "RETURN DISTINCT over MERGE is implemented in a later phase"@,
            ),
        )
    } else {
        match bound_node(query.merge.node, catalog) {
            Err(error) => Err(error),
            Ok(node) => if query.merge.node.props@.len() == 0 {
                Err(
                    errors::unsupported_error(
                        query.merge.node.span,
                        "MERGE requires a property map for mapped node identity"@,
                    ),
                )
            } else {
                match written_from(query.merge.node.props@, 0, node.properties, Seq::empty()) {
                    Err(error) => Err(error),
                    Ok(properties) => merge_of(query, catalog, node, properties),
                }
            },
        }
    }
}

/// Bind a `MERGE` query.
pub fn bind_merge_node<C: CatalogSnapshot>(query: &MergeQuery, catalog: &C) -> (result: GqlResult<
    LogicalMergeNode,
>)
    ensures
        errors::outcome(result) == bound_merge(*query, *catalog),
{
    if query.return_.distinct {
        return Err(
            GqlError::unsupported(
                query.return_.span,
                "RETURN DISTINCT over MERGE is implemented in a later phase",
            ),
        );
    }
    let node: BoundNode = bind_node(&query.merge.node, catalog)?;
    if query.merge.node.props.len() == 0 {
        return Err(
            GqlError::unsupported(
                query.merge.node.span,
                "MERGE requires a property map for mapped node identity",
            ),
        );
    }
    let properties: Vec<CreateProperty> = bind_create_properties(&query.merge.node, &node)?;
    let writable_properties: NameSet = writable_properties_for_label(
        node.label.as_str(),
        catalog,
        query.merge.node.span,
    )?;
    let on_create: Option<CreateProperty> = bind_merge_branch(
        &query.on_create,
        &node,
        &writable_properties,
        "ON CREATE",
    )?;
    let on_match: Option<CreateProperty> = bind_merge_branch(
        &query.on_match,
        &node,
        &writable_properties,
        "ON MATCH",
    )?;
    match (&query.on_create, &on_create) {
        (Some(set), Some(property)) => {
            if has_written(&properties, property.property.as_str()) {
                return Err(
                    GqlError::bind(
                        set.target.property.span,
                        concat3(
                            "duplicate MERGE property `",
                            property.property.as_str(),
                            "`",
                        ).as_str(),
                    ),
                );
            }
        },
        _ => {},
    }
    let projected: Vec<CreateReturnBinding> = bind_write_returns(
        &query.return_.items,
        &node,
        false,
    )?;
    Ok(LogicalMergeNode { node, properties, on_create, on_match, returns: projected })
}

/// Why the match of a write is refused: it has to be one node and not optional.
pub open spec fn write_match_error(
    match_: MatchClause,
    return_distinct: bool,
    return_span: Span,
    distinct_message: Seq<char>,
    shape_message: Seq<char>,
) -> Option<GqlErrorView> {
    if return_distinct {
        Some(errors::unsupported_error(return_span, distinct_message))
    } else if match_.optional {
        Some(
            errors::unsupported_error(
                match_.span,
                "OPTIONAL MATCH is only supported for read queries"@,
            ),
        )
    } else if match_.pattern.tail@.len() > 0 {
        Some(errors::unsupported_error(match_.pattern.span, shape_message))
    } else {
        None
    }
}

fn check_write_match(
    match_: &MatchClause,
    return_distinct: bool,
    return_span: Span,
    distinct_message: &str,
    shape_message: &str,
) -> (result: GqlResult<()>)
    ensures
        errors::refusal(result) == write_match_error(
            *match_,
            return_distinct,
            return_span,
            distinct_message@,
            shape_message@,
        ),
{
    if return_distinct {
        return Err(GqlError::unsupported(return_span, distinct_message));
    }
    if match_.optional {
        return Err(
            GqlError::unsupported(
                match_.span,
                "OPTIONAL MATCH is only supported for read queries",
            ),
        );
    }
    if match_.pattern.tail.len() > 0 {
        return Err(GqlError::unsupported(match_.pattern.span, shape_message));
    }
    Ok(())
}

/// What a `SET` query binds to.
pub open spec fn bound_set<C: CatalogSnapshot>(query: SetQuery, catalog: C) -> Result<
    LogicalSetPropertyView,
    GqlErrorView,
> {
    let start = query.match_.pattern.start;
    let target = query.set.target;
    match write_match_error(
        query.match_,
        query.return_.distinct,
        query.return_.span,
        "RETURN DISTINCT over SET is implemented in a later phase"@,
        "SET supports a single-node MATCH pattern in this release"@,
    ) {
        Some(error) => Err(error),
        None => match bound_node(start, catalog) {
            Err(error) => Err(error),
            Ok(node) => match writable_of_start(start, catalog) {
                Err(error) => Err(error),
                Ok(writable) => if target.var.text@ != node.var {
                    Err(
                        errors::bind_error(
                            target.var.span,
                            "unknown SET variable `"@ + target.var.text@ + "`"@,
                        ),
                    )
                } else if target.property.text@.contains('.') {
                    Err(
                        errors::unsupported_error(
                            target.property.span,
                            "writes to jsonb property paths require the Phase 4 jsonb write path"@,
                        ),
                    )
                } else {
                    match write_target_error(target.property, writable) {
                        Some(error) => Err(error),
                        None => match written_value(query.set.value) {
                            Err(error) => Err(error),
                            Ok(value) => match predicates::node_predicate(
                                query.where_,
                                start,
                                node,
                            ) {
                                Err(error) => Err(error),
                                Ok(predicate) => match write_returns_from(
                                    query.return_.items@,
                                    0,
                                    node,
                                    false,
                                    Seq::empty(),
                                ) {
                                    Err(error) => Err(error),
                                    Ok(projected) => Ok(
                                        LogicalSetPropertyView {
                                            node,
                                            predicate,
                                            property: target.property.text@,
                                            value,
                                            returns: projected,
                                        },
                                    ),
                                },
                            },
                        },
                    }
                },
            },
        },
    }
}

/// Bind a `SET` query.
pub fn bind_set_property<C: CatalogSnapshot>(query: &SetQuery, catalog: &C) -> (result: GqlResult<
    LogicalSetProperty,
>)
    ensures
        errors::outcome(result) == bound_set(*query, *catalog),
{
    check_write_match(
        &query.match_,
        query.return_.distinct,
        query.return_.span,
        "RETURN DISTINCT over SET is implemented in a later phase",
        "SET supports a single-node MATCH pattern in this release",
    )?;
    let start: &NodePat = &query.match_.pattern.start;
    let node: BoundNode = bind_node(start, catalog)?;
    let writable_properties: NameSet = writable_properties_for_match_start(start, catalog)?;
    if query.set.target.var.text != node.var {
        return Err(
            GqlError::bind(
                query.set.target.var.span,
                concat3(
                    "unknown SET variable `",
                    query.set.target.var.text.as_str(),
                    "`",
                ).as_str(),
            ),
        );
    }
    if has_char(query.set.target.property.text.as_str(), '.') {
        return Err(
            GqlError::unsupported(
                query.set.target.property.span,
                "writes to jsonb property paths require the Phase 4 jsonb write path",
            ),
        );
    }
    check_write_target(&query.set.target.property, &writable_properties)?;
    let value: CreateValue = bind_create_value(&query.set.value)?;
    let predicate: Option<Predicate> = bind_node_predicates(&query.where_, start, &node)?;
    let projected: Vec<CreateReturnBinding> = bind_write_returns(
        &query.return_.items,
        &node,
        false,
    )?;
    Ok(
        LogicalSetProperty {
            node,
            predicate,
            property: query.set.target.property.text.clone(),
            value,
            returns: projected,
        },
    )
}

/// The property that a `REMOVE` clause removes.
pub open spec fn removed_property(
    target: RemoveTarget,
    node: BoundNodeView,
    writable: Seq<Seq<char>>,
) -> Result<Seq<char>, GqlErrorView> {
    match target {
        RemoveTarget::Property(target) => if target.var.text@ != node.var {
            Err(
                errors::bind_error(
                    target.var.span,
                    "unknown REMOVE variable `"@ + target.var.text@ + "`"@,
                ),
            )
        } else {
            match write_target_error(target.property, writable) {
                Some(error) => Err(error),
                None => Ok(target.property.text@),
            }
        },
        RemoveTarget::Label { var, label, .. } => if var.text@ != node.var {
            Err(
                errors::bind_error(
                    var.span,
                    "unknown REMOVE variable `"@ + var.text@ + "`"@,
                ),
            )
        } else {
            Err(
                errors::unsupported_error(
                    label.span,
                    "REMOVE label is not supported because labels map to registered source tables"@,
                ),
            )
        },
    }
}

fn bind_removed_property(target: &RemoveTarget, node: &BoundNode, writable: &NameSet) -> (result:
    GqlResult<String>)
    ensures
        errors::outcome(result) == removed_property(*target, node@, writable@),
{
    match target {
        RemoveTarget::Property(target) => {
            if target.var.text != node.var {
                return Err(
                    GqlError::bind(
                        target.var.span,
                        concat3(
                            "unknown REMOVE variable `",
                            target.var.text.as_str(),
                            "`",
                        ).as_str(),
                    ),
                );
            }
            check_write_target(&target.property, writable)?;
            Ok(target.property.text.clone())
        },
        RemoveTarget::Label { var, label, .. } => {
            if var.text != node.var {
                return Err(
                    GqlError::bind(
                        var.span,
                        concat3("unknown REMOVE variable `", var.text.as_str(), "`").as_str(),
                    ),
                );
            }
            Err(
                GqlError::unsupported(
                    label.span,
                    "REMOVE label is not supported because labels map to registered source tables",
                ),
            )
        },
    }
}

/// What a `REMOVE` query binds to.
pub open spec fn bound_remove<C: CatalogSnapshot>(query: RemoveQuery, catalog: C) -> Result<
    LogicalRemovePropertyView,
    GqlErrorView,
> {
    let start = query.match_.pattern.start;
    match write_match_error(
        query.match_,
        query.return_.distinct,
        query.return_.span,
        "RETURN DISTINCT over REMOVE is implemented in a later phase"@,
        "REMOVE supports a single-node MATCH pattern in this release"@,
    ) {
        Some(error) => Err(error),
        None => match bound_node(start, catalog) {
            Err(error) => Err(error),
            Ok(node) => match writable_of_start(start, catalog) {
                Err(error) => Err(error),
                Ok(writable) => match removed_property(query.remove.target, node, writable) {
                    Err(error) => Err(error),
                    Ok(property) => match predicates::node_predicate(query.where_, start, node) {
                        Err(error) => Err(error),
                        Ok(predicate) => match write_returns_from(
                            query.return_.items@,
                            0,
                            node,
                            true,
                            Seq::empty(),
                        ) {
                            Err(error) => Err(error),
                            Ok(projected) => Ok(
                                LogicalRemovePropertyView {
                                    node,
                                    predicate,
                                    property,
                                    returns: projected,
                                },
                            ),
                        },
                    },
                },
            },
        },
    }
}

/// Bind a `REMOVE` query.
pub fn bind_remove_property<C: CatalogSnapshot>(query: &RemoveQuery, catalog: &C) -> (result:
    GqlResult<LogicalRemoveProperty>)
    ensures
        errors::outcome(result) == bound_remove(*query, *catalog),
{
    check_write_match(
        &query.match_,
        query.return_.distinct,
        query.return_.span,
        "RETURN DISTINCT over REMOVE is implemented in a later phase",
        "REMOVE supports a single-node MATCH pattern in this release",
    )?;
    let start: &NodePat = &query.match_.pattern.start;
    let node: BoundNode = bind_node(start, catalog)?;
    let writable_properties: NameSet = writable_properties_for_match_start(start, catalog)?;
    let property: String = bind_removed_property(
        &query.remove.target,
        &node,
        &writable_properties,
    )?;
    let predicate: Option<Predicate> = bind_node_predicates(&query.where_, start, &node)?;
    let projected: Vec<CreateReturnBinding> = bind_write_returns(
        &query.return_.items,
        &node,
        true,
    )?;
    Ok(LogicalRemoveProperty { node, predicate, property, returns: projected })
}

/// The bound form of an edge mapping.
pub open spec fn bound_mapping(
    edge: crate::query::catalog_snapshot::EdgeMappingInfoView,
) -> BoundMappedEdgeView {
    BoundMappedEdgeView {
        edge_table_oid: edge.edge_table_oid,
        source_table_oid: edge.source_table_oid,
        target_table_oid: edge.target_table_oid,
        source_column: edge.source_column,
        target_column: edge.target_column,
        bidirectional: edge.bidirectional,
    }
}

fn bind_mapping(edge: EdgeMappingInfo) -> (bound: BoundMappedEdge)
    ensures
        bound@ == bound_mapping(edge@),
{
    BoundMappedEdge {
        edge_table_oid: edge.edge_table_oid,
        source_table_oid: edge.source_table_oid,
        target_table_oid: edge.target_table_oid,
        source_column: edge.source_column,
        target_column: edge.target_column,
        bidirectional: edge.bidirectional,
    }
}

/// Why the shape of a `DELETE` query is refused.
pub open spec fn delete_shape_error(query: DeleteQuery) -> Option<GqlErrorView> {
    let rel = query.match_.pattern.tail@[0].0;
    if query.match_.optional {
        Some(
            errors::unsupported_error(
                query.match_.span,
                "OPTIONAL MATCH is only supported for read queries"@,
            ),
        )
    } else if query.return_.distinct {
        Some(
            errors::unsupported_error(
                query.return_.span,
                "RETURN DISTINCT is implemented in a later phase"@,
            ),
        )
    } else if hop_error(query.match_) is Some {
        hop_error(query.match_)
    } else if rel.var_len is Some {
        Some(
            errors::unsupported_error(
                rel.span,
                "DELETE supports only a single matched relationship in this release"@,
            ),
        )
    } else if rel.direction is Undirected {
        Some(
            errors::unsupported_error(
                rel.span,
                "DELETE requires a directed relationship pattern in this release"@,
            ),
        )
    } else {
        match rel.var {
            None => Some(
                errors::bind_error(
                    rel.span,
                    "DELETE requires a named relationship variable"@,
                ),
            ),
            Some(rel_var) => if query.delete.var.text@ != rel_var.text@ {
                Some(
                    errors::bind_error(
                        query.delete.var.span,
                        "unknown DELETE variable `"@ + query.delete.var.text@ + "`"@,
                    ),
                )
            } else {
                None
            },
        }
    }
}

/// What a `DELETE` query binds to once its nodes are bound and its relationship
/// resolved.
pub open spec fn delete_of(
    query: DeleteQuery,
    source: BoundNodeView,
    target: BoundNodeView,
    rel_info: RelTypeInfoView,
) -> Result<LogicalDeleteEdgeView, GqlErrorView> {
    let (rel_pat, target_pat) = query.match_.pattern.tail@[0];
    match rel_info.edge_mapping {
        None => Err(
            errors::unsupported_error(
                rel_pat.span,
                "DELETE requires a relationship backed by a registered edge row table"@,
            ),
        ),
        Some(edge) => match predicates::match_predicate(
            query.where_,
            query.match_.pattern.start,
            rel_pat,
            target_pat,
            source,
            target,
        ) {
            Err(error) => Err(error),
            Ok(predicate) => match scope::relationship_scope(
                rel_pat,
                target_pat,
                source,
                target,
            ) {
                Err(error) => Err(error),
                Ok(names) => match scope::returns_from(
                    query.return_.items@,
                    0,
                    names,
                    source,
                    target,
                    Seq::empty(),
                ) {
                    Err(error) => Err(error),
                    Ok(projected) => if scope::any_aggregate(projected) {
                        Err(
                            errors::unsupported_error(
                                query.return_.span,
                                "RETURN aggregates over DELETE are implemented in a later phase"@,
                            ),
                        )
                    } else {
                        Ok(
                            LogicalDeleteEdgeView {
                                source,
                                relationship: BoundRelView {
                                    var: name_text(rel_pat.var),
                                    rel_type: rel_info.rel_type,
                                    direction: bound_direction(rel_pat.direction),
                                    hops: HopBounds { variable: false, min: 1, max: 1 },
                                },
                                rel_var: query.delete.var.text@,
                                target,
                                edge: bound_mapping(edge),
                                predicate,
                                returns: projected,
                            },
                        )
                    },
                },
            },
        },
    }
}

/// What a `DELETE` query binds to.
pub open spec fn bound_delete<C: CatalogSnapshot>(query: DeleteQuery, catalog: C) -> Result<
    LogicalDeleteEdgeView,
    GqlErrorView,
> {
    let (rel_pat, target_pat) = query.match_.pattern.tail@[0];
    match delete_shape_error(query) {
        Some(error) => Err(error),
        None => match bound_node(query.match_.pattern.start, catalog) {
            Err(error) => Err(error),
            Ok(source) => match bound_node(target_pat, catalog) {
                Err(error) => Err(error),
                Ok(target) => match rel_pat.rel_type {
                    None => Err(untyped_error(rel_pat)),
                    Some(rel_type) => match resolved_rel(
                        catalog,
                        rel_pat.direction,
                        rel_type,
                        source.table_oid,
                        target.table_oid,
                    ) {
                        Err(error) => Err(error),
                        Ok(rel_info) => delete_of(query, source, target, rel_info),
                    },
                },
            },
        },
    }
}

/// Bind a `DELETE` query.
pub fn bind_delete_edge<C: CatalogSnapshot>(query: &DeleteQuery, catalog: &C) -> (result: GqlResult<
    LogicalDeleteEdge,
>)
    ensures
        errors::outcome(result) == bound_delete(*query, *catalog),
{
    if query.match_.optional {
        return Err(
            GqlError::unsupported(
                query.match_.span,
                "OPTIONAL MATCH is only supported for read queries",
            ),
        );
    }
    if query.return_.distinct {
        return Err(
            GqlError::unsupported(
                query.return_.span,
                "RETURN DISTINCT is implemented in a later phase",
            ),
        );
    }
    let (source_pat, rel_pat, target_pat): (&NodePat, &RelPat, &NodePat) = single_outbound_hop(
        &query.match_,
    )?;
    if rel_pat.var_len.is_some() {
        return Err(
            GqlError::unsupported(
                rel_pat.span,
                "DELETE supports only a single matched relationship in this release",
            ),
        );
    }
    if rel_pat.direction == Direction::Undirected {
        return Err(
            GqlError::unsupported(
                rel_pat.span,
                "DELETE requires a directed relationship pattern in this release",
            ),
        );
    }
    let rel_var: &Ident = match &rel_pat.var {
        Some(rel_var) => rel_var,
        None => {
            return Err(
                GqlError::bind(rel_pat.span, "DELETE requires a named relationship variable"),
            );
        },
    };
    if query.delete.var.text != rel_var.text {
        return Err(
            GqlError::bind(
                query.delete.var.span,
                concat3("unknown DELETE variable `", query.delete.var.text.as_str(), "`").as_str(),
            ),
        );
    }
    let source: BoundNode = bind_node(source_pat, catalog)?;
    let target: BoundNode = bind_node(target_pat, catalog)?;
    let rel_type: &Ident = required_type(rel_pat)?;
    let rel_info: RelTypeInfo = resolve_relationship(
        catalog,
        rel_pat,
        rel_type,
        source.table_oid,
        target.table_oid,
    )?;
    let edge: EdgeMappingInfo = match rel_info.edge_mapping {
        Some(edge) => edge,
        None => {
            return Err(
                GqlError::unsupported(
                    rel_pat.span,
                    "DELETE requires a relationship backed by a registered edge row table",
                ),
            );
        },
    };
    let predicate: Option<Predicate> = bind_predicates(
        &query.where_,
        source_pat,
        rel_pat,
        target_pat,
        &source,
        &target,
    )?;
    let names: BindingScope = initial_relationship_scope(rel_pat, target_pat, &source, &target)?;
    let projected: Vec<ReturnBinding> = bind_scoped_returns(
        &query.return_.items,
        &names,
        &source,
        &target,
    )?;
    if has_aggregate(&projected) {
        return Err(
            GqlError::unsupported(
                query.return_.span,
                "RETURN aggregates over DELETE are implemented in a later phase",
            ),
        );
    }
    Ok(
        LogicalDeleteEdge {
            source,
            relationship: BoundRel {
                var: ident_text(&rel_pat.var),
                rel_type: rel_info.rel_type,
                direction: bind_direction(rel_pat.direction),
                hops: HopBounds { variable: false, min: 1, max: 1 },
            },
            rel_var: rel_var.text.clone(),
            target,
            edge: bind_mapping(edge),
            predicate,
            returns: projected,
        },
    )
}

/// Whether two incident edges are rows of the same mapping.
pub open spec fn same_mapping(a: BoundIncidentEdgeView, b: BoundIncidentEdgeView) -> bool {
    a.rel_type == b.rel_type && a.edge.edge_table_oid == b.edge.edge_table_oid
        && a.edge.source_column == b.edge.source_column && a.edge.target_column
        == b.edge.target_column
}

/// Whether incident edges list a mapping.
pub open spec fn lists_mapping(
    edges: Seq<BoundIncidentEdgeView>,
    edge: BoundIncidentEdgeView,
) -> bool {
    exists|i: int| 0 <= i < edges.len() && same_mapping(#[trigger] edges[i], edge)
}

fn has_mapping(edges: &Vec<BoundIncidentEdge>, edge: &BoundIncidentEdge) -> (found: bool)
    ensures
        found == lists_mapping(views::views(edges@), edge@),
{
    let ghost all = views::views(edges@);
    for i in 0..edges.len()
        invariant
            all == views::views(edges@),
            forall|j: int| 0 <= j < i ==> !same_mapping(#[trigger] all[j], edge@),
    {
        let other: &BoundIncidentEdge = &edges[i];
        assert(all[i as int] == other@);
        if other.rel_type == edge.rel_type && other.edge.edge_table_oid
            == edge.edge.edge_table_oid && other.edge.source_column == edge.edge.source_column
            && other.edge.target_column == edge.edge.target_column {
            assert(same_mapping(all[i as int], edge@));
            return true;
        }
    }
    false
}

/// The incident edges of relationships from `from` on, each mapping once.
pub open spec fn incident_from(
    rels: Seq<RelTypeInfoView>,
    from: int,
    span: Span,
    done: Seq<BoundIncidentEdgeView>,
) -> Result<Seq<BoundIncidentEdgeView>, GqlErrorView>
    decreases rels.len() - from,
{
    if from >= rels.len() {
        Ok(done)
    } else {
        match rels[from].edge_mapping {
            None => Err(
                errors::unsupported_error(
                    span,
                    "DETACH DELETE requires incident relationships backed by registered edge row tables"@,
                ),
            ),
            Some(mapping) => {
                let edge = BoundIncidentEdgeView {
                    rel_type: rels[from].rel_type,
                    edge: bound_mapping(mapping),
                };
                incident_from(
                    rels,
                    from + 1,
                    span,
                    if lists_mapping(done, edge) {
                        done
                    } else {
                        done.push(edge)
                    },
                )
            },
        }
    }
}

fn bind_incident_edges(rels: Vec<RelTypeInfo>, span: Span) -> (result: GqlResult<
    Vec<BoundIncidentEdge>,
>)
    ensures
        match incident_from(views::views(rels@), 0, span, Seq::empty()) {
            Ok(edges) => result matches Ok(bound) && views::views(bound@) == edges,
            Err(error) => result matches Err(given) && given@ == error,
        },
{
    let mut edges: Vec<BoundIncidentEdge> = Vec::new();
    let ghost all = views::views(rels@);
    assert(views::views(edges@) =~= Seq::<BoundIncidentEdgeView>::empty());
    for rel in iter: rels
        invariant
            all == views::views(rels@),
            iter.seq() == rels@,
            incident_from(all, iter.index() as int, span, views::views(edges@)) == incident_from(
                all,
                0,
                span,
                Seq::empty(),
            ),
    {
        assert(all[iter.index() as int] == rel@);
        let mapping: EdgeMappingInfo = match rel.edge_mapping {
            Some(mapping) => mapping,
            None => {
                return Err(
                    GqlError::unsupported(
                        span,
                        "DETACH DELETE requires incident relationships backed by registered edge row tables",
                    ),
                );
            },
        };
        let edge: BoundIncidentEdge = BoundIncidentEdge {
            rel_type: rel.rel_type,
            edge: bind_mapping(mapping),
        };
        if !has_mapping(&edges, &edge) {
            let ghost earlier = edges@;
            edges.push(edge);
            proof {
                views::lemma_push(earlier, edge);
            }
        }
    }
    Ok(edges)
}

/// What a `DETACH DELETE` query binds to.
pub open spec fn bound_detach<C: CatalogSnapshot>(query: DetachDeleteQuery, catalog: C) -> Result<
    LogicalDetachDeleteNodeView,
    GqlErrorView,
> {
    let start = query.match_.pattern.start;
    if query.match_.optional {
        Err(
            errors::unsupported_error(
                query.match_.span,
                "OPTIONAL MATCH is only supported for read queries"@,
            ),
        )
    } else if query.return_.distinct {
        Err(
            errors::unsupported_error(
                query.return_.span,
                "RETURN DISTINCT over DETACH DELETE is implemented in a later phase"@,
            ),
        )
    } else if query.match_.pattern.tail@.len() > 0 {
        Err(
            errors::unsupported_error(
                query.match_.pattern.span,
                "DETACH DELETE supports a single-node MATCH pattern in this release"@,
            ),
        )
    } else {
        match bound_node(start, catalog) {
            Err(error) => Err(error),
            Ok(node) => if query.delete.var.text@ != node.var {
                Err(
                    errors::bind_error(
                        query.delete.var.span,
                        "unknown DETACH DELETE variable `"@ + query.delete.var.text@ + "`"@,
                    ),
                )
            } else {
                match incident_from(
                    crate::query::catalog_snapshot::incident_rels(
                        catalog.all_rels(),
                        node.table_oid,
                    ),
                    0,
                    query.delete.span,
                    Seq::empty(),
                ) {
                    Err(error) => Err(error),
                    Ok(incident_edges) => match predicates::node_predicate(
                        query.where_,
                        start,
                        node,
                    ) {
                        Err(error) => Err(error),
                        Ok(predicate) => match write_returns_from(
                            query.return_.items@,
                            0,
                            node,
                            true,
                            Seq::empty(),
                        ) {
                            Err(error) => Err(error),
                            Ok(projected) => Ok(
                                LogicalDetachDeleteNodeView {
                                    node,
                                    predicate,
                                    incident_edges,
                                    returns: projected,
                                },
                            ),
                        },
                    },
                }
            },
        }
    }
}

/// Bind a `DETACH DELETE` query.
pub fn bind_detach_delete_node<C: CatalogSnapshot>(query: &DetachDeleteQuery, catalog: &C) -> (result:
    GqlResult<LogicalDetachDeleteNode>)
    ensures
        errors::outcome(result) == bound_detach(*query, *catalog),
{
    if query.match_.optional {
        return Err(
            GqlError::unsupported(
                query.match_.span,
                "OPTIONAL MATCH is only supported for read queries",
            ),
        );
    }
    if query.return_.distinct {
        return Err(
            GqlError::unsupported(
                query.return_.span,
                "RETURN DISTINCT over DETACH DELETE is implemented in a later phase",
            ),
        );
    }
    if query.match_.pattern.tail.len() > 0 {
        return Err(
            GqlError::unsupported(
                query.match_.pattern.span,
                "DETACH DELETE supports a single-node MATCH pattern in this release",
            ),
        );
    }
    let start: &NodePat = &query.match_.pattern.start;
    let node: BoundNode = bind_node(start, catalog)?;
    if query.delete.var.text != node.var {
        return Err(
            GqlError::bind(
                query.delete.var.span,
                concat3(
                    "unknown DETACH DELETE variable `",
                    query.delete.var.text.as_str(),
                    "`",
                ).as_str(),
            ),
        );
    }
    let incident_edges: Vec<BoundIncidentEdge> = bind_incident_edges(
        catalog.incident_rel_types(node.table_oid),
        query.delete.span,
    )?;
    let predicate: Option<Predicate> = bind_node_predicates(&query.where_, start, &node)?;
    let projected: Vec<CreateReturnBinding> = bind_write_returns(
        &query.return_.items,
        &node,
        true,
    )?;
    Ok(LogicalDetachDeleteNode { node, predicate, incident_edges, returns: projected })
}

// ---------------------------------------------------------------------------
// Statements
// ---------------------------------------------------------------------------

/// What a read query binds to: a join where it lists several patterns, a wildcard
/// path where it names one, a node scan where it matches one node, and else a
/// relationship match.
pub open spec fn bound_read<C: CatalogSnapshot>(query: Query, catalog: C) -> Result<
    LogicalStatementView,
    GqlErrorView,
> {
    if query.match_.patterns@.len() > 1 {
        match joins::bound_join(query, catalog) {
            Ok(plan) => Ok(LogicalStatementView::JoinRead(plan)),
            Err(error) => Err(error),
        }
    } else {
        match query.match_.pattern.path_var {
            Some(path_var) => match wildcard::bound_path(query, path_var.text@, catalog) {
                Ok(plan) => Ok(LogicalStatementView::WildcardPathRead(plan)),
                Err(error) => Err(error),
            },
            None => if query.match_.pattern.tail@.len() == 0 {
                match bound_scan(query, catalog) {
                    Ok(plan) => Ok(LogicalStatementView::NodeScan(plan)),
                    Err(error) => Err(error),
                }
            } else {
                match bound_plan(query, catalog) {
                    Ok(plan) => Ok(LogicalStatementView::Read(plan)),
                    Err(error) => Err(error),
                }
            },
        }
    }
}

fn bind_read<C: CatalogSnapshot>(query: &Query, catalog: &C) -> (result: GqlResult<
    LogicalStatement,
>)
    ensures
        errors::outcome(result) == bound_read(*query, *catalog),
{
    if query.match_.patterns.len() > 1 {
        return Ok(LogicalStatement::JoinRead(bind_join_read(query, catalog)?));
    }
    match &query.match_.pattern.path_var {
        Some(path_var) => {
            return Ok(
                LogicalStatement::WildcardPathRead(
                    bind_wildcard_path_read(query, path_var, catalog)?,
                ),
            );
        },
        None => {},
    }
    if query.match_.pattern.tail.len() == 0 {
        return Ok(LogicalStatement::NodeScan(bind_node_scan(query, catalog)?));
    }
    Ok(LogicalStatement::Read(bind(query, catalog)?))
}

/// What a statement binds to.
pub open spec fn bound_statement<C: CatalogSnapshot>(statement: Statement, catalog: C) -> Result<
    LogicalStatementView,
    GqlErrorView,
> {
    match statement {
        Statement::Read(query) => bound_read(query, catalog),
        Statement::Create(query) => match bound_create(query, catalog) {
            Ok(plan) => Ok(LogicalStatementView::CreateNode(plan)),
            Err(error) => Err(error),
        },
        Statement::SetProperty(query) => match bound_set(query, catalog) {
            Ok(plan) => Ok(LogicalStatementView::SetProperty(plan)),
            Err(error) => Err(error),
        },
        Statement::Remove(query) => match bound_remove(query, catalog) {
            Ok(plan) => Ok(LogicalStatementView::RemoveProperty(plan)),
            Err(error) => Err(error),
        },
        Statement::Delete(query) => match bound_delete(query, catalog) {
            Ok(plan) => Ok(LogicalStatementView::DeleteEdge(plan)),
            Err(error) => Err(error),
        },
        Statement::DetachDelete(query) => match bound_detach(query, catalog) {
            Ok(plan) => Ok(LogicalStatementView::DetachDeleteNode(plan)),
            Err(error) => Err(error),
        },
        Statement::Merge(query) => match bound_merge(query, catalog) {
            Ok(plan) => Ok(LogicalStatementView::MergeNode(plan)),
            Err(error) => Err(error),
        },
    }
}

/// Bind a parsed statement into a logical statement.
///
/// Returns an error when the statement uses valid syntax outside the supported
/// subset or when labels or properties cannot resolve in the catalog.
pub fn bind_statement<C: CatalogSnapshot>(statement: &Statement, catalog: &C) -> (result: GqlResult<
    LogicalStatement,
>)
    ensures
        errors::outcome(result) == bound_statement(*statement, *catalog),
{
    match statement {
        Statement::Read(query) => bind_read(query, catalog),
        Statement::Create(query) => Ok(
            LogicalStatement::CreateNode(bind_create_node(query, catalog)?),
        ),
        Statement::SetProperty(query) => Ok(
            LogicalStatement::SetProperty(bind_set_property(query, catalog)?),
        ),
        Statement::Remove(query) => Ok(
            LogicalStatement::RemoveProperty(bind_remove_property(query, catalog)?),
        ),
        Statement::Delete(query) => Ok(
            LogicalStatement::DeleteEdge(bind_delete_edge(query, catalog)?),
        ),
        Statement::DetachDelete(query) => Ok(
            LogicalStatement::DetachDeleteNode(bind_detach_delete_node(query, catalog)?),
        ),
        Statement::Merge(query) => Ok(
            LogicalStatement::MergeNode(bind_merge_node(query, catalog)?),
        ),
    }
}

} // verus!
