//! What a bound statement has of its text.
use vstd::prelude::*;

use crate::gql::ast::{
    self, CmpOp, CreateQuery, DeleteQuery, DetachDeleteQuery, Direction, Expr, Ident, Literal,
    LiteralValue, MergeQuery, NodePat, Operand, Query, RelPat, RemoveQuery, RemoveTarget,
    ReturnExpr, ReturnItem, SetClause, SetQuery, SortItem, SortKey, Statement,
};
use crate::gql::errors::{GqlErrorView, Span};
use crate::query::catalog_snapshot::{self, CatalogSnapshot, RelTypeInfoView};
use crate::query::evaluate::{self, ValueSources};
use crate::query::hydrate;
use crate::query::json::{self, JsonView, NumberView};
use crate::query::logical_plan::{
    self, AggregateArgView, AggregateFunc, BindingSide, BoundCmpOp, BoundDirection,
    BoundIncidentEdgeView, BoundNodeView, CreatePropertyView, CreateReturnBindingView,
    CreateValueView, LiteralView, LogicalStatementView, PathFunc, PredicateView, ReturnBindingView,
    SortBindingKeyView, SortBindingView, ValueExprView,
};
use crate::query::predicates;
use crate::query::rows::RowView;
use crate::query::scope::{self, ScopeView, ScopedBindingView};
use crate::query::semantics;
use crate::safety::GraphErrorView;
use crate::types::Binary64View;

verus! {

// ---------------------------------------------------------------------------
// Hops
// ---------------------------------------------------------------------------

/// A relationship pattern without a length is one hop long; one of the length `m..n`
/// is from `m` to `n` hops long, and binds exactly where `m` is not zero and `n` is not
/// above 64.
pub proof fn lemma_hops_are_those_written(rel: RelPat)
    ensures
        rel.var_len is None ==> (semantics::hop_bounds(rel) matches Ok(hops) && !hops.variable
            && hops.min == 1 && hops.max == 1),
        rel.var_len matches Some(written) ==> {
            &&& semantics::hop_bounds(rel) is Ok <==> 1 <= written.min && written.max <= 64
            &&& semantics::hop_bounds(rel) matches Ok(hops) ==> hops.variable && hops.min
                == written.min && hops.max == written.max
        },
{
}

/// A walk of `k` relationships has a length that a bound query of the length `m..n`
/// takes exactly where `m <= k <= n`.
pub proof fn lemma_bound_query_takes_written_lengths<C: CatalogSnapshot>(
    query: Query,
    catalog: C,
    k: u32,
)
    requires
        semantics::bound_plan(query, catalog) is Ok,
    ensures
        ({
            let hops = semantics::bound_plan(query, catalog)->Ok_0.relationship.hops;
            match query.match_.pattern.tail@[0].0.var_len {
                Some(written) => (hops.min <= k <= hops.max <==> written.min <= k <= written.max)
                    && hops.variable,
                None => (hops.min <= k <= hops.max <==> k == 1) && !hops.variable,
            }
        }),
{
}

// ---------------------------------------------------------------------------
// Conditions
// ---------------------------------------------------------------------------

/// The value of a literal in a query.
pub open spec fn literal_value(value: LiteralValue) -> JsonView {
    match value {
        LiteralValue::Str(text) => JsonView::Text(text@),
        LiteralValue::Int(n) => JsonView::Number(NumberView::Int(n as int)),
        LiteralValue::Bool(held) => JsonView::Bool(held),
        LiteralValue::Null => JsonView::Null,
        LiteralValue::Float(x) => if x.bits % 0x8000_0000_0000_0000 < 0x7ff0_0000_0000_0000 {
            JsonView::Number(
                NumberView::Float(Binary64View { bits: x.bits, text: x.text@ }),
            )
        } else {
            JsonView::Null
        },
    }
}

/// What an operand of a condition is for a row: a property of the node that its
/// variable names, a literal, a parameter or a list of literals.
pub open spec fn operand_value(
    operand: Operand,
    source_var: Seq<char>,
    sources: ValueSources,
    row: RowView,
) -> Result<Option<JsonView>, GraphErrorView> {
    match operand {
        Operand::Property { var, property, .. } => {
            let node = if var.text@ == source_var {
                Some(row.source)
            } else {
                row.target
            };
            match node {
                None => Ok(Some(JsonView::Null)),
                Some(node) => if sources.hydrated.contains_key((node.table_oid, node.node_id)) {
                    Ok(
                        hydrate::property_of(
                            sources.hydrated[(node.table_oid, node.node_id)],
                            property.text@,
                        ),
                    )
                } else {
                    Err(evaluate::not_hydrated(node))
                },
            }
        },
        Operand::Literal(Literal::Value { value, .. }) => Ok(Some(literal_value(value))),
        Operand::Param { name, .. } => if sources.params.contains_key(name.text@) {
            Ok(Some(sources.params[name.text@]))
        } else {
            Err(
                GraphErrorView::GqlParameter {
                    reason: "missing GQL parameter `"@ + name.text@ + "`"@,
                },
            )
        },
        Operand::List { values, .. } => Ok(
            Some(
                JsonView::Array(
                    Seq::new(
                        values@.len(),
                        |i: int|
                            match values@[i] {
                                Literal::Value { value, .. } => literal_value(value),
                            },
                    ),
                ),
            ),
        ),
    }
}

/// Whether two values stand to each other as an operator says.
pub open spec fn compares(
    l: Option<JsonView>,
    op: CmpOp,
    r: Option<Option<JsonView>>,
) -> Result<bool, GraphErrorView> {
    match op {
        CmpOp::Eq => evaluate::compared(l, BoundCmpOp::Eq, r),
        CmpOp::Neq => evaluate::compared(l, BoundCmpOp::Neq, r),
        CmpOp::Lt => evaluate::compared(l, BoundCmpOp::Lt, r),
        CmpOp::Lte => evaluate::compared(l, BoundCmpOp::Lte, r),
        CmpOp::Gt => evaluate::compared(l, BoundCmpOp::Gt, r),
        CmpOp::Gte => evaluate::compared(l, BoundCmpOp::Gte, r),
        CmpOp::In => evaluate::compared(l, BoundCmpOp::In, r),
        CmpOp::IsNull => evaluate::compared(l, BoundCmpOp::IsNull, r),
        CmpOp::IsNotNull => evaluate::compared(l, BoundCmpOp::IsNotNull, r),
    }
}

/// Whether a condition of a query holds of a row.
pub open spec fn condition_holds(
    expr: Expr,
    source_var: Seq<char>,
    sources: ValueSources,
    row: RowView,
) -> Result<bool, GraphErrorView>
    decreases expr,
{
    match expr {
        Expr::And { lhs, rhs, .. } => match condition_holds(*lhs, source_var, sources, row) {
            Err(error) => Err(error),
            Ok(held) => if held {
                condition_holds(*rhs, source_var, sources, row)
            } else {
                Ok(false)
            },
        },
        Expr::Or { lhs, rhs, .. } => match condition_holds(*lhs, source_var, sources, row) {
            Err(error) => Err(error),
            Ok(held) => if held {
                Ok(true)
            } else {
                condition_holds(*rhs, source_var, sources, row)
            },
        },
        Expr::Not { expr: inner, .. } => match condition_holds(*inner, source_var, sources, row) {
            Err(error) => Err(error),
            Ok(held) => Ok(!held),
        },
        Expr::Compare { lhs, op, rhs, .. } => match operand_value(lhs, source_var, sources, row) {
            Err(error) => Err(error),
            Ok(l) => match rhs {
                None => compares(l, op, None),
                Some(rhs) => match operand_value(rhs, source_var, sources, row) {
                    Err(error) => Err(error),
                    Ok(r) => compares(l, op, Some(r)),
                },
            },
        },
    }
}

proof fn lemma_finite(bits: u64)
    ensures
        logical_plan::is_finite(bits) <==> bits % 0x8000_0000_0000_0000 < 0x7ff0_0000_0000_0000,
{
    assert(((bits / 0x10_0000_0000_0000) % 0x800 != 0x7ff) == (bits % 0x8000_0000_0000_0000
        < 0x7ff0_0000_0000_0000)) by (bit_vector);
}

/// A literal binds to the scalar of its value.
pub proof fn lemma_scalar(literal: Literal)
    ensures
        match literal {
            Literal::Value { value, .. } => json::scalar_json(predicates::scalar_of(literal))
                == literal_value(value),
        },
{
    match literal {
        Literal::Value { value, .. } => {
            if let LiteralValue::Float(x) = value {
                lemma_finite(x.bits);
            }
        },
    }
}

proof fn lemma_operand(
    operand: Operand,
    source: BoundNodeView,
    target: BoundNodeView,
    sources: ValueSources,
    row: RowView,
)
    requires
        predicates::match_operand(operand, source, target) is Ok,
        operand matches Operand::Property { var, .. } ==> source.var != target.var || var.text@
            == source.var,
    ensures
        evaluate::value_of(
            sources,
            row,
            predicates::match_operand(operand, source, target)->Ok_0,
        ) == operand_value(operand, source.var, sources, row),
{
    match operand {
        Operand::Literal(literal) => {
            lemma_scalar(literal);
        },
        Operand::List { values, .. } => {
            let scalars = predicates::scalars_of(values@);
            let items = json::scalars_json(scalars)->Array_0;
            let written = Seq::new(
                values@.len(),
                |i: int|
                    match values@[i] {
                        Literal::Value { value, .. } => literal_value(value),
                    },
            );
            assert forall|i: int| 0 <= i < items.len() implies items[i] == written[i] by {
                lemma_scalar(values@[i]);
                assert(scalars[i] == predicates::scalar_of(values@[i]));
            }
            assert(items =~= written);
        },
        _ => {},
    }
}

proof fn lemma_condition(
    expr: Expr,
    source: BoundNodeView,
    target: BoundNodeView,
    depth: nat,
    sources: ValueSources,
    row: RowView,
)
    requires
        predicates::bound_expr(expr, predicates::match_operands(source, target), depth) is Ok,
    ensures
        evaluate::predicate_holds(
            sources,
            row,
            predicates::bound_expr(expr, predicates::match_operands(source, target), depth)->Ok_0,
        ) == condition_holds(expr, source.var, sources, row),
    decreases expr,
{
    let operands = predicates::match_operands(source, target);
    match expr {
        Expr::And { lhs, rhs, .. } => {
            lemma_condition(*lhs, source, target, depth + 1, sources, row);
            lemma_condition(*rhs, source, target, depth + 1, sources, row);
        },
        Expr::Or { lhs, rhs, .. } => {
            lemma_condition(*lhs, source, target, depth + 1, sources, row);
            lemma_condition(*rhs, source, target, depth + 1, sources, row);
        },
        Expr::Not { expr: inner, .. } => {
            lemma_condition(*inner, source, target, depth + 1, sources, row);
        },
        Expr::Compare { lhs, op, rhs, .. } => {
            assert(operands(lhs) == predicates::match_operand(lhs, source, target));
            lemma_operand(lhs, source, target, sources, row);
            if let Some(operand) = rhs {
                assert(operands(operand) == predicates::match_operand(operand, source, target));
                lemma_operand(operand, source, target, sources, row);
            }
        },
    }
}

/// A bound condition holds of exactly the rows that the written one holds of.
pub proof fn lemma_bound_condition_means_what_is_written(
    expr: Expr,
    source: BoundNodeView,
    target: BoundNodeView,
    depth: nat,
    sources: ValueSources,
    row: RowView,
)
    requires
        predicates::bound_expr(expr, predicates::match_operands(source, target), depth) is Ok,
    ensures
        evaluate::predicate_holds(
            sources,
            row,
            predicates::bound_expr(expr, predicates::match_operands(source, target), depth)->Ok_0,
        ) == condition_holds(expr, source.var, sources, row),
{
    lemma_condition(expr, source, target, depth, sources, row);
}

/// Whether the properties of a pattern from `from` up to `to` have the values that it
/// writes, for the node on its side of the match.
pub open spec fn properties_hold(
    props: Seq<(Ident, Operand)>,
    to: int,
    at_source: bool,
    source_var: Seq<char>,
    sources: ValueSources,
    row: RowView,
) -> bool {
    forall|i: int|
        0 <= i < to ==> #[trigger] property_holds(props[i], at_source, source_var, sources, row)
}

/// Whether the node on a side of the match has a property of a written value.
pub open spec fn property_holds(
    prop: (Ident, Operand),
    at_source: bool,
    source_var: Seq<char>,
    sources: ValueSources,
    row: RowView,
) -> bool {
    let node = if at_source {
        Some(row.source)
    } else {
        row.target
    };
    let found = match node {
        None => Ok(Some(JsonView::Null)),
        Some(node) => if sources.hydrated.contains_key((node.table_oid, node.node_id)) {
            Ok(
                hydrate::property_of(
                    sources.hydrated[(node.table_oid, node.node_id)],
                    prop.0.text@,
                ),
            )
        } else {
            Err(evaluate::not_hydrated(node))
        },
    };
    match (found, operand_value(prop.1, source_var, sources, row)) {
        (Ok(l), Ok(r)) => compares(l, CmpOp::Eq, Some(r)) == Ok::<_, GraphErrorView>(true),
        _ => false,
    }
}

spec fn all_hold(list: Seq<PredicateView>, sources: ValueSources, row: RowView) -> bool {
    forall|i: int|
        0 <= i < list.len() ==> evaluate::predicate_holds(sources, row, #[trigger] list[i])
            == Ok::<_, GraphErrorView>(true)
}

/// Whether an optional predicate lets a row through.
pub open spec fn lets_through(
    predicate: Option<PredicateView>,
    sources: ValueSources,
    row: RowView,
) -> bool {
    predicate matches Some(inner) ==> evaluate::predicate_holds(sources, row, inner) == Ok::<
        _,
        GraphErrorView,
    >(true)
}

proof fn lemma_conjunction(list: Seq<PredicateView>, sources: ValueSources, row: RowView)
    ensures
        lets_through(predicates::conjunction(list), sources, row) <==> all_hold(list, sources, row),
        predicates::conjunction(list) is None <==> list.len() == 0,
    decreases list.len(),
{
    if list.len() > 0 {
        let init = list.drop_last();
        lemma_conjunction(init, sources, row);
        assert(all_hold(list, sources, row) <==> all_hold(init, sources, row)
            && evaluate::predicate_holds(sources, row, list.last()) == Ok::<_, GraphErrorView>(
            true,
        )) by {
            if all_hold(list, sources, row) {
                assert forall|i: int| 0 <= i < init.len() implies evaluate::predicate_holds(
                    sources,
                    row,
                    #[trigger] init[i],
                ) == Ok::<_, GraphErrorView>(true) by {
                    assert(init[i] == list[i]);
                }
                assert(list[list.len() - 1] == list.last());
            }
            if all_hold(init, sources, row) && evaluate::predicate_holds(sources, row, list.last())
                == Ok::<_, GraphErrorView>(true) {
                assert forall|i: int| 0 <= i < list.len() implies evaluate::predicate_holds(
                    sources,
                    row,
                    #[trigger] list[i],
                ) == Ok::<_, GraphErrorView>(true) by {
                    if i < init.len() {
                        assert(init[i] == list[i]);
                    }
                }
            }
        }
        reveal_with_fuel(evaluate::predicate_holds, 2);
    }
}

proof fn lemma_with_properties(
    props: Seq<(Ident, Operand)>,
    from: int,
    at_source: bool,
    source: BoundNodeView,
    target: BoundNodeView,
    done: Seq<PredicateView>,
    first: bool,
    sources: ValueSources,
    row: RowView,
)
    requires
        0 <= from <= props.len(),
        predicates::with_properties(
            props,
            from,
            if at_source {
                BindingSide::Source
            } else {
                BindingSide::Target
            },
            source,
            target,
            done,
        ) is Ok,
        all_hold(done, sources, row) <==> first && properties_hold(
            props,
            from,
            at_source,
            source.var,
            sources,
            row,
        ),
    ensures
        ({
            let all = predicates::with_properties(
                props,
                from,
                if at_source {
                    BindingSide::Source
                } else {
                    BindingSide::Target
                },
                source,
                target,
                done,
            )->Ok_0;
            &&& all_hold(all, sources, row) <==> first && properties_hold(
                props,
                props.len() as int,
                at_source,
                source.var,
                sources,
                row,
            )
            &&& all.len() == done.len() + (props.len() - from)
        }),
    decreases props.len() - from,
{
    let side = if at_source {
        BindingSide::Source
    } else {
        BindingSide::Target
    };
    if from < props.len() {
        let (property, value) = props[from];
        let right = predicates::match_operand(value, source, target)->Ok_0;
        let made = PredicateView::Compare {
            lhs: ValueExprView::Property { side, property: property.text@ },
            op: BoundCmpOp::Eq,
            rhs: Some(right),
        };
        lemma_operand(value, source, target, sources, row);
        assert(property_holds(props[from], at_source, source.var, sources, row) <==> (
        evaluate::predicate_holds(sources, row, made) == Ok::<_, GraphErrorView>(true)));
        let more = done.push(made);
        assert(all_hold(more, sources, row) <==> all_hold(done, sources, row)
            && evaluate::predicate_holds(sources, row, made) == Ok::<_, GraphErrorView>(true)) by {
            if all_hold(more, sources, row) {
                assert forall|i: int| 0 <= i < done.len() implies evaluate::predicate_holds(
                    sources,
                    row,
                    #[trigger] done[i],
                ) == Ok::<_, GraphErrorView>(true) by {
                    assert(more[i] == done[i]);
                }
                assert(more[done.len() as int] == made);
            }
        }
        lemma_with_properties(
            props,
            from + 1,
            at_source,
            source,
            target,
            more,
            first,
            sources,
            row,
        );
    }
}

proof fn lemma_where(
    where_: Option<Expr>,
    source: BoundNodeView,
    target: BoundNodeView,
    sources: ValueSources,
    row: RowView,
)
    requires
        predicates::where_predicates(where_, source, target) is Ok,
    ensures
        ({
            let list = predicates::where_predicates(where_, source, target)->Ok_0;
            &&& all_hold(list, sources, row) <==> (where_ matches Some(expr) ==> condition_holds(
                expr,
                source.var,
                sources,
                row,
            ) == Ok::<_, GraphErrorView>(true))
            &&& list.len() == (if where_ is Some {
                1int
            } else {
                0int
            })
        }),
{
    let list = predicates::where_predicates(where_, source, target)->Ok_0;
    if let Some(expr) = where_ {
        lemma_condition(expr, source, target, 0, sources, row);
        assert(list[0] == predicates::bound_expr(
            expr,
            predicates::match_operands(source, target),
            0,
        )->Ok_0);
        if all_hold(list, sources, row) {
            assert(evaluate::predicate_holds(sources, row, list[0]) == Ok::<_, GraphErrorView>(
                true,
            ));
        }
    }
}

/// Whether a row fits a match: the condition holds of it, and its nodes have the
/// properties that the patterns write.
pub open spec fn fits(
    where_: Option<Expr>,
    source_pat: NodePat,
    target_pat: Option<NodePat>,
    source_var: Seq<char>,
    sources: ValueSources,
    row: RowView,
) -> bool {
    &&& where_ matches Some(expr) ==> condition_holds(expr, source_var, sources, row) == Ok::<
        _,
        GraphErrorView,
    >(true)
    &&& properties_hold(
        source_pat.props@,
        source_pat.props@.len() as int,
        true,
        source_var,
        sources,
        row,
    )
    &&& target_pat matches Some(pat) ==> properties_hold(
        pat.props@,
        pat.props@.len() as int,
        false,
        source_var,
        sources,
        row,
    )
}

/// The predicate of a relationship match lets through exactly the rows of which its
/// condition holds and whose nodes have the properties that their patterns write. Only
/// where nothing is written there is none.
pub proof fn lemma_match_predicate_means_what_is_written(
    where_: Option<Expr>,
    source_pat: NodePat,
    rel_pat: RelPat,
    target_pat: NodePat,
    source: BoundNodeView,
    target: BoundNodeView,
    sources: ValueSources,
    row: RowView,
)
    requires
        predicates::match_predicate(where_, source_pat, rel_pat, target_pat, source, target) is Ok,
    ensures
        ({
            let made = predicates::match_predicate(
                where_,
                source_pat,
                rel_pat,
                target_pat,
                source,
                target,
            )->Ok_0;
            &&& lets_through(made, sources, row) <==> fits(
                where_,
                source_pat,
                Some(target_pat),
                source.var,
                sources,
                row,
            )
            &&& made is None <==> where_ is None && source_pat.props@.len() == 0
                && target_pat.props@.len() == 0
        }),
{
    lemma_where(where_, source, target, sources, row);
    let first = predicates::where_predicates(where_, source, target)->Ok_0;
    let met = all_hold(first, sources, row);
    lemma_with_properties(
        source_pat.props@,
        0,
        true,
        source,
        target,
        first,
        met,
        sources,
        row,
    );
    let second = predicates::with_properties(
        source_pat.props@,
        0,
        BindingSide::Source,
        source,
        target,
        first,
    )->Ok_0;
    let both = all_hold(second, sources, row);
    lemma_with_properties(
        target_pat.props@,
        0,
        false,
        source,
        target,
        second,
        both,
        sources,
        row,
    );
    let all = predicates::with_properties(
        target_pat.props@,
        0,
        BindingSide::Target,
        source,
        target,
        second,
    )->Ok_0;
    lemma_conjunction(all, sources, row);
}

/// The predicate of a node match lets through exactly the nodes of which its condition
/// holds and that have the properties that their pattern writes. Only where nothing is
/// written there is none.
pub proof fn lemma_node_predicate_means_what_is_written(
    where_: Option<Expr>,
    node_pat: NodePat,
    node: BoundNodeView,
    sources: ValueSources,
    row: RowView,
)
    requires
        predicates::node_predicate(where_, node_pat, node) is Ok,
    ensures
        ({
            let made = predicates::node_predicate(where_, node_pat, node)->Ok_0;
            &&& lets_through(made, sources, row) <==> fits(
                where_,
                node_pat,
                None,
                node.var,
                sources,
                row,
            )
            &&& made is None <==> where_ is None && node_pat.props@.len() == 0
        }),
{
    lemma_where(where_, node, node, sources, row);
    let first = predicates::where_predicates(where_, node, node)->Ok_0;
    let met = all_hold(first, sources, row);
    lemma_with_properties(node_pat.props@, 0, true, node, node, first, met, sources, row);
    let all = predicates::with_properties(
        node_pat.props@,
        0,
        BindingSide::Source,
        node,
        node,
        first,
    )->Ok_0;
    lemma_conjunction(all, sources, row);
}

// ---------------------------------------------------------------------------
// Nodes and relationships
// ---------------------------------------------------------------------------

/// Whether a node is that of a pattern: its variable is the written one, and all else
/// what the catalog has under the written label.
pub open spec fn is_node_of<C: CatalogSnapshot>(
    pat: NodePat,
    catalog: C,
    node: BoundNodeView,
) -> bool {
    match (pat.var, pat.label) {
        (Some(var), Some(label)) => {
            &&& node.var == var.text@
            &&& catalog.label_info(label.text@, label.span) matches Ok(info)
            &&& node.label == info.label
            &&& node.table_oid == info.table_oid
            &&& node.properties == info.properties
        },
        _ => false,
    }
}

/// Whether a relationship is that of a pattern: what the catalog has under the written
/// type from the first table to the second, or the other way where the arrow points
/// back; without an arrow, one of the two, and the first where there is one.
pub open spec fn is_relationship_of<C: CatalogSnapshot>(
    pat: RelPat,
    catalog: C,
    first: u32,
    second: u32,
    found: RelTypeInfoView,
) -> bool {
    pat.rel_type matches Some(name) && {
        let forth = catalog.rel_info(name.text@, first, second, name.span);
        let back = catalog.rel_info(name.text@, second, first, name.span);
        match pat.direction {
            Direction::Out => forth == Ok::<_, GqlErrorView>(found),
            Direction::In => back == Ok::<_, GqlErrorView>(found),
            Direction::Undirected => forth == Ok::<_, GqlErrorView>(found) || (forth is Err && back
                == Ok::<_, GqlErrorView>(found)),
        }
    }
}

/// Whether a bound direction is the written one.
pub open spec fn is_direction_of(written: Direction, bound: BoundDirection) -> bool {
    &&& written is Out <==> bound is Out
    &&& written is In <==> bound is In
    &&& written is Undirected <==> bound is Undirected
}

/// Whether a bound name is the written one.
pub open spec fn is_name_of(written: Option<Ident>, bound: Option<Seq<char>>) -> bool {
    match (written, bound) {
        (Some(written), Some(bound)) => written.text@ == bound,
        (None, None) => true,
        _ => false,
    }
}

// ---------------------------------------------------------------------------
// Returned items
// ---------------------------------------------------------------------------

/// The name of a projected item: its alias, or the text that it projects.
pub open spec fn projected_name(item: ReturnItem) -> Seq<char> {
    match (item.alias, item.expr) {
        (Some(alias), _) => alias.text@,
        (None, ReturnExpr::Var { var, .. }) => var.text@,
        (None, ReturnExpr::Property { var, property, .. }) => var.text@ + seq!['.'] + property.text@,
        (None, ReturnExpr::Func { name, .. }) => name.text@,
        (None, ReturnExpr::Aggregate { name, .. }) => name.text@,
    }
}

/// Whether a bound aggregate is over the values that the written one is over.
pub open spec fn is_argument_of(
    written: ast::AggregateArg,
    names: ScopeView,
    bound: AggregateArgView,
) -> bool {
    match written {
        ast::AggregateArg::All { .. } => bound is All,
        ast::AggregateArg::Var { var, .. } => names.contains_key(var.text@) && match names[var.text@] {
            ScopedBindingView::Node(side) => bound == AggregateArgView::Node(side),
            ScopedBindingView::Relationship { var_len } => !var_len && bound is Relationship,
            _ => false,
        },
        ast::AggregateArg::Property { var, property, .. } => names.contains_key(var.text@) && (
        names[var.text@] matches ScopedBindingView::Node(side) && bound
            == AggregateArgView::Property { side, property: property.text@ }),
    }
}

/// Whether a bound aggregate is the written one.
pub open spec fn is_aggregate_of(written: ast::AggregateFunc, bound: AggregateFunc) -> bool {
    &&& written is Count <==> bound is Count
    &&& written is Sum <==> bound is Sum
    &&& written is Avg <==> bound is Avg
    &&& written is Min <==> bound is Min
    &&& written is Max <==> bound is Max
    &&& written is Collect <==> bound is Collect
}

/// Whether a value in scope is returned by a binding.
pub open spec fn is_returned(value: ScopedBindingView, bound: ReturnBindingView) -> bool {
    match value {
        ScopedBindingView::Node(x) => bound matches ReturnBindingView::Node { side, .. } && side
            == x,
        ScopedBindingView::Relationship { var_len } => if var_len {
            bound is Path
        } else {
            bound is Relationship
        },
        ScopedBindingView::Path => bound is Path,
        ScopedBindingView::PathFunction(f) => bound matches ReturnBindingView::PathFunction {
            func,
            ..
        } && func == f,
        ScopedBindingView::Property { side: x, property: p } => bound matches ReturnBindingView::Property {
            side,
            property,
            ..
        } && side == x && property == p,
    }
}

/// Whether a projected item stands for a value: what its variable names, a property of
/// the node that it names, or a function of the path that it names.
pub open spec fn stands_for(item: ReturnItem, names: ScopeView, value: ScopedBindingView) -> bool {
    match item.expr {
        ReturnExpr::Var { var, .. } => names.contains_key(var.text@) && names[var.text@] == value,
        ReturnExpr::Property { var, property, .. } => names.contains_key(var.text@) && (
        names[var.text@] matches ScopedBindingView::Node(side) && value
            == ScopedBindingView::Property { side, property: property.text@ }),
        ReturnExpr::Func { name, args, .. } => {
            &&& args@.len() == 1
            &&& names.contains_key(args@[0].text@)
            &&& names[args@[0].text@] is Relationship || names[args@[0].text@] is Path
            &&& value matches ScopedBindingView::PathFunction(func) && match func {
                PathFunc::Nodes => crate::query::names::same_ignoring_case(name.text@, "nodes"@),
                PathFunc::Relationships => crate::query::names::same_ignoring_case(
                    name.text@,
                    "relationships"@,
                ),
                PathFunc::Length => crate::query::names::same_ignoring_case(
                    name.text@,
                    "length"@,
                ),
            }
        },
        ReturnExpr::Aggregate { .. } => false,
    }
}

/// Whether a binding returns what an item says, under its name.
pub open spec fn is_binding_of(item: ReturnItem, names: ScopeView, bound: ReturnBindingView) -> bool {
    &&& bound_name(bound) == projected_name(item)
    &&& match item.expr {
        ReturnExpr::Aggregate { func: f, distinct: d, arg: a, .. } => bound matches ReturnBindingView::Aggregate {
            func,
            arg,
            distinct,
            ..
        } && is_aggregate_of(f, func) && is_argument_of(a, names, arg) && distinct == d,
        _ => exists|value: ScopedBindingView| #[trigger]
            stands_for(item, names, value) && is_returned(value, bound),
    }
}

/// The name under which a binding returns its value.
pub open spec fn bound_name(bound: ReturnBindingView) -> Seq<char> {
    match bound {
        ReturnBindingView::Node { name, .. } => name,
        ReturnBindingView::Relationship { name } => name,
        ReturnBindingView::Path { name } => name,
        ReturnBindingView::PathFunction { name, .. } => name,
        ReturnBindingView::Property { name, .. } => name,
        ReturnBindingView::Aggregate { name, .. } => name,
    }
}

proof fn lemma_projected_name(item: ReturnItem)
    ensures
        scope::item_name(item) == projected_name(item),
{
    reveal_strlit(".");
    if let ReturnExpr::Property { var, property, .. } = item.expr {
        assert(var.text@ + "."@ + property.text@ =~= var.text@ + seq!['.'] + property.text@);
    }
}

proof fn lemma_item_value(
    item: ReturnItem,
    names: ScopeView,
    source: BoundNodeView,
    target: BoundNodeView,
)
    requires
        scope::item_value(item, names, source, target) is Ok,
    ensures
        stands_for(item, names, scope::item_value(item, names, source, target)->Ok_0),
{
}

proof fn lemma_item_binding(
    item: ReturnItem,
    names: ScopeView,
    source: BoundNodeView,
    target: BoundNodeView,
)
    requires
        scope::item_binding(item, names, source, target) is Ok,
    ensures
        is_binding_of(item, names, scope::item_binding(item, names, source, target)->Ok_0),
{
    lemma_projected_name(item);
    match item.expr {
        ReturnExpr::Aggregate { .. } => {},
        _ => {
            lemma_item_value(item, names, source, target);
            let value = scope::item_value(item, names, source, target)->Ok_0;
            assert(stands_for(item, names, value));
        },
    }
}

proof fn lemma_returns(
    items: Seq<ReturnItem>,
    from: int,
    names: ScopeView,
    source: BoundNodeView,
    target: BoundNodeView,
    done: Seq<ReturnBindingView>,
)
    requires
        0 <= from <= items.len(),
        done.len() == from,
        scope::returns_from(items, from, names, source, target, done) is Ok,
        forall|i: int| 0 <= i < from ==> is_binding_of(items[i], names, #[trigger] done[i]),
    ensures
        ({
            let found = scope::returns_from(items, from, names, source, target, done)->Ok_0;
            &&& found.len() == items.len()
            &&& forall|i: int|
                0 <= i < items.len() ==> is_binding_of(items[i], names, #[trigger] found[i])
        }),
    decreases items.len() - from,
{
    if from < items.len() {
        lemma_item_binding(items[from], names, source, target);
        let bound = scope::item_binding(items[from], names, source, target)->Ok_0;
        lemma_returns(items, from + 1, names, source, target, done.push(bound));
    }
}

/// Whether bindings are those of items, place by place.
pub open spec fn are_bindings_of(
    items: Seq<ReturnItem>,
    names: ScopeView,
    bound: Seq<ReturnBindingView>,
) -> bool {
    &&& bound.len() == items.len()
    &&& forall|i: int| 0 <= i < items.len() ==> is_binding_of(items[i], names, #[trigger] bound[i])
}

/// A `RETURN` clause that binds returns what each of its items says, in their order.
pub proof fn lemma_returns_are_those_written(
    items: Seq<ReturnItem>,
    names: ScopeView,
    source: BoundNodeView,
    target: BoundNodeView,
)
    requires
        scope::returns_from(items, 0, names, source, target, Seq::empty()) is Ok,
    ensures
        are_bindings_of(
            items,
            names,
            scope::returns_from(items, 0, names, source, target, Seq::empty())->Ok_0,
        ),
{
    lemma_returns(items, 0, names, source, target, Seq::empty());
}

/// Before any `WITH`, the names of a relationship match are its two nodes and its
/// relationship, each under its own variable.
pub proof fn lemma_names_of_match(
    rel_pat: RelPat,
    target_pat: NodePat,
    source: BoundNodeView,
    target: BoundNodeView,
)
    requires
        scope::relationship_scope(rel_pat, target_pat, source, target) is Ok,
    ensures
        ({
            let names = scope::relationship_scope(rel_pat, target_pat, source, target)->Ok_0;
            &&& names.contains_key(source.var) && names[source.var] == ScopedBindingView::Node(
                BindingSide::Source,
            )
            &&& names.contains_key(target.var) && names[target.var] == ScopedBindingView::Node(
                BindingSide::Target,
            )
            &&& rel_pat.var matches Some(var) ==> names.contains_key(var.text@)
                && names[var.text@] == (ScopedBindingView::Relationship {
                var_len: rel_pat.var_len is Some,
            })
            &&& forall|name: Seq<char>| #[trigger]
                names.contains_key(name) ==> name == source.var || name == target.var || (
                rel_pat.var matches Some(var) && name == var.text@)
            &&& source.var != target.var
        }),
{
}

/// Whether names are those that a `WITH` clause projects, each for what its item says.
pub open spec fn are_names_of(items: Seq<ReturnItem>, before: ScopeView, after: ScopeView) -> bool {
    &&& forall|i: int|
        0 <= i < items.len() ==> after.contains_key(projected_name(#[trigger] items[i]))
            && stands_for(items[i], before, after[projected_name(items[i])])
    &&& forall|name: Seq<char>| #[trigger]
        after.contains_key(name) ==> exists|i: int|
            0 <= i < items.len() && projected_name(#[trigger] items[i]) == name
}

spec fn names_so_far(
    items: Seq<ReturnItem>,
    from: int,
    before: ScopeView,
    after: ScopeView,
) -> bool {
    are_names_of(items.take(from), before, after)
}

proof fn lemma_projected(
    items: Seq<ReturnItem>,
    from: int,
    names: ScopeView,
    source: BoundNodeView,
    target: BoundNodeView,
    done: ScopeView,
)
    requires
        0 <= from <= items.len(),
        names_so_far(items, from, names, done),
        scope::projected_from(items, from, names, source, target, done) is Ok,
    ensures
        are_names_of(
            items,
            names,
            scope::projected_from(items, from, names, source, target, done)->Ok_0,
        ),
    decreases items.len() - from,
{
    if from < items.len() {
        let item = items[from];
        let name = scope::item_name(item);
        lemma_projected_name(item);
        lemma_item_value(item, names, source, target);
        let value = scope::item_value(item, names, source, target)->Ok_0;
        let more = done.insert(name, value);
        let part = items.take(from + 1);
        let fewer = items.take(from);
        assert forall|i: int| 0 <= i < part.len() implies more.contains_key(
            projected_name(#[trigger] part[i]),
        ) && stands_for(part[i], names, more[projected_name(part[i])]) by {
            if i < from {
                assert(part[i] == fewer[i]);
                assert(done.contains_key(projected_name(fewer[i])));
            }
        }
        assert forall|other: Seq<char>| #[trigger] more.contains_key(other) implies exists|i: int|
            0 <= i < part.len() && projected_name(#[trigger] part[i]) == other by {
            if other == name {
                assert(projected_name(part[from]) == other);
            } else {
                assert(done.contains_key(other));
                let i = choose|i: int|
                    0 <= i < fewer.len() && projected_name(#[trigger] fewer[i]) == other;
                assert(projected_name(part[i]) == other);
            }
        }
        lemma_projected(items, from + 1, names, source, target, more);
    } else {
        assert(items.take(from) =~= items);
    }
}

/// After a `WITH` clause, names are those that it projects, each for what its item says.
pub proof fn lemma_with_projects_what_is_written(
    items: Seq<ReturnItem>,
    names: ScopeView,
    source: BoundNodeView,
    target: BoundNodeView,
)
    requires
        scope::projected_from(items, 0, names, source, target, Map::empty()) is Ok,
    ensures
        are_names_of(
            items,
            names,
            scope::projected_from(items, 0, names, source, target, Map::empty())->Ok_0,
        ),
{
    assert(items.take(0) =~= Seq::<ReturnItem>::empty());
    lemma_projected(items, 0, names, source, target, Map::empty());
}

proof fn lemma_stage(
    items: Seq<ReturnItem>,
    from: int,
    names: ScopeView,
    source: BoundNodeView,
    target: BoundNodeView,
    done: Seq<ReturnBindingView>,
)
    requires
        0 <= from <= items.len(),
        done.len() == from,
        scope::stage_from(items, from, names, source, target, done) is Ok,
        forall|i: int| 0 <= i < from ==> is_binding_of(items[i], names, #[trigger] done[i]),
    ensures
        are_bindings_of(
            items,
            names,
            scope::stage_from(items, from, names, source, target, done)->Ok_0,
        ),
    decreases items.len() - from,
{
    if from < items.len() {
        let item = items[from];
        lemma_projected_name(item);
        lemma_item_value(item, names, source, target);
        let value = scope::item_value(item, names, source, target)->Ok_0;
        let bound = scope::returned(value, scope::item_name(item));
        assert(stands_for(item, names, value) && is_returned(value, bound));
        lemma_stage(items, from + 1, names, source, target, done.push(bound));
    }
}

/// A `WITH DISTINCT` clause deduplicates by the values of its items.
pub proof fn lemma_stage_is_that_written(
    items: Seq<ReturnItem>,
    names: ScopeView,
    source: BoundNodeView,
    target: BoundNodeView,
)
    requires
        scope::stage_from(items, 0, names, source, target, Seq::empty()) is Ok,
    ensures
        are_bindings_of(
            items,
            names,
            scope::stage_from(items, 0, names, source, target, Seq::empty())->Ok_0,
        ),
{
    lemma_stage(items, 0, names, source, target, Seq::empty());
}

/// The number of `WITH DISTINCT` clauses among the first `count`.
pub open spec fn distinct_clauses(clauses: Seq<ast::WithClause>, count: int) -> nat
    decreases count,
{
    if count <= 0 {
        0
    } else {
        distinct_clauses(clauses, count - 1) + (if clauses[count - 1].distinct {
            1nat
        } else {
            0
        })
    }
}

proof fn lemma_stage_count(
    clauses: Seq<ast::WithClause>,
    from: int,
    names: ScopeView,
    stages: Seq<Seq<ReturnBindingView>>,
    source: BoundNodeView,
    target: BoundNodeView,
)
    requires
        0 <= from <= clauses.len(),
        stages.len() == distinct_clauses(clauses, from),
        scope::after_with(clauses, from, names, stages, source, target) is Ok,
    ensures
        scope::after_with(clauses, from, names, stages, source, target)->Ok_0.1.len()
            == distinct_clauses(clauses, clauses.len() as int),
        clauses.len() == from ==> scope::after_with(
            clauses,
            from,
            names,
            stages,
            source,
            target,
        )->Ok_0.0 == names,
    decreases clauses.len() - from,
{
    if from < clauses.len() {
        let items = clauses[from].items@;
        let more = if clauses[from].distinct {
            stages.push(
                scope::stage_from(items, 0, names, source, target, Seq::empty())->Ok_0,
            )
        } else {
            stages
        };
        let next = scope::projected_from(items, 0, names, source, target, Map::empty())->Ok_0;
        lemma_stage_count(clauses, from + 1, next, more, source, target);
    }
}

// ---------------------------------------------------------------------------
// Order
// ---------------------------------------------------------------------------

/// Whether a sort key is that of an item: the returned value of its name, or the
/// property that it names, in the written direction.
pub open spec fn is_sort_of(
    item: SortItem,
    given: Seq<ReturnBindingView>,
    names: ScopeView,
    sort: SortBindingView,
) -> bool {
    &&& sort.desc == item.desc
    &&& match item.key {
        SortKey::Alias { alias, .. } => match sort.key {
            SortBindingKeyView::ReturnName(name) => name == alias.text@ && exists|i: int|
                0 <= i < given.len() && bound_name(#[trigger] given[i]) == name,
            SortBindingKeyView::Property { side, property } => names.contains_key(alias.text@)
                && names[alias.text@] == ScopedBindingView::Property { side, property },
        },
        SortKey::Property { var, property: written, .. } => {
            &&& names.contains_key(var.text@)
            &&& names[var.text@] matches ScopedBindingView::Node(at)
            &&& match sort.key {
                SortBindingKeyView::ReturnName(name) => exists|i: int|
                    0 <= i < given.len() && (#[trigger] given[i])
                        == ReturnBindingView::Property { side: at, property: written.text@, name },
                SortBindingKeyView::Property { side, property } => side == at && property
                    == written.text@,
            }
        },
    }
}

proof fn lemma_property_name(
    given: Seq<ReturnBindingView>,
    side: BindingSide,
    property: Seq<char>,
    from: int,
)
    requires
        0 <= from,
    ensures
        scope::property_name(given, side, property, from) matches Some(name) ==> exists|i: int|
            0 <= i < given.len() && (#[trigger] given[i]) == (ReturnBindingView::Property {
                side,
                property,
                name,
            }),
    decreases given.len() - from,
{
    if from < given.len() {
        if scope::returns_property(given[from], side, property) {
            assert(given[from] == ReturnBindingView::Property {
                side,
                property,
                name: logical_plan::return_name(given[from]),
            });
        } else {
            lemma_property_name(given, side, property, from + 1);
        }
    }
}

proof fn lemma_sort(
    item: SortItem,
    given: Seq<ReturnBindingView>,
    names: ScopeView,
    source: BoundNodeView,
    target: BoundNodeView,
    distinct: bool,
)
    requires
        scope::sort_binding(item, given, names, source, target, distinct) is Ok,
    ensures
        is_sort_of(
            item,
            given,
            names,
            scope::sort_binding(item, given, names, source, target, distinct)->Ok_0,
        ),
{
    match item.key {
        SortKey::Alias { alias, .. } => {
            if scope::returns_scalar(given, alias.text@) {
                let i = choose|i: int|
                    0 <= i < given.len() && logical_plan::return_name(#[trigger] given[i])
                        == alias.text@ && logical_plan::sortable_scalar(given[i]);
                assert(bound_name(given[i]) == alias.text@);
            }
        },
        SortKey::Property { var, property, .. } => {
            if names.contains_key(var.text@) {
                if let ScopedBindingView::Node(side) = names[var.text@] {
                    lemma_property_name(given, side, property.text@, 0);
                }
            }
        },
    }
}

proof fn lemma_sorts(
    items: Seq<SortItem>,
    from: int,
    given: Seq<ReturnBindingView>,
    names: ScopeView,
    source: BoundNodeView,
    target: BoundNodeView,
    distinct: bool,
    done: Seq<SortBindingView>,
)
    requires
        0 <= from <= items.len(),
        done.len() == from,
        scope::sorts_from(items, from, given, names, source, target, distinct, done) is Ok,
        forall|i: int| 0 <= i < from ==> is_sort_of(items[i], given, names, #[trigger] done[i]),
    ensures
        ({
            let found = scope::sorts_from(
                items,
                from,
                given,
                names,
                source,
                target,
                distinct,
                done,
            )->Ok_0;
            &&& found.len() == items.len()
            &&& forall|i: int|
                0 <= i < items.len() ==> is_sort_of(items[i], given, names, #[trigger] found[i])
        }),
    decreases items.len() - from,
{
    if from < items.len() {
        lemma_sort(items[from], given, names, source, target, distinct);
        let sort = scope::sort_binding(items[from], given, names, source, target, distinct)->Ok_0;
        lemma_sorts(
            items,
            from + 1,
            given,
            names,
            source,
            target,
            distinct,
            done.push(sort),
        );
    }
}

/// Whether sort keys are those of items, place by place.
pub open spec fn are_sorts_of(
    items: Seq<SortItem>,
    given: Seq<ReturnBindingView>,
    names: ScopeView,
    sorts: Seq<SortBindingView>,
) -> bool {
    &&& sorts.len() == items.len()
    &&& forall|i: int|
        0 <= i < items.len() ==> is_sort_of(items[i], given, names, #[trigger] sorts[i])
}

// ---------------------------------------------------------------------------
// Reads
// ---------------------------------------------------------------------------

/// A relationship query that binds matches the nodes and the relationship that it
/// writes, lets through exactly the rows that fit it, and returns, sorts and cuts what
/// it says. `names` are the names in scope after its `WITH` clauses.
pub proof fn lemma_read_is_that_written<C: CatalogSnapshot>(
    query: Query,
    catalog: C,
    sources: ValueSources,
    row: RowView,
) -> (names: ScopeView)
    requires
        semantics::bound_plan(query, catalog) is Ok,
    ensures
        ({
            let plan = semantics::bound_plan(query, catalog)->Ok_0;
            let pattern = query.match_.pattern;
            let (rel_pat, target_pat) = pattern.tail@[0];
            &&& pattern.tail@.len() == 1
            &&& plan.optional == query.match_.optional
            &&& is_node_of(pattern.start, catalog, plan.source)
            &&& is_node_of(target_pat, catalog, plan.target)
            &&& exists|found: RelTypeInfoView| #[trigger]
                is_relationship_of(
                    rel_pat,
                    catalog,
                    plan.source.table_oid,
                    plan.target.table_oid,
                    found,
                ) && found.rel_type == plan.relationship.rel_type
            &&& is_name_of(rel_pat.var, plan.relationship.var)
            &&& is_direction_of(rel_pat.direction, plan.relationship.direction)
            &&& lets_through(plan.predicate, sources, row) <==> fits(
                query.where_,
                pattern.start,
                Some(target_pat),
                plan.source.var,
                sources,
                row,
            )
            &&& query.with_@.len() == 0 ==> (scope::relationship_scope(
                rel_pat,
                target_pat,
                plan.source,
                plan.target,
            ) == Ok::<_, GqlErrorView>(names))
            &&& are_bindings_of(query.return_.items@, names, plan.returns)
            &&& are_sorts_of(query.order_by@, plan.returns, names, plan.order_by)
            &&& plan.distinct_stages.len() == distinct_clauses(
                query.with_@,
                query.with_@.len() as int,
            )
            &&& plan.distinct == query.return_.distinct
            &&& plan.skip == query.skip
            &&& plan.limit == query.limit
            &&& query.limit matches Some(limit) ==> limit + (match query.skip {
                Some(skip) => skip as int,
                None => 0,
            }) <= 10_000
        }),
{
    let plan = semantics::bound_plan(query, catalog)->Ok_0;
    let pattern = query.match_.pattern;
    let (rel_pat, target_pat) = pattern.tail@[0];
    let source = plan.source;
    let target = plan.target;
    lemma_match_predicate_means_what_is_written(
        query.where_,
        pattern.start,
        rel_pat,
        target_pat,
        source,
        target,
        sources,
        row,
    );
    let initial = scope::relationship_scope(rel_pat, target_pat, source, target)->Ok_0;
    lemma_stage_count(query.with_@, 0, initial, Seq::empty(), source, target);
    let names = scope::after_with(
        query.with_@,
        0,
        initial,
        Seq::empty(),
        source,
        target,
    )->Ok_0.0;
    lemma_returns(query.return_.items@, 0, names, source, target, Seq::empty());
    lemma_sorts(
        query.order_by@,
        0,
        plan.returns,
        names,
        source,
        target,
        query.return_.distinct,
        Seq::empty(),
    );
    let found = semantics::resolved_rel(
        catalog,
        rel_pat.direction,
        rel_pat.rel_type->Some_0,
        source.table_oid,
        target.table_oid,
    )->Ok_0;
    assert(is_relationship_of(rel_pat, catalog, source.table_oid, target.table_oid, found));
    names
}

/// A node query that binds scans the node that it writes, lets through exactly the
/// nodes that fit it, and returns, sorts and cuts what it says. `names` are the names
/// in scope after its `WITH` clauses.
pub proof fn lemma_scan_is_that_written<C: CatalogSnapshot>(
    query: Query,
    catalog: C,
    sources: ValueSources,
    row: RowView,
) -> (names: ScopeView)
    requires
        semantics::bound_scan(query, catalog) is Ok,
    ensures
        ({
            let plan = semantics::bound_scan(query, catalog)->Ok_0;
            let start = query.match_.pattern.start;
            &&& query.match_.pattern.tail@.len() == 0
            &&& !query.match_.optional
            &&& is_node_of(start, catalog, plan.node)
            &&& lets_through(plan.predicate, sources, row) <==> fits(
                query.where_,
                start,
                None,
                plan.node.var,
                sources,
                row,
            )
            &&& query.with_@.len() == 0 ==> names =~= Map::<
                Seq<char>,
                ScopedBindingView,
            >::empty().insert(plan.node.var, ScopedBindingView::Node(BindingSide::Source))
            &&& are_bindings_of(query.return_.items@, names, plan.returns)
            &&& are_sorts_of(query.order_by@, plan.returns, names, plan.order_by)
            &&& plan.distinct_stages.len() == distinct_clauses(
                query.with_@,
                query.with_@.len() as int,
            )
            &&& plan.distinct == query.return_.distinct
            &&& plan.skip == query.skip
            &&& plan.limit == query.limit
        }),
{
    let plan = semantics::bound_scan(query, catalog)->Ok_0;
    let node = plan.node;
    lemma_node_predicate_means_what_is_written(
        query.where_,
        query.match_.pattern.start,
        node,
        sources,
        row,
    );
    let initial = scope::node_scope(node);
    lemma_stage_count(query.with_@, 0, initial, Seq::empty(), node, node);
    let names = scope::after_with(query.with_@, 0, initial, Seq::empty(), node, node)->Ok_0.0;
    lemma_returns(query.return_.items@, 0, names, node, node, Seq::empty());
    lemma_sorts(
        query.order_by@,
        0,
        plan.returns,
        names,
        node,
        node,
        query.return_.distinct,
        Seq::empty(),
    );
    names
}

// ---------------------------------------------------------------------------
// Writes
// ---------------------------------------------------------------------------

/// Whether a bound value is the written one: a literal or a parameter.
pub open spec fn is_value_of(written: Operand, bound: CreateValueView) -> bool {
    match written {
        Operand::Literal(Literal::Value { value, .. }) => bound matches CreateValueView::Literal(
            literal,
        ) && is_literal_of(value, literal),
        Operand::Param { name, .. } => bound == CreateValueView::Param(name.text@),
        _ => false,
    }
}

/// Whether a literal holds the written value.
pub open spec fn is_literal_of(written: LiteralValue, bound: LiteralView) -> bool {
    match written {
        LiteralValue::Str(text) => bound == LiteralView::Str(text@),
        LiteralValue::Int(n) => bound == LiteralView::Int(n),
        LiteralValue::Float(x) => bound == LiteralView::Float(
            Binary64View { bits: x.bits, text: x.text@ },
        ),
        LiteralValue::Bool(held) => bound == LiteralView::Bool(held),
        LiteralValue::Null => bound is Null,
    }
}

/// Whether properties are those that a pattern writes, place by place.
pub open spec fn are_properties_of(
    written: Seq<(Ident, Operand)>,
    bound: Seq<CreatePropertyView>,
) -> bool {
    &&& bound.len() == written.len()
    &&& forall|i: int|
        0 <= i < written.len() ==> (#[trigger] bound[i]).property == written[i].0.text@
            && is_value_of(written[i].1, bound[i].value)
}

proof fn lemma_written(
    props: Seq<(Ident, Operand)>,
    from: int,
    known: Seq<Seq<char>>,
    done: Seq<CreatePropertyView>,
)
    requires
        0 <= from <= props.len(),
        done.len() == from,
        semantics::written_from(props, from, known, done) is Ok,
        forall|i: int|
            0 <= i < from ==> (#[trigger] done[i]).property == props[i].0.text@ && is_value_of(
                props[i].1,
                done[i].value,
            ),
    ensures
        are_properties_of(props, semantics::written_from(props, from, known, done)->Ok_0),
    decreases props.len() - from,
{
    if from < props.len() {
        let (key, value) = props[from];
        let bound = semantics::written_value(value)->Ok_0;
        let made = CreatePropertyView { property: key.text@, value: bound };
        assert(is_value_of(value, bound));
        lemma_written(props, from + 1, known, done.push(made));
    }
}

/// Whether a binding of a write returns what an item says: the node, or a property of
/// it, under the item's alias or the name of what it returns.
pub open spec fn is_write_binding_of(
    item: ReturnItem,
    var: Seq<char>,
    bound: CreateReturnBindingView,
) -> bool {
    match item.expr {
        ReturnExpr::Var { var: named, .. } => named.text@ == var && bound
            == CreateReturnBindingView::Node {
            name: match item.alias {
                Some(alias) => alias.text@,
                None => var,
            },
        },
        ReturnExpr::Property { var: named, property, .. } => named.text@ == var && bound
            == CreateReturnBindingView::Property {
            property: property.text@,
            name: match item.alias {
                Some(alias) => alias.text@,
                None => property.text@,
            },
        },
        _ => false,
    }
}

/// Whether bindings of a write are those of items, place by place.
pub open spec fn are_write_bindings_of(
    items: Seq<ReturnItem>,
    var: Seq<char>,
    bound: Seq<CreateReturnBindingView>,
) -> bool {
    &&& bound.len() == items.len()
    &&& forall|i: int|
        0 <= i < items.len() ==> is_write_binding_of(items[i], var, #[trigger] bound[i])
}

proof fn lemma_write_returns(
    items: Seq<ReturnItem>,
    from: int,
    node: BoundNodeView,
    paths: bool,
    done: Seq<CreateReturnBindingView>,
)
    requires
        0 <= from <= items.len(),
        done.len() == from,
        semantics::write_returns_from(items, from, node, paths, done) is Ok,
        forall|i: int|
            0 <= i < from ==> is_write_binding_of(items[i], node.var, #[trigger] done[i]),
    ensures
        are_write_bindings_of(
            items,
            node.var,
            semantics::write_returns_from(items, from, node, paths, done)->Ok_0,
        ),
    decreases items.len() - from,
{
    if from < items.len() {
        let bound = semantics::write_return(items[from], node, paths)->Ok_0;
        assert(is_write_binding_of(items[from], node.var, bound));
        lemma_write_returns(items, from + 1, node, paths, done.push(bound));
    }
}

/// A creation that binds writes the properties of its pattern to the table of its
/// label.
pub proof fn lemma_create_is_that_written<C: CatalogSnapshot>(query: CreateQuery, catalog: C)
    requires
        semantics::bound_create(query, catalog) is Ok,
    ensures
        ({
            let plan = semantics::bound_create(query, catalog)->Ok_0;
            &&& is_node_of(query.create.node, catalog, plan.node)
            &&& are_properties_of(query.create.node.props@, plan.properties)
            &&& plan.properties.len() > 0
            &&& are_write_bindings_of(query.return_.items@, plan.node.var, plan.returns)
        }),
{
    let plan = semantics::bound_create(query, catalog)->Ok_0;
    lemma_written(query.create.node.props@, 0, plan.node.properties, Seq::empty());
    lemma_write_returns(query.return_.items@, 0, plan.node, false, Seq::empty());
}

/// Whether a bound branch of a merge is the written one.
pub open spec fn is_branch_of(
    written: Option<SetClause>,
    var: Seq<char>,
    bound: Option<CreatePropertyView>,
) -> bool {
    match (written, bound) {
        (Some(written), Some(bound)) => written.target.var.text@ == var && bound.property
            == written.target.property.text@ && is_value_of(written.value, bound.value),
        (None, None) => true,
        _ => false,
    }
}

/// A merge that binds looks for the properties of its pattern in the table of its
/// label, and writes what its branches say.
pub proof fn lemma_merge_is_that_written<C: CatalogSnapshot>(query: MergeQuery, catalog: C)
    requires
        semantics::bound_merge(query, catalog) is Ok,
    ensures
        ({
            let plan = semantics::bound_merge(query, catalog)->Ok_0;
            &&& is_node_of(query.merge.node, catalog, plan.node)
            &&& are_properties_of(query.merge.node.props@, plan.properties)
            &&& plan.properties.len() > 0
            &&& is_branch_of(query.on_create, plan.node.var, plan.on_create)
            &&& is_branch_of(query.on_match, plan.node.var, plan.on_match)
            &&& are_write_bindings_of(query.return_.items@, plan.node.var, plan.returns)
        }),
{
    let plan = semantics::bound_merge(query, catalog)->Ok_0;
    lemma_written(query.merge.node.props@, 0, plan.node.properties, Seq::empty());
    lemma_write_returns(query.return_.items@, 0, plan.node, false, Seq::empty());
}

/// An update that binds sets the written property to the written value, of exactly the
/// nodes that fit its match.
pub proof fn lemma_set_is_that_written<C: CatalogSnapshot>(
    query: SetQuery,
    catalog: C,
    sources: ValueSources,
    row: RowView,
)
    requires
        semantics::bound_set(query, catalog) is Ok,
    ensures
        ({
            let plan = semantics::bound_set(query, catalog)->Ok_0;
            let start = query.match_.pattern.start;
            &&& query.match_.pattern.tail@.len() == 0
            &&& !query.match_.optional
            &&& is_node_of(start, catalog, plan.node)
            &&& query.set.target.var.text@ == plan.node.var
            &&& plan.property == query.set.target.property.text@
            &&& is_value_of(query.set.value, plan.value)
            &&& lets_through(plan.predicate, sources, row) <==> fits(
                query.where_,
                start,
                None,
                plan.node.var,
                sources,
                row,
            )
            &&& plan.predicate is None <==> query.where_ is None && start.props@.len() == 0
            &&& are_write_bindings_of(query.return_.items@, plan.node.var, plan.returns)
        }),
{
    let plan = semantics::bound_set(query, catalog)->Ok_0;
    lemma_node_predicate_means_what_is_written(
        query.where_,
        query.match_.pattern.start,
        plan.node,
        sources,
        row,
    );
    lemma_write_returns(query.return_.items@, 0, plan.node, false, Seq::empty());
}

/// A removal that binds removes the written property, of exactly the nodes that fit its
/// match.
pub proof fn lemma_remove_is_that_written<C: CatalogSnapshot>(
    query: RemoveQuery,
    catalog: C,
    sources: ValueSources,
    row: RowView,
)
    requires
        semantics::bound_remove(query, catalog) is Ok,
    ensures
        ({
            let plan = semantics::bound_remove(query, catalog)->Ok_0;
            let start = query.match_.pattern.start;
            &&& query.match_.pattern.tail@.len() == 0
            &&& !query.match_.optional
            &&& is_node_of(start, catalog, plan.node)
            &&& query.remove.target matches RemoveTarget::Property(target)
            &&& target.var.text@ == plan.node.var
            &&& target.property.text@ == plan.property
            &&& lets_through(plan.predicate, sources, row) <==> fits(
                query.where_,
                start,
                None,
                plan.node.var,
                sources,
                row,
            )
            &&& plan.predicate is None <==> query.where_ is None && start.props@.len() == 0
            &&& are_write_bindings_of(query.return_.items@, plan.node.var, plan.returns)
        }),
{
    let plan = semantics::bound_remove(query, catalog)->Ok_0;
    lemma_node_predicate_means_what_is_written(
        query.where_,
        query.match_.pattern.start,
        plan.node,
        sources,
        row,
    );
    lemma_write_returns(query.return_.items@, 0, plan.node, true, Seq::empty());
}

/// An edge deletion that binds deletes rows of the edge table that the catalog maps its
/// relationship to, of exactly the matches that fit it.
pub proof fn lemma_delete_is_that_written<C: CatalogSnapshot>(
    query: DeleteQuery,
    catalog: C,
    sources: ValueSources,
    row: RowView,
)
    requires
        semantics::bound_delete(query, catalog) is Ok,
    ensures
        ({
            let plan = semantics::bound_delete(query, catalog)->Ok_0;
            let pattern = query.match_.pattern;
            let (rel_pat, target_pat) = pattern.tail@[0];
            &&& pattern.tail@.len() == 1
            &&& !query.match_.optional
            &&& is_node_of(pattern.start, catalog, plan.source)
            &&& is_node_of(target_pat, catalog, plan.target)
            &&& exists|found: RelTypeInfoView|
                {
                    &&& #[trigger] is_relationship_of(
                        rel_pat,
                        catalog,
                        plan.source.table_oid,
                        plan.target.table_oid,
                        found,
                    )
                    &&& found.rel_type == plan.relationship.rel_type
                    &&& found.edge_mapping matches Some(edge)
                    &&& edge.edge_table_oid == plan.edge.edge_table_oid
                    &&& edge.source_table_oid == plan.edge.source_table_oid
                    &&& edge.target_table_oid == plan.edge.target_table_oid
                    &&& edge.source_column == plan.edge.source_column
                    &&& edge.target_column == plan.edge.target_column
                    &&& edge.bidirectional == plan.edge.bidirectional
                }
            &&& rel_pat.var_len is None
            &&& !(rel_pat.direction is Undirected)
            &&& is_direction_of(rel_pat.direction, plan.relationship.direction)
            &&& rel_pat.var matches Some(var)
            &&& var.text@ == plan.rel_var
            &&& query.delete.var.text@ == plan.rel_var
            &&& lets_through(plan.predicate, sources, row) <==> fits(
                query.where_,
                pattern.start,
                Some(target_pat),
                plan.source.var,
                sources,
                row,
            )
            &&& plan.predicate is None <==> query.where_ is None && pattern.start.props@.len() == 0
                && target_pat.props@.len() == 0
            &&& scope::relationship_scope(
                rel_pat,
                target_pat,
                plan.source,
                plan.target,
            ) matches Ok(names) && are_bindings_of(query.return_.items@, names, plan.returns)
        }),
{
    let plan = semantics::bound_delete(query, catalog)->Ok_0;
    let pattern = query.match_.pattern;
    let (rel_pat, target_pat) = pattern.tail@[0];
    lemma_match_predicate_means_what_is_written(
        query.where_,
        pattern.start,
        rel_pat,
        target_pat,
        plan.source,
        plan.target,
        sources,
        row,
    );
    let names = scope::relationship_scope(rel_pat, target_pat, plan.source, plan.target)->Ok_0;
    lemma_returns(
        query.return_.items@,
        0,
        names,
        plan.source,
        plan.target,
        Seq::empty(),
    );
    let found = semantics::resolved_rel(
        catalog,
        rel_pat.direction,
        rel_pat.rel_type->Some_0,
        plan.source.table_oid,
        plan.target.table_oid,
    )->Ok_0;
    assert(is_relationship_of(
        rel_pat,
        catalog,
        plan.source.table_oid,
        plan.target.table_oid,
        found,
    ));
}

/// Whether an incident edge is that of a relationship of the catalog.
pub open spec fn is_incident_of(rel: RelTypeInfoView, edge: BoundIncidentEdgeView) -> bool {
    &&& edge.rel_type == rel.rel_type
    &&& rel.edge_mapping matches Some(mapping)
    &&& edge.edge.edge_table_oid == mapping.edge_table_oid
    &&& edge.edge.source_table_oid == mapping.source_table_oid
    &&& edge.edge.target_table_oid == mapping.target_table_oid
    &&& edge.edge.source_column == mapping.source_column
    &&& edge.edge.target_column == mapping.target_column
    &&& edge.edge.bidirectional == mapping.bidirectional
}

/// Whether an incident edge names the edge rows of a relationship: the same type, table
/// and columns.
pub open spec fn names_rows_of(rel: RelTypeInfoView, edge: BoundIncidentEdgeView) -> bool {
    &&& edge.rel_type == rel.rel_type
    &&& rel.edge_mapping matches Some(mapping)
    &&& edge.edge.edge_table_oid == mapping.edge_table_oid
    &&& edge.edge.source_column == mapping.source_column
    &&& edge.edge.target_column == mapping.target_column
}

/// Whether one of edges names the edge rows of a relationship.
pub open spec fn some_names_rows_of(
    rel: RelTypeInfoView,
    edges: Seq<BoundIncidentEdgeView>,
) -> bool {
    exists|k: int| 0 <= k < edges.len() && names_rows_of(rel, #[trigger] edges[k])
}

/// Whether an edge is that of one of relationships.
pub open spec fn is_incident_of_some(
    rels: Seq<RelTypeInfoView>,
    edge: BoundIncidentEdgeView,
) -> bool {
    exists|i: int| 0 <= i < rels.len() && is_incident_of(#[trigger] rels[i], edge)
}

proof fn lemma_incident(
    rels: Seq<RelTypeInfoView>,
    from: int,
    span: Span,
    done: Seq<BoundIncidentEdgeView>,
)
    requires
        0 <= from <= rels.len(),
        semantics::incident_from(rels, from, span, done) is Ok,
        forall|i: int| 0 <= i < from ==> some_names_rows_of(#[trigger] rels[i], done),
        forall|k: int| 0 <= k < done.len() ==> is_incident_of_some(rels, #[trigger] done[k]),
    ensures
        ({
            let found = semantics::incident_from(rels, from, span, done)->Ok_0;
            &&& forall|i: int| 0 <= i < rels.len() ==> some_names_rows_of(#[trigger] rels[i], found)
            &&& forall|k: int| 0 <= k < found.len() ==> is_incident_of_some(rels, #[trigger] found[k])
        }),
    decreases rels.len() - from,
{
    if from < rels.len() {
        let mapping = rels[from].edge_mapping->Some_0;
        let edge = BoundIncidentEdgeView {
            rel_type: rels[from].rel_type,
            edge: semantics::bound_mapping(mapping),
        };
        let more = if semantics::lists_mapping(done, edge) {
            done
        } else {
            done.push(edge)
        };
        assert(is_incident_of(rels[from], edge));
        if semantics::lists_mapping(done, edge) {
            let k = choose|k: int|
                0 <= k < done.len() && semantics::same_mapping(#[trigger] done[k], edge);
            assert(names_rows_of(rels[from], done[k]));
        } else {
            assert(names_rows_of(rels[from], more[done.len() as int]));
        }
        assert forall|i: int| 0 <= i < from + 1 implies some_names_rows_of(
            #[trigger] rels[i],
            more,
        ) by {
            if i < from {
                let k = choose|k: int| 0 <= k < done.len() && names_rows_of(rels[i], #[trigger] done[k]);
                assert(names_rows_of(rels[i], more[k]));
            }
        }
        assert forall|k: int| 0 <= k < more.len() implies is_incident_of_some(
            rels,
            #[trigger] more[k],
        ) by {
            if k < done.len() {
                assert(more[k] == done[k]);
            }
        }
        lemma_incident(rels, from + 1, span, more);
    }
}

proof fn lemma_incident_rels(rels: Seq<RelTypeInfoView>, table_oid: u32)
    ensures
        ({
            let found = catalog_snapshot::incident_rels(rels, table_oid);
            &&& forall|k: int|
                0 <= k < found.len() ==> rels.contains(#[trigger] found[k]) && (
                found[k].from_table_oid == table_oid || found[k].to_table_oid == table_oid)
            &&& forall|i: int|
                0 <= i < rels.len() && ((#[trigger] rels[i]).from_table_oid == table_oid
                    || rels[i].to_table_oid == table_oid) ==> catalog_snapshot::lists_incidence(
                    found,
                    rels[i],
                )
        }),
    decreases rels.len(),
{
    if rels.len() > 0 {
        let init = rels.drop_last();
        lemma_incident_rels(init, table_oid);
        let earlier = catalog_snapshot::incident_rels(init, table_oid);
        let found = catalog_snapshot::incident_rels(rels, table_oid);
        assert forall|k: int| 0 <= k < found.len() implies rels.contains(#[trigger] found[k]) && (
        found[k].from_table_oid == table_oid || found[k].to_table_oid == table_oid) by {
            if k < earlier.len() {
                assert(found[k] == earlier[k]);
                let i = choose|i: int| 0 <= i < init.len() && init[i] == earlier[k];
                assert(rels[i] == found[k]);
            } else {
                assert(rels[rels.len() - 1] == found[k]);
            }
        }
        assert forall|i: int|
            0 <= i < rels.len() && ((#[trigger] rels[i]).from_table_oid == table_oid
                || rels[i].to_table_oid == table_oid) implies catalog_snapshot::lists_incidence(
            found,
            rels[i],
        ) by {
            if i < init.len() {
                assert(init[i] == rels[i]);
                lemma_lists_more(earlier, found, rels[i]);
            } else if !catalog_snapshot::lists_incidence(earlier, rels[i]) {
                assert(found[earlier.len() as int] == rels[i]);
                lemma_lists_itself(found, earlier.len() as int);
            }
        }
    }
}

proof fn lemma_lists_more(
    fewer: Seq<RelTypeInfoView>,
    more: Seq<RelTypeInfoView>,
    rel: RelTypeInfoView,
)
    requires
        fewer.len() <= more.len(),
        forall|k: int| 0 <= k < fewer.len() ==> fewer[k] == more[k],
        catalog_snapshot::lists_incidence(fewer, rel),
    ensures
        catalog_snapshot::lists_incidence(more, rel),
{
    let k = choose|k: int|
        0 <= k < fewer.len() && catalog_snapshot::same_incidence(#[trigger] fewer[k], rel);
    assert(catalog_snapshot::same_incidence(more[k], rel));
}

proof fn lemma_lists_itself(rels: Seq<RelTypeInfoView>, k: int)
    requires
        0 <= k < rels.len(),
    ensures
        catalog_snapshot::lists_incidence(rels, rels[k]),
{
    assert(catalog_snapshot::same_incidence(rels[k], rels[k]));
}

/// Whether a relationship of the catalog starts or ends at a table.
pub open spec fn touches(rel: RelTypeInfoView, table_oid: u32) -> bool {
    rel.from_table_oid == table_oid || rel.to_table_oid == table_oid
}

/// Whether one of edges is of the type and the edge table of a relationship.
pub open spec fn some_is_of_table(rel: RelTypeInfoView, edges: Seq<BoundIncidentEdgeView>) -> bool {
    exists|k: int|
        0 <= k < edges.len() && (#[trigger] edges[k]).rel_type == rel.rel_type && (
        rel.edge_mapping matches Some(mapping) && edges[k].edge.edge_table_oid
            == mapping.edge_table_oid)
}

/// Whether incident edges are those of a table: rows of the edge tables of all mapped
/// relationships that touch it, and of no others.
pub open spec fn are_incident_to(
    rels: Seq<RelTypeInfoView>,
    table_oid: u32,
    edges: Seq<BoundIncidentEdgeView>,
) -> bool {
    &&& forall|i: int|
        0 <= i < rels.len() && touches(#[trigger] rels[i], table_oid) && rels[i].edge_mapping is Some
            ==> some_is_of_table(rels[i], edges)
    &&& forall|k: int|
        0 <= k < edges.len() ==> is_incident_to(rels, table_oid, #[trigger] edges[k])
}

/// Whether an edge is that of a relationship that touches a table.
pub open spec fn is_incident_to(
    rels: Seq<RelTypeInfoView>,
    table_oid: u32,
    edge: BoundIncidentEdgeView,
) -> bool {
    exists|i: int|
        0 <= i < rels.len() && touches(#[trigger] rels[i], table_oid) && is_incident_of(
            rels[i],
            edge,
        )
}

proof fn lemma_incident_covers(
    incident: Seq<RelTypeInfoView>,
    edges: Seq<BoundIncidentEdgeView>,
    rel: RelTypeInfoView,
)
    requires
        catalog_snapshot::lists_incidence(incident, rel),
        rel.edge_mapping is Some,
        forall|i: int| 0 <= i < incident.len() ==> some_names_rows_of(#[trigger] incident[i], edges),
    ensures
        some_is_of_table(rel, edges),
{
    let j = choose|j: int|
        0 <= j < incident.len() && catalog_snapshot::same_incidence(#[trigger] incident[j], rel);
    assert(some_names_rows_of(incident[j], edges));
    let k = choose|k: int| 0 <= k < edges.len() && names_rows_of(incident[j], #[trigger] edges[k]);
    assert(edges[k].rel_type == rel.rel_type);
}

proof fn lemma_incident_comes(
    rels: Seq<RelTypeInfoView>,
    table_oid: u32,
    incident: Seq<RelTypeInfoView>,
    edge: BoundIncidentEdgeView,
)
    requires
        is_incident_of_some(incident, edge),
        forall|k: int|
            0 <= k < incident.len() ==> rels.contains(#[trigger] incident[k]) && touches(
                incident[k],
                table_oid,
            ),
    ensures
        is_incident_to(rels, table_oid, edge),
{
    let j = choose|j: int| 0 <= j < incident.len() && is_incident_of(#[trigger] incident[j], edge);
    assert(rels.contains(incident[j]) && touches(incident[j], table_oid));
    let i = choose|i: int| 0 <= i < rels.len() && rels[i] == incident[j];
    assert(touches(rels[i], table_oid));
}

proof fn lemma_incident_lists(rels: Seq<RelTypeInfoView>, table_oid: u32, i: int)
    requires
        0 <= i < rels.len(),
        touches(rels[i], table_oid),
    ensures
        catalog_snapshot::lists_incidence(
            catalog_snapshot::incident_rels(rels, table_oid),
            rels[i],
        ),
{
    lemma_incident_rels(rels, table_oid);
}

proof fn lemma_incident_members(rels: Seq<RelTypeInfoView>, table_oid: u32, k: int)
    requires
        0 <= k < catalog_snapshot::incident_rels(rels, table_oid).len(),
    ensures
        rels.contains(catalog_snapshot::incident_rels(rels, table_oid)[k]),
        touches(catalog_snapshot::incident_rels(rels, table_oid)[k], table_oid),
{
    lemma_incident_rels(rels, table_oid);
}

proof fn lemma_incident_named(rels: Seq<RelTypeInfoView>, span: Span, i: int)
    requires
        semantics::incident_from(rels, 0, span, Seq::empty()) is Ok,
        0 <= i < rels.len(),
    ensures
        some_names_rows_of(
            rels[i],
            semantics::incident_from(rels, 0, span, Seq::empty())->Ok_0,
        ),
{
    lemma_incident(rels, 0, span, Seq::empty());
}

proof fn lemma_incident_made(rels: Seq<RelTypeInfoView>, span: Span, k: int)
    requires
        semantics::incident_from(rels, 0, span, Seq::empty()) is Ok,
        0 <= k < semantics::incident_from(rels, 0, span, Seq::empty())->Ok_0.len(),
    ensures
        is_incident_of_some(
            rels,
            semantics::incident_from(rels, 0, span, Seq::empty())->Ok_0[k],
        ),
{
    lemma_incident(rels, 0, span, Seq::empty());
}

proof fn lemma_incident_to(rels: Seq<RelTypeInfoView>, table_oid: u32, span: Span)
    requires
        semantics::incident_from(
            catalog_snapshot::incident_rels(rels, table_oid),
            0,
            span,
            Seq::empty(),
        ) is Ok,
    ensures
        are_incident_to(
            rels,
            table_oid,
            semantics::incident_from(
                catalog_snapshot::incident_rels(rels, table_oid),
                0,
                span,
                Seq::empty(),
            )->Ok_0,
        ),
{
    let incident = catalog_snapshot::incident_rels(rels, table_oid);
    let edges = semantics::incident_from(incident, 0, span, Seq::empty())->Ok_0;
    assert forall|i: int|
        0 <= i < rels.len() && touches(#[trigger] rels[i], table_oid) && rels[i].edge_mapping is Some
        implies some_is_of_table(rels[i], edges) by {
        lemma_incident_lists(rels, table_oid, i);
        assert forall|j: int| 0 <= j < incident.len() implies some_names_rows_of(
            #[trigger] incident[j],
            edges,
        ) by {
            lemma_incident_named(incident, span, j);
        }
        lemma_incident_covers(incident, edges, rels[i]);
    }
    assert forall|k: int| 0 <= k < edges.len() implies is_incident_to(
        rels,
        table_oid,
        #[trigger] edges[k],
    ) by {
        assert forall|j: int| 0 <= j < incident.len() implies rels.contains(#[trigger] incident[j])
            && touches(incident[j], table_oid) by {
            lemma_incident_members(rels, table_oid, j);
        }
        lemma_incident_made(incident, span, k);
        lemma_incident_comes(rels, table_oid, incident, edges[k]);
    }
}

/// A detaching deletion that binds deletes exactly the nodes that fit its match, and
/// with them rows of the edge tables of all relationships that touch their table, and
/// of no others.
pub proof fn lemma_detach_is_that_written<C: CatalogSnapshot>(
    query: DetachDeleteQuery,
    catalog: C,
    sources: ValueSources,
    row: RowView,
)
    requires
        semantics::bound_detach(query, catalog) is Ok,
    ensures
        ({
            let plan = semantics::bound_detach(query, catalog)->Ok_0;
            let start = query.match_.pattern.start;
            &&& query.match_.pattern.tail@.len() == 0
            &&& !query.match_.optional
            &&& is_node_of(start, catalog, plan.node)
            &&& query.delete.var.text@ == plan.node.var
            &&& lets_through(plan.predicate, sources, row) <==> fits(
                query.where_,
                start,
                None,
                plan.node.var,
                sources,
                row,
            )
            &&& plan.predicate is None <==> query.where_ is None && start.props@.len() == 0
            &&& are_incident_to(catalog.all_rels(), plan.node.table_oid, plan.incident_edges)
            &&& are_write_bindings_of(query.return_.items@, plan.node.var, plan.returns)
        }),
{
    let plan = semantics::bound_detach(query, catalog)->Ok_0;
    lemma_node_predicate_means_what_is_written(
        query.where_,
        query.match_.pattern.start,
        plan.node,
        sources,
        row,
    );
    lemma_write_returns(query.return_.items@, 0, plan.node, true, Seq::empty());
    lemma_incident_to(catalog.all_rels(), plan.node.table_oid, query.delete.span);
}

/// A statement binds to a plan of its own kind; a read to a join where it lists several
/// patterns, to a wildcard path where it names one, to a node scan where it matches one
/// node, and else to a relationship match.
pub proof fn lemma_statement_is_of_its_kind<C: CatalogSnapshot>(statement: Statement, catalog: C)
    requires
        semantics::bound_statement(statement, catalog) is Ok,
    ensures
        ({
            let bound = semantics::bound_statement(statement, catalog)->Ok_0;
            match statement {
                Statement::Read(query) => if query.match_.patterns@.len() > 1 {
                    bound is JoinRead
                } else if query.match_.pattern.path_var is Some {
                    bound is WildcardPathRead
                } else if query.match_.pattern.tail@.len() == 0 {
                    bound matches LogicalStatementView::NodeScan(plan) && semantics::bound_scan(
                        query,
                        catalog,
                    ) == Ok::<_, GqlErrorView>(plan)
                } else {
                    bound matches LogicalStatementView::Read(plan) && semantics::bound_plan(
                        query,
                        catalog,
                    ) == Ok::<_, GqlErrorView>(plan)
                },
                Statement::Create(query) => bound matches LogicalStatementView::CreateNode(plan)
                    && semantics::bound_create(query, catalog) == Ok::<_, GqlErrorView>(plan),
                Statement::SetProperty(query) => bound matches LogicalStatementView::SetProperty(
                    plan,
                ) && semantics::bound_set(query, catalog) == Ok::<_, GqlErrorView>(plan),
                Statement::Remove(query) => bound matches LogicalStatementView::RemoveProperty(
                    plan,
                ) && semantics::bound_remove(query, catalog) == Ok::<_, GqlErrorView>(plan),
                Statement::Delete(query) => bound matches LogicalStatementView::DeleteEdge(plan)
                    && semantics::bound_delete(query, catalog) == Ok::<_, GqlErrorView>(plan),
                Statement::DetachDelete(query) => bound matches LogicalStatementView::DetachDeleteNode(
                    plan,
                ) && semantics::bound_detach(query, catalog) == Ok::<_, GqlErrorView>(plan),
                Statement::Merge(query) => bound matches LogicalStatementView::MergeNode(plan)
                    && semantics::bound_merge(query, catalog) == Ok::<_, GqlErrorView>(plan),
            }
        }),
{
}

} // verus!
