//! Evaluation of predicates on result rows.
use vstd::prelude::*;

use crate::query::hydrate::{self, property_value, HydratedRows, QueryParams};
use crate::query::json::{
    self, duplicate_json, equal_json, json_of_scalar, json_of_scalars, Json, JsonView,
};
use crate::query::json_order::{self, ordered, JsonOrder};
use crate::query::logical_plan::{
    BindingSide, BoundCmpOp, Predicate, PredicateView, ValueExpr, ValueExprView,
};
use crate::query::rows::{CoordinateView, GqlNodeCoordinate, GqlRow, RowView};
use crate::safety::{GraphError, GraphErrorView, GraphResult};
use crate::text::{self, concat3, decimal_text, owned};
use crate::views;

verus! {

/// The node that a side of a match names.
pub open spec fn side_of(row: RowView, side: BindingSide) -> Option<CoordinateView> {
    match side {
        BindingSide::Source => Some(row.source),
        BindingSide::Target => row.target,
        BindingSide::PathNode(at) => if at < row.path_nodes.len() {
            Some(row.path_nodes[at as int])
        } else {
            None
        },
    }
}

/// The node that a side of a match names.
pub fn side_node<'a>(row: &'a GqlRow, side: BindingSide) -> (node: Option<&'a GqlNodeCoordinate>)
    ensures
        (match node {
            Some(node) => Some(node@),
            None => None,
        }) == side_of(row@, side),
{
    match side {
        BindingSide::Source => Some(&row.source),
        BindingSide::Target => match &row.target {
            Some(node) => Some(node),
            None => None,
        },
        BindingSide::PathNode(at) => if at < row.path_nodes.len() {
            Some(&row.path_nodes[at])
        } else {
            None
        },
    }
}

/// What values are read from.
pub struct ValueSources {
    /// Source rows by coordinate.
    pub hydrated: Map<(u32, Seq<char>), JsonView>,
    /// Query parameters.
    pub params: Map<Seq<char>, JsonView>,
}

/// The error of a node without a source row.
pub open spec fn not_hydrated(node: CoordinateView) -> GraphErrorView {
    GraphErrorView::GqlExecution {
        reason: "could not hydrate node `"@ + node.node_id + "` of table "@ + text::decimal(
            node.table_oid as nat,
        ),
    }
}

/// The source row of a node.
pub open spec fn source_row(sources: ValueSources, node: CoordinateView) -> Result<
    JsonView,
    GraphErrorView,
> {
    let key = (node.table_oid, node.node_id);
    if sources.hydrated.contains_key(key) {
        Ok(sources.hydrated[key])
    } else {
        Err(not_hydrated(node))
    }
}

/// The property of a node, where it has it; null where there is no node.
pub open spec fn node_property(
    sources: ValueSources,
    node: Option<CoordinateView>,
    property: Seq<char>,
) -> Result<Option<JsonView>, GraphErrorView> {
    match node {
        None => Ok(Some(JsonView::Null)),
        Some(node) => match source_row(sources, node) {
            Ok(row) => Ok(hydrate::property_of(row, property)),
            Err(error) => Err(error),
        },
    }
}

/// The value of an expression, where there is one.
pub open spec fn value_of(sources: ValueSources, row: RowView, expr: ValueExprView) -> Result<
    Option<JsonView>,
    GraphErrorView,
> {
    match expr {
        ValueExprView::Property { side, property } => node_property(
            sources,
            side_of(row, side),
            property,
        ),
        ValueExprView::Literal(scalar) => Ok(Some(json::scalar_json(scalar))),
        ValueExprView::Param(name) => if sources.params.contains_key(name) {
            Ok(Some(sources.params[name]))
        } else {
            Err(
                GraphErrorView::GqlParameter {
                    reason: "missing GQL parameter `"@ + name + "`"@,
                },
            )
        },
        ValueExprView::List(scalars) => Ok(Some(json::scalars_json(scalars))),
    }
}

/// The name of a comparison operator.
pub open spec fn op_name(op: BoundCmpOp) -> Seq<char> {
    match op {
        BoundCmpOp::Eq => "Eq"@,
        BoundCmpOp::Neq => "Neq"@,
        BoundCmpOp::Lt => "Lt"@,
        BoundCmpOp::Lte => "Lte"@,
        BoundCmpOp::Gt => "Gt"@,
        BoundCmpOp::Gte => "Gte"@,
        BoundCmpOp::In => "In"@,
        BoundCmpOp::IsNull => "IsNull"@,
        BoundCmpOp::IsNotNull => "IsNotNull"@,
    }
}

/// The error of a comparison without its right-hand side.
pub open spec fn missing_rhs(op: BoundCmpOp) -> GraphErrorView {
    GraphErrorView::InvalidFilter {
        reason: "GQL comparison "@ + op_name(op) + " requires a right-hand side"@,
    }
}

/// A value, null where there is none.
pub open spec fn or_null(value: Option<JsonView>) -> JsonView {
    match value {
        Some(value) => value,
        None => JsonView::Null,
    }
}

/// Whether an order satisfies a comparison.
pub open spec fn order_satisfies(op: BoundCmpOp, order: JsonOrder) -> bool {
    match op {
        BoundCmpOp::Lt => order is Less,
        BoundCmpOp::Lte => !(order is Greater),
        BoundCmpOp::Gt => order is Greater,
        _ => !(order is Less),
    }
}

/// Whether a list has a value.
pub open spec fn lists(items: Seq<JsonView>, value: JsonView) -> bool {
    exists|i: int| 0 <= i < items.len() && json::same_json(#[trigger] items[i], value)
}

/// Whether two values satisfy a comparison that has a right-hand side.
pub open spec fn satisfies(lhs: JsonView, op: BoundCmpOp, rhs: JsonView) -> Result<
    bool,
    GraphErrorView,
> {
    match op {
        BoundCmpOp::Eq => Ok(json::same_json(lhs, rhs)),
        BoundCmpOp::Neq => Ok(!json::same_json(lhs, rhs)),
        BoundCmpOp::In => match rhs {
            JsonView::Array(items) => Ok(lists(items, lhs)),
            _ => Err(
                GraphErrorView::InvalidFilter {
                    reason: "GQL IN requires a list right-hand side"@,
                },
            ),
        },
        _ => match json_order::value_order(lhs, rhs) {
            Ok(order) => Ok(order_satisfies(op, order)),
            Err(error) => Err(error),
        },
    }
}

/// Whether values satisfy a comparison. A value that is not there is not null, and
/// is else as null is.
pub open spec fn compared(
    lhs: Option<JsonView>,
    op: BoundCmpOp,
    rhs: Option<Option<JsonView>>,
) -> Result<bool, GraphErrorView> {
    match op {
        BoundCmpOp::IsNull => Ok(lhs == Some(JsonView::Null)),
        BoundCmpOp::IsNotNull => Ok(!(or_null(lhs) is Null)),
        _ => match rhs {
            None => Err(missing_rhs(op)),
            Some(rhs) => satisfies(or_null(lhs), op, or_null(rhs)),
        },
    }
}

/// Whether a row satisfies a predicate.
pub open spec fn predicate_holds(
    sources: ValueSources,
    row: RowView,
    predicate: PredicateView,
) -> Result<bool, GraphErrorView>
    decreases predicate,
{
    match predicate {
        PredicateView::And(lhs, rhs) => match predicate_holds(sources, row, *lhs) {
            Ok(true) => predicate_holds(sources, row, *rhs),
            other => other,
        },
        PredicateView::Or(lhs, rhs) => match predicate_holds(sources, row, *lhs) {
            Ok(false) => predicate_holds(sources, row, *rhs),
            other => other,
        },
        PredicateView::Not(inner) => match predicate_holds(sources, row, *inner) {
            Ok(held) => Ok(!held),
            Err(error) => Err(error),
        },
        PredicateView::Compare { lhs, op, rhs } => match value_of(sources, row, lhs) {
            Err(error) => Err(error),
            Ok(left) => match rhs {
                None => compared(left, op, None),
                Some(rhs) => match value_of(sources, row, rhs) {
                    Err(error) => Err(error),
                    Ok(right) => compared(left, op, Some(right)),
                },
            },
        },
    }
}

// ---------------------------------------------------------------------------
// Evaluation
// ---------------------------------------------------------------------------

/// What values are read from.
pub struct ValueReader<'a> {
    /// Source rows by coordinate.
    pub hydrated: &'a HydratedRows,
    /// Query parameters.
    pub params: &'a QueryParams,
}

/// An optional value by its view.
pub open spec fn found_view(value: Option<Json>) -> Option<JsonView> {
    views::some_view(value)
}

fn null_unless(value: Option<Json>) -> (found: Json)
    ensures
        found@ == or_null(found_view(value)),
{
    match value {
        Some(value) => value,
        None => Json::Null,
    }
}

fn name_of_op(op: BoundCmpOp) -> (name: &'static str)
    ensures
        name@ == op_name(op),
{
    match op {
        BoundCmpOp::Eq => "Eq",
        BoundCmpOp::Neq => "Neq",
        BoundCmpOp::Lt => "Lt",
        BoundCmpOp::Lte => "Lte",
        BoundCmpOp::Gt => "Gt",
        BoundCmpOp::Gte => "Gte",
        BoundCmpOp::In => "In",
        BoundCmpOp::IsNull => "IsNull",
        BoundCmpOp::IsNotNull => "IsNotNull",
    }
}

fn order_fits(op: BoundCmpOp, order: JsonOrder) -> (fits: bool)
    ensures
        fits == order_satisfies(op, order),
{
    match op {
        BoundCmpOp::Lt => matches!(order, JsonOrder::Less),
        BoundCmpOp::Lte => !matches!(order, JsonOrder::Greater),
        BoundCmpOp::Gt => matches!(order, JsonOrder::Greater),
        _ => !matches!(order, JsonOrder::Less),
    }
}

fn lists_value(items: &Vec<Json>, value: &Json) -> (found: bool)
    ensures
        found == lists(views::views(items@), value@),
{
    let ghost all = views::views(items@);
    for i in 0..items.len()
        invariant
            all == views::views(items@),
            forall|j: int| 0 <= j < i ==> !json::same_json(#[trigger] all[j], value@),
    {
        assert(all[i as int] == items@[i as int]@);
        if equal_json(&items[i], value) {
            return true;
        }
    }
    false
}

fn satisfied(lhs: &Json, op: BoundCmpOp, rhs: &Json) -> (result: GraphResult<bool>)
    ensures
        match satisfies(lhs@, op, rhs@) {
            Ok(held) => result == Ok::<bool, GraphError>(held),
            Err(error) => result matches Err(given) && given@ == error,
        },
{
    match op {
        BoundCmpOp::Eq => Ok(equal_json(lhs, rhs)),
        BoundCmpOp::Neq => Ok(!equal_json(lhs, rhs)),
        BoundCmpOp::In => match rhs {
            Json::Array(items) => {
                proof {
                    json::lemma_array_view(*items);
                }
                Ok(lists_value(items, lhs))
            },
            _ => Err(
                GraphError::InvalidFilter {
                    reason: owned("GQL IN requires a list right-hand side"),
                },
            ),
        },
        _ => match ordered(lhs, rhs) {
            Ok(order) => Ok(order_fits(op, order)),
            Err(error) => Err(error),
        },
    }
}

/// Whether values satisfy a comparison.
pub fn compare_values(lhs: Option<Json>, op: BoundCmpOp, rhs: Option<Option<Json>>) -> (result:
    GraphResult<bool>)
    ensures
        match compared(
            found_view(lhs),
            op,
            match rhs {
                Some(value) => Some(found_view(value)),
                None => None,
            },
        ) {
            Ok(held) => result == Ok::<bool, GraphError>(held),
            Err(error) => result matches Err(given) && given@ == error,
        },
{
    match op {
        BoundCmpOp::IsNull => Ok(
            match lhs {
                Some(Json::Null) => true,
                _ => false,
            },
        ),
        BoundCmpOp::IsNotNull => Ok(
            match null_unless(lhs) {
                Json::Null => false,
                _ => true,
            },
        ),
        _ => match rhs {
            None => Err(
                GraphError::InvalidFilter {
                    reason: concat3(
                        "GQL comparison ",
                        name_of_op(op),
                        " requires a right-hand side",
                    ),
                },
            ),
            Some(rhs) => satisfied(&null_unless(lhs), op, &null_unless(rhs)),
        },
    }
}

impl<'a> ValueReader<'a> {
    /// What values are read from.
    pub open spec fn sources(&self) -> ValueSources {
        ValueSources { hydrated: self.hydrated@, params: self.params@ }
    }

    /// The source row of a node.
    pub fn row_of(&self, node: &GqlNodeCoordinate) -> (result: GraphResult<&'a Json>)
        requires
            self.hydrated.wf(),
        ensures
            match source_row(self.sources(), node@) {
                Ok(row) => result matches Ok(given) && given@ == row,
                Err(error) => result matches Err(given) && given@ == error,
            },
    {
        match self.hydrated.get(node.table_oid, node.node_id.as_str()) {
            Some(row) => Ok(row),
            None => Err(
                GraphError::GqlExecution {
                    reason: text::concat4(
                        "could not hydrate node `",
                        node.node_id.as_str(),
                        "` of table ",
                        decimal_text(node.table_oid as u64).as_str(),
                    ),
                },
            ),
        }
    }

    /// The property of a node, where it has it.
    pub fn property(&self, node: Option<&GqlNodeCoordinate>, property: &str) -> (result: GraphResult<
        Option<Json>,
    >)
        requires
            self.hydrated.wf(),
        ensures
            match node_property(
                self.sources(),
                match node {
                    Some(node) => Some(node@),
                    None => None,
                },
                property@,
            ) {
                Ok(value) => result matches Ok(given) && found_view(given) == value,
                Err(error) => result matches Err(given) && given@ == error,
            },
    {
        match node {
            None => Ok(Some(Json::Null)),
            Some(node) => {
                let row: &Json = self.row_of(node)?;
                match property_value(row, property) {
                    Some(value) => Ok(Some(duplicate_json(value))),
                    None => Ok(None),
                }
            },
        }
    }

    /// The value of an expression, where there is one.
    pub fn eval_value(&self, expr: &ValueExpr, row: &GqlRow) -> (result: GraphResult<Option<Json>>)
        requires
            self.hydrated.wf(),
        ensures
            match value_of(self.sources(), row@, expr@) {
                Ok(value) => result matches Ok(given) && found_view(given) == value,
                Err(error) => result matches Err(given) && given@ == error,
            },
    {
        match expr {
            ValueExpr::Property { side, property } => self.property(
                side_node(row, *side),
                property.as_str(),
            ),
            ValueExpr::Literal(scalar) => Ok(Some(json_of_scalar(scalar))),
            ValueExpr::Param(name) => match self.params.get(name.as_str()) {
                Some(value) => Ok(Some(duplicate_json(value))),
                None => Err(
                    GraphError::GqlParameter {
                        reason: concat3("missing GQL parameter `", name.as_str(), "`"),
                    },
                ),
            },
            ValueExpr::List(scalars) => Ok(Some(json_of_scalars(scalars))),
        }
    }

    /// Whether a row satisfies a predicate.
    pub fn eval_predicate(&self, predicate: &Predicate, row: &GqlRow) -> (result: GraphResult<bool>)
        requires
            self.hydrated.wf(),
        ensures
            match predicate_holds(self.sources(), row@, predicate@) {
                Ok(held) => result == Ok::<bool, GraphError>(held),
                Err(error) => result matches Err(given) && given@ == error,
            },
        decreases *predicate,
    {
        match predicate {
            Predicate::And(lhs, rhs) => {
                if self.eval_predicate(lhs, row)? {
                    self.eval_predicate(rhs, row)
                } else {
                    Ok(false)
                }
            },
            Predicate::Or(lhs, rhs) => {
                if self.eval_predicate(lhs, row)? {
                    Ok(true)
                } else {
                    self.eval_predicate(rhs, row)
                }
            },
            Predicate::Not(inner) => {
                let held: bool = self.eval_predicate(inner, row)?;
                Ok(!held)
            },
            Predicate::Compare { lhs, op, rhs } => {
                let left: Option<Json> = self.eval_value(lhs, row)?;
                match rhs {
                    None => compare_values(left, *op, None),
                    Some(rhs) => {
                        let right: Option<Json> = self.eval_value(rhs, row)?;
                        compare_values(left, *op, Some(right))
                    },
                }
            },
        }
    }
}

} // verus!
